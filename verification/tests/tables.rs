use iana_gen::tables::{NumericTable, StringTable};
use iana_gen::{RegistryInfo, Status};

const INFO: RegistryInfo = RegistryInfo {
    group: "tls-parameters",
    id: "tls-parameters-5",
    title: "TLS ContentType",
    parent: None,
};

static NAMED: [(u64, &str); 5] = [
    (20, "change_cipher_spec"),
    (21, "alert"),
    (22, "handshake"),
    (23, "application_data"),
    (24, "heartbeat"),
];

static RANGES: [(u64, u64, Status); 5] = [
    (0, 19, Status::Unassigned),
    (20, 24, Status::Assigned),
    (25, 223, Status::Unassigned),
    (224, 255, Status::Reserved),
    (20, 30, Status::Experimental),
];

fn content_types() -> NumericTable {
    NumericTable { info: INFO, named: &NAMED, ranges: &RANGES }
}

#[test]
fn numeric_values_have_names_and_statuses() {
    let table = content_types();
    assert_eq!(table.name(22), Some("handshake"));
    assert_eq!(table.name(23), Some("application_data"));
    assert_eq!(table.name(25), None);
    assert!(table.is_registered(21));
    assert!(!table.is_registered(19));
    assert_eq!(table.status(24), Status::Assigned);
    assert_eq!(table.status(0), Status::Unassigned);
    assert_eq!(table.status(25), Status::Unassigned);
    assert_eq!(table.status(230), Status::Reserved);
    assert_eq!(table.status(256), Status::Unknown);
    assert_eq!(table.info.title, "TLS ContentType");
}

#[test]
fn every_listed_value_is_assigned() {
    let table = content_types();
    for (value, label) in NAMED {
        assert_eq!(table.name(value), Some(label));
        assert_eq!(table.status(value), Status::Assigned);
    }
}

static TOKENS: [&str; 2] = ["text", "image"];

#[test]
fn textual_values_are_registered_when_listed() {
    let table = StringTable { info: INFO, values: &TOKENS };
    assert!(table.is_registered("image"));
    assert!(!table.is_registered("audio"));
    assert!(!table.is_registered(""));
}
