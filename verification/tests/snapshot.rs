use iana_gen::error::Error;
use iana_gen::render::render;
use iana_gen::snapshot::{field, load_groups, parse_snapshot, validate_catalog};

fn fixture(body: &str) -> String {
    format!(
        r#"<registry xmlns="http://www.iana.org/assignments" id="example-parameters"><title>Example</title>{body}</registry>"#
    )
}

#[test]
fn invalid_xml_and_duplicate_ids_fail() {
    assert!(parse_snapshot("<html/>").is_err());
    assert!(parse_snapshot(&fixture("<registry id='x'/><registry id='x'/>")).is_err());
    assert!(parse_snapshot(&fixture("<registry/>")).is_err());
}

#[test]
fn catalog_requires_every_discovered_canonical_snapshot() {
    let catalog = "# header\nmail-parameters\tsmtp\nsmtp\tsmtp\n";
    assert!(validate_catalog(catalog, &["smtp".to_owned()]).is_ok());
    assert!(validate_catalog(catalog, &[]).is_err());
    assert!(validate_catalog("", &[]).is_err());
    assert!(validate_catalog("smtp\tsmtp\nsmtp\tsmtp", &["smtp".to_owned()]).is_err());
    assert!(validate_catalog("../bad\tsmtp", &["smtp".to_owned()]).is_err());
}

#[test]
fn preserves_nested_registries_and_irregular_records() {
    let xml = fixture(
        r#"<registry id="parent"><title>Parent</title><registry id="child"><title>Child</title><record date="2026-01-01"><odd>one <b>two</b> three</odd><odd>four</odd><xref type="rfc" data="rfc123"/></record></registry></registry>"#,
    );
    let group = parse_snapshot(&xml).unwrap();
    assert_eq!(group.registries.len(), 3);
    let child = &group.registries[2];
    assert_eq!(child.parent.as_deref(), Some("parent"));
    assert_eq!(child.records[0][0], ("odd".into(), "one two three".into()));
    assert_eq!(child.records[0][1], ("odd".into(), "four".into()));
    let files = render(&vec![group]);
    let source = files.iter().map(|(_, source)| source.clone()).collect::<String>();
    assert!(source.contains("pub mod example"));
    assert!(source.contains("records:"));
    assert!(!source.contains("xml:"));
    assert!(!source.contains("<registry"));
    assert!(!source.contains("string_registry!"));
}

#[test]
fn snapshot_errors_say_what_is_wrong() {
    assert!(matches!(parse_snapshot("<html/>"), Err(Error::NotRegistryXml)));
    assert!(matches!(parse_snapshot("<a"), Err(Error::Xml(_))));
    assert!(matches!(
        parse_snapshot(r#"<registry xmlns="http://www.iana.org/assignments"/>"#),
        Err(Error::MissingGroupId)
    ));
    assert!(matches!(
        parse_snapshot(r#"<registry xmlns="http://www.iana.org/assignments" id="a b"/>"#),
        Err(Error::InvalidGroupId(_))
    ));
    assert!(matches!(parse_snapshot(&fixture("<registry/>")), Err(Error::MissingRegistryId)));
    match parse_snapshot(&fixture("<registry id='x'/><registry id='x'/>")) {
        Err(Error::DuplicateRegistryId(id)) => assert_eq!(id, "x"),
        other => panic!("unexpected {other:?}"),
    }
    // The root registry's own ID counts too.
    assert!(matches!(
        parse_snapshot(&fixture("<registry id='example-parameters'/>")),
        Err(Error::DuplicateRegistryId(_))
    ));
}

#[test]
fn snapshot_reads_titles_updates_and_records() {
    let xml = r#"<?xml version="1.0"?>
<registry xmlns="http://www.iana.org/assignments" id="tls-parameters">
  <title>  TLS <!-- c --> Parameters </title>
  <updated>2026-01-02</updated>
  <registry id="tls-content-type">
    <title>TLS ContentType</title>
    <record><value>20</value><description>change_cipher_spec</description></record>
    <record><value>21</value><description>alert</description></record>
  </registry>
  <other:registry xmlns:other="urn:x" id="ignored"/>
</registry>"#;
    let group = parse_snapshot(xml).unwrap();
    assert_eq!(group.id, "tls-parameters");
    assert_eq!(group.title, "TLS  Parameters");
    assert_eq!(group.updated, "2026-01-02");
    assert_eq!(group.registries.len(), 2);
    assert_eq!(group.registries[0].parent, None);
    let table = &group.registries[1];
    assert_eq!(table.id, "tls-content-type");
    assert_eq!(table.parent.as_deref(), Some("tls-parameters"));
    assert_eq!(table.title, "TLS ContentType");
    assert!(table.xml.starts_with("<registry id=\"tls-content-type\">"));
    assert!(table.xml.ends_with("</registry>"));
    assert_eq!(table.records.len(), 2);
    assert_eq!(field(&table.records[1], "description"), Some("alert"));
    assert_eq!(field(&table.records[1], "missing"), None);
}

#[test]
fn loading_checks_duplicates_emptiness_and_the_catalog() {
    let a = ("a.xml".to_owned(), fixture(""));
    let b = (
        "b.xml".to_owned(),
        r#"<registry xmlns="http://www.iana.org/assignments" id="b-parameters"/>"#.to_owned(),
    );
    let groups = load_groups(vec![b.clone(), a.clone()], None).unwrap();
    assert_eq!(groups.iter().map(|g| g.id.as_str()).collect::<Vec<_>>(), ["b-parameters", "example-parameters"]);
    assert!(matches!(load_groups(vec![], None), Err(Error::NoSnapshots)));
    assert!(matches!(load_groups(vec![a.clone(), a.clone()], None), Err(Error::DuplicateGroup(_))));
    let bad = ("bad.xml".to_owned(), "<html/>".to_owned());
    let err = load_groups(vec![bad], None).unwrap_err();
    assert_eq!(err.message(), "bad.xml: expected IANA registry XML root");
    let catalog = "x\tb-parameters\n".to_owned();
    assert!(load_groups(vec![b.clone()], Some(catalog)).is_ok());
    let catalog = "x\tmissing\n".to_owned();
    let err = load_groups(vec![b], Some(catalog)).unwrap_err();
    assert_eq!(err.message(), "catalog group x is missing snapshot missing");
}
