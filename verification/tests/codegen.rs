use iana_gen::names::{constant, ident, unique, NameSet};
use iana_gen::render::{sync_plan, Mode, generated_header, render_features, render_group, render_registry, render_registry_info, stale_module};
use iana_gen::snapshot::{Group, Registry};
use iana_gen::values::{number, range, status};
use iana_gen::error::Error;

fn record(fields: &[(&str, &str)]) -> Vec<(String, String)> {
    fields.iter().map(|(k, v)| ((*k).to_owned(), (*v).to_owned())).collect()
}

fn registry(id: &str, title: &str, records: Vec<Vec<(String, String)>>) -> Registry {
    Registry { id: id.to_owned(), title: title.to_owned(), parent: None, xml: String::new(), records }
}

fn group(id: &str, registries: Vec<Registry>) -> Group {
    Group { id: id.to_owned(), title: "T".to_owned(), updated: "2026".to_owned(), registries }
}

#[test]
fn numbers_in_all_written_forms() {
    assert_eq!(number(" 42 "), Some(42));
    assert_eq!(number("+7"), Some(7));
    assert_eq!(number("0x1F"), Some(31));
    assert_eq!(number("0Xff"), Some(255));
    assert_eq!(number("0x"), None);
    assert_eq!(number("-1"), None);
    assert_eq!(number("1,2"), Some(258));
    assert_eq!(number("0x01, 0x02"), Some(258));
    assert_eq!(number("1,256"), None);
    assert_eq!(number("18446744073709551615"), Some(u64::MAX));
    assert_eq!(number("18446744073709551616"), None);
    assert_eq!(number("abc"), None);
}

#[test]
fn ranges_are_ordered_intervals() {
    assert_eq!(range("5"), Some((5, 5)));
    assert_eq!(range("1-10"), Some((1, 10)));
    assert_eq!(range("10-1"), None);
    assert_eq!(range("0x10-1F"), Some((16, 31)));
    assert_eq!(range("0x10-0x1F"), Some((16, 31)));
    assert_eq!(range("0x00,*"), Some((0, 255)));
    assert_eq!(range("0x01,0x00-0xFF"), Some((256, 511)));
    assert_eq!(range("*,0x01"), None);
    assert_eq!(range("0x00-0x01,*"), Some((0, 511)));
    assert_eq!(range("Unassigned"), None);
    for value in ["1", "3-7", "0x00,*", "0x01,0x00-0xFF", "2-2"] {
        let (a, b) = range(value).unwrap();
        assert!(a <= b);
    }
}

#[test]
fn statuses_by_label_prefix() {
    assert_eq!(status("Unassigned"), "Unassigned");
    assert_eq!(status("Reserved for Private Use"), "PrivateUse");
    assert_eq!(status("Reserved for Experimental Use"), "Experimental");
    assert_eq!(status("RESERVED"), "Reserved");
    assert_eq!(status("Private use"), "PrivateUse");
    assert_eq!(status("Experimental"), "Experimental");
    assert_eq!(status("handshake"), "Assigned");
}

#[test]
fn identifiers_from_text() {
    assert_eq!(ident("TLS ContentType", true), "TlsContenttype");
    assert_eq!(ident("TLS ContentType", false), "tls_contenttype");
    assert_eq!(ident("--", true), "value");
    assert_eq!(ident("3com", false), "v3com");
    assert_eq!(ident("3com", true), "V3com");
    assert_eq!(ident("type", false), "type_");
    assert_eq!(ident("Self", true), "Self_");
}

#[test]
fn names_are_made_unique() {
    let mut used = NameSet::new();
    assert_eq!(unique("A".to_owned(), &mut used), "A");
    assert_eq!(unique("A".to_owned(), &mut used), "A2");
    assert_eq!(unique("A".to_owned(), &mut used), "A3");
    assert!(used.insert_str("B"));
    assert!(!used.insert_str("B"));
    assert_eq!(constant("change cipher spec", &mut used), "CHANGE_CIPHER_SPEC");
    assert_eq!(constant("change-cipher-spec", &mut used), "CHANGE_CIPHER_SPEC2");
    assert_eq!(constant("type", &mut used), "TYPE");
}

#[test]
fn registry_info_and_textual_registries() {
    let g = group("example-parameters", vec![]);
    let r = Registry { parent: Some("p\"q".to_owned()), ..registry("x", "Title", vec![]) };
    assert_eq!(
        render_registry_info(&g, &r),
        r#"crate::RegistryInfo { group: "example-parameters", id: "x", title: "Title", parent: Some("p\"q") }"#
    );
    let r = registry("media", "Media Types", vec![record(&[("name", "text")]), record(&[("name", "image")])]);
    let mut out = String::new();
    let mut names = NameSet::new();
    render_registry(&mut out, &g, &r, &mut names);
    assert!(out.starts_with("string_registry!(MediaTypes, crate::RegistryInfo {"));
    assert!(out.contains("\nTEXT = \"text\",\nIMAGE = \"image\",\n]); \n"));
    let mut again = String::new();
    render_registry(&mut again, &g, &r, &mut names);
    assert!(again.starts_with("string_registry!(MediaTypes2,"));
}

#[test]
fn numeric_registries_with_status_ranges() {
    let g = group("tls-parameters", vec![]);
    let r = registry(
        "tls-content-type",
        "TLS ContentType",
        vec![
            record(&[("value", "20"), ("description", "change_cipher_spec")]),
            record(&[("value", "0-19"), ("description", "Unassigned")]),
            record(&[("value", "256"), ("description", "big")]),
        ],
    );
    let mut out = String::new();
    let mut names = NameSet::new();
    render_registry(&mut out, &g, &r, &mut names);
    assert!(out.starts_with("numeric_registry!(TlsContenttype, u16, crate::RegistryInfo {"));
    assert!(out.contains("\nCHANGE_CIPHER_SPEC = 20 => \"change_cipher_spec\",\nBIG = 256 => \"big\",\n], ["));
    assert!(out.ends_with("20 ..= 20 => Assigned,\n0 ..= 19 => Unassigned,\n256 ..= 256 => Assigned,\n]);\n"));
}

#[test]
fn irregular_tables_get_no_type() {
    let g = group("g", vec![]);
    let mut names = NameSet::new();
    for records in [
        vec![],
        vec![record(&[("other", "1")])],
        vec![record(&[("value", "1")]), record(&[("other", "2")])],
        vec![record(&[("value", "")])],
        vec![record(&[("value", "1")]), record(&[("value", "x")])],
        vec![record(&[("value", "x")]), record(&[("value", "-5")])],
        vec![record(&[("value", "x")]), record(&[("value", "0xZZ")])],
    ] {
        let mut out = String::new();
        render_registry(&mut out, &g, &registry("r", "R", records), &mut names);
        assert_eq!(out, "");
    }
    assert!(names.insert_str("R"));
}

#[test]
fn group_modules_start_with_the_header() {
    let g = group("example-parameters", vec![registry("example-parameters", "Example", vec![])]);
    let source = render_group(&g);
    assert!(source.starts_with(generated_header()));
    assert!(source.contains("pub const ID: &str = \"example-parameters\";\npub const UPDATED: &str = \"2026\";\n"));
    assert!(source.contains("pub static REGISTRIES: &[crate::Registry] = &[\ncrate::Registry { info: "));
}

#[test]
fn render_names_modules_and_counts() {
    let files = iana_gen::render::render(&vec![
        group("a-parameters", vec![registry("a", "A", vec![])]),
        group("a", vec![]),
    ]);
    let paths: Vec<&str> = files.iter().map(|(p, _)| p.as_str()).collect();
    assert_eq!(paths, ["src/generated/a.rs", "src/generated/a2.rs", "src/generated.rs"]);
    let main = &files[2].1;
    assert!(main.contains("pub const GROUP_COUNT: usize = 2;\npub const REGISTRY_COUNT: usize = 1;\n"));
    assert!(main.contains("#[cfg(feature = \"a\")]\n#[doc = \"T\"]\npub mod a2;\n"));
    assert!(main.contains("registries: a::REGISTRIES },"));
}

#[test]
fn features_between_markers() {
    let groups = vec![group("a", vec![]), group("b", vec![])];
    let manifest = "[package]\nname = \"x\"\n";
    let once = render_features(manifest, &groups).unwrap();
    assert_eq!(
        once,
        "[package]\nname = \"x\"\n\n[features]\ndefault = []\nmetadata = []\n# BEGIN GENERATED CATALOG FEATURES\n\"a\" = []\n\"b\" = []\n# END GENERATED CATALOG FEATURES\n"
    );
    assert_eq!(render_features(&once, &groups).unwrap(), once);
    assert!(matches!(render_features("[features]\n", &groups), Err(Error::MissingFeatureStart)));
    assert!(matches!(
        render_features("# BEGIN GENERATED CATALOG FEATURES\n", &groups),
        Err(Error::MissingFeatureEnd)
    ));
    assert!(matches!(render_features(manifest, &vec![group("metadata", vec![])]), Err(Error::ReservedFeature(_))));
}

#[test]
fn stale_modules_are_generated_and_unlisted() {
    let files = vec![("src/generated/a.rs".to_owned(), String::new())];
    let generated = format!("{}pub const ID: &str = \"b\";", generated_header());
    assert!(stale_module("src/generated/b.rs", &files, &generated));
    assert!(!stale_module("src/generated/a.rs", &files, &generated));
    assert!(!stale_module("src/generated/c.rs", &files, "// hand written"));
}

#[test]
fn record_fields_of_generated_tables() {
    static FIELDS: [(&str, &str); 3] = [("value", "1"), ("name", "a"), ("name", "b")];
    let record = iana_gen::Record { fields: &FIELDS };
    assert_eq!(record.field("name"), Some("a"));
    assert_eq!(record.field("value"), Some("1"));
    assert_eq!(record.field("other"), None);
}

#[test]
fn constants_avoid_the_type_names_and_each_other() {
    let g = group("example-parameters", vec![]);
    let r = registry(
        "words",
        "Words",
        vec![
            record(&[("value", "all")]),
            record(&[("value", "registry")]),
            record(&[("value", "a")]),
            record(&[("value", "a")]),
        ],
    );
    let mut out = String::new();
    let mut names = NameSet::new();
    render_registry(&mut out, &g, &r, &mut names);
    assert!(out.contains("\nALL2 = \"all\",\nREGISTRY2 = \"registry\",\nA = \"a\",\nA2 = \"a\",\n]); \n"));
}

#[test]
fn generated_files_are_written_or_checked() {
    let files = vec![
        ("src/generated/a.rs".to_owned(), "a".to_owned()),
        ("src/generated/b.rs".to_owned(), "b".to_owned()),
        ("src/generated.rs".to_owned(), "m".to_owned()),
    ];
    let on_disk = vec![Some("a".to_owned()), Some("old".to_owned()), None];
    assert_eq!(sync_plan(&Mode::Write, &files, &on_disk, 1).unwrap(), vec![1, 2]);
    let err = sync_plan(&Mode::Check, &files, &on_disk, 0).unwrap_err();
    assert!(matches!(&err, Error::StaleFile(p) if p == "src/generated/b.rs"));
    assert_eq!(err.message(), "src/generated/b.rs is stale; run cargo run -p xtask -- iana generate");
    let current = vec![Some("a".to_owned()), Some("b".to_owned()), Some("m".to_owned())];
    assert_eq!(sync_plan(&Mode::Check, &files, &current, 0).unwrap(), Vec::<usize>::new());
    let err = sync_plan(&Mode::Check, &files, &current, 2).unwrap_err();
    assert_eq!(err.message(), "obsolete generated modules; run cargo run -p xtask -- iana generate");
    assert!(sync_plan(&Mode::Write, &files, &current, 2).unwrap().is_empty());
}

#[test]
fn keywords_get_an_underscore() {
    assert_eq!(ident("fn", false), "fn_");
    assert_eq!(ident("gen", false), "gen");
    assert_eq!(ident("self", true), "Self_");
}

#[test]
fn numbers_are_one_point_ranges() {
    for value in [" 42 ", "0x1F", "+7", "1,2", " 0x01, 0x02 ", "18446744073709551615"] {
        let n = number(value).unwrap();
        assert_eq!(range(value), Some((n, n)));
    }
}
