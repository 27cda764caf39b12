use iana_gen::fetch::{after_attempt, AttemptStep, catalog_contents, collect_fetches, discover, discover_online, retry_delay, snapshot_url};
use iana_gen::error::Error;
use iana_gen::snapshot::validate_id;

#[test]
fn discovery_deduplicates_and_rejects_external_or_unsafe_links() {
    let groups = discover(
        r#"<a href="/assignments/tls-parameters/#one"></a>
            <a href='https://www.iana.org/assignments/sdp-parameters/sdp-parameters.xhtml'></a>
            <a href="/assignments/tls-parameters/#two"></a>
            <a href="https://evil.test/assignments/evil/"></a>
            <a href="/assignments/../secret"></a>"#,
    );
    assert_eq!(groups, ["sdp-parameters", "tls-parameters"]);
    assert!(validate_id("../secret").is_err());
}

#[test]
fn discovery_needs_quotes_and_stops_at_query_or_fragment() {
    let groups = discover("href=/assignments/bare/ href=\"/assignments/q?x\" href='/assignments/h#y' href=\"/assignments/\"");
    assert_eq!(groups, ["h", "q"]);
    assert!(discover("").is_empty());
}

#[test]
fn an_index_without_groups_is_an_error() {
    assert!(matches!(discover_online("<html></html>"), Err(Error::NoGroupsDiscovered)));
    assert_eq!(discover_online("<a href='/assignments/x'>").unwrap(), ["x"]);
}

#[test]
fn snapshot_urls_and_retries() {
    assert_eq!(snapshot_url("tls-parameters"), "https://www.iana.org/assignments/tls-parameters/tls-parameters.xml");
    assert_eq!(retry_delay(0), Some(2));
    assert_eq!(retry_delay(4), Some(32));
    assert_eq!(retry_delay(5), None);
}

#[test]
fn fetched_catalog_is_sorted_and_failures_are_reported_sorted() {
    let ok = collect_fetches(vec![
        Ok(("smtp".to_owned(), "smtp".to_owned())),
        Ok(("mail-parameters".to_owned(), "smtp".to_owned())),
    ])
    .unwrap();
    assert_eq!(ok, vec![("mail-parameters".to_owned(), "smtp".to_owned()), ("smtp".to_owned(), "smtp".to_owned())]);
    let contents = catalog_contents(&ok);
    assert!(contents.ends_with("# Discovered IANA group ID\tCanonical XML group ID\nmail-parameters\tsmtp\nsmtp\tsmtp\n"));
    let err = collect_fetches(vec![
        Err("z failed".to_owned()),
        Ok(("a".to_owned(), "a".to_owned())),
        Err("b failed".to_owned()),
    ])
    .unwrap_err();
    match &err {
        Error::DownloadsFailed(ms) => assert_eq!(ms, &["b failed", "z failed"]),
        other => panic!("unexpected {other:?}"),
    }
    assert_eq!(err.message(), "2 snapshot downloads failed:\nb failed\nz failed");
}

#[test]
fn the_written_catalog_passes_validation() {
    let fetched = collect_fetches(vec![
        Ok(("smtp".to_owned(), "smtp".to_owned())),
        Ok(("mail-parameters".to_owned(), "smtp".to_owned())),
    ])
    .unwrap();
    let contents = catalog_contents(&fetched);
    assert!(iana_gen::snapshot::validate_catalog(&contents, &["smtp".to_owned()]).is_ok());
    assert!(matches!(
        iana_gen::snapshot::validate_catalog(&contents, &["other".to_owned()]),
        Err(Error::MissingSnapshot(_, _))
    ));
}

#[test]
fn attempts_end_retry_or_fail() {
    assert!(matches!(after_attempt(0, Ok("body".to_owned())), AttemptStep::Done(b) if b == "body"));
    assert!(matches!(after_attempt(2, Err("down".to_owned())), AttemptStep::Retry(8, m) if m == "down"));
    assert!(matches!(after_attempt(5, Err("down".to_owned())), AttemptStep::Fail(m) if m == "down"));
}
