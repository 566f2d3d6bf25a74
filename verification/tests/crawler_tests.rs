use fabric_indexer::crawler::extract_body;
use fabric_indexer::crawler::number_in_reply;
use fabric_indexer::crawler::root_version;
use fabric_indexer::crawler::Crawler;
use fabric_indexer::crawler::HostRequest;
use fabric_indexer::crawler::Step;
use fabric_indexer::error::CrawlError;
use fabric_indexer::indexer::FabricConfig;
use fabric_indexer::indexer::FieldConfig;
use fabric_indexer::indexer::IndexerConfig;
use fabric_indexer::indexer::RootConfig;
use serde_json::Value;

const EXAMPLE_CONFIG: &str = r#"{
    "indexer": { "type": "metadata-text", "arguments": { "document": {}, "fields": {
        "title": { "type": "text", "options": null, "paths": ["title"] },
        "desc": { "type": "text", "options": null, "paths": ["props.description"] } } } },
    "fabric": { "policy": null, "root": { "content": "iq__root", "library": "ilib_root" } } }"#;

const VERSIONS: &str = r#"{"id":"iq__root","versions":[
    {"id":"iq__root","hash":"hq__newest","type":"","qlib_id":"ilib_root"},
    {"id":"iq__root","hash":"hq__older","type":"","qlib_id":"ilib_root"}]}"#;

fn reply_value(text: &str) -> Value {
    serde_json::from_str(text).expect("Could not read json value.")
}

fn ok(text: &str) -> Result<Vec<u8>, String> {
    Ok(text.as_bytes().to_vec())
}

fn call(step: Step) -> HostRequest {
    match step {
        Step::Call(request) => request,
        other => panic!("expected a request, found {:?}", other),
    }
}

fn failure(step: Step) -> CrawlError {
    match step {
        Step::Failed(e) => e,
        other => panic!("expected a failure, found {:?}", other),
    }
}

fn add_text(doc: u64, field: &str, value: &str) -> HostRequest {
    HostRequest::DocumentAddText { doc, field: field.to_string(), value: value.to_string() }
}

fn add_field(name: &str) -> HostRequest {
    HostRequest::BuilderAddTextField { name: name.to_string(), text_option: 1, stored: true }
}

fn crawler_of(fields: Vec<(&str, &str, &str)>) -> Crawler {
    let fields = fields
        .into_iter()
        .map(|(name, field_type, path)| FieldConfig {
            name: name.to_string(),
            field_type: field_type.to_string(),
            options: None,
            paths: vec![path.to_string()],
        })
        .collect();
    Crawler::new(
        IndexerConfig { indexer_type: "metadata-text".to_string(), document: None, fields },
        FabricConfig {
            policy: None,
            root: RootConfig { content: "iq__root".to_string(), library: "ilib_root".to_string() },
        },
    )
}

/// Drives a crawl of one field `title` up to the request for the object's metadata.
fn crawl_up_to_metadata() -> Crawler {
    let mut crawler = crawler_of(vec![("title", "text", "title")]);
    call(crawler.start());
    call(crawler.resume(ok("{}")));
    call(crawler.resume(ok(r#"{"http":{"body":{"field":0}}}"#)));
    call(crawler.resume(ok("{}")));
    call(crawler.resume(ok(VERSIONS)));
    assert_eq!(
        call(crawler.resume(ok("{}"))),
        HostRequest::GetMetadata { library: "ilib_root".to_string(), hash: "hq__newest".to_string() }
    );
    crawler
}

#[test]
fn body_stands_under_result_http_or_under_http() {
    let full = reply_value(r#"{"jpc":"1.0","id":"r1","result":{"http":{"status":200,"body":{"field":3}}}}"#);
    assert_eq!(extract_body(&full), Some(&reply_value(r#"{"field":3}"#)));
    let short = reply_value(r#"{"http":{"body":"SUCCESS"}}"#);
    assert_eq!(extract_body(&short), Some(&reply_value(r#""SUCCESS""#)));
}

#[test]
fn reply_without_body_has_none() {
    for text in [
        r#"{}"#,
        r#"[]"#,
        r#""body""#,
        r#"{"body":1}"#,
        r#"{"http":{}}"#,
        r#"{"http":"body"}"#,
        r#"{"result":{}}"#,
        r#"{"result":{"http":{}}}"#,
        r#"{"result":{"body":1},"http":{"body":2}}"#,
    ] {
        assert_eq!(extract_body(&reply_value(text)), None);
    }
}

#[test]
fn number_is_read_from_the_body() {
    let v = reply_value(r#"{"result":{"http":{"body":{"document-create-id":17,"field":"x"}}}}"#);
    assert_eq!(number_in_reply(&v, "document-create-id"), Some(17));
    assert_eq!(number_in_reply(&v, "field"), None);
    assert_eq!(number_in_reply(&v, "other"), None);
    assert_eq!(number_in_reply(&reply_value(r#"{"http":{"body":{"field":-1}}}"#), "field"), None);
    assert_eq!(number_in_reply(&reply_value(r#"{"http":{"body":{"field":1.5}}}"#), "field"), None);
    assert_eq!(
        number_in_reply(&reply_value(r#"{"http":{"body":{"field":18446744073709551615}}}"#), "field"),
        Some(u64::MAX)
    );
    assert_eq!(number_in_reply(&reply_value(r#"{"field":1}"#), "field"), None);
}

#[test]
fn root_version_is_the_first_listed() {
    assert_eq!(root_version(&reply_value(VERSIONS)), Some("hq__newest".to_string()));
    assert_eq!(root_version(&reply_value(r#"{"versions":[{"hash":"h"}]}"#)), Some("h".to_string()));
}

#[test]
fn root_version_of_a_reply_without_one_is_none() {
    for text in [
        r#"{}"#,
        r#"{"versions":[]}"#,
        r#"{"versions":{"hash":"h"}}"#,
        r#"{"versions":[{"id":"x"}]}"#,
        r#"{"versions":[{"hash":1},{"hash":"h"}]}"#,
        r#"{"versions":["h"]}"#,
    ] {
        assert_eq!(root_version(&reply_value(text)), None);
    }
}

#[test]
fn end_to_end_example() {
    let mut crawler = Crawler::from_config(EXAMPLE_CONFIG.as_bytes()).expect("the configuration was refused");
    assert!(!crawler.is_waiting());
    assert_eq!(
        call(crawler.start()),
        HostRequest::NewIndexBuilder { directory: "index".to_string() }
    );
    assert!(crawler.is_waiting());
    assert_eq!(call(crawler.resume(ok(r#"{"result":"ok"}"#))), add_field("desc"));
    assert_eq!(
        call(crawler.resume(ok(r#"{"result":{"http":{"body":{"field":0}}}}"#))),
        add_field("title")
    );
    assert_eq!(
        call(crawler.resume(ok(r#"{"result":{"http":{"body":{"field":1}}}}"#))),
        HostRequest::BuilderBuild
    );
    assert_eq!(
        call(crawler.resume(ok("{}"))),
        HostRequest::GetVersions { content: "iq__root".to_string() }
    );
    assert_eq!(call(crawler.resume(ok(VERSIONS))), HostRequest::CreateWriter);
    assert_eq!(
        call(crawler.resume(ok("{}"))),
        HostRequest::GetMetadata { library: "ilib_root".to_string(), hash: "hq__newest".to_string() }
    );
    assert_eq!(
        call(crawler.resume(ok(r#"{"title":"A","props":{"description":"B"}}"#))),
        HostRequest::CreateDocument
    );
    // One document is made. Its title is "A". The field `desc` is looked up under
    // its own name in `props`, which holds `description` only, so it stays empty.
    assert_eq!(
        call(crawler.resume(ok(r#"{"result":{"http":{"body":{"document-create-id":12}}}}"#))),
        add_text(12, "title", "A")
    );
    assert_eq!(call(crawler.resume(ok("{}"))), HostRequest::CommitWriter);
    assert_eq!(
        call(crawler.resume(ok("{}"))),
        HostRequest::ArchiveIndex { directory: "index".to_string() }
    );
    assert_eq!(
        crawler.resume(ok(r#"{"result":{"http":{"body":{"part":"hqp_index"}}}}"#)),
        Step::Done(Some(reply_value(r#"{"part":"hqp_index"}"#)))
    );
    assert!(!crawler.is_waiting());
}

#[test]
fn end_to_end_example_with_the_field_under_its_name() {
    let mut crawler = Crawler::from_config(EXAMPLE_CONFIG.as_bytes()).expect("the configuration was refused");
    call(crawler.start());
    call(crawler.resume(ok("{}")));
    call(crawler.resume(ok(r#"{"http":{"body":{"field":0}}}"#)));
    call(crawler.resume(ok(r#"{"http":{"body":{"field":1}}}"#)));
    call(crawler.resume(ok("{}")));
    call(crawler.resume(ok(VERSIONS)));
    call(crawler.resume(ok("{}")));
    assert_eq!(
        call(crawler.resume(ok(r#"{"title":"A","props":{"desc":"B"}}"#))),
        HostRequest::CreateDocument
    );
    assert_eq!(
        call(crawler.resume(ok(r#"{"http":{"body":{"document-create-id":0}}}"#))),
        add_text(0, "title", "A")
    );
    assert_eq!(call(crawler.resume(ok("{}"))), add_text(0, "desc", "B"));
    assert_eq!(call(crawler.resume(ok("{}"))), HostRequest::CommitWriter);
    assert_eq!(
        call(crawler.resume(ok("{}"))),
        HostRequest::ArchiveIndex { directory: "index".to_string() }
    );
    assert!(matches!(crawler.resume(ok("{}")), Step::Done(None)));
}

#[test]
fn crawl_without_fields_makes_an_empty_document() {
    let mut crawler = crawler_of(Vec::new());
    assert_eq!(
        call(crawler.start()),
        HostRequest::NewIndexBuilder { directory: "index".to_string() }
    );
    assert_eq!(call(crawler.resume(ok("{}"))), HostRequest::BuilderBuild);
    assert_eq!(
        call(crawler.resume(ok("{}"))),
        HostRequest::GetVersions { content: "iq__root".to_string() }
    );
    assert_eq!(call(crawler.resume(ok(VERSIONS))), HostRequest::CreateWriter);
    call(crawler.resume(ok("{}")));
    assert_eq!(call(crawler.resume(ok(r#"{"title":"A"}"#))), HostRequest::CreateDocument);
    assert_eq!(
        call(crawler.resume(ok(r#"{"http":{"body":{"document-create-id":1}}}"#))),
        HostRequest::CommitWriter
    );
    call(crawler.resume(ok("{}")));
    assert_eq!(crawler.resume(ok(r#"{"unexpected":true}"#)), Step::Done(None));
}

#[test]
fn unsupported_type_ends_the_crawl_before_any_request() {
    let mut crawler = crawler_of(vec![("title", "text", "title"), ("count", "integer", "count")]);
    assert_eq!(
        crawler.start(),
        Step::Failed(CrawlError::UnsupportedFieldType("count".to_string()))
    );
    assert!(!crawler.is_waiting());
    assert_eq!(
        crawler.resume(ok("{}")),
        Step::Failed(CrawlError::HostCall("no request is outstanding".to_string()))
    );
    assert_eq!(
        crawler.resume(Err("late".to_string())),
        Step::Failed(CrawlError::HostCall("no request is outstanding".to_string()))
    );
}

#[test]
fn unsupported_type_in_the_configuration_document_is_fatal() {
    let config = r#"{
        "indexer": { "type": "metadata-text", "arguments": { "fields": {
            "count": { "type": "integer", "paths": ["count"] } } } },
        "fabric": { "root": { "content": "iq__root", "library": "ilib_root" } } }"#;
    let mut crawler = Crawler::from_config(config.as_bytes()).expect("the configuration was refused");
    assert_eq!(
        crawler.start(),
        Step::Failed(CrawlError::UnsupportedFieldType("count".to_string()))
    );
}

#[test]
fn configuration_that_is_no_json_is_refused() {
    assert_eq!(
        Crawler::from_config(b"{\"indexer\":").err(),
        Some(CrawlError::MalformedMetadata("configuration".to_string()))
    );
    assert_eq!(
        Crawler::from_config(b"").err(),
        Some(CrawlError::MalformedMetadata("configuration".to_string()))
    );
}

#[test]
fn configuration_errors_come_indexer_first() {
    assert_eq!(
        Crawler::from_config(b"{}").err(),
        Some(CrawlError::Config("indexer".to_string()))
    );
    assert_eq!(
        Crawler::from_config(br#"{"indexer":{"type":"t","arguments":{"fields":{}}}}"#).err(),
        Some(CrawlError::Config("fabric".to_string()))
    );
}

#[test]
fn host_failure_ends_the_crawl() {
    let mut crawler = crawler_of(vec![("title", "text", "title")]);
    call(crawler.start());
    assert_eq!(
        crawler.resume(Err("engine unavailable".to_string())),
        Step::Failed(CrawlError::HostCall("engine unavailable".to_string()))
    );
    assert!(!crawler.is_waiting());
    assert_eq!(
        crawler.resume(ok("{}")),
        Step::Failed(CrawlError::HostCall("no request is outstanding".to_string()))
    );
}

#[test]
fn host_failure_during_the_writes_prevents_the_commit() {
    let mut crawler = crawl_up_to_metadata();
    call(crawler.resume(ok(r#"{"title":"A"}"#)));
    assert_eq!(
        call(crawler.resume(ok(r#"{"http":{"body":{"document-create-id":3}}}"#))),
        add_text(3, "title", "A")
    );
    assert_eq!(
        crawler.resume(Err("write refused".to_string())),
        Step::Failed(CrawlError::HostCall("write refused".to_string()))
    );
    assert!(matches!(crawler.resume(ok("{}")), Step::Failed(_)));
}

#[test]
fn reply_without_field_identifier_ends_the_crawl() {
    let mut crawler = crawler_of(vec![("title", "text", "title")]);
    call(crawler.start());
    assert_eq!(call(crawler.resume(ok("{}"))), add_field("title"));
    assert_eq!(
        failure(crawler.resume(ok(r#"{"http":{"body":{}}}"#))),
        CrawlError::HostCall("could not find key field".to_string())
    );
}

#[test]
fn reply_that_is_no_json_ends_the_crawl() {
    let mut crawler = crawler_of(vec![("title", "text", "title")]);
    call(crawler.start());
    call(crawler.resume(ok("not json at all")));
    assert_eq!(
        failure(crawler.resume(ok("not json"))),
        CrawlError::HostCall("could not find key field".to_string())
    );
}

#[test]
fn reply_without_versions_ends_the_crawl() {
    let mut crawler = crawler_of(Vec::new());
    call(crawler.start());
    call(crawler.resume(ok("{}")));
    call(crawler.resume(ok("{}")));
    assert_eq!(
        failure(crawler.resume(ok(r#"{"id":"iq__root","versions":[]}"#))),
        CrawlError::HostCall("could not find a version".to_string())
    );
}

#[test]
fn metadata_that_is_no_json_ends_the_crawl() {
    let mut crawler = crawl_up_to_metadata();
    assert_eq!(
        failure(crawler.resume(ok("{\"title\":"))),
        CrawlError::MalformedMetadata("metadata".to_string())
    );
}

#[test]
fn reply_without_document_identifier_ends_the_crawl() {
    let mut crawler = crawl_up_to_metadata();
    call(crawler.resume(ok(r#"{"title":"A"}"#)));
    assert_eq!(
        failure(crawler.resume(ok(r#"{"http":{"body":{"document-create-id":"seven"}}}"#))),
        CrawlError::HostCall("could not find key document-create-id".to_string())
    );
}

#[test]
fn value_that_is_no_text_ends_the_crawl_before_any_write() {
    let mut crawler = crawl_up_to_metadata();
    call(crawler.resume(ok(r#"{"title":{"en":"A"}}"#)));
    assert_eq!(
        failure(crawler.resume(ok(r#"{"http":{"body":{"document-create-id":7}}}"#))),
        CrawlError::MalformedMetadata("title".to_string())
    );
}

#[test]
fn archive_reply_that_is_no_json_ends_the_crawl() {
    let mut crawler = crawl_up_to_metadata();
    call(crawler.resume(ok(r#"{}"#)));
    assert_eq!(
        call(crawler.resume(ok(r#"{"http":{"body":{"document-create-id":7}}}"#))),
        HostRequest::CommitWriter
    );
    call(crawler.resume(ok("{}")));
    assert_eq!(
        failure(crawler.resume(ok("<html>"))),
        CrawlError::MalformedMetadata("archive".to_string())
    );
}

#[test]
fn start_of_a_crawl_that_has_begun_fails() {
    let mut crawler = crawler_of(Vec::new());
    call(crawler.start());
    assert_eq!(
        crawler.start(),
        Step::Failed(CrawlError::HostCall("the crawl has begun".to_string()))
    );
}

#[test]
fn resume_before_start_fails() {
    let mut crawler = crawler_of(Vec::new());
    assert_eq!(
        crawler.resume(ok("{}")),
        Step::Failed(CrawlError::HostCall("no request is outstanding".to_string()))
    );
}

#[test]
fn resume_after_the_end_fails() {
    let mut crawler = crawler_of(Vec::new());
    call(crawler.start());
    call(crawler.resume(ok("{}")));
    call(crawler.resume(ok("{}")));
    call(crawler.resume(ok(VERSIONS)));
    call(crawler.resume(ok("{}")));
    call(crawler.resume(ok("{}")));
    call(crawler.resume(ok(r#"{"http":{"body":{"document-create-id":1}}}"#)));
    call(crawler.resume(ok("{}")));
    assert!(matches!(crawler.resume(ok("{}")), Step::Done(None)));
    assert_eq!(
        crawler.resume(ok("{}")),
        Step::Failed(CrawlError::HostCall("no request is outstanding".to_string()))
    );
}
