use fabric_indexer::crawler::FabricLink;
use fabric_indexer::error::CrawlError;
use fabric_indexer::text::comes_before;
use fabric_indexer::text::same_text;
use fabric_indexer::text::split_path;

fn pieces(path: &str) -> Vec<String> {
    split_path(path)
}

#[test]
fn split_three_components() {
    assert_eq!(pieces("a.b.c"), vec!["a", "b", "c"]);
}

#[test]
fn split_without_dot_is_one_component() {
    assert_eq!(pieces("title"), vec!["title"]);
}

#[test]
fn split_empty_path_is_one_empty_component() {
    assert_eq!(pieces(""), vec![""]);
}

#[test]
fn split_trailing_dot_gives_empty_last_component() {
    assert_eq!(pieces("a."), vec!["a", ""]);
}

#[test]
fn split_leading_and_double_dots() {
    assert_eq!(pieces(".a"), vec!["", "a"]);
    assert_eq!(pieces("a..b"), vec!["a", "", "b"]);
    assert_eq!(pieces("."), vec!["", ""]);
}

#[test]
fn split_keeps_characters_outside_ascii() {
    assert_eq!(pieces("publié.título.*"), vec!["publié", "título", "*"]);
}

#[test]
fn split_agrees_with_std_split() {
    for path in ["", "a", "a.b", "a.b.c.", "..", "x.*.y", "public.asset_metadata.title"] {
        let expected: Vec<String> = path.split('.').map(|s| s.to_string()).collect();
        assert_eq!(pieces(path), expected);
    }
}

#[test]
fn same_text_compares_contents() {
    assert!(same_text("text", "text"));
    assert!(!same_text("text", "string"));
    assert!(!same_text("text", "tex"));
    assert!(same_text("", ""));
}

#[test]
fn comes_before_is_the_order_of_strings() {
    let texts = ["", "*", "A", "Z", "a", "a.b", "aa", "ab", "b", "z", "é", "日本", "😀"];
    for a in texts {
        for b in texts {
            assert_eq!(comes_before(a, b), a < b);
        }
    }
    assert!(comes_before("a", "ab"));
    assert!(!comes_before("ab", "a"));
    assert!(!comes_before("a", "a"));
    assert!(comes_before("Z", "a"));
}

#[test]
fn relative_link_is_placed_under_the_parent() {
    let link = FabricLink::new("./meta/title", "hq__abc");
    assert_eq!(link.link, "/qfab/hq__abc/meta/title");
}

#[test]
fn absolute_link_is_kept() {
    let link = FabricLink::new("/qfab/hq__other/meta/title", "hq__abc");
    assert_eq!(link.link, "/qfab/hq__other/meta/title");
}

#[test]
fn link_edge_cases() {
    assert_eq!(FabricLink::new("./", "h").link, "/qfab/h/");
    assert_eq!(FabricLink::new(".", "h").link, ".");
    assert_eq!(FabricLink::new("", "h").link, "");
    assert_eq!(FabricLink::new("../x", "h").link, "../x");
    assert_eq!(FabricLink::new("./é", "h").link, "/qfab/h/é");
}

#[test]
fn error_messages() {
    assert_eq!(
        CrawlError::Config("indexer.type".to_string()).message(),
        "configuration key missing or malformed: indexer.type"
    );
    assert_eq!(
        CrawlError::UnsupportedFieldType("count".to_string()).message(),
        "unsupported type for field: count"
    );
    assert_eq!(
        CrawlError::HostCall("timeout".to_string()).message(),
        "host call failed: timeout"
    );
    assert_eq!(
        CrawlError::MalformedMetadata("metadata".to_string()).message(),
        "malformed metadata: metadata"
    );
}
