use mdbook_fetch::content::{content_locators, rewrite_content, RewriteError};
use mdbook_fetch::Fetch;

#[test]
fn end_to_end_substitution() {
    let content =
        "hello world {{#fetch https://raw.githubusercontent.com/rust-lang/mdBook/master/README.md}}";
    let locators = content_locators(content);
    assert_eq!(locators.len(), 1);
    assert_eq!(
        locators[0],
        b"https://raw.githubusercontent.com/rust-lang/mdBook/master/README.md".to_vec()
    );
    let bodies: Vec<Vec<u8>> =
        vec![b"mdBook is a utility to create modern online books from Markdown files.".to_vec()];
    let out = rewrite_content(content, &bodies).unwrap();
    assert!(out.contains("hello world"));
    assert!(out.contains("is a utility to create modern online books from Markdown files."));
}

#[test]
fn no_directive_means_no_locators_and_text_survives() {
    let content = "# Title\n\nhello world, nothing to fetch here.\n";
    let locators = content_locators(content);
    assert_eq!(locators.len(), 0);
    let out = rewrite_content(content, &Vec::new()).unwrap();
    assert!(out.contains("hello world, nothing to fetch here."));
}

#[test]
fn invalid_locator_stays_literal() {
    let content = "a {{ #fetch https:// a.b/c.md }} b";
    let locators = content_locators(content);
    assert_eq!(locators.len(), 0);
    let out = rewrite_content(content, &Vec::new()).unwrap();
    assert!(out.contains("a.b/c.md"));
}

#[test]
fn fetched_body_is_spliced_verbatim() {
    let content = "before {{#fetch https://example.org/x.md}} after";
    let bodies: Vec<Vec<u8>> = vec![b"inner {{#fetch https://example.org/y.md}} text".to_vec()];
    let out = rewrite_content(content, &bodies).unwrap();
    assert!(out.contains("example.org/y.md"));
    assert!(out.contains("before"));
    assert!(out.contains("after"));
}

#[test]
fn body_count_mismatch_is_rejected() {
    let content = "x {{#fetch https://example.org/a.md}} y";
    assert_eq!(
        rewrite_content(content, &Vec::new()),
        Err(RewriteError::BodyCountMismatch)
    );
}

#[test]
fn undecodable_body_is_a_serialize_failure() {
    let content = "x {{#fetch https://example.org/a.md}} y";
    let bodies: Vec<Vec<u8>> = vec![vec![0xFF, 0xFE]];
    assert_eq!(
        rewrite_content(content, &bodies),
        Err(RewriteError::SerializeFailure)
    );
}

#[test]
fn preprocessor_name() {
    assert_eq!(Fetch.name(), "fetch");
}

#[test]
fn supported_renderers() {
    assert!(Fetch.supports_renderer("html"));
    assert!(Fetch.supports_renderer("md"));
    assert!(!Fetch.supports_renderer("hsxl"));
    assert!(!Fetch.supports_renderer("latex"));
    assert!(!Fetch.supports_renderer(""));
}

#[test]
fn disable_switch() {
    assert!(Fetch.should_run(None));
    assert!(Fetch.should_run(Some(false)));
    assert!(!Fetch.should_run(Some(true)));
}
