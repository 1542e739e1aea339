use mdbook_fetch::scanner::scan;

#[test]
fn test_regex() {
    let input_str: &str = r#"some text and even more but now
            // Should fail: blank in `// a.`
            {{ #fetch https:// abc.def.g/mypath/to.md }}
            // Should pass {{ #fetch https://abc.def.g/mypath/to.md }}
            // Should pass\n
{{#fetch https://abc.def.ga.b.c/mypath/to.md}}
            // Should pass: `http` is accepted
            {{ #fetch http://this.is.insecure/fails/to.md }}
            // Should pass: {{#fetch https://github.com/rvben/rumdl/blob/main/docs/markdownlint-comparison.md}}

            The source of the following content is at <https://github.com/rust-lang/mdBook/> {{#fetch https://raw.githubusercontent.com/rust-lang/mdBook/7b29f8a7174fa4b7b31536b84ee62e50a786658b/README.md }}

        //"#;
    fn find_markdown_urls(str_file: &str) -> Vec<&str> {
        scan(str_file.as_bytes())
            .iter()
            .map(|m| &str_file[m.start..m.end])
            .collect()
    }

    let result = find_markdown_urls(input_str);
    let last_result = *result.last().unwrap();
    assert_eq!(
        last_result,
        "{{#fetch https://raw.githubusercontent.com/rust-lang/mdBook/7b29f8a7174fa4b7b31536b84ee62e50a786658b/README.md }}"
    );
    assert_eq!(result.len(), 5)
}

#[test]
fn space_inside_locator_is_no_match() {
    let ms = scan(b"{{ #fetch https:// a.b/c.md }}");
    assert_eq!(ms.len(), 0);
}

#[test]
fn locator_spans_are_reported() {
    let text = b"pre {{#fetch https://example.org/a.md}} post";
    let ms = scan(text);
    assert_eq!(ms.len(), 1);
    let m = &ms[0];
    assert_eq!(&text[m.start..m.end], b"{{#fetch https://example.org/a.md}}");
    assert_eq!(&text[m.loc_start..m.loc_end], b"https://example.org/a.md");
}

#[test]
fn locator_length_bounds() {
    assert_eq!(scan(b"{{#fetch abcd}}").len(), 0);
    assert_eq!(scan(b"{{#fetch abcde}}").len(), 1);
    let long_ok = format!("{{{{#fetch {}}}}}", "a".repeat(200));
    assert_eq!(scan(long_ok.as_bytes()).len(), 1);
    let too_long = format!("{{{{#fetch {}}}}}", "a".repeat(201));
    assert_eq!(scan(too_long.as_bytes()).len(), 0);
}

#[test]
fn keyword_needs_following_whitespace() {
    assert_eq!(scan(b"{{#fetchabcde}}").len(), 0);
    assert_eq!(scan(b"{{ #fetch  abcde  }}").len(), 1);
}

#[test]
fn match_at_line_start_and_mid_text() {
    assert_eq!(scan(b"{{#fetch abcde}}").len(), 1);
    assert_eq!(scan(b"x{{#fetch abcde}}").len(), 1);
}

#[test]
fn two_directives_in_one_fragment() {
    let ms = scan(b"{{#fetch abcde}} and {{#fetch fghij}}");
    assert_eq!(ms.len(), 2);
}

#[test]
fn extra_braces_before_directive() {
    let text = b"{{{{#fetch abcde}}";
    let ms = scan(text);
    assert_eq!(ms.len(), 1);
    assert_eq!(&text[ms[0].start..ms[0].end], b"{{#fetch abcde}}");
}

#[test]
fn empty_fragment_has_no_match() {
    assert_eq!(scan(b"").len(), 0);
}

#[test]
fn newline_counts_as_whitespace_inside_directive() {
    assert_eq!(scan(b"{{#fetch\nabcde\n}}").len(), 1);
    assert_eq!(scan(b"{{\t#fetch \r\n abcde \t}}").len(), 1);
    assert_eq!(scan(b"{{#fetch\x0Cabcde\x0B}}").len(), 1);
}

#[test]
fn form_feed_ends_a_locator() {
    assert_eq!(scan(b"{{#fetch abc\x0Cde}}").len(), 0);
    assert_eq!(scan(b"{{#fetch abc\x0Bde}}").len(), 0);
}

#[test]
fn unterminated_directive_is_ignored() {
    assert_eq!(scan(b"{{#fetch abcde").len(), 0);
    assert_eq!(scan(b"{{#fetch abcde}").len(), 0);
}
