use mdbook_fetch::scanner::scan;
use mdbook_fetch::splice::find_and_replace_fetches;

#[test]
fn substitution_is_exact() {
    let text = b"abc {{#fetch abcde}} def";
    let ms = scan(text);
    assert_eq!(ms.len(), 1);
    let bodies: Vec<Vec<u8>> = vec![b"XY".to_vec()];
    let out = find_and_replace_fetches(text, &ms, &bodies);
    assert_eq!(out, b"abc \nXY def".to_vec());
}

#[test]
fn no_match_leaves_text_unchanged() {
    let text = b"plain text with no directive at all";
    let ms = scan(text);
    assert_eq!(ms.len(), 0);
    let out = find_and_replace_fetches(text, &ms, &Vec::new());
    assert_eq!(out, text.to_vec());
}

#[test]
fn fetched_body_is_not_expanded() {
    let text = b"see {{#fetch abcde}} here";
    let ms = scan(text);
    assert_eq!(ms.len(), 1);
    let bodies: Vec<Vec<u8>> = vec![b"{{#fetch fghij}}".to_vec()];
    let out = find_and_replace_fetches(text, &ms, &bodies);
    assert_eq!(out, b"see \n{{#fetch fghij}} here".to_vec());
}

#[test]
fn two_bodies_spliced_left_to_right() {
    let text = b"a {{#fetch abcde}} b {{#fetch fghij}} c";
    let ms = scan(text);
    assert_eq!(ms.len(), 2);
    let bodies: Vec<Vec<u8>> = vec![b"ONE".to_vec(), b"TWO".to_vec()];
    let out = find_and_replace_fetches(text, &ms, &bodies);
    assert_eq!(out, b"a \nONE b \nTWO c".to_vec());
}
