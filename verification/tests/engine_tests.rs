use mdbook_fetch::engine::{runs_locators, runs_rewrite};

#[test]
fn directive_split_across_adjacent_text_runs_is_found() {
    let runs: Vec<Option<Vec<u8>>> = vec![
        Some(b"{{#fet".to_vec()),
        Some(b"ch https://example.org/a.md}}".to_vec()),
    ];
    let locs = runs_locators(&runs);
    assert_eq!(locs.len(), 1);
    assert_eq!(locs[0], b"https://example.org/a.md".to_vec());
}

#[test]
fn structural_event_separates_text_runs() {
    let runs: Vec<Option<Vec<u8>>> = vec![
        Some(b"{{#fet".to_vec()),
        None,
        Some(b"ch https://example.org/a.md}}".to_vec()),
    ];
    let locs = runs_locators(&runs);
    assert_eq!(locs.len(), 0);
}

#[test]
fn rewrite_assigns_merged_buffer_to_first_run() {
    let runs: Vec<Option<Vec<u8>>> = vec![
        Some(b"{{#fet".to_vec()),
        Some(b"ch https://example.org/a.md}}".to_vec()),
    ];
    let bodies: Vec<Vec<u8>> = vec![b"BODY".to_vec()];
    let texts = runs_rewrite(&runs, &bodies).unwrap();
    assert_eq!(texts.len(), 2);
    assert_eq!(texts[0], b"\nBODY".to_vec());
    assert_eq!(texts[1], b"".to_vec());
}

#[test]
fn rewrite_without_directives_keeps_every_run() {
    let runs: Vec<Option<Vec<u8>>> = vec![
        Some(b"hello ".to_vec()),
        None,
        Some(b"world".to_vec()),
        Some(b" again".to_vec()),
    ];
    let texts = runs_rewrite(&runs, &Vec::new()).unwrap();
    assert_eq!(texts.len(), 3);
    assert_eq!(texts[0], b"hello ".to_vec());
    assert_eq!(texts[1], b"world".to_vec());
    assert_eq!(texts[2], b" again".to_vec());
}

#[test]
fn rewrite_with_wrong_body_count_fails() {
    let runs: Vec<Option<Vec<u8>>> = vec![Some(b"x {{#fetch abcde}} y".to_vec())];
    assert!(runs_rewrite(&runs, &Vec::new()).is_none());
    let two: Vec<Vec<u8>> = vec![b"A".to_vec(), b"B".to_vec()];
    assert!(runs_rewrite(&runs, &two).is_none());
}

#[test]
fn each_occurrence_gets_its_own_body() {
    let runs: Vec<Option<Vec<u8>>> = vec![
        Some(b"a {{#fetch loc.1}} b {{#fetch loc.1}} c".to_vec()),
    ];
    let locs = runs_locators(&runs);
    assert_eq!(locs.len(), 2);
    assert_eq!(locs[0], locs[1]);
    let bodies: Vec<Vec<u8>> = vec![b"ONE".to_vec(), b"TWO".to_vec()];
    let texts = runs_rewrite(&runs, &bodies).unwrap();
    assert_eq!(texts[0], b"a \nONE b \nTWO c".to_vec());
}
