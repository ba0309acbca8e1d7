use photoframe::{FileIndex, FileRecord, ParseError};

fn index(pairs: &[(u64, &str)]) -> FileIndex {
    FileIndex {
        files: pairs
            .iter()
            .map(|(id, name)| FileRecord { file_id: *id, file_name: name.to_string() })
            .collect(),
    }
}

fn pairs_of(idx: &FileIndex) -> Vec<(u64, String)> {
    idx.files.iter().map(|r| (r.file_id, r.file_name.clone())).collect()
}

#[test]
fn to_json_writes_the_exact_document() {
    let idx = index(&[(1, "foo")]);
    assert_eq!(idx.to_json(), "{\"files\":[{\"file_id\":1,\"file_name\":\"foo\"}]}");
}

#[test]
fn to_json_of_empty_index() {
    let idx = index(&[]);
    assert_eq!(idx.to_json(), "{\"files\":[]}");
}

#[test]
fn to_json_escapes_quotes_and_backslashes() {
    let idx = index(&[(7, "a\"b\\c")]);
    assert_eq!(
        idx.to_json(),
        "{\"files\":[{\"file_id\":7,\"file_name\":\"a\\\"b\\\\c\"}]}"
    );
}

#[test]
fn round_trip_keeps_every_record() {
    let idx = index(&[
        (1, "foo.jpg"),
        (18446744073709551615, "largest id"),
        (0, ""),
        (3, "quote \" backslash \\ comma , brace } bracket ]"),
        (4, "unicode \u{00e9}\u{2603}"),
    ]);
    let text = idx.to_json();
    let back = FileIndex::from_json(&text).expect("own document must load");
    assert_eq!(pairs_of(&idx), pairs_of(&back));
}

#[test]
fn round_trip_of_empty_index() {
    let idx = index(&[]);
    let back = FileIndex::from_json(&idx.to_json()).expect("own document must load");
    assert!(back.files.is_empty());
}

#[test]
fn load_of_missing_file_is_the_empty_index() {
    let loaded = FileIndex::load(None).expect("a missing file is the first-run condition");
    assert!(loaded.files.is_empty());
}

#[test]
fn load_of_present_file_parses_it() {
    let text = "{\"files\":[{\"file_id\":5,\"file_name\":\"x.jpg\"}]}";
    let loaded = FileIndex::load(Some(text)).expect("a conforming document must load");
    assert_eq!(pairs_of(&loaded), vec![(5, "x.jpg".to_string())]);
}

#[test]
fn malformed_documents_are_a_distinguishable_error() {
    let bad = [
        "",
        "garbage",
        "{}",
        "{\"files\":}",
        "{\"files\":[",
        "{\"files\":[]",
        "{\"files\":[]} ",
        " {\"files\":[]}",
        "{\"files\":[{\"file_id\":,\"file_name\":\"a\"}]}",
        "{\"files\":[{\"file_id\":1,\"file_name\":\"a\"}",
        "{\"files\":[{\"file_id\":1,\"file_name\":\"a\"},]}",
        "{\"files\":[{\"file_id\":1,\"file_name\":\"a\"}]}]",
        "{\"files\":[{\"file_id\":1,\"file_name\":\"a\\x\"}]}",
        "{\"files\":[{\"file_id\":18446744073709551616,\"file_name\":\"a\"}]}",
    ];
    for text in bad {
        match FileIndex::load(Some(text)) {
            Err(ParseError::Malformed) => {}
            other => panic!("{:?} must be malformed, got {:?}", text, other.is_ok()),
        }
    }
}

#[test]
fn duplicate_ids_are_corruption_not_malformed_text() {
    let text = "{\"files\":[{\"file_id\":1,\"file_name\":\"a\"},{\"file_id\":1,\"file_name\":\"b\"}]}";
    match FileIndex::load(Some(text)) {
        Err(ParseError::DuplicateId) => {}
        other => panic!("duplicate ids must be refused, got {:?}", other.is_ok()),
    }
}

#[test]
fn largest_id_parses_and_one_past_it_does_not() {
    let max = "{\"files\":[{\"file_id\":18446744073709551615,\"file_name\":\"m\"}]}";
    let loaded = FileIndex::from_json(max).expect("the largest id fits");
    assert_eq!(loaded.files[0].file_id, u64::MAX);
    let over = "{\"files\":[{\"file_id\":18446744073709551616,\"file_name\":\"m\"}]}";
    assert!(FileIndex::from_json(over).is_err());
}
