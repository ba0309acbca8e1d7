use photoframe::{FileIndex, FileRecord};

fn record(file_id: u64, file_name: &str) -> FileRecord {
    FileRecord { file_id, file_name: file_name.to_string() }
}

fn index(pairs: &[(u64, &str)]) -> FileIndex {
    FileIndex { files: pairs.iter().map(|(id, name)| record(*id, name)).collect() }
}

#[test]
fn test_get_new_file_ids_and_file_names_to_delete() {
    let downloaded_files = FileIndex {
        files: vec![
            FileRecord { file_id: 1, file_name: "foo".to_string() },
            FileRecord { file_id: 2, file_name: "bar".to_string() },
            FileRecord { file_id: 3, file_name: "baz".to_string() },
        ],
    };
    let new_index = FileIndex {
        files: vec![
            FileRecord { file_id: 1, file_name: "foo".to_string() },
            FileRecord { file_id: 2, file_name: "bar".to_string() },
            FileRecord { file_id: 4, file_name: "poop".to_string() },
        ],
    };
    let (file_ids_to_download, file_names_to_delete) =
        downloaded_files.get_new_file_ids_and_file_names_to_delete(&new_index);
    assert_eq!(file_ids_to_download, vec![4]);
    assert_eq!(file_names_to_delete, vec!["baz"]);
}

#[test]
fn diff_of_identical_indexes_is_empty() {
    let x = index(&[(1, "a.jpg"), (2, "b.jpg"), (3, "c.jpg")]);
    let y = index(&[(1, "a.jpg"), (2, "b.jpg"), (3, "c.jpg")]);
    let (downloads, deletes) = x.get_new_file_ids_and_file_names_to_delete(&y);
    assert!(downloads.is_empty());
    assert!(deletes.is_empty());
}

#[test]
fn diff_against_empty_existing_downloads_everything() {
    let existing = index(&[]);
    let desired = index(&[(10, "a.jpg"), (11, "b.jpg")]);
    let (downloads, deletes) = existing.get_new_file_ids_and_file_names_to_delete(&desired);
    assert_eq!(downloads, vec![10, 11]);
    assert!(deletes.is_empty());
}

#[test]
fn diff_against_empty_desired_deletes_everything() {
    let existing = index(&[(5, "x.jpg"), (6, "y.jpg")]);
    let desired = index(&[]);
    let (downloads, deletes) = existing.get_new_file_ids_and_file_names_to_delete(&desired);
    assert!(downloads.is_empty());
    assert_eq!(deletes, vec!["x.jpg", "y.jpg"]);
}

#[test]
fn diff_is_a_set_difference_both_ways() {
    let existing = index(&[(1, "one"), (2, "two"), (3, "three"), (4, "four")]);
    let desired = index(&[(3, "three"), (5, "five"), (1, "one"), (6, "six")]);
    let (downloads, deletes) = existing.get_new_file_ids_and_file_names_to_delete(&desired);
    assert_eq!(downloads, vec![5, 6]);
    assert_eq!(deletes, vec!["two", "four"]);
}

#[test]
fn contains_file_id_finds_only_present_ids() {
    let idx = index(&[(1, "a"), (9, "b")]);
    assert!(idx.contains_file_id(1));
    assert!(idx.contains_file_id(9));
    assert!(!idx.contains_file_id(2));
    assert!(!photoframe::FileIndex::empty().contains_file_id(1));
}

#[test]
fn index_new_refuses_duplicate_ids() {
    let dup = vec![record(1, "a"), record(2, "b"), record(1, "c")];
    assert!(FileIndex::new(dup).is_none());
    let ok = vec![record(1, "a"), record(2, "b")];
    let idx = FileIndex::new(ok).expect("unique ids must be accepted");
    assert_eq!(idx.files.len(), 2);
}
