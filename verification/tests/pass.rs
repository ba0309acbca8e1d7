use photoframe::{decide_persist, FileIndex, FileRecord};

fn index(pairs: &[(u64, &str)]) -> FileIndex {
    FileIndex {
        files: pairs
            .iter()
            .map(|(id, name)| FileRecord { file_id: *id, file_name: name.to_string() })
            .collect(),
    }
}

fn pairs_of(idx: &FileIndex) -> Vec<(u64, String)> {
    idx.files.iter().map(|r| (r.file_id, r.file_name.clone())).collect()
}

#[test]
fn scenario_replace_one_file() {
    let existing = index(&[(1, "foo"), (2, "bar"), (3, "baz")]);
    let desired = index(&[(1, "foo"), (2, "bar"), (4, "poop")]);
    let (downloads, deletes) = existing.get_new_file_ids_and_file_names_to_delete(&desired);
    assert_eq!(downloads, vec![4]);
    assert_eq!(deletes, vec!["baz"]);
}

#[test]
fn scenario_first_download_persists_only_after_success() {
    let existing = index(&[]);
    let desired = index(&[(10, "a.jpg")]);
    let (downloads, deletes) = existing.get_new_file_ids_and_file_names_to_delete(&desired);
    assert_eq!(downloads, vec![10]);
    assert!(deletes.is_empty());
    // Nothing is written while the download step has not succeeded.
    assert!(!decide_persist(&downloads, &deletes, false));
    assert!(decide_persist(&downloads, &deletes, true));
}

#[test]
fn scenario_pure_deletion_empties_the_persisted_index() {
    let existing = index(&[(5, "x.jpg")]);
    let desired = index(&[]);
    let (downloads, deletes) = existing.get_new_file_ids_and_file_names_to_delete(&desired);
    assert!(downloads.is_empty());
    assert_eq!(deletes, vec!["x.jpg"]);
    // No download was needed, so the pass persists the desired index...
    assert!(decide_persist(&downloads, &deletes, true));
    // ...and the persisted document then holds the empty index.
    let persisted = desired.to_json();
    let reloaded = FileIndex::load(Some(&persisted)).expect("own document must load");
    assert!(reloaded.files.is_empty());
}

#[test]
fn scenario_failed_download_leaves_the_index_untouched() {
    let existing = index(&[(1, "foo")]);
    let persisted_before = existing.to_json();
    let desired = index(&[(1, "foo"), (2, "bar")]);
    let (downloads, deletes) = existing.get_new_file_ids_and_file_names_to_delete(&desired);
    assert_eq!(downloads, vec![2]);
    // The download step fails: the pass must not persist, so the stored
    // document stays what it was before the pass.
    assert!(!decide_persist(&downloads, &deletes, false));
    let persisted_after = persisted_before.clone();
    let reloaded = FileIndex::load(Some(&persisted_after)).expect("stored document still loads");
    assert_eq!(pairs_of(&reloaded), pairs_of(&existing));
}

#[test]
fn unchanged_indexes_write_nothing() {
    let x = index(&[(1, "foo")]);
    let y = index(&[(1, "foo")]);
    let (downloads, deletes) = x.get_new_file_ids_and_file_names_to_delete(&y);
    assert!(!decide_persist(&downloads, &deletes, true));
    assert!(!decide_persist(&downloads, &deletes, false));
}
