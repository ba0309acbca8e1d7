use vstd::prelude::*;

use crate::index::{contains_id, name_of, unique_ids, FileIndex};

verus! {

/// The identifiers that occur in `desired` but not in `existing`, in the
/// order `desired` lists them.
pub open spec fn download_ids(
    existing: Seq<(u64, Seq<char>)>,
    desired: Seq<(u64, Seq<char>)>,
) -> Seq<u64>
    decreases desired.len(),
{
    if desired.len() == 0 {
        Seq::empty()
    } else {
        let prefix = download_ids(existing, desired.drop_last());
        if contains_id(existing, desired.last().0) {
            prefix
        } else {
            prefix.push(desired.last().0)
        }
    }
}

/// The names of the records of `existing` whose identifier does not occur in
/// `desired`, in the order `existing` lists them.
pub open spec fn delete_names(
    existing: Seq<(u64, Seq<char>)>,
    desired: Seq<(u64, Seq<char>)>,
) -> Seq<Seq<char>>
    decreases existing.len(),
{
    if existing.len() == 0 {
        Seq::empty()
    } else {
        let prefix = delete_names(existing.drop_last(), desired);
        if contains_id(desired, existing.last().0) {
            prefix
        } else {
            prefix.push(existing.last().1)
        }
    }
}

impl FileIndex {
    /// The reconciler. `self` is the existing (persisted) index,
    /// `desired_index` the freshly fetched remote one. Returns the file
    /// identifiers that must be downloaded and the local file names that must
    /// be deleted. Pure: neither index is changed.
    pub fn get_new_file_ids_and_file_names_to_delete(
        &self,
        desired_index: &FileIndex,
    ) -> (r: (Vec<u64>, Vec<String>))
        ensures
            r.0@ == download_ids(self@, desired_index@),
            r.1.deep_view() == delete_names(self@, desired_index@),
    {
        let mut file_ids_to_download: Vec<u64> = Vec::new();
        let mut j: usize = 0;
        while j < desired_index.files.len()
            invariant
                j <= desired_index.files.len(),
                file_ids_to_download@ == download_ids(self@, desired_index@.take(j as int)),
            decreases desired_index.files.len() - j,
        {
            let id = desired_index.files[j].file_id;
            assert(desired_index@[j as int].0 == id);
            if !self.contains_file_id(id) {
                file_ids_to_download.push(id);
            }
            proof {
                let taken = desired_index@.take(j + 1int);
                assert(taken.drop_last() =~= desired_index@.take(j as int));
                assert(taken.last() == desired_index@[j as int]);
            }
            j += 1;
        }
        assert(desired_index@.take(desired_index@.len() as int) =~= desired_index@);

        let mut file_names_to_delete: Vec<String> = Vec::new();
        let mut k: usize = 0;
        while k < self.files.len()
            invariant
                k <= self.files.len(),
                file_names_to_delete.deep_view() == delete_names(
                    self@.take(k as int),
                    desired_index@,
                ),
            decreases self.files.len() - k,
        {
            let id = self.files[k].file_id;
            assert(self@[k as int].0 == id);
            let ghost before = file_names_to_delete.deep_view();
            if !desired_index.contains_file_id(id) {
                let name = self.files[k].file_name.clone();
                assert(name@ == self@[k as int].1);
                file_names_to_delete.push(name);
                assert(file_names_to_delete.deep_view() =~= before.push(self@[k as int].1));
            }
            proof {
                let taken = self@.take(k + 1int);
                assert(taken.drop_last() =~= self@.take(k as int));
                assert(taken.last() == self@[k as int]);
            }
            k += 1;
        }
        assert(self@.take(self@.len() as int) =~= self@);

        (file_ids_to_download, file_names_to_delete)
    }
}

/// Law: the downloads are exactly the set difference. An identifier is listed
/// for download if and only if it occurs in `desired` and not in `existing`.
pub proof fn lemma_download_ids_are_set_difference(
    existing: Seq<(u64, Seq<char>)>,
    desired: Seq<(u64, Seq<char>)>,
)
    ensures
        forall|id: u64|
            download_ids(existing, desired).contains(id) <==> (contains_id(desired, id)
                && !contains_id(existing, id)),
    decreases desired.len(),
{
    if desired.len() == 0 {
    } else {
        lemma_download_ids_are_set_difference(existing, desired.drop_last());
        assert forall|id: u64|
            download_ids(existing, desired).contains(id) <==> (contains_id(desired, id)
                && !contains_id(existing, id)) by {
            let prev = desired.drop_last();
            let last = desired.last();
            let dprev = download_ids(existing, prev);
            let dfull = download_ids(existing, desired);
            assert(forall|i: int| 0 <= i < prev.len() ==> prev[i] == desired[i]);
            assert(desired[desired.len() - 1] == last);
            if !contains_id(existing, last.0) {
                assert(dfull =~= dprev.push(last.0));
            }
            if dfull.contains(id) {
                let w = choose|i: int| 0 <= i < dfull.len() && dfull[i] == id;
                if w < dprev.len() {
                    assert(dprev[w] == id);
                    assert(dprev.contains(id));
                    assert(contains_id(prev, id));
                    let wp = choose|i: int| 0 <= i < prev.len() && prev[i].0 == id;
                    assert(desired[wp].0 == id);
                    assert(contains_id(desired, id));
                } else {
                    assert(id == last.0);
                    assert(desired[desired.len() - 1].0 == id);
                    assert(contains_id(desired, id));
                }
            }
            if contains_id(desired, id) && !contains_id(existing, id) {
                let w = choose|i: int| 0 <= i < desired.len() && desired[i].0 == id;
                if w < prev.len() {
                    assert(prev[w].0 == id);
                    assert(contains_id(prev, id));
                    assert(dprev.contains(id));
                    let wd = choose|i: int| 0 <= i < dprev.len() && dprev[i] == id;
                    assert(dfull[wd] == id);
                    assert(dfull.contains(id));
                } else {
                    assert(id == last.0);
                    assert(dfull[dprev.len() as int] == id);
                    assert(dfull.contains(id));
                }
            }
        }
    }
}

/// Law: the deletions are exactly the names, looked up in `existing`, of the
/// identifiers that occur in `existing` but not in `desired`. Requires the
/// index invariant on `existing`, which makes the lookup unambiguous.
pub proof fn lemma_delete_names_are_lookups(
    existing: Seq<(u64, Seq<char>)>,
    desired: Seq<(u64, Seq<char>)>,
)
    requires
        unique_ids(existing),
    ensures
        forall|n: Seq<char>|
            delete_names(existing, desired).contains(n) <==> exists|id: u64|
                contains_id(existing, id) && !contains_id(desired, id) && name_of(existing, id)
                    == n,
    decreases existing.len(),
{
    if existing.len() == 0 {
    } else {
        let prev = existing.drop_last();
        let last = existing.last();
        assert(unique_ids(prev)) by {
            assert(forall|i: int, j: int|
                0 <= i < j < prev.len() ==> prev[i] == existing[i] && prev[j] == existing[j]);
        }
        lemma_delete_names_are_lookups(prev, desired);
        assert forall|n: Seq<char>|
            delete_names(existing, desired).contains(n) <==> exists|id: u64|
                contains_id(existing, id) && !contains_id(desired, id) && name_of(existing, id)
                    == n by {
            // A lookup in `prev` and in `existing` agree on every identifier
            // of `prev`, and the last identifier occurs only at the end.
            assert forall|id: u64| contains_id(prev, id) implies contains_id(existing, id)
                && name_of(existing, id) == name_of(prev, id) by {
                let w = choose|i: int| 0 <= i < prev.len() && prev[i].0 == id;
                assert(existing[w].0 == id);
                let we = choose|i: int| 0 <= i < existing.len() && existing[i].0 == id;
                let wp = choose|i: int| 0 <= i < prev.len() && prev[i].0 == id;
                assert(existing[wp].0 == id);
                assert(we == wp);
            }
            if delete_names(existing, desired).contains(n) {
                let w = choose|i: int|
                    0 <= i < delete_names(existing, desired).len() && delete_names(
                        existing,
                        desired,
                    )[i] == n;
                if w < delete_names(prev, desired).len() {
                    assert(delete_names(prev, desired).contains(n));
                    let id = choose|id: u64|
                        contains_id(prev, id) && !contains_id(desired, id) && name_of(prev, id)
                            == n;
                    assert(contains_id(existing, id) && !contains_id(desired, id) && name_of(
                        existing,
                        id,
                    ) == n);
                } else {
                    // n is the name of the last record.
                    assert(!contains_id(desired, last.0));
                    assert(existing[existing.len() - 1].0 == last.0);
                    assert(contains_id(existing, last.0));
                    let we = choose|i: int| 0 <= i < existing.len() && existing[i].0 == last.0;
                    assert(we == existing.len() - 1);
                    assert(name_of(existing, last.0) == n);
                }
            }
            if exists|id: u64|
                contains_id(existing, id) && !contains_id(desired, id) && name_of(existing, id)
                    == n {
                let id = choose|id: u64|
                    contains_id(existing, id) && !contains_id(desired, id) && name_of(existing, id)
                        == n;
                let we = choose|i: int| 0 <= i < existing.len() && existing[i].0 == id;
                if we < prev.len() {
                    assert(prev[we].0 == id);
                    assert(contains_id(prev, id));
                    assert(name_of(prev, id) == name_of(existing, id));
                    assert(delete_names(prev, desired).contains(n));
                    let wd = choose|i: int|
                        0 <= i < delete_names(prev, desired).len() && delete_names(
                            prev,
                            desired,
                        )[i] == n;
                    assert(delete_names(existing, desired)[wd] == n);
                } else {
                    assert(id == last.0);
                    assert(!contains_id(desired, last.0));
                    let res = delete_names(existing, desired);
                    assert(res[res.len() - 1] == last.1);
                    assert(name_of(existing, id) == last.1);
                    assert(res.contains(n));
                }
            }
        }
    }
}

/// Law: reconciling an index against itself finds nothing to download and
/// nothing to delete, whatever the index holds.
pub proof fn lemma_diff_self_is_empty(x: Seq<(u64, Seq<char>)>)
    ensures
        download_ids(x, x) == Seq::<u64>::empty(),
        delete_names(x, x) == Seq::<Seq<char>>::empty(),
{
    assert forall|i: int| 0 <= i < x.len() implies contains_id(x, #[trigger] x[i].0) by {
        assert(0 <= i < x.len() && x[i].0 == x[i].0);
    }
    lemma_download_ids_all_present(x, x);
    lemma_delete_names_all_present(x, x);
}

/// Every identifier of `desired` that already occurs in `existing`
/// contributes no download.
proof fn lemma_download_ids_all_present(
    existing: Seq<(u64, Seq<char>)>,
    desired: Seq<(u64, Seq<char>)>,
)
    requires
        forall|i: int| 0 <= i < desired.len() ==> contains_id(existing, #[trigger] desired[i].0),
    ensures
        download_ids(existing, desired) == Seq::<u64>::empty(),
    decreases desired.len(),
{
    if desired.len() == 0 {
        assert(download_ids(existing, desired) =~= Seq::<u64>::empty());
    } else {
        let prev = desired.drop_last();
        assert(forall|i: int| 0 <= i < prev.len() ==> prev[i] == desired[i]);
        lemma_download_ids_all_present(existing, prev);
        assert(desired[desired.len() - 1] == desired.last());
        assert(contains_id(existing, desired.last().0));
    }
}

/// Every identifier of `existing` that still occurs in `desired` contributes
/// no deletion.
proof fn lemma_delete_names_all_present(
    existing: Seq<(u64, Seq<char>)>,
    desired: Seq<(u64, Seq<char>)>,
)
    requires
        forall|i: int| 0 <= i < existing.len() ==> contains_id(desired, #[trigger] existing[i].0),
    ensures
        delete_names(existing, desired) == Seq::<Seq<char>>::empty(),
    decreases existing.len(),
{
    if existing.len() == 0 {
        assert(delete_names(existing, desired) =~= Seq::<Seq<char>>::empty());
    } else {
        let prev = existing.drop_last();
        assert(forall|i: int| 0 <= i < prev.len() ==> prev[i] == existing[i]);
        lemma_delete_names_all_present(prev, desired);
        assert(existing[existing.len() - 1] == existing.last());
        assert(contains_id(desired, existing.last().0));
    }
}

} // verus!
