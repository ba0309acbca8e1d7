use vstd::prelude::*;

verus! {

/// One remote file: its durable identifier and the name it is stored under
/// locally. Immutable once observed.
#[derive(Debug)]
pub struct FileRecord {
    pub file_id: u64,
    pub file_name: String,
}

/// The set of files either present in the remote folder (freshly fetched) or
/// believed to be present in the local directory (loaded from the persisted
/// index). Invariant: `file_id` is unique within the collection.
#[derive(Debug)]
pub struct FileIndex {
    pub files: Vec<FileRecord>,
}

impl View for FileRecord {
    type V = (u64, Seq<char>);

    open spec fn view(&self) -> (u64, Seq<char>) {
        (self.file_id, self.file_name@)
    }
}

/// The mathematical contents of a record collection: identifier and name of
/// each record, in order.
pub open spec fn model_of(files: Seq<FileRecord>) -> Seq<(u64, Seq<char>)> {
    files.map_values(|r: FileRecord| r@)
}

impl View for FileIndex {
    type V = Seq<(u64, Seq<char>)>;

    open spec fn view(&self) -> Seq<(u64, Seq<char>)> {
        model_of(self.files@)
    }
}

/// No file identifier occurs twice.
pub open spec fn unique_ids(m: Seq<(u64, Seq<char>)>) -> bool {
    forall|i: int, j: int| 0 <= i < j < m.len() ==> m[i].0 != m[j].0
}

/// Some record of `m` carries the identifier `id`.
pub open spec fn contains_id(m: Seq<(u64, Seq<char>)>, id: u64) -> bool {
    exists|i: int| 0 <= i < m.len() && m[i].0 == id
}

/// The name recorded for `id`; meaningful only when `contains_id(m, id)`
/// holds and the identifiers of `m` are unique.
pub open spec fn name_of(m: Seq<(u64, Seq<char>)>, id: u64) -> Seq<char> {
    let i = choose|i: int| 0 <= i < m.len() && m[i].0 == id;
    m[i].1
}

impl FileIndex {
    /// The index invariant: file identifiers are unique.
    pub open spec fn wf(&self) -> bool {
        unique_ids(self@)
    }

    /// An index holding no files at all.
    pub fn empty() -> (r: FileIndex)
        ensures
            r@ == Seq::<(u64, Seq<char>)>::empty(),
            r.wf(),
    {
        let r = FileIndex { files: Vec::new() };
        proof {
            assert(r@ =~= Seq::<(u64, Seq<char>)>::empty());
        }
        r
    }

    /// Builds an index out of the given records, refusing a collection in
    /// which some file identifier occurs twice.
    pub fn new(files: Vec<FileRecord>) -> (r: Option<FileIndex>)
        ensures
            match r {
                Some(idx) => idx@ == model_of(files@) && idx.wf(),
                None => !unique_ids(model_of(files@)),
            },
    {
        let idx = FileIndex { files };
        let mut i: usize = 0;
        while i < idx.files.len()
            invariant
                i <= idx.files.len(),
                idx@ == model_of(files@),
                forall|p: int, q: int| 0 <= p < q < idx@.len() && p < i ==> idx@[p].0 != idx@[q].0,
            decreases idx.files.len() - i,
        {
            let mut j: usize = i + 1;
            while j < idx.files.len()
                invariant
                    i < j <= idx.files.len(),
                    i < idx.files.len(),
                    idx@ == model_of(files@),
                    forall|q: int| i < q < j ==> idx@[i as int].0 != idx@[q].0,
                decreases idx.files.len() - j,
            {
                if idx.files[i].file_id == idx.files[j].file_id {
                    assert(idx@[i as int].0 == idx@[j as int].0);
                    return None;
                }
                j += 1;
            }
            i += 1;
        }
        Some(idx)
    }

    /// Whether some record of this index carries the identifier `id`.
    pub fn contains_file_id(&self, id: u64) -> (b: bool)
        ensures
            b == contains_id(self@, id),
    {
        let mut j: usize = 0;
        while j < self.files.len()
            invariant
                j <= self.files.len(),
                forall|k: int| 0 <= k < j ==> self@[k].0 != id,
            decreases self.files.len() - j,
        {
            if self.files[j].file_id == id {
                assert(self@[j as int].0 == id);
                return true;
            }
            j += 1;
        }
        false
    }
}

} // verus!
