use vstd::prelude::*;

verus! {

/// Whether a reconciliation pass may persist the desired index: only when
/// the pass changed something (something was deleted or downloaded), and
/// never when a needed download step failed.
pub open spec fn spec_persist(
    downloads: Seq<u64>,
    deletes: Seq<Seq<char>>,
    download_succeeded: bool,
) -> bool {
    (downloads.len() > 0 || deletes.len() > 0) && (downloads.len() == 0 || download_succeeded)
}

/// The pass's persistence decision, taken after deletions were attempted and
/// the download step (if one was needed) finished or failed.
pub fn decide_persist(
    file_ids_to_download: &Vec<u64>,
    file_names_to_delete: &Vec<String>,
    download_succeeded: bool,
) -> (persist: bool)
    ensures
        persist == spec_persist(
            file_ids_to_download@,
            file_names_to_delete.deep_view(),
            download_succeeded,
        ),
{
    (file_ids_to_download.len() > 0 || file_names_to_delete.len() > 0) && (
    file_ids_to_download.len() == 0 || download_succeeded)
}

/// Law: a failed archive download aborts the rest of the pass. Whenever
/// anything was to be downloaded and the download step failed, the persisted
/// index is left unchanged, whatever was already deleted.
pub proof fn lemma_failed_download_blocks_persist(
    downloads: Seq<u64>,
    deletes: Seq<Seq<char>>,
)
    requires
        downloads.len() > 0,
    ensures
        !spec_persist(downloads, deletes, false),
{
}

/// Law: a pass that found nothing to change writes nothing.
pub proof fn lemma_no_changes_no_persist(succeeded: bool)
    ensures
        !spec_persist(Seq::<u64>::empty(), Seq::<Seq<char>>::empty(), succeeded),
{
}

} // verus!
