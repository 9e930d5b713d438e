use crate::blob::{BlobMap, BlobStore};
use crate::catalog::{files_view, Catalog, CatalogModel};
use crate::model::{Deployment, File, FileView};
use vstd::prelude::*;

verus! {

/// Blob store after deleting the blobs of the candidates in order, with the
/// candidates whose blob was deleted and those whose delete failed.
pub open spec fn delete_blobs(b: BlobMap, cands: Seq<FileView>) -> (BlobMap, Seq<FileView>, Seq<FileView>)
    decreases cands.len(),
{
    if cands.len() == 0 {
        (b, Seq::empty(), Seq::empty())
    } else {
        let (b1, deleted, failed) = delete_blobs(b, cands.drop_last());
        let f = cands.last();
        if b1.contains_key(f.file_hash) {
            (b1.remove(f.file_hash), deleted.push(f), failed)
        } else {
            (b1, deleted, failed.push(f))
        }
    }
}

pub open spec fn ids_of(fs: Seq<FileView>) -> Seq<i64> {
    fs.map_values(|f: FileView| f.file_id)
}

/// Catalog and blob store after a collection, with the records it removed
/// and those whose blob could not be deleted.
pub struct CollectRun {
    pub catalog: CatalogModel,
    pub blobs: BlobMap,
    pub deleted: Seq<FileView>,
    pub failed: Seq<FileView>,
}

/// A collection with cutoff `cutoff`: the blob of each orphan is deleted
/// first, then the records whose blob delete succeeded are removed together.
pub open spec fn collect_model(m: CatalogModel, b: BlobMap, cutoff: i64) -> CollectRun {
    let (b1, deleted, failed) = delete_blobs(b, m.orphans(cutoff));
    CollectRun { catalog: m.delete_files(ids_of(deleted)), blobs: b1, deleted, failed }
}

/// What a collection reports: the records it removed, and those it left
/// because their blob could not be deleted.
pub struct CollectOutcome {
    pub deleted: Vec<File>,
    pub failed: Vec<File>,
}

impl Deployment {
    /// Reclaims the file records that no deployment created after `cutoff`
    /// links to: the blob goes first, and only records whose blob delete
    /// succeeded leave the catalog, in one batch.
    pub fn cleanup_old_files(catalog: &mut Catalog, blobs: &mut BlobStore, cutoff: i64) -> (r: CollectOutcome)
        requires
            old(catalog).wf(),
            old(blobs).wf(),
        ensures
            final(catalog).wf(),
            final(blobs).wf(),
            ({
                let run = collect_model(old(catalog)@, old(blobs)@, cutoff);
                &&& final(catalog)@ == run.catalog
                &&& final(blobs)@ == run.blobs
                &&& files_view(r.deleted@) == run.deleted
                &&& files_view(r.failed@) == run.failed
            }),
    {
        let orphans = catalog.list_orphan_files(cutoff);
        let ghost ov = files_view(orphans@);
        let ghost b0 = blobs@;
        let mut deleted: Vec<File> = Vec::new();
        let mut failed: Vec<File> = Vec::new();
        let mut ids: Vec<i64> = Vec::new();
        let mut i: usize = 0;
        while i < orphans.len()
            invariant
                blobs.wf(),
                i <= orphans@.len(),
                ov == files_view(orphans@),
                (blobs@, files_view(deleted@), files_view(failed@)) == delete_blobs(b0, ov.subrange(0, i as int)),
                ids@ == ids_of(files_view(deleted@)),
            decreases orphans@.len() - i,
        {
            let ghost (dv, fv) = (files_view(deleted@), files_view(failed@));
            assert(ov.subrange(0, i + 1).drop_last() =~= ov.subrange(0, i as int));
            assert(ov.subrange(0, i + 1).last() == orphans@[i as int]@);
            let f = orphans[i].copy();
            match blobs.delete(&orphans[i].file_hash) {
                Ok(()) => {
                    ids.push(f.file_id);
                    deleted.push(f);
                    assert(files_view(deleted@) =~= dv.push(orphans@[i as int]@));
                    assert(ids@ =~= ids_of(files_view(deleted@)));
                },
                Err(_) => {
                    failed.push(f);
                    assert(files_view(failed@) =~= fv.push(orphans@[i as int]@));
                },
            }
            i = i + 1;
        }
        assert(ov.subrange(0, ov.len() as int) =~= ov);
        catalog.delete_files(&ids);
        CollectOutcome { deleted, failed }
    }
}

} // verus!
