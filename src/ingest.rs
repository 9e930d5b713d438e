use crate::blob::{BlobMap, BlobStore};
use crate::catalog::{Catalog, CatalogModel};
use crate::content::{hash_file, mime_of, sha256_hex, sniff_mime_type};
use crate::model::{
    ArchiveEntry, CatalogError, Deployment, DeploymentFile, DeploymentFileEntry, DeploymentView,
    IngestError, LinkView, NewlyCreatedFile,
};
use vstd::prelude::*;

verus! {

/// The mathematical view of an archive entry.
pub struct ArchiveEntryView {
    pub path: Seq<char>,
    pub is_dir: bool,
    pub data: Seq<u8>,
}

impl View for ArchiveEntry {
    type V = ArchiveEntryView;

    open spec fn view(&self) -> ArchiveEntryView {
        ArchiveEntryView { path: self.path@, is_dir: self.is_dir, data: self.data@ }
    }
}

pub open spec fn archive_view(es: Seq<ArchiveEntry>) -> Seq<ArchiveEntryView> {
    es.map_values(|e: ArchiveEntry| e@)
}

/// Catalog and blob store after one stored entry, and the record's id and
/// creation flag, or the error that stopped it.
pub struct StepRun {
    pub catalog: CatalogModel,
    pub blobs: BlobMap,
    pub result: Result<(i64, bool), IngestError>,
}

/// Catalog and blob store after an ingestion, and the number of links it
/// made, or the error that stopped it.
pub struct IngestRun {
    pub catalog: CatalogModel,
    pub blobs: BlobMap,
    pub result: Result<nat, IngestError>,
}

/// Stores one file of a deployment: insert-or-fetch the record by hash,
/// write the bytes only where the record is new, then link the path.
pub open spec fn store_step(
    m: CatalogModel,
    b: BlobMap,
    dep: Seq<char>,
    path: Seq<char>,
    h: Seq<char>,
    mime: Seq<char>,
    data: Seq<u8>,
) -> StepRun {
    let (m1, up) = m.upsert(h, data.len() as i64);
    match up {
        Err(ce) => StepRun { catalog: m1, blobs: b, result: Err(IngestError::Catalog(ce)) },
        Ok((id, is_new)) => {
            let b1 = if is_new {
                b.insert(h, (data, mime))
            } else {
                b
            };
            let (m2, lr) = m1.link(LinkView { deployment_id: dep, file_id: id, file_path: path, mime_type: mime });
            match lr {
                Err(_) => StepRun { catalog: m2, blobs: b1, result: Err(IngestError::DuplicatePath) },
                Ok(()) => StepRun { catalog: m2, blobs: b1, result: Ok((id, is_new)) },
            }
        },
    }
}

/// Ingests the entries in order into deployment `dep`, skipping directories;
/// `n` counts the links made so far. The first failing entry stops the run.
pub open spec fn ingest_model(
    m: CatalogModel,
    b: BlobMap,
    dep: Seq<char>,
    es: Seq<ArchiveEntryView>,
    n: nat,
) -> IngestRun
    decreases es.len(),
{
    if es.len() == 0 {
        IngestRun { catalog: m, blobs: b, result: Ok(n) }
    } else {
        let e = es[0];
        if e.is_dir {
            ingest_model(m, b, dep, es.drop_first(), n)
        } else {
            let s = store_step(m, b, dep, e.path, sha256_hex(e.data), mime_of(e.data), e.data);
            match s.result {
                Err(err) => IngestRun { catalog: s.catalog, blobs: s.blobs, result: Err(err) },
                Ok(_) => ingest_model(s.catalog, s.blobs, dep, es.drop_first(), n + 1),
            }
        }
    }
}

/// An ingestion of the whole archive: as `ingest_model`, except that a
/// failed run takes back every link it made. The records and blobs it
/// created stay, for a collection to reclaim.
pub open spec fn ingest_archive(m: CatalogModel, b: BlobMap, dep: Seq<char>, es: Seq<ArchiveEntryView>) -> IngestRun {
    let run = ingest_model(m, b, dep, es, 0);
    match run.result {
        Ok(_) => run,
        Err(e) => IngestRun { catalog: CatalogModel { links: m.links, ..run.catalog }, blobs: run.blobs, result: Err(e) },
    }
}

/// One store step keeps the links that were there, and adds at most one.
pub proof fn lemma_store_step_links(
    m: CatalogModel,
    b: BlobMap,
    dep: Seq<char>,
    path: Seq<char>,
    h: Seq<char>,
    mime: Seq<char>,
    data: Seq<u8>,
)
    ensures
        store_step(m, b, dep, path, h, mime, data).catalog.links.len() >= m.links.len(),
        store_step(m, b, dep, path, h, mime, data).catalog.links.subrange(0, m.links.len() as int) == m.links,
{
    let s = store_step(m, b, dep, path, h, mime, data);
    assert(s.catalog.links.subrange(0, m.links.len() as int) =~= m.links);
}

/// Every entry's bytes fit the size column.
pub open spec fn sizes_fit(es: Seq<ArchiveEntryView>) -> bool {
    forall|i: int| 0 <= i < es.len() ==> #[trigger] es[i].data.len() <= i64::MAX
}

impl Deployment {
    /// Records a new deployment in the catalog.
    pub fn new(
        catalog: &mut Catalog,
        deployment_id: String,
        site_id: String,
        context: Option<String>,
        created_at: i64,
    ) -> (r: Result<Deployment, CatalogError>)
        requires
            old(catalog).wf(),
        ensures
            final(catalog).wf(),
            ({
                let d = DeploymentView {
                    deployment_id: deployment_id@,
                    site_id: site_id@,
                    context: crate::model::opt_view(context),
                    created_at,
                };
                &&& final(catalog)@ == old(catalog)@.add_deployment(d).0
                &&& (r is Ok <==> !old(catalog)@.has_deployment(deployment_id@))
                &&& (r matches Ok(dep) ==> dep@ == d)
                &&& (r matches Err(e) ==> e == CatalogError::DuplicateDeployment)
            }),
    {
        catalog.create_deployment(Deployment { deployment_id, site_id, context, created_at })
    }

    /// The deployment with the given id.
    pub fn get_by_id(catalog: &Catalog, deployment_id: &String) -> (r: Result<Deployment, CatalogError>)
        requires
            catalog.wf(),
        ensures
            r is Ok <==> catalog@.has_deployment(deployment_id@),
            r matches Ok(d) ==> d@ == catalog@.deployment(deployment_id@),
            r matches Err(e) ==> e == CatalogError::NotFound,
    {
        catalog.get_deployment(deployment_id)
    }

    /// Stores one file of this deployment: the record is fetched or created
    /// by hash, the bytes are written only where it is new, and the path is
    /// linked to it.
    pub fn upload_file(
        &self,
        catalog: &mut Catalog,
        blobs: &mut BlobStore,
        file_path: &String,
        file_hash: &String,
        mime_type: &String,
        data: &Vec<u8>,
    ) -> (r: Result<NewlyCreatedFile, IngestError>)
        requires
            old(catalog).wf(),
            old(blobs).wf(),
            data@.len() <= i64::MAX,
        ensures
            final(catalog).wf(),
            final(blobs).wf(),
            ({
                let s = store_step(
                    old(catalog)@,
                    old(blobs)@,
                    self.deployment_id@,
                    file_path@,
                    file_hash@,
                    mime_type@,
                    data@,
                );
                &&& final(catalog)@ == s.catalog
                &&& final(blobs)@ == s.blobs
                &&& r == match s.result {
                    Ok((id, is_new)) => Ok(NewlyCreatedFile { file_id: Some(id), is_new: Some(is_new) }),
                    Err(e) => Err(e),
                }
            }),
    {
        let size = data.len() as i64;
        let file = match catalog.upsert_file_by_hash(file_hash, size) {
            Ok(f) => f,
            Err(e) => {
                return Err(IngestError::Catalog(e));
            },
        };
        let file_id = file.file_id.unwrap();
        let is_new = file.is_new.unwrap();
        if is_new {
            blobs.put(file_hash, data, mime_type);
        }
        match catalog.link_file(&self.deployment_id, file_id, file_path, mime_type) {
            Ok(()) => Ok(NewlyCreatedFile { file_id: Some(file_id), is_new: Some(is_new) }),
            Err(_) => Err(IngestError::DuplicatePath),
        }
    }

    /// Ingests the entries of a decoded archive into this deployment, in
    /// order: directories are skipped, each file is hashed, typed from its
    /// bytes, and stored; the first failure stops the run. Answers with the
    /// number of links made.
    pub fn upload_files(&self, catalog: &mut Catalog, blobs: &mut BlobStore, entries: &Vec<ArchiveEntry>) -> (r: Result<usize, IngestError>)
        requires
            old(catalog).wf(),
            old(blobs).wf(),
            sizes_fit(archive_view(entries@)),
        ensures
            final(catalog).wf(),
            final(blobs).wf(),
            ({
                let run = ingest_archive(old(catalog)@, old(blobs)@, self.deployment_id@, archive_view(entries@));
                &&& final(catalog)@ == run.catalog
                &&& final(blobs)@ == run.blobs
                &&& r matches Ok(k) ==> run.result == Ok::<nat, IngestError>(k as nat)
                &&& r matches Err(e) ==> run.result == Err::<nat, IngestError>(e)
            }),
            r is Err ==> final(catalog)@.links == old(catalog)@.links,
    {
        let base = catalog.links().len();
        let ghost ev = archive_view(entries@);
        let ghost goal = ingest_model(catalog@, blobs@, self.deployment_id@, ev, 0);
        let mut count: usize = 0;
        let mut i: usize = 0;
        assert(ev.subrange(0, ev.len() as int) =~= ev);
        while i < entries.len()
            invariant
                catalog.wf(),
                blobs.wf(),
                i <= entries@.len(),
                count <= i,
                ev == archive_view(entries@),
                sizes_fit(ev),
                goal == ingest_model(old(catalog)@, old(blobs)@, self.deployment_id@, ev, 0),
                base == old(catalog)@.links.len(),
                catalog@.links.len() >= base,
                catalog@.links.subrange(0, base as int) == old(catalog)@.links,
                goal == ingest_model(catalog@, blobs@, self.deployment_id@, ev.subrange(i as int, ev.len() as int), count as nat),
            decreases entries@.len() - i,
        {
            let ghost rest = ev.subrange(i as int, ev.len() as int);
            assert(rest[0] == ev[i as int]);
            assert(rest.drop_first() =~= ev.subrange(i + 1, ev.len() as int));
            let entry = &entries[i];
            if !entry.is_dir {
                assert(ev[i as int].data.len() <= i64::MAX);
                let file_hash = hash_file(entry.data.as_slice());
                let mime_type = sniff_mime_type(entry.data.as_slice());
                let ghost m0 = catalog@;
                let ghost b0 = blobs@;
                let ghost st = store_step(m0, b0, self.deployment_id@, entry.path@, file_hash@, mime_type@, entry.data@);
                assert(ev[i as int] == entry@);
                let ghost links_before = catalog@.links;
                proof {
                    lemma_store_step_links(m0, b0, self.deployment_id@, entry.path@, file_hash@, mime_type@, entry.data@);
                }
                let step = self.upload_file(catalog, blobs, &entry.path, &file_hash, &mime_type, &entry.data);
                assert(catalog@.links.subrange(0, base as int) =~= catalog@.links.subrange(0, links_before.len() as int).subrange(0, base as int));
                match step {
                    Ok(_) => {
                        count = count + 1;
                    },
                    Err(e) => {
                        assert(st.result == Err::<(i64, bool), IngestError>(e));
                        assert(goal == IngestRun { catalog: catalog@, blobs: blobs@, result: Err(e) });
                        catalog.truncate_links(base);
                        return Err(e);
                    },
                }
            }
            i = i + 1;
        }
        assert(ev.subrange(i as int, ev.len() as int).len() == 0);
        Ok(count)
    }
}

impl DeploymentFile {
    /// The links of a deployment, joined with the sizes of their records.
    pub fn get_deployment_files(catalog: &Catalog, deployment_id: &String) -> (r: Vec<DeploymentFileEntry>)
        requires
            catalog.wf(),
        ensures
            crate::catalog::entries_view(r@) == catalog@.entries(deployment_id@),
    {
        catalog.list_deployment_files(deployment_id)
    }
}

} // verus!
