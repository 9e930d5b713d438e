use crate::blob::BlobMap;
use crate::catalog::{file_kept_pred, files_kept, link_kept_pred, orphan_pred, CatalogModel};
use crate::gc::{collect_model, delete_blobs, ids_of};
use crate::ingest::{ingest_archive, ingest_model, store_step, ArchiveEntryView};
use crate::model::FileView;
use vstd::prelude::*;

verus! {

/// Reading a key right after writing it gives back the written bytes, and
/// writing the same bytes under the key twice leaves what one write left.
pub proof fn lemma_get_after_put(b: BlobMap, key: Seq<char>, bytes: Seq<u8>, content_type: Seq<char>)
    ensures
        b.insert(key, (bytes, content_type)).contains_key(key),
        b.insert(key, (bytes, content_type))[key].0 == bytes,
        b.insert(key, (bytes, content_type)).insert(key, (bytes, content_type)) == b.insert(key, (bytes, content_type)),
{
    assert(b.insert(key, (bytes, content_type)).insert(key, (bytes, content_type)) =~= b.insert(key, (bytes, content_type)));
}

/// The number of directory entries.
pub open spec fn directory_count(es: Seq<ArchiveEntryView>) -> nat
    decreases es.len(),
{
    if es.len() == 0 {
        0
    } else {
        (if es[0].is_dir {
            1nat
        } else {
            0nat
        }) + directory_count(es.drop_first())
    }
}

/// The entries that are not directories, in order.
pub open spec fn without_directories(es: Seq<ArchiveEntryView>) -> Seq<ArchiveEntryView>
    decreases es.len(),
{
    if es.len() == 0 {
        es
    } else if es[0].is_dir {
        without_directories(es.drop_first())
    } else {
        seq![es[0]] + without_directories(es.drop_first())
    }
}

/// An ingestion that succeeds over N entries of which D are directories
/// makes exactly N - D links, all for the deployment, one for each file
/// entry's path in archive order, and keeps the links that were there.
pub proof fn lemma_ingest_link_count(
    m: CatalogModel,
    b: BlobMap,
    dep: Seq<char>,
    es: Seq<ArchiveEntryView>,
    n: nat,
)
    ensures
        ({
            let run = ingest_model(m, b, dep, es, n);
            run.result is Ok ==> {
                &&& directory_count(es) <= es.len()
                &&& run.result == Ok::<nat, crate::model::IngestError>(n + (es.len() - directory_count(es)) as nat)
                &&& run.catalog.links.len() == m.links.len() + es.len() - directory_count(es)
                &&& run.catalog.links.subrange(0, m.links.len() as int) == m.links
                &&& forall|i: int|
                    m.links.len() <= i < run.catalog.links.len() ==> #[trigger] run.catalog.links[i].deployment_id == dep
                &&& without_directories(es).len() == es.len() - directory_count(es)
                &&& forall|i: int|
                    0 <= i < without_directories(es).len() ==> #[trigger] run.catalog.links[m.links.len() + i].file_path
                        == without_directories(es)[i].path
            }
        }),
    decreases es.len(),
{
    if es.len() > 0 {
        let e = es[0];
        if e.is_dir {
            lemma_ingest_link_count(m, b, dep, es.drop_first(), n);
        } else {
            let s = store_step(m, b, dep, e.path, crate::content::sha256_hex(e.data), crate::content::mime_of(e.data), e.data);
            if s.result is Ok {
                lemma_ingest_link_count(s.catalog, s.blobs, dep, es.drop_first(), n + 1);
                let run = ingest_model(m, b, dep, es, n);
                if run.result is Ok {
                    assert(s.catalog.links == m.links.push(s.catalog.links.last()));
                    assert(s.catalog.links.last().deployment_id == dep);
                    assert forall|i: int| m.links.len() <= i < run.catalog.links.len() implies #[trigger] run.catalog.links[i].deployment_id == dep by {
                        if i == m.links.len() {
                            assert(run.catalog.links.subrange(0, s.catalog.links.len() as int)[i] == run.catalog.links[i]);
                        }
                    }
                    assert(run.catalog.links.subrange(0, m.links.len() as int) =~= run.catalog.links.subrange(0, s.catalog.links.len() as int).subrange(0, m.links.len() as int));
                    let rest = es.drop_first();
                    let wr = without_directories(rest);
                    let w = without_directories(es);
                    assert(w == seq![e] + wr);
                    assert forall|i: int| 0 <= i < w.len() implies #[trigger] run.catalog.links[m.links.len() + i].file_path == w[i].path by {
                        if i == 0 {
                            assert(run.catalog.links.subrange(0, s.catalog.links.len() as int)[m.links.len() as int] == run.catalog.links[m.links.len() as int]);
                            assert(s.catalog.links[m.links.len() as int].file_path == e.path);
                        } else {
                            assert(w[i] == wr[i - 1]);
                            assert(run.catalog.links[s.catalog.links.len() + (i - 1)].file_path == wr[i - 1].path);
                            assert(s.catalog.links.len() + (i - 1) == m.links.len() + i);
                        }
                    }
                }
            }
        }
    }
}

/// One store step keeps every hash that has a record. Where the step's own
/// hash already has one, it writes no blob, keeps the records as they were,
/// and reports the record as not new.
pub proof fn lemma_store_step_known_hash(
    m: CatalogModel,
    b: BlobMap,
    dep: Seq<char>,
    path: Seq<char>,
    h: Seq<char>,
    mime: Seq<char>,
    data: Seq<u8>,
    k: Seq<char>,
)
    requires
        m.has_hash(k),
    ensures
        ({
            let s = store_step(m, b, dep, path, h, mime, data);
            &&& s.catalog.has_hash(k)
            &&& s.catalog.deployments == m.deployments
            &&& s.blobs.contains_key(k) == b.contains_key(k)
            &&& b.contains_key(k) ==> s.blobs[k] == b[k]
            &&& h == k ==> s.blobs == b && s.catalog.files == m.files && (s.result matches Ok((_, is_new)) ==> !is_new)
        }),
{
    let s = store_step(m, b, dep, path, h, mime, data);
    let i = choose|i: int| 0 <= i < m.files.len() && m.files[i].file_hash == k;
    let m1 = m.upsert(h, data.len() as i64).0;
    assert(m1.files[i] == m.files[i]);
    assert(s.catalog.files == m1.files);
    if !m.has_hash(h) {
        assert(h != k);
    }
}

/// An ingestion keeps every hash that has a record, and leaves the blob
/// under such a hash as it was: content already stored is never written
/// again, whatever else is ingested in between.
pub proof fn lemma_ingest_known_hash(
    m: CatalogModel,
    b: BlobMap,
    dep: Seq<char>,
    es: Seq<ArchiveEntryView>,
    n: nat,
    k: Seq<char>,
)
    requires
        m.has_hash(k),
    ensures
        ({
            let run = ingest_model(m, b, dep, es, n);
            &&& run.catalog.has_hash(k)
            &&& run.catalog.deployments == m.deployments
            &&& run.blobs.contains_key(k) == b.contains_key(k)
            &&& b.contains_key(k) ==> run.blobs[k] == b[k]
        }),
    decreases es.len(),
{
    if es.len() > 0 {
        let e = es[0];
        if e.is_dir {
            lemma_ingest_known_hash(m, b, dep, es.drop_first(), n, k);
        } else {
            let s = store_step(m, b, dep, e.path, crate::content::sha256_hex(e.data), crate::content::mime_of(e.data), e.data);
            lemma_store_step_known_hash(m, b, dep, e.path, crate::content::sha256_hex(e.data), crate::content::mime_of(e.data), e.data, k);
            if s.result is Ok {
                lemma_ingest_known_hash(s.catalog, s.blobs, dep, es.drop_first(), n + 1, k);
            }
        }
    }
}

/// After a successful ingestion every file entry's content has a record
/// and a blob under its hash.
pub proof fn lemma_ingest_stores_entries(
    m: CatalogModel,
    b: BlobMap,
    dep: Seq<char>,
    es: Seq<ArchiveEntryView>,
    n: nat,
)
    requires
        m.wf(),
    ensures
        ({
            let run = ingest_model(m, b, dep, es, n);
            run.result is Ok ==> forall|j: int|
                0 <= j < es.len() && !es[j].is_dir ==> run.catalog.has_hash(crate::content::sha256_hex(#[trigger] es[j].data))
        }),
    decreases es.len(),
{
    if es.len() > 0 {
        let e = es[0];
        let rest = es.drop_first();
        let run = ingest_model(m, b, dep, es, n);
        if e.is_dir {
            lemma_ingest_stores_entries(m, b, dep, rest, n);
            assert(run == ingest_model(m, b, dep, rest, n));
            if run.result is Ok {
                assert forall|j: int| 0 <= j < es.len() && !es[j].is_dir implies run.catalog.has_hash(crate::content::sha256_hex(#[trigger] es[j].data)) by {
                    assert(rest[j - 1] == es[j]);
                }
            }
        } else {
            let h = crate::content::sha256_hex(e.data);
            let s = store_step(m, b, dep, e.path, h, crate::content::mime_of(e.data), e.data);
            lemma_upsert_wf(m, h, e.data.len() as i64);
            if s.result is Ok {
                assert(s.catalog.files == m.upsert(h, e.data.len() as i64).0.files);
                assert(s.catalog.has_hash(h));
                assert(s.catalog.wf());
                lemma_ingest_stores_entries(s.catalog, s.blobs, dep, rest, n + 1);
                lemma_ingest_known_hash(s.catalog, s.blobs, dep, rest, n + 1, h);
                assert(run == ingest_model(s.catalog, s.blobs, dep, rest, n + 1));
                if run.result is Ok {
                    assert forall|j: int| 0 <= j < es.len() && !es[j].is_dir implies run.catalog.has_hash(crate::content::sha256_hex(#[trigger] es[j].data)) by {
                        if j > 0 {
                            assert(rest[j - 1] == es[j]);
                        }
                    }
                }
            }
        }
    }
}

/// An ingestion keeps the catalog well formed.
pub proof fn lemma_ingest_wf(m: CatalogModel, b: BlobMap, dep: Seq<char>, es: Seq<ArchiveEntryView>, n: nat)
    requires
        m.wf(),
    ensures
        ingest_model(m, b, dep, es, n).catalog.wf(),
        ingest_archive(m, b, dep, es).catalog.wf(),
    decreases es.len(),
{
    if es.len() > 0 {
        let e = es[0];
        if e.is_dir {
            lemma_ingest_wf(m, b, dep, es.drop_first(), n);
            lemma_ingest_wf(m, b, dep, es.drop_first(), 0);
        } else {
            let h = crate::content::sha256_hex(e.data);
            let s = store_step(m, b, dep, e.path, h, crate::content::mime_of(e.data), e.data);
            lemma_upsert_wf(m, h, e.data.len() as i64);
            assert(s.catalog.wf());
            lemma_ingest_wf(s.catalog, s.blobs, dep, es.drop_first(), n + 1);
            lemma_ingest_wf(s.catalog, s.blobs, dep, es.drop_first(), 1);
        }
    }
}

/// Identical content ingested under two deployments is stored once: after
/// a successful ingestion, a later ingestion of any archive keeps exactly
/// one record for each of its file entries' hashes, and never writes the
/// blob under that hash again.
pub proof fn lemma_identical_content_across_ingestions(
    m: CatalogModel,
    b: BlobMap,
    d1: Seq<char>,
    es1: Seq<ArchiveEntryView>,
    d2: Seq<char>,
    es2: Seq<ArchiveEntryView>,
    j: int,
)
    requires
        m.wf(),
        0 <= j < es1.len(),
        !es1[j].is_dir,
        ingest_archive(m, b, d1, es1).result is Ok,
    ensures
        ({
            let k = crate::content::sha256_hex(es1[j].data);
            let r1 = ingest_archive(m, b, d1, es1);
            let r2 = ingest_archive(r1.catalog, r1.blobs, d2, es2);
            &&& r2.catalog.wf()
            &&& r2.catalog.has_hash(k)
            &&& r2.blobs.contains_key(k) == r1.blobs.contains_key(k)
            &&& r1.blobs.contains_key(k) ==> r2.blobs[k] == r1.blobs[k]
        }),
{
    let k = crate::content::sha256_hex(es1[j].data);
    let r1 = ingest_archive(m, b, d1, es1);
    lemma_ingest_stores_entries(m, b, d1, es1, 0);
    lemma_ingest_wf(m, b, d1, es1, 0);
    lemma_ingest_wf(r1.catalog, r1.blobs, d2, es2, 0);
    lemma_ingest_known_hash(r1.catalog, r1.blobs, d2, es2, 0, k);
}

/// Directory entries take no part in ingesting an archive: the archive and
/// its files alone give the same catalog, blobs and result.
pub proof fn lemma_archive_directories_skipped(m: CatalogModel, b: BlobMap, dep: Seq<char>, es: Seq<ArchiveEntryView>)
    ensures
        ingest_archive(m, b, dep, es) == ingest_archive(m, b, dep, without_directories(es)),
{
    lemma_directories_skipped(m, b, dep, es, 0);
}

/// Ingesting an archive of N entries, D of them directories, either succeeds
/// with N - D links added, all for the deployment, one for each file entry's
/// path in archive order, or fails and leaves the links as they were.
pub proof fn lemma_archive_link_count(m: CatalogModel, b: BlobMap, dep: Seq<char>, es: Seq<ArchiveEntryView>)
    ensures
        ({
            let run = ingest_archive(m, b, dep, es);
            &&& run.result is Err ==> run.catalog.links == m.links
            &&& run.result is Ok ==> {
                &&& directory_count(es) <= es.len()
                &&& run.result == Ok::<nat, crate::model::IngestError>((es.len() - directory_count(es)) as nat)
                &&& run.catalog.links.len() == m.links.len() + es.len() - directory_count(es)
                &&& run.catalog.links.subrange(0, m.links.len() as int) == m.links
                &&& forall|i: int|
                    m.links.len() <= i < run.catalog.links.len() ==> #[trigger] run.catalog.links[i].deployment_id == dep
                &&& without_directories(es).len() == es.len() - directory_count(es)
                &&& forall|i: int|
                    0 <= i < without_directories(es).len() ==> #[trigger] run.catalog.links[m.links.len() + i].file_path
                        == without_directories(es)[i].path
            }
        }),
{
    lemma_ingest_link_count(m, b, dep, es, 0);
}

/// Directory entries take no part in an ingestion: ingesting the archive
/// gives the same catalog, blobs and result as ingesting its files alone.
pub proof fn lemma_directories_skipped(
    m: CatalogModel,
    b: BlobMap,
    dep: Seq<char>,
    es: Seq<ArchiveEntryView>,
    n: nat,
)
    ensures
        ingest_model(m, b, dep, es, n) == ingest_model(m, b, dep, without_directories(es), n),
    decreases es.len(),
{
    if es.len() > 0 {
        let rest = es.drop_first();
        if es[0].is_dir {
            lemma_directories_skipped(m, b, dep, rest, n);
        } else {
            let w = seq![es[0]] + without_directories(rest);
            assert(w[0] == es[0]);
            assert(w.drop_first() =~= without_directories(rest));
            let e = es[0];
            let s = store_step(m, b, dep, e.path, crate::content::sha256_hex(e.data), crate::content::mime_of(e.data), e.data);
            lemma_directories_skipped(s.catalog, s.blobs, dep, rest, n + 1);
        }
    }
}

/// The insert-or-fetch keeps the catalog well formed.
pub proof fn lemma_upsert_wf(m: CatalogModel, h: Seq<char>, size: i64)
    requires
        m.wf(),
    ensures
        m.upsert(h, size).0.wf(),
        m.upsert(h, size).0.has_hash(h) || m.upsert(h, size).1 is Err,
{
    if m.has_hash(h) {
    } else if m.next_file_id != i64::MAX {
        let m1 = m.upsert(h, size).0;
        assert(m1.files[m.files.len() as int].file_hash == h);
        assert forall|i: int| 0 <= i < m1.files.len() implies 0 < #[trigger] m1.files[i].file_id < m1.next_file_id by {
            if i < m.files.len() {
                assert(m1.files[i] == m.files[i]);
            }
        }
        assert forall|i: int, j: int|
            0 <= i < m1.files.len() && 0 <= j < m1.files.len() && i != j implies m1.files[i].file_hash != m1.files[j].file_hash
                && m1.files[i].file_id != m1.files[j].file_id by {
            if i < m.files.len() {
                assert(m1.files[i] == m.files[i]);
                assert(0 < m.files[i].file_id < m.next_file_id);
            }
            if j < m.files.len() {
                assert(m1.files[j] == m.files[j]);
                assert(0 < m.files[j].file_id < m.next_file_id);
            }
        }
    }
}

/// Storing identical bytes under two deployments makes one record and one
/// blob write: the second store finds the record, is told it is not new,
/// and leaves the blobs and the records as the first left them.
pub proof fn lemma_identical_content_stored_once(
    m: CatalogModel,
    b: BlobMap,
    d1: Seq<char>,
    d2: Seq<char>,
    p1: Seq<char>,
    p2: Seq<char>,
    h: Seq<char>,
    mime: Seq<char>,
    data: Seq<u8>,
)
    requires
        m.wf(),
    ensures
        ({
            let s1 = store_step(m, b, d1, p1, h, mime, data);
            let s2 = store_step(s1.catalog, s1.blobs, d2, p2, h, mime, data);
            s1.result is Ok ==> {
                &&& s2.result matches Ok((id, is_new)) ==> !is_new && s1.result == Ok::<(i64, bool), crate::model::IngestError>((id, s1.result->Ok_0.1))
                &&& s2.result is Ok || s2.result == Err::<(i64, bool), crate::model::IngestError>(crate::model::IngestError::DuplicatePath)
                &&& s2.blobs == s1.blobs
                &&& s2.catalog.files == s1.catalog.files
                &&& s1.result->Ok_0.1 == !m.has_hash(h)
                &&& (s1.result->Ok_0.1 ==> s1.blobs == b.insert(h, (data, mime)))
                &&& (!s1.result->Ok_0.1 ==> s1.blobs == b)
                &&& exists|i: int|
                    0 <= i < s2.catalog.files.len() && s2.catalog.files[i].file_hash == h && forall|j: int|
                        0 <= j < s2.catalog.files.len() && #[trigger] s2.catalog.files[j].file_hash == h ==> j == i
            }
        }),
{
    let s1 = store_step(m, b, d1, p1, h, mime, data);
    lemma_upsert_wf(m, h, data.len() as i64);
    let m1 = m.upsert(h, data.len() as i64).0;
    if s1.result is Ok {
        assert(s1.catalog.files == m1.files);
        assert(m1.has_hash(h));
        let i = choose|i: int| 0 <= i < m1.files.len() && m1.files[i].file_hash == h;
        assert(m1.upsert(h, data.len() as i64).1 == Ok::<(i64, bool), crate::model::CatalogError>((m1.files[i].file_id, false)));
        if !m.has_hash(h) {
            assert(m1.files[m.files.len() as int].file_hash == h);
            assert(i == m.files.len());
        }
    }
}

/// Every record that a collection removes or fails on was a candidate, and
/// every candidate ends in one of the two lists; a failed candidate's key is
/// absent from the blobs that remain.
pub proof fn lemma_delete_blobs_parts(b: BlobMap, c: Seq<FileView>)
    ensures
        forall|x: FileView| #[trigger] delete_blobs(b, c).1.contains(x) ==> c.contains(x),
        forall|x: FileView|
            #[trigger] c.contains(x) ==> delete_blobs(b, c).1.contains(x) || delete_blobs(b, c).2.contains(x),
        forall|x: FileView| #[trigger] delete_blobs(b, c).2.contains(x) ==> !delete_blobs(b, c).0.contains_key(x.file_hash),
    decreases c.len(),
{
    if c.len() > 0 {
        let c0 = c.drop_last();
        lemma_delete_blobs_parts(b, c0);
        let r0 = delete_blobs(b, c0);
        let r = delete_blobs(b, c);
        let f = c.last();
        assert forall|x: FileView| #[trigger] r.1.contains(x) implies c.contains(x) by {
            let k = choose|k: int| 0 <= k < r.1.len() && r.1[k] == x;
            if k < r0.1.len() {
                assert(r0.1[k] == x);
                assert(r0.1.contains(x));
                let j = choose|j: int| 0 <= j < c0.len() && c0[j] == x;
                assert(c[j] == x);
            } else {
                assert(c[c.len() - 1] == x);
            }
        }
        assert forall|x: FileView| #[trigger] c.contains(x) implies r.1.contains(x) || r.2.contains(x) by {
            let j = choose|j: int| 0 <= j < c.len() && c[j] == x;
            if j < c.len() - 1 {
                assert(c0[j] == x);
                assert(c0.contains(x));
                if r0.1.contains(x) {
                    let k = choose|k: int| 0 <= k < r0.1.len() && r0.1[k] == x;
                    assert(r.1[k] == x);
                } else {
                    let k = choose|k: int| 0 <= k < r0.2.len() && r0.2[k] == x;
                    assert(r.2[k] == x);
                }
            } else if r0.0.contains_key(f.file_hash) {
                assert(r.1[r.1.len() - 1] == x);
            } else {
                assert(r.2[r.2.len() - 1] == x);
            }
        }
        assert forall|x: FileView| #[trigger] r.2.contains(x) implies !r.0.contains_key(x.file_hash) by {
            let k = choose|k: int| 0 <= k < r.2.len() && r.2[k] == x;
            if k < r0.2.len() {
                assert(r0.2[k] == x);
                assert(r0.2.contains(x));
            }
        }
    }
}

/// Where no candidate's key is in the blobs, nothing is deleted.
pub proof fn lemma_delete_blobs_none(b: BlobMap, c: Seq<FileView>)
    requires
        forall|i: int| 0 <= i < c.len() ==> !b.contains_key(#[trigger] c[i].file_hash),
    ensures
        delete_blobs(b, c).1.len() == 0,
        delete_blobs(b, c).0 == b,
    decreases c.len(),
{
    if c.len() > 0 {
        lemma_delete_blobs_none(b, c.drop_last());
        assert(c.drop_last().len() == c.len() - 1);
        assert(!b.contains_key(c[c.len() - 1].file_hash));
    }
}

/// A record of `m` that some deployment created after the cutoff links to
/// is not among the orphans.
proof fn lemma_deleted_are_orphans(m: CatalogModel, b: BlobMap, cutoff: i64, x: FileView)
    requires
        delete_blobs(b, m.orphans(cutoff)).1.contains(x),
    ensures
        m.files.contains(x),
        !m.referenced_after(x.file_id, cutoff),
{
    let c = m.orphans(cutoff);
    lemma_delete_blobs_parts(b, c);
    assert(c.contains(x));
    let j = choose|j: int| 0 <= j < c.len() && c[j] == x;
    m.files.lemma_filter_pred(orphan_pred(m, cutoff), j);
    lemma_filter_subset(m.files, orphan_pred(m, cutoff), j);
}

/// Deleting the candidates' blobs leaves every key that no candidate has.
pub proof fn lemma_delete_blobs_frame(b: BlobMap, c: Seq<FileView>, k: Seq<char>)
    requires
        forall|i: int| 0 <= i < c.len() ==> #[trigger] c[i].file_hash != k,
    ensures
        delete_blobs(b, c).0.contains_key(k) == b.contains_key(k),
    decreases c.len(),
{
    if c.len() > 0 {
        lemma_delete_blobs_frame(b, c.drop_last(), k);
        assert(c[c.len() - 1].file_hash != k);
    }
}

/// Where a key is in the blobs and some candidate has it, the key is deleted
/// and a candidate with that key is among the deleted.
pub proof fn lemma_delete_blobs_key(b: BlobMap, c: Seq<FileView>, k: Seq<char>, j: int)
    requires
        b.contains_key(k),
        0 <= j < c.len(),
        c[j].file_hash == k,
    ensures
        !delete_blobs(b, c).0.contains_key(k),
        exists|x: FileView| #[trigger] delete_blobs(b, c).1.contains(x) && x.file_hash == k,
    decreases c.len(),
{
    let c0 = c.drop_last();
    let r0 = delete_blobs(b, c0);
    let r = delete_blobs(b, c);
    if exists|i: int| 0 <= i < c0.len() && c0[i].file_hash == k {
        let i = choose|i: int| 0 <= i < c0.len() && c0[i].file_hash == k;
        lemma_delete_blobs_key(b, c0, k, i);
        let x = choose|x: FileView| #[trigger] r0.1.contains(x) && x.file_hash == k;
        let n = choose|n: int| 0 <= n < r0.1.len() && r0.1[n] == x;
        assert(r.1[n] == x);
        assert(r.1.contains(x));
    } else {
        assert forall|i: int| 0 <= i < c0.len() implies #[trigger] c0[i].file_hash != k by {}
        lemma_delete_blobs_frame(b, c0, k);
        if j < c.len() - 1 {
            assert(c0[j] == c[j]);
        }
        assert(j == c.len() - 1);
        assert(r.1[r.1.len() - 1] == c[j]);
        assert(r.1.contains(c[j]));
    }
}

/// Each element of a catalog's orphans is one of its records.
proof fn lemma_orphan_is_file(m: CatalogModel, cutoff: i64, j: int)
    requires
        0 <= j < m.orphans(cutoff).len(),
    ensures
        m.files.contains(m.orphans(cutoff)[j]),
        !m.referenced_after(m.orphans(cutoff)[j].file_id, cutoff),
{
    m.files.lemma_filter_pred(orphan_pred(m, cutoff), j);
    lemma_filter_subset(m.files, orphan_pred(m, cutoff), j);
}

/// Two records of a well-formed catalog with one hash are the same record.
proof fn lemma_same_hash_same_file(m: CatalogModel, x: FileView, y: FileView)
    requires
        m.wf(),
        m.files.contains(x),
        m.files.contains(y),
        x.file_hash == y.file_hash,
    ensures
        x == y,
{
    let i = choose|i: int| 0 <= i < m.files.len() && m.files[i] == x;
    let j = choose|j: int| 0 <= j < m.files.len() && m.files[j] == y;
    assert(i == j);
}

/// A collection deletes the blob of an orphan whose blob is present, lists
/// the orphan as deleted, and removes its record.
pub proof fn lemma_collect_removes_orphan(m: CatalogModel, b: BlobMap, cutoff: i64, f: FileView)
    requires
        m.wf(),
        m.files.contains(f),
        !m.referenced_after(f.file_id, cutoff),
        b.contains_key(f.file_hash),
    ensures
        collect_model(m, b, cutoff).deleted.contains(f),
        !collect_model(m, b, cutoff).blobs.contains_key(f.file_hash),
        !collect_model(m, b, cutoff).catalog.has_file_id(f.file_id),
{
    let c = m.orphans(cutoff);
    let run = collect_model(m, b, cutoff);
    let fi = choose|fi: int| 0 <= fi < m.files.len() && m.files[fi] == f;
    m.files.lemma_filter_contains(orphan_pred(m, cutoff), fi);
    let j = choose|j: int| 0 <= j < c.len() && c[j] == f;
    lemma_delete_blobs_key(b, c, f.file_hash, j);
    let x = choose|x: FileView| #[trigger] run.deleted.contains(x) && x.file_hash == f.file_hash;
    lemma_delete_blobs_parts(b, c);
    assert(c.contains(x));
    let jx = choose|jx: int| 0 <= jx < c.len() && c[jx] == x;
    lemma_orphan_is_file(m, cutoff, jx);
    lemma_same_hash_same_file(m, x, f);
    let n = choose|n: int| 0 <= n < run.deleted.len() && run.deleted[n] == x;
    let ids = ids_of(run.deleted);
    assert(ids[n] == f.file_id);
    assert(ids.contains(f.file_id));
    if run.catalog.has_file_id(f.file_id) {
        let i = choose|i: int| 0 <= i < run.catalog.files.len() && run.catalog.files[i].file_id == f.file_id;
        m.files.lemma_filter_pred(file_kept_pred(ids), i);
    }
}

/// Collection never removes a record that a deployment created after the
/// cutoff links to: the record stays, is not listed as deleted, and keeps
/// its blob.
pub proof fn lemma_collect_keeps_referenced(m: CatalogModel, b: BlobMap, cutoff: i64, f: FileView)
    requires
        m.wf(),
        m.files.contains(f),
        m.referenced_after(f.file_id, cutoff),
    ensures
        collect_model(m, b, cutoff).catalog.files.contains(f),
        !collect_model(m, b, cutoff).deleted.contains(f),
        collect_model(m, b, cutoff).blobs.contains_key(f.file_hash) == b.contains_key(f.file_hash),
{
    let c = m.orphans(cutoff);
    lemma_delete_blobs_parts(b, c);
    if collect_model(m, b, cutoff).deleted.contains(f) {
        lemma_deleted_are_orphans(m, b, cutoff, f);
    }
    assert forall|i: int| 0 <= i < c.len() implies #[trigger] c[i].file_hash != f.file_hash by {
        lemma_orphan_is_file(m, cutoff, i);
        if c[i].file_hash == f.file_hash {
            lemma_same_hash_same_file(m, c[i], f);
        }
    }
    lemma_delete_blobs_frame(b, c, f.file_hash);

    let del = delete_blobs(b, m.orphans(cutoff)).1;
    if ids_of(del).contains(f.file_id) {
        let k = choose|k: int| 0 <= k < ids_of(del).len() && ids_of(del)[k] == f.file_id;
        let x = del[k];
        assert(del.contains(x));
        lemma_deleted_are_orphans(m, b, cutoff, x);
        let i = choose|i: int| 0 <= i < m.files.len() && m.files[i] == f;
        let j = choose|j: int| 0 <= j < m.files.len() && m.files[j] == x;
        assert(x.file_id == f.file_id);
        assert(i == j);
    }
    m.files.lemma_filter_contains_rev(file_kept_pred(ids_of(del)), f);
}

/// Removing records keeps every link to the records that stay, so a record
/// that stays is referenced after the cutoff exactly as before.
proof fn lemma_kept_reference(m: CatalogModel, ids: Seq<i64>, fid: i64, cutoff: i64)
    requires
        !ids.contains(fid),
        m.referenced_after(fid, cutoff),
    ensures
        m.delete_files(ids).referenced_after(fid, cutoff),
{
    let m1 = m.delete_files(ids);
    let (l, d) = choose|l: int, d: int|
        0 <= l < m.links.len() && 0 <= d < m.deployments.len() && #[trigger] m.links[l].file_id == fid
            && #[trigger] m.deployments[d].deployment_id == m.links[l].deployment_id && m.deployments[d].created_at > cutoff;
    let link = m.links[l];
    assert(m.links.contains(link));
    m.links.lemma_filter_contains_rev(link_kept_pred(ids), link);
    assert(m1.links.contains(link));
    let l1 = choose|l1: int| 0 <= l1 < m1.links.len() && m1.links[l1] == link;
    assert(m1.links[l1].file_id == fid);
    assert(m1.deployments[d].deployment_id == m1.links[l1].deployment_id);
}

/// Collecting twice with the same cutoff and nothing in between deletes
/// nothing the second time.
pub proof fn lemma_collect_idempotent(m: CatalogModel, b: BlobMap, cutoff: i64)
    requires
        m.wf(),
    ensures
        ({
            let run1 = collect_model(m, b, cutoff);
            let run2 = collect_model(run1.catalog, run1.blobs, cutoff);
            &&& run2.deleted.len() == 0
            &&& run2.blobs == run1.blobs
            &&& run2.catalog.files == run1.catalog.files
            &&& run1.failed.len() == 0 ==> run1.catalog.orphans(cutoff).len() == 0 && run2.failed.len() == 0
        }),
{
    let run1 = collect_model(m, b, cutoff);
    let c = m.orphans(cutoff);
    let r = delete_blobs(b, c);
    let ids = ids_of(r.1);
    let m1 = run1.catalog;
    lemma_delete_blobs_parts(b, c);
    let c2 = m1.orphans(cutoff);
    assert forall|i: int| 0 <= i < c2.len() implies r.2.contains(c2[i]) && !run1.blobs.contains_key(#[trigger] c2[i].file_hash) by {
        let x = c2[i];
        m1.files.lemma_filter_pred(orphan_pred(m1, cutoff), i);
        lemma_filter_subset(m1.files, orphan_pred(m1, cutoff), i);
        assert(m1.files.contains(x));
        let j = choose|j: int| 0 <= j < m1.files.len() && m1.files[j] == x;
        m.files.lemma_filter_pred(file_kept_pred(ids), j);
        lemma_filter_subset(m.files, file_kept_pred(ids), j);
        assert(m.files.contains(x));
        assert(!m1.referenced_after(x.file_id, cutoff));
        
        assert(!ids.contains(x.file_id));
        if m.referenced_after(x.file_id, cutoff) {
            lemma_kept_reference(m, ids, x.file_id, cutoff);
        }
        m.files.lemma_filter_contains_rev(orphan_pred(m, cutoff), x);
        assert(c.contains(x));
        if r.1.contains(x) {
            let k = choose|k: int| 0 <= k < r.1.len() && r.1[k] == x;
            assert(ids[k] == x.file_id);
        }
        assert(r.2.contains(x));
    }
    if r.2.len() == 0 && c2.len() > 0 {
        assert(!run1.blobs.contains_key(c2[0].file_hash));
        assert(r.2.contains(c2[0]));
        let k = choose|k: int| 0 <= k < r.2.len() && r.2[k] == c2[0];
    }
    lemma_delete_blobs_none(run1.blobs, c2);
    let ids2 = ids_of(delete_blobs(run1.blobs, c2).1);
    assert(ids2 =~= Seq::<i64>::empty());
    assert(m1.files.filter(file_kept_pred(ids2)) =~= m1.files) by {
        m1.files.lemma_filter_eq_filter_alt(file_kept_pred(ids2));
        lemma_filter_all(m1.files, file_kept_pred(ids2));
    }
}

/// Each element of a filtered sequence is an element of the sequence.
proof fn lemma_filter_subset(s: Seq<FileView>, p: spec_fn(FileView) -> bool, i: int)
    requires
        0 <= i < s.filter(p).len(),
    ensures
        s.contains(s.filter(p)[i]),
    decreases s.len(),
{
    if s.len() > 0 {
        let s0 = s.drop_last();
        assert(s0.push(s.last()) =~= s);
        s0.lemma_filter_push(s.last(), p);
        if i < s0.filter(p).len() {
            lemma_filter_subset(s0, p, i);
            let j = choose|j: int| 0 <= j < s0.len() && s0[j] == s0.filter(p)[i];
            assert(s[j] == s0[j]);
        } else {
            assert(s[s.len() - 1] == s.filter(p)[i]);
        }
    } else {
        assert(s.filter(p).len() <= s.len()) by {
            s.lemma_filter_len(p);
        }
    }
}

proof fn lemma_filter_all(s: Seq<FileView>, p: spec_fn(FileView) -> bool)
    requires
        forall|x: FileView| #[trigger] p(x),
    ensures
        s.filter(p) == s,
    decreases s.len(),
{
    if s.len() > 0 {
        lemma_filter_all(s.drop_last(), p);
        s.drop_last().lemma_filter_push(s.last(), p);
        assert(s.drop_last().push(s.last()) =~= s);
    }
}

} // verus!
