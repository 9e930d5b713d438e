use site_engine::{
    ArchiveEntry, BlobError, BlobStore, Catalog, CatalogError, Deployment, DeploymentFile, IngestError,
};

const HI_SHA256: &str = "8f434346648f6b96df89dda901c5176b10a6d83961dd3c1ac88b59b2dc327aa4";

fn file_entry(path: &str, data: &[u8]) -> ArchiveEntry {
    ArchiveEntry { path: path.to_string(), is_dir: false, data: data.to_vec() }
}

fn dir_entry(path: &str) -> ArchiveEntry {
    ArchiveEntry { path: path.to_string(), is_dir: true, data: Vec::new() }
}

fn deploy(catalog: &mut Catalog, id: &str, created_at: i64) -> Deployment {
    Deployment::new(catalog, id.to_string(), "site".to_string(), None, created_at).unwrap()
}

fn links_of(catalog: &Catalog, id: &str) -> usize {
    catalog.links().iter().filter(|l| l.deployment_id == id).count()
}

#[test]
fn identical_archive_into_two_deployments() {
    let mut catalog = Catalog::new();
    let mut blobs = BlobStore::new();
    let archive = vec![file_entry("a.txt", b"hi"), file_entry("b.txt", b"hi"), dir_entry("dir/")];

    let d1 = deploy(&mut catalog, "d1", 100);
    assert_eq!(d1.upload_files(&mut catalog, &mut blobs, &archive), Ok(2));
    assert_eq!(catalog.files().len(), 1);
    assert_eq!(catalog.files()[0].file_hash, HI_SHA256);
    assert_eq!(catalog.files()[0].file_size, Some(2));
    assert_eq!(links_of(&catalog, "d1"), 2);
    assert_eq!(blobs.keys().len(), 1);
    assert_eq!(blobs.keys()[0], HI_SHA256);

    let d2 = deploy(&mut catalog, "d2", 200);
    assert_eq!(d2.upload_files(&mut catalog, &mut blobs, &archive), Ok(2));
    assert_eq!(catalog.files().len(), 1);
    assert_eq!(links_of(&catalog, "d2"), 2);
    assert_eq!(catalog.links().len(), 4);
    assert_eq!(blobs.keys().len(), 1);
}

#[test]
fn collect_past_only_deployment_removes_record_and_blob() {
    let mut catalog = Catalog::new();
    let mut blobs = BlobStore::new();
    let t0 = 1_700_000_000;
    let d = deploy(&mut catalog, "d", t0);
    d.upload_files(&mut catalog, &mut blobs, &vec![file_entry("index.html", b"hi")]).unwrap();
    let key = catalog.files()[0].file_hash.clone();

    let out = Deployment::cleanup_old_files(&mut catalog, &mut blobs, t0 + 1);
    assert_eq!(out.deleted.len(), 1);
    assert_eq!(out.deleted[0].file_hash, key);
    assert!(out.failed.is_empty());
    assert!(catalog.files().is_empty());
    assert!(catalog.links().is_empty());
    assert_eq!(blobs.get(&key), None);
    assert_eq!(blobs.delete(&key), Err(BlobError::NotFound));
}

#[test]
fn get_returns_what_put_stored() {
    let mut blobs = BlobStore::new();
    let key = "k".to_string();
    blobs.put(&key, &vec![1, 2, 3], &"text/plain".to_string());
    assert_eq!(blobs.get(&key), Some(vec![1, 2, 3]));
    blobs.put(&key, &vec![1, 2, 3], &"text/plain".to_string());
    assert_eq!(blobs.keys().len(), 1);
    assert_eq!(blobs.get(&key), Some(vec![1, 2, 3]));
    blobs.put(&key, &vec![], &String::new());
    assert_eq!(blobs.get(&key), Some(vec![]));
    assert_eq!(blobs.get(&"other".to_string()), None);
}

#[test]
fn same_content_under_two_deployments_is_stored_once() {
    let mut catalog = Catalog::new();
    let mut blobs = BlobStore::new();
    let d1 = deploy(&mut catalog, "d1", 1);
    let d2 = deploy(&mut catalog, "d2", 2);
    let data = b"same bytes".to_vec();
    let hash = "h".to_string();
    let mime = String::new();

    let first = d1.upload_file(&mut catalog, &mut blobs, &"x".to_string(), &hash, &mime, &data).unwrap();
    assert_eq!(first.is_new, Some(true));
    assert_eq!(blobs.keys().len(), 1);
    let second = d2.upload_file(&mut catalog, &mut blobs, &"y".to_string(), &hash, &mime, &data).unwrap();
    assert_eq!(second.is_new, Some(false));
    assert_eq!(second.file_id, first.file_id);
    assert_eq!(catalog.files().len(), 1);
    assert_eq!(blobs.keys().len(), 1);
    assert_eq!(catalog.links().len(), 2);
}

#[test]
fn links_made_are_entries_minus_directories() {
    let mut catalog = Catalog::new();
    let mut blobs = BlobStore::new();
    let d = deploy(&mut catalog, "d", 5);
    let archive = vec![
        dir_entry("assets/"),
        file_entry("assets/a.css", b"body{}"),
        dir_entry("img/"),
        file_entry("index.html", b"<html></html>"),
        file_entry("about.html", b"<html></html>"),
    ];
    assert_eq!(d.upload_files(&mut catalog, &mut blobs, &archive), Ok(3));
    assert_eq!(links_of(&catalog, "d"), 3);
    assert_eq!(catalog.files().len(), 2);
    assert_eq!(blobs.keys().len(), 2);
}

#[test]
fn collect_keeps_content_of_recent_deployments() {
    let mut catalog = Catalog::new();
    let mut blobs = BlobStore::new();
    let old = deploy(&mut catalog, "old", 10);
    let new = deploy(&mut catalog, "new", 30);
    old.upload_files(&mut catalog, &mut blobs, &vec![file_entry("shared", b"shared"), file_entry("gone", b"gone")]).unwrap();
    new.upload_files(&mut catalog, &mut blobs, &vec![file_entry("shared", b"shared")]).unwrap();

    let out = Deployment::cleanup_old_files(&mut catalog, &mut blobs, 20);
    assert_eq!(out.deleted.len(), 1);
    assert_eq!(catalog.files().len(), 1);
    assert_eq!(blobs.keys().len(), 1);
    assert_eq!(blobs.get(&blobs.keys()[0]).unwrap(), b"shared".to_vec());
    assert_eq!(links_of(&catalog, "old"), 1);
    assert_eq!(links_of(&catalog, "new"), 1);
}

#[test]
fn collect_twice_deletes_nothing_the_second_time() {
    let mut catalog = Catalog::new();
    let mut blobs = BlobStore::new();
    let d = deploy(&mut catalog, "d", 10);
    d.upload_files(&mut catalog, &mut blobs, &vec![file_entry("a", b"a"), file_entry("b", b"b")]).unwrap();
    // The blob of one record is already gone: its delete fails and the record stays.
    let lost = catalog.files()[1].file_hash.clone();
    blobs.delete(&lost).unwrap();

    let first = Deployment::cleanup_old_files(&mut catalog, &mut blobs, 11);
    assert_eq!(first.deleted.len(), 1);
    assert_eq!(first.failed.len(), 1);
    assert_eq!(first.failed[0].file_hash, lost);
    assert_eq!(catalog.files().len(), 1);

    let second = Deployment::cleanup_old_files(&mut catalog, &mut blobs, 11);
    assert!(second.deleted.is_empty());
    assert_eq!(second.failed.len(), 1);
    assert_eq!(catalog.files().len(), 1);
}

#[test]
fn directory_only_archive_touches_nothing() {
    let mut catalog = Catalog::new();
    let mut blobs = BlobStore::new();
    let d = deploy(&mut catalog, "d", 1);
    let archive = vec![dir_entry("a/"), dir_entry("a/b/")];
    assert_eq!(d.upload_files(&mut catalog, &mut blobs, &archive), Ok(0));
    assert!(catalog.files().is_empty());
    assert!(catalog.links().is_empty());
    assert!(blobs.keys().is_empty());
    assert_eq!(catalog.next_file_id(), 1);
}

#[test]
fn duplicate_path_in_archive_fails() {
    let mut catalog = Catalog::new();
    let mut blobs = BlobStore::new();
    let d = deploy(&mut catalog, "d", 1);
    let archive = vec![file_entry("x", b"one"), file_entry("x", b"two"), file_entry("y", b"three")];
    assert_eq!(d.upload_files(&mut catalog, &mut blobs, &archive), Err(IngestError::DuplicatePath));
    // The records and blobs stay for a collection to reclaim; the links go.
    assert_eq!(catalog.files().len(), 2);
    assert_eq!(blobs.keys().len(), 2);
    assert_eq!(catalog.links().len(), 0);
    // A retry under new paths succeeds, reusing the records.
    let fixed = vec![file_entry("x", b"one"), file_entry("z", b"two")];
    assert_eq!(d.upload_files(&mut catalog, &mut blobs, &fixed), Ok(2));
    assert_eq!(catalog.files().len(), 2);
    assert_eq!(catalog.links().len(), 2);
}

#[test]
fn duplicate_deployment_id_fails() {
    let mut catalog = Catalog::new();
    deploy(&mut catalog, "d", 1);
    let again = Deployment::new(&mut catalog, "d".to_string(), "other".to_string(), None, 2);
    assert!(matches!(again, Err(CatalogError::DuplicateDeployment)));
    assert_eq!(catalog.deployments().len(), 1);
}

#[test]
fn get_by_id_finds_or_reports_missing() {
    let mut catalog = Catalog::new();
    Deployment::new(&mut catalog, "d".to_string(), "s".to_string(), Some("preview".to_string()), 42).unwrap();
    let d = Deployment::get_by_id(&catalog, &"d".to_string()).unwrap();
    assert_eq!(d.site_id, "s");
    assert_eq!(d.context, Some("preview".to_string()));
    assert_eq!(d.created_at, 42);
    assert!(matches!(Deployment::get_by_id(&catalog, &"nope".to_string()), Err(CatalogError::NotFound)));
}

#[test]
fn exhausted_ids_stop_ingestion() {
    let mut catalog = Catalog::starting_at(i64::MAX);
    let mut blobs = BlobStore::new();
    let d = deploy(&mut catalog, "d", 1);
    let r = d.upload_files(&mut catalog, &mut blobs, &vec![file_entry("x", b"x")]);
    assert_eq!(r, Err(IngestError::Catalog(CatalogError::IdsExhausted)));
    assert!(catalog.files().is_empty());
    assert!(blobs.keys().is_empty());
}

#[test]
fn deployment_files_carry_sizes() {
    let mut catalog = Catalog::new();
    let mut blobs = BlobStore::new();
    let d = deploy(&mut catalog, "d", 1);
    let other = deploy(&mut catalog, "e", 1);
    d.upload_files(&mut catalog, &mut blobs, &vec![file_entry("a", b"abc"), file_entry("b", b"hello")]).unwrap();
    other.upload_files(&mut catalog, &mut blobs, &vec![file_entry("c", b"zz")]).unwrap();
    let entries = DeploymentFile::get_deployment_files(&catalog, &"d".to_string());
    assert_eq!(entries.len(), 2);
    assert_eq!(entries[0].deployment_file_file_path, "a");
    assert_eq!(entries[0].file_size, Some(3));
    assert_eq!(entries[1].deployment_file_file_path, "b");
    assert_eq!(entries[1].file_size, Some(5));
    assert_eq!(entries[1].deployment_file_deployment_id, "d");
}

#[test]
fn mime_type_is_sniffed_from_bytes() {
    let png = [0x89u8, 0x50, 0x4E, 0x47, 0x0D, 0x0A, 0x1A, 0x0A, 0, 0, 0, 0];
    assert_eq!(site_engine::sniff_mime_type(&png), "image/png");
    assert_eq!(site_engine::sniff_mime_type(b"plain words"), "");

    let mut catalog = Catalog::new();
    let mut blobs = BlobStore::new();
    let d = deploy(&mut catalog, "d", 1);
    d.upload_files(&mut catalog, &mut blobs, &vec![file_entry("logo.png", &png)]).unwrap();
    assert_eq!(catalog.links()[0].mime_type, "image/png");
    assert_eq!(blobs.get_content_type(&blobs.keys()[0]).unwrap(), "image/png");
}
