//! A content-addressed store for site deployments: archive entries are
//! deduplicated by hash, each distinct content is stored once, and content
//! that no recent deployment links to is reclaimed.

mod blob;
mod catalog;
mod content;
mod gc;
mod ingest;
mod laws;
mod model;

pub use blob::{BlobError, BlobMap, BlobStore, StoredObject};
pub use catalog::{Catalog, CatalogModel};
pub use content::{is_lower_hex_digit, mime_of, sha256_hex, sniff_mime_type, sniffed_mime};
pub use gc::{collect_model, delete_blobs, ids_of, CollectOutcome, CollectRun};
pub use ingest::{ingest_archive, ingest_model, lemma_store_step_links, sizes_fit, store_step, ArchiveEntryView, IngestRun, StepRun};
pub use laws::{
    lemma_archive_directories_skipped, lemma_archive_link_count, lemma_collect_removes_orphan,
    lemma_delete_blobs_frame, lemma_delete_blobs_key, lemma_ingest_known_hash, lemma_ingest_stores_entries,
    lemma_identical_content_across_ingestions, lemma_ingest_wf, lemma_store_step_known_hash,
    directory_count, lemma_collect_idempotent, lemma_collect_keeps_referenced, lemma_delete_blobs_none,
    lemma_delete_blobs_parts, lemma_directories_skipped, lemma_get_after_put,
    lemma_identical_content_stored_once, lemma_ingest_link_count, lemma_upsert_wf, without_directories,
};
pub use model::{
    ArchiveEntry, CatalogError, Deployment, DeploymentFile, DeploymentFileEntry, DeploymentView, EntryView,
    File, FileView, IngestError, LinkView, NewlyCreatedFile,
};
