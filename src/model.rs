use vstd::prelude::*;

verus! {

/// A deployment of a site. Created once and never changed.
pub struct Deployment {
    pub deployment_id: String,
    pub site_id: String,
    pub context: Option<String>,
    /// Creation time, in seconds since the Unix epoch.
    pub created_at: i64,
}

/// A stored content, identified by the hash of its bytes.
pub struct File {
    pub file_id: i64,
    pub file_hash: String,
    pub file_size: Option<i64>,
}

/// A link from a deployment's path to a stored content.
pub struct DeploymentFile {
    pub deployment_id: String,
    pub file_id: i64,
    pub file_path: String,
    pub mime_type: String,
}

/// The answer of an insert-or-fetch by hash: the file's id, and whether
/// this call created it.
pub struct NewlyCreatedFile {
    pub file_id: Option<i64>,
    pub is_new: Option<bool>,
}

/// A link of a deployment joined with the size of the content it names.
pub struct DeploymentFileEntry {
    pub deployment_file_deployment_id: String,
    pub deployment_file_file_id: i64,
    pub deployment_file_file_path: String,
    pub deployment_file_mime_type: String,
    pub file_size: Option<i64>,
}

/// One entry of a decoded archive. A directory entry carries no bytes.
pub struct ArchiveEntry {
    pub path: String,
    pub is_dir: bool,
    pub data: Vec<u8>,
}

/// The mathematical view of a deployment.
pub struct DeploymentView {
    pub deployment_id: Seq<char>,
    pub site_id: Seq<char>,
    pub context: Option<Seq<char>>,
    pub created_at: i64,
}

/// The mathematical view of a file record.
pub struct FileView {
    pub file_id: i64,
    pub file_hash: Seq<char>,
    pub file_size: Option<i64>,
}

/// The mathematical view of a deployment's link to a file record.
pub struct LinkView {
    pub deployment_id: Seq<char>,
    pub file_id: i64,
    pub file_path: Seq<char>,
    pub mime_type: Seq<char>,
}

/// The mathematical view of a joined link.
pub struct EntryView {
    pub deployment_id: Seq<char>,
    pub file_id: i64,
    pub file_path: Seq<char>,
    pub mime_type: Seq<char>,
    pub file_size: Option<i64>,
}

pub open spec fn opt_view(o: Option<String>) -> Option<Seq<char>> {
    match o {
        Some(s) => Some(s@),
        None => None,
    }
}

impl View for Deployment {
    type V = DeploymentView;

    open spec fn view(&self) -> DeploymentView {
        DeploymentView {
            deployment_id: self.deployment_id@,
            site_id: self.site_id@,
            context: opt_view(self.context),
            created_at: self.created_at,
        }
    }
}

impl View for File {
    type V = FileView;

    open spec fn view(&self) -> FileView {
        FileView { file_id: self.file_id, file_hash: self.file_hash@, file_size: self.file_size }
    }
}

impl View for DeploymentFile {
    type V = LinkView;

    open spec fn view(&self) -> LinkView {
        LinkView {
            deployment_id: self.deployment_id@,
            file_id: self.file_id,
            file_path: self.file_path@,
            mime_type: self.mime_type@,
        }
    }
}

impl View for DeploymentFileEntry {
    type V = EntryView;

    open spec fn view(&self) -> EntryView {
        EntryView {
            deployment_id: self.deployment_file_deployment_id@,
            file_id: self.deployment_file_file_id,
            file_path: self.deployment_file_file_path@,
            mime_type: self.deployment_file_mime_type@,
            file_size: self.file_size,
        }
    }
}

pub fn copy_opt_string(o: &Option<String>) -> (r: Option<String>)
    ensures
        opt_view(r) == opt_view(*o),
{
    match o {
        Some(s) => Some(s.clone()),
        None => None,
    }
}

impl Deployment {
    pub fn copy(&self) -> (r: Deployment)
        ensures
            r@ == self@,
    {
        Deployment {
            deployment_id: self.deployment_id.clone(),
            site_id: self.site_id.clone(),
            context: copy_opt_string(&self.context),
            created_at: self.created_at,
        }
    }
}

impl File {
    pub fn copy(&self) -> (r: File)
        ensures
            r@ == self@,
    {
        File { file_id: self.file_id, file_hash: self.file_hash.clone(), file_size: self.file_size }
    }
}

#[derive(Clone, Copy, Debug, PartialEq, Eq, Structural)]
pub enum CatalogError {
    /// A deployment with this id already exists.
    DuplicateDeployment,
    /// The deployment already has a link at this path.
    DuplicatePath,
    /// No deployment has this id.
    NotFound,
    /// Every file id has been handed out.
    IdsExhausted,
}

#[derive(Clone, Copy, Debug, PartialEq, Eq, Structural)]
pub enum IngestError {
    /// The archive could not be decoded.
    ArchiveCorrupt,
    /// Two entries of one archive share a path.
    DuplicatePath,
    /// The catalog refused an operation.
    Catalog(CatalogError),
}

} // verus!
