use crate::model::{
    CatalogError, Deployment, DeploymentFile, DeploymentFileEntry, DeploymentView, EntryView, File,
    FileView, LinkView, NewlyCreatedFile,
};
use vstd::prelude::*;

verus! {

/// The mathematical view of the catalog: deployments, file records, links,
/// and the next surrogate id to hand out.
pub struct CatalogModel {
    pub deployments: Seq<DeploymentView>,
    pub files: Seq<FileView>,
    pub links: Seq<LinkView>,
    pub next_file_id: i64,
}

pub open spec fn deployments_view(s: Seq<Deployment>) -> Seq<DeploymentView> {
    s.map_values(|d: Deployment| d@)
}

pub open spec fn files_view(s: Seq<File>) -> Seq<FileView> {
    s.map_values(|f: File| f@)
}

pub open spec fn links_view(s: Seq<DeploymentFile>) -> Seq<LinkView> {
    s.map_values(|l: DeploymentFile| l@)
}

pub open spec fn entries_view(s: Seq<DeploymentFileEntry>) -> Seq<EntryView> {
    s.map_values(|e: DeploymentFileEntry| e@)
}

/// The files of `files` that no deployment of `m` created after `cutoff` links to.
pub open spec fn orphans_of(m: CatalogModel, files: Seq<FileView>, cutoff: i64) -> Seq<FileView> {
    files.filter(orphan_pred(m, cutoff))
}

pub open spec fn orphan_pred(m: CatalogModel, cutoff: i64) -> spec_fn(FileView) -> bool {
    |f: FileView| !m.referenced_after(f.file_id, cutoff)
}

pub open spec fn file_kept_pred(ids: Seq<i64>) -> spec_fn(FileView) -> bool {
    |f: FileView| !ids.contains(f.file_id)
}

pub open spec fn link_kept_pred(ids: Seq<i64>) -> spec_fn(LinkView) -> bool {
    |l: LinkView| !ids.contains(l.file_id)
}

/// The files of `files` whose id is not among `ids`.
pub open spec fn files_kept(files: Seq<FileView>, ids: Seq<i64>) -> Seq<FileView> {
    files.filter(file_kept_pred(ids))
}

/// The links of `links` whose file id is not among `ids`.
pub open spec fn links_kept(links: Seq<LinkView>, ids: Seq<i64>) -> Seq<LinkView> {
    links.filter(link_kept_pred(ids))
}

/// The links of `links` that belong to deployment `d`, joined with the size
/// of the file record they name; a link whose record is gone is left out.
pub open spec fn entries_of(m: CatalogModel, links: Seq<LinkView>, d: Seq<char>) -> Seq<EntryView> {
    links.filter_map(entry_fn(m, d))
}

pub open spec fn entry_fn(m: CatalogModel, d: Seq<char>) -> spec_fn(LinkView) -> Option<EntryView> {
    |l: LinkView|
            if l.deployment_id == d && m.has_file_id(l.file_id) {
                Some(
                    EntryView {
                        deployment_id: l.deployment_id,
                        file_id: l.file_id,
                        file_path: l.file_path,
                        mime_type: l.mime_type,
                        file_size: m.file_with_id(l.file_id).file_size,
                    },
                )
            } else {
                None
            }
}

pub proof fn lemma_filter_step<A>(s: Seq<A>, p: spec_fn(A) -> bool, i: int)
    requires
        0 <= i < s.len(),
    ensures
        s.subrange(0, i + 1).filter(p) == if p(s[i]) {
            s.subrange(0, i).filter(p).push(s[i])
        } else {
            s.subrange(0, i).filter(p)
        },
{
    assert(s.subrange(0, i + 1) =~= s.subrange(0, i).push(s[i]));
    s.subrange(0, i).lemma_filter_push(s[i], p);
}

pub proof fn lemma_filter_map_step<A, B>(s: Seq<A>, f: spec_fn(A) -> Option<B>, i: int)
    requires
        0 <= i < s.len(),
    ensures
        s.subrange(0, i + 1).filter_map(f) == match f(s[i]) {
            Some(b) => s.subrange(0, i).filter_map(f).push(b),
            None => s.subrange(0, i).filter_map(f),
        },
{
    s.lemma_filter_map_take_succ(f, i);
    assert(s.take(i + 1) == s.subrange(0, i + 1));
    assert(s.take(i) == s.subrange(0, i));
    match f(s[i]) {
        Some(b) => {
            assert(s.subrange(0, i).filter_map(f) + seq![b] =~= s.subrange(0, i).filter_map(f).push(b));
        },
        None => {
            assert(s.subrange(0, i).filter_map(f) + Seq::empty() =~= s.subrange(0, i).filter_map(f));
        },
    }
}

/// The answer of an insert-or-fetch, as the catalog hands it out.
pub open spec fn as_newly_created(r: Result<(i64, bool), CatalogError>) -> Result<NewlyCreatedFile, CatalogError> {
    match r {
        Ok((id, is_new)) => Ok(NewlyCreatedFile { file_id: Some(id), is_new: Some(is_new) }),
        Err(e) => Err(e),
    }
}

impl CatalogModel {
    /// One record per hash, one record per id, ids below the next one to
    /// hand out, and one deployment per id.
    pub open spec fn wf(self) -> bool {
        &&& forall|i: int, j: int|
            0 <= i < self.files.len() && 0 <= j < self.files.len() && i != j
                ==> self.files[i].file_hash != self.files[j].file_hash && self.files[i].file_id
                != self.files[j].file_id
        &&& forall|i: int| 0 <= i < self.files.len() ==> 0 < #[trigger] self.files[i].file_id < self.next_file_id
        &&& forall|i: int, j: int|
            0 <= i < self.deployments.len() && 0 <= j < self.deployments.len() && i != j
                ==> self.deployments[i].deployment_id != self.deployments[j].deployment_id
        &&& 0 < self.next_file_id
    }

    pub open spec fn empty() -> CatalogModel {
        CatalogModel { deployments: Seq::empty(), files: Seq::empty(), links: Seq::empty(), next_file_id: 1 }
    }

    pub open spec fn has_deployment(self, id: Seq<char>) -> bool {
        exists|i: int| 0 <= i < self.deployments.len() && self.deployments[i].deployment_id == id
    }

    pub open spec fn deployment(self, id: Seq<char>) -> DeploymentView {
        self.deployments[choose|i: int| 0 <= i < self.deployments.len() && self.deployments[i].deployment_id == id]
    }

    /// Records a new deployment, unless one with its id exists.
    pub open spec fn add_deployment(self, d: DeploymentView) -> (CatalogModel, Result<(), CatalogError>) {
        if self.has_deployment(d.deployment_id) {
            (self, Err(CatalogError::DuplicateDeployment))
        } else {
            (CatalogModel { deployments: self.deployments.push(d), ..self }, Ok(()))
        }
    }

    pub open spec fn has_hash(self, h: Seq<char>) -> bool {
        exists|i: int| 0 <= i < self.files.len() && self.files[i].file_hash == h
    }

    pub open spec fn has_file_id(self, id: i64) -> bool {
        exists|i: int| 0 <= i < self.files.len() && self.files[i].file_id == id
    }

    pub open spec fn file_with_id(self, id: i64) -> FileView {
        self.files[choose|i: int| 0 <= i < self.files.len() && self.files[i].file_id == id]
    }

    /// Insert-or-fetch by hash: the existing record's id, or a new record
    /// with the next id; the flag says which.
    pub open spec fn upsert(self, h: Seq<char>, size: i64) -> (CatalogModel, Result<(i64, bool), CatalogError>) {
        if self.has_hash(h) {
            let i = choose|i: int| 0 <= i < self.files.len() && self.files[i].file_hash == h;
            (self, Ok((self.files[i].file_id, false)))
        } else if self.next_file_id == i64::MAX {
            (self, Err(CatalogError::IdsExhausted))
        } else {
            (
                CatalogModel {
                    files: self.files.push(FileView { file_id: self.next_file_id, file_hash: h, file_size: Some(size) }),
                    next_file_id: (self.next_file_id + 1) as i64,
                    ..self
                },
                Ok((self.next_file_id, true)),
            )
        }
    }

    pub open spec fn has_link(self, d: Seq<char>, path: Seq<char>) -> bool {
        exists|i: int| 0 <= i < self.links.len() && self.links[i].deployment_id == d && self.links[i].file_path == path
    }

    /// Adds a link, unless its deployment already has one at its path.
    pub open spec fn link(self, l: LinkView) -> (CatalogModel, Result<(), CatalogError>) {
        if self.has_link(l.deployment_id, l.file_path) {
            (self, Err(CatalogError::DuplicatePath))
        } else {
            (CatalogModel { links: self.links.push(l), ..self }, Ok(()))
        }
    }

    /// Some deployment created after `cutoff` links to the file id.
    pub open spec fn referenced_after(self, file_id: i64, cutoff: i64) -> bool {
        exists|l: int, d: int|
            0 <= l < self.links.len() && 0 <= d < self.deployments.len() && #[trigger] self.links[l].file_id == file_id
                && #[trigger] self.deployments[d].deployment_id == self.links[l].deployment_id
                && self.deployments[d].created_at > cutoff
    }

    pub open spec fn orphans(self, cutoff: i64) -> Seq<FileView> {
        orphans_of(self, self.files, cutoff)
    }

    /// Removes the records with the given ids, and the links to them.
    pub open spec fn delete_files(self, ids: Seq<i64>) -> CatalogModel {
        CatalogModel { files: files_kept(self.files, ids), links: links_kept(self.links, ids), ..self }
    }

    pub open spec fn entries(self, d: Seq<char>) -> Seq<EntryView> {
        entries_of(self, self.links, d)
    }
}

/// The catalog: deployments, content-addressed file records and the links
/// between them.
pub struct Catalog {
    deployments: Vec<Deployment>,
    files: Vec<File>,
    links: Vec<DeploymentFile>,
    next_file_id: i64,
}

impl View for Catalog {
    type V = CatalogModel;

    closed spec fn view(&self) -> CatalogModel {
        CatalogModel {
            deployments: deployments_view(self.deployments@),
            files: files_view(self.files@),
            links: links_view(self.links@),
            next_file_id: self.next_file_id,
        }
    }
}

pub fn contains_id(ids: &Vec<i64>, id: i64) -> (r: bool)
    ensures
        r == ids@.contains(id),
{
    let mut i: usize = 0;
    while i < ids.len()
        invariant
            i <= ids@.len(),
            forall|j: int| 0 <= j < i ==> ids@[j] != id,
        decreases ids@.len() - i,
    {
        if ids[i] == id {
            return true;
        }
        i = i + 1;
    }
    false
}

impl Catalog {
    pub open spec fn wf(&self) -> bool {
        self@.wf()
    }

    pub fn new() -> (r: Catalog)
        ensures
            r.wf(),
            r@ == CatalogModel::empty(),
    {
        let r = Catalog { deployments: Vec::new(), files: Vec::new(), links: Vec::new(), next_file_id: 1 };
        assert(r@.deployments =~= Seq::empty());
        assert(r@.files =~= Seq::empty());
        assert(r@.links =~= Seq::empty());
        r
    }

    /// An empty catalog whose next file id is `next_file_id`, as when a
    /// catalog resumes an id sequence.
    pub fn starting_at(next_file_id: i64) -> (r: Catalog)
        requires
            0 < next_file_id,
        ensures
            r.wf(),
            r@ == (CatalogModel { next_file_id, ..CatalogModel::empty() }),
    {
        let r = Catalog { deployments: Vec::new(), files: Vec::new(), links: Vec::new(), next_file_id };
        assert(r@.deployments =~= Seq::empty());
        assert(r@.files =~= Seq::empty());
        assert(r@.links =~= Seq::empty());
        r
    }

    pub fn deployments(&self) -> (r: &Vec<Deployment>)
        ensures
            deployments_view(r@) == self@.deployments,
    {
        &self.deployments
    }

    pub fn files(&self) -> (r: &Vec<File>)
        ensures
            files_view(r@) == self@.files,
    {
        &self.files
    }

    pub fn links(&self) -> (r: &Vec<DeploymentFile>)
        ensures
            links_view(r@) == self@.links,
    {
        &self.links
    }

    pub fn next_file_id(&self) -> (r: i64)
        ensures
            r == self@.next_file_id,
    {
        self.next_file_id
    }

    fn find_deployment(&self, id: &String) -> (r: Option<usize>)
        ensures
            r matches Some(i) ==> i < self.deployments@.len() && self.deployments@[i as int].deployment_id@ == id@,
            r is None ==> !self@.has_deployment(id@),
    {
        let mut i: usize = 0;
        while i < self.deployments.len()
            invariant
                i <= self.deployments@.len(),
                forall|j: int| 0 <= j < i ==> self.deployments@[j].deployment_id@ != id@,
            decreases self.deployments@.len() - i,
        {
            if self.deployments[i].deployment_id == *id {
                return Some(i);
            }
            i = i + 1;
        }
        None
    }

    fn find_file_id(&self, id: i64) -> (r: Option<usize>)
        ensures
            r matches Some(i) ==> i < self.files@.len() && self.files@[i as int].file_id == id,
            r is None ==> !self@.has_file_id(id),
    {
        let mut i: usize = 0;
        while i < self.files.len()
            invariant
                i <= self.files@.len(),
                forall|j: int| 0 <= j < i ==> self.files@[j].file_id != id,
            decreases self.files@.len() - i,
        {
            if self.files[i].file_id == id {
                return Some(i);
            }
            i = i + 1;
        }
        None
    }

    /// Records a deployment; fails where one with its id exists.
    pub fn create_deployment(&mut self, deployment: Deployment) -> (r: Result<Deployment, CatalogError>)
        requires
            old(self).wf(),
        ensures
            final(self).wf(),
            final(self)@ == old(self)@.add_deployment(deployment@).0,
            r is Ok <==> old(self)@.add_deployment(deployment@).1 is Ok,
            r matches Ok(d) ==> d@ == deployment@,
            r matches Err(e) ==> e == CatalogError::DuplicateDeployment,
    {
        match self.find_deployment(&deployment.deployment_id) {
            Some(i) => {
                assert(self@.deployments[i as int].deployment_id == deployment@.deployment_id);
                Err(CatalogError::DuplicateDeployment)
            },
            None => {
                let copy = deployment.copy();
                self.deployments.push(deployment);
                assert(self@.deployments =~= old(self)@.deployments.push(copy@));
                assert(self@.deployments[self@.deployments.len() - 1].deployment_id == copy@.deployment_id);
                Ok(copy)
            },
        }
    }

    /// The deployment with the given id.
    pub fn get_deployment(&self, id: &String) -> (r: Result<Deployment, CatalogError>)
        requires
            self.wf(),
        ensures
            r is Ok <==> self@.has_deployment(id@),
            r matches Ok(d) ==> d@ == self@.deployment(id@),
            r matches Err(e) ==> e == CatalogError::NotFound,
    {
        match self.find_deployment(id) {
            Some(i) => {
                assert(self@.deployments[i as int].deployment_id == id@);
                Ok(self.deployments[i].copy())
            },
            None => Err(CatalogError::NotFound),
        }
    }

    /// Inserts a record for the hash unless one exists, and answers with the
    /// record's id and whether this call created it.
    pub fn upsert_file_by_hash(&mut self, hash: &String, size: i64) -> (r: Result<NewlyCreatedFile, CatalogError>)
        requires
            old(self).wf(),
        ensures
            final(self).wf(),
            final(self)@ == old(self)@.upsert(hash@, size).0,
            r == as_newly_created(old(self)@.upsert(hash@, size).1),
    {
        let mut i: usize = 0;
        while i < self.files.len()
            invariant
                self@ == old(self)@,
                old(self).wf(),
                i <= self.files@.len(),
                forall|j: int| 0 <= j < i ==> self.files@[j].file_hash@ != hash@,
            decreases self.files@.len() - i,
        {
            if self.files[i].file_hash == *hash {
                assert(self@.files[i as int].file_hash == hash@);
                let ghost j = choose|j: int| 0 <= j < self@.files.len() && self@.files[j].file_hash == hash@;
                assert(j == i);
                return Ok(NewlyCreatedFile { file_id: Some(self.files[i].file_id), is_new: Some(false) });
            }
            i = i + 1;
        }
        assert(!self@.has_hash(hash@));
        if self.next_file_id == i64::MAX {
            return Err(CatalogError::IdsExhausted);
        }
        let id = self.next_file_id;
        let ghost rec = FileView { file_id: id, file_hash: hash@, file_size: Some(size) };
        self.files.push(File { file_id: id, file_hash: hash.clone(), file_size: Some(size) });
        self.next_file_id = id + 1;
        assert(self@.files =~= old(self)@.files.push(rec));
        Ok(NewlyCreatedFile { file_id: Some(id), is_new: Some(true) })
    }

    /// Links the deployment's path to a file record; fails where the
    /// deployment already has a link at that path.
    pub fn link_file(&mut self, deployment_id: &String, file_id: i64, path: &String, mime_type: &String) -> (r: Result<(), CatalogError>)
        requires
            old(self).wf(),
        ensures
            final(self).wf(),
            (final(self)@, r) == old(self)@.link(
                LinkView { deployment_id: deployment_id@, file_id, file_path: path@, mime_type: mime_type@ },
            ),
    {
        let mut i: usize = 0;
        while i < self.links.len()
            invariant
                self@ == old(self)@,
                old(self).wf(),
                i <= self.links@.len(),
                forall|j: int|
                    0 <= j < i ==> !(self.links@[j].deployment_id@ == deployment_id@ && self.links@[j].file_path@ == path@),
            decreases self.links@.len() - i,
        {
            if self.links[i].deployment_id == *deployment_id && self.links[i].file_path == *path {
                assert(self@.links[i as int].deployment_id == deployment_id@);
                assert(self@.links[i as int].file_path == path@);
                return Err(CatalogError::DuplicatePath);
            }
            i = i + 1;
        }
        let link = DeploymentFile {
            deployment_id: deployment_id.clone(),
            file_id,
            file_path: path.clone(),
            mime_type: mime_type.clone(),
        };
        let ghost lv = link@;
        self.links.push(link);
        assert(self@.links =~= old(self)@.links.push(lv));
        Ok(())
    }

    /// Whether some deployment created after `cutoff` links to the file id.
    fn referenced_after(&self, file_id: i64, cutoff: i64) -> (r: bool)
        requires
            self.wf(),
        ensures
            r == self@.referenced_after(file_id, cutoff),
    {
        let mut i: usize = 0;
        while i < self.links.len()
            invariant
                self.wf(),
                i <= self.links@.len(),
                forall|l: int, d: int|
                    0 <= l < i && 0 <= d < self@.deployments.len() ==> !(#[trigger] self@.links[l].file_id == file_id
                        && #[trigger] self@.deployments[d].deployment_id == self@.links[l].deployment_id
                        && self@.deployments[d].created_at > cutoff),
            decreases self.links@.len() - i,
        {
            if self.links[i].file_id == file_id {
                match self.find_deployment(&self.links[i].deployment_id) {
                    Some(d) => {
                        if self.deployments[d].created_at > cutoff {
                            assert(self@.links[i as int].file_id == file_id);
                            assert(self@.deployments[d as int].deployment_id == self@.links[i as int].deployment_id);
                            return true;
                        }
                        assert forall|d2: int| 0 <= d2 < self@.deployments.len()
                            && #[trigger] self@.deployments[d2].deployment_id == self@.links[i as int].deployment_id
                            implies self@.deployments[d2].created_at <= cutoff by {
                            assert(self@.deployments[d as int].deployment_id == self@.links[i as int].deployment_id);
                        }
                    },
                    None => {},
                }
            }
            i = i + 1;
        }
        false
    }

    /// The file records that no deployment created after `cutoff` links to.
    pub fn list_orphan_files(&self, cutoff: i64) -> (r: Vec<File>)
        requires
            self.wf(),
        ensures
            files_view(r@) == self@.orphans(cutoff),
    {
        let mut out: Vec<File> = Vec::new();
        let mut i: usize = 0;
        while i < self.files.len()
            invariant
                self.wf(),
                i <= self.files@.len(),
                files_view(out@) == orphans_of(self@, self@.files.subrange(0, i as int), cutoff),
            decreases self.files@.len() - i,
        {
            let ghost before = out@;
            proof { lemma_filter_step(self@.files, orphan_pred(self@, cutoff), i as int); }
            if !self.referenced_after(self.files[i].file_id, cutoff) {
                out.push(self.files[i].copy());
                assert(files_view(out@) =~= files_view(before).push(self@.files[i as int]));
            }
            i = i + 1;
        }
        assert(self@.files.subrange(0, self.files@.len() as int) =~= self@.files);
        out
    }

    /// Removes the file records with the given ids, and every link to them.
    pub fn delete_files(&mut self, ids: &Vec<i64>)
        requires
            old(self).wf(),
        ensures
            final(self).wf(),
            final(self)@ == old(self)@.delete_files(ids@),
    {
        let ghost m = self@;
        let mut kept: Vec<File> = Vec::new();
        let mut i: usize = 0;
        while i < self.files.len()
            invariant
                self@ == m,
                m.wf(),
                i <= self.files@.len(),
                files_view(kept@) == files_kept(m.files.subrange(0, i as int), ids@),
                forall|k: int| #![trigger kept@[k]] 0 <= k < kept@.len() ==> exists|j: int| 0 <= j < i && m.files[j] == kept@[k]@,
                forall|a: int, b: int|
                    0 <= a < kept@.len() && 0 <= b < kept@.len() && a != b ==> kept@[a].file_hash@ != kept@[b].file_hash@
                        && kept@[a].file_id != kept@[b].file_id,
            decreases self.files@.len() - i,
        {
            let ghost before = kept@;
            proof { lemma_filter_step(m.files, file_kept_pred(ids@), i as int); }
            if !contains_id(ids, self.files[i].file_id) {
                let f = self.files[i].copy();
                kept.push(f);
                assert(files_view(kept@) =~= files_view(before).push(m.files[i as int]));
                assert forall|k: int| #![trigger kept@[k]] 0 <= k < kept@.len() implies exists|j: int| 0 <= j < i + 1 && m.files[j] == kept@[k]@ by {
                    if k < before.len() {
                        assert(kept@[k] == before[k]);
                    } else {
                        assert(m.files[i as int] == kept@[k]@);
                    }
                }
            }
            i = i + 1;
        }
        let mut kept_links: Vec<DeploymentFile> = Vec::new();
        let mut i: usize = 0;
        while i < self.links.len()
            invariant
                self@ == m,
                i <= self.links@.len(),
                links_view(kept_links@) == links_kept(m.links.subrange(0, i as int), ids@),
            decreases self.links@.len() - i,
        {
            let ghost before = kept_links@;
            proof { lemma_filter_step(m.links, link_kept_pred(ids@), i as int); }
            if !contains_id(ids, self.links[i].file_id) {
                let l = DeploymentFile {
                    deployment_id: self.links[i].deployment_id.clone(),
                    file_id: self.links[i].file_id,
                    file_path: self.links[i].file_path.clone(),
                    mime_type: self.links[i].mime_type.clone(),
                };
                kept_links.push(l);
                assert(links_view(kept_links@) =~= links_view(before).push(m.links[i as int]));
            }
            i = i + 1;
        }
        assert(m.files.subrange(0, m.files.len() as int) =~= m.files);
        assert(m.links.subrange(0, m.links.len() as int) =~= m.links);
        self.files = kept;
        self.links = kept_links;
        assert forall|k: int| 0 <= k < self@.files.len() implies 0 < #[trigger] self@.files[k].file_id < self@.next_file_id by {
            assert(self.files@[k] == kept@[k]);
        }
    }

    /// Drops every link after the first `count`.
    pub fn truncate_links(&mut self, count: usize)
        requires
            old(self).wf(),
            count <= old(self)@.links.len(),
        ensures
            final(self).wf(),
            final(self)@ == (CatalogModel { links: old(self)@.links.subrange(0, count as int), ..old(self)@ }),
    {
        self.links.truncate(count);
        assert(self@.links =~= old(self)@.links.subrange(0, count as int));
    }

    /// The links of a deployment, joined with the sizes of their records.
    pub fn list_deployment_files(&self, deployment_id: &String) -> (r: Vec<DeploymentFileEntry>)
        requires
            self.wf(),
        ensures
            entries_view(r@) == self@.entries(deployment_id@),
    {
        let mut out: Vec<DeploymentFileEntry> = Vec::new();
        let mut i: usize = 0;
        while i < self.links.len()
            invariant
                self.wf(),
                i <= self.links@.len(),
                entries_view(out@) == entries_of(self@, self@.links.subrange(0, i as int), deployment_id@),
            decreases self.links@.len() - i,
        {
            let ghost before = out@;
            proof { lemma_filter_map_step(self@.links, entry_fn(self@, deployment_id@), i as int); }
            if self.links[i].deployment_id == *deployment_id {
                match self.find_file_id(self.links[i].file_id) {
                    Some(j) => {
                        let ghost fid = self.links@[i as int].file_id;
                        assert(self@.files[j as int].file_id == fid);
                        assert(self@.has_file_id(fid));
                        assert(self@.file_with_id(fid) == self@.files[j as int]);
                        let e = DeploymentFileEntry {
                            deployment_file_deployment_id: self.links[i].deployment_id.clone(),
                            deployment_file_file_id: self.links[i].file_id,
                            deployment_file_file_path: self.links[i].file_path.clone(),
                            deployment_file_mime_type: self.links[i].mime_type.clone(),
                            file_size: self.files[j].file_size,
                        };
                        out.push(e);
                        assert(entries_view(out@) =~= entries_view(before).push(e@));
                    },
                    None => {},
                }
            }
            i = i + 1;
        }
        assert(self@.links.subrange(0, self.links@.len() as int) =~= self@.links);
        out
    }
}

} // verus!
