use vstd::prelude::*;

verus! {

/// What a blob store holds: for each key, the bytes and their content type.
pub type BlobMap = Map<Seq<char>, (Seq<u8>, Seq<char>)>;

/// One object of the blob store.
pub struct StoredObject {
    pub key: String,
    pub bytes: Vec<u8>,
    pub content_type: String,
}

/// A key-value object store, keyed by the lowercase hex content hash.
pub struct BlobStore {
    objects: Vec<StoredObject>,
}

#[derive(Clone, Copy, Debug, PartialEq, Eq, Structural)]
pub enum BlobError {
    /// No object is stored under the key.
    NotFound,
}

impl View for BlobStore {
    type V = BlobMap;

    closed spec fn view(&self) -> BlobMap {
        Map::new(
            |k: Seq<char>| exists|i: int| 0 <= i < self.objects@.len() && self.objects@[i].key@ == k,
            |k: Seq<char>|
                {
                    let i = choose|i: int| 0 <= i < self.objects@.len() && self.objects@[i].key@ == k;
                    (self.objects@[i].bytes@, self.objects@[i].content_type@)
                },
        )
    }
}

pub fn copy_bytes(b: &Vec<u8>) -> (r: Vec<u8>)
    ensures
        r@ == b@,
{
    let mut r: Vec<u8> = Vec::new();
    let mut i: usize = 0;
    while i < b.len()
        invariant
            i <= b@.len(),
            r@ == b@.subrange(0, i as int),
        decreases b@.len() - i,
    {
        r.push(b[i]);
        i = i + 1;
        assert(r@ =~= b@.subrange(0, i as int));
    }
    assert(r@ =~= b@);
    r
}

impl BlobStore {
    /// No two objects share a key.
    pub closed spec fn wf(&self) -> bool {
        forall|i: int, j: int|
            0 <= i < self.objects@.len() && 0 <= j < self.objects@.len() && i != j
                ==> self.objects@[i].key@ != self.objects@[j].key@
    }

    proof fn lemma_view_at(&self, i: int)
        requires
            self.wf(),
            0 <= i < self.objects@.len(),
        ensures
            self@.contains_key(self.objects@[i].key@),
            self@[self.objects@[i].key@] == (self.objects@[i].bytes@, self.objects@[i].content_type@),
    {
        let k = self.objects@[i].key@;
        assert(self@.dom().contains(k));
        let j = choose|j: int| 0 <= j < self.objects@.len() && self.objects@[j].key@ == k;
        assert(j == i);
    }

    proof fn lemma_view_keys(&self)
        requires
            self.wf(),
        ensures
            forall|i: int|
                #![trigger self.objects@[i]]
                0 <= i < self.objects@.len() ==> self@.contains_key(self.objects@[i].key@)
                    && self@[self.objects@[i].key@] == (
                    self.objects@[i].bytes@,
                    self.objects@[i].content_type@,
                ),
            forall|k: Seq<char>|
                #[trigger] self@.contains_key(k) ==> exists|i: int|
                    0 <= i < self.objects@.len() && self.objects@[i].key@ == k,
    {
        assert forall|i: int|
            #![trigger self.objects@[i]]
            0 <= i < self.objects@.len() implies self@.contains_key(self.objects@[i].key@)
                && self@[self.objects@[i].key@] == (
                self.objects@[i].bytes@,
                self.objects@[i].content_type@,
            ) by {
            self.lemma_view_at(i);
        }
    }

    pub fn new() -> (r: BlobStore)
        ensures
            r.wf(),
            r@ == BlobMap::empty(),
    {
        let r = BlobStore { objects: Vec::new() };
        assert(r@ =~= BlobMap::empty());
        r
    }

    fn find(&self, key: &String) -> (r: Option<usize>)
        ensures
            r matches Some(i) ==> i < self.objects@.len() && self.objects@[i as int].key@ == key@,
            r is None ==> forall|i: int| 0 <= i < self.objects@.len() ==> self.objects@[i].key@ != key@,
    {
        let mut i: usize = 0;
        while i < self.objects.len()
            invariant
                i <= self.objects@.len(),
                forall|j: int| 0 <= j < i ==> self.objects@[j].key@ != key@,
            decreases self.objects@.len() - i,
        {
            if self.objects[i].key == *key {
                return Some(i);
            }
            i = i + 1;
        }
        None
    }

    /// Stores the bytes under the key, replacing what the key held.
    pub fn put(&mut self, key: &String, bytes: &Vec<u8>, content_type: &String)
        requires
            old(self).wf(),
        ensures
            final(self).wf(),
            final(self)@ == old(self)@.insert(key@, (bytes@, content_type@)),
    {
        let obj = StoredObject { key: key.clone(), bytes: copy_bytes(bytes), content_type: content_type.clone() };
        let _ = self.delete(key);
        let ghost mid = *self;
        proof { mid.lemma_view_keys(); }
        self.objects.push(obj);
        proof {
            self.lemma_view_keys();
            assert forall|k: Seq<char>| #[trigger] self@.contains_key(k) <==> mid@.insert(key@, (bytes@, content_type@)).contains_key(k) by {
                if k == key@ {
                    assert(self.objects@[mid.objects@.len() as int].key@ == k);
                } else if mid@.contains_key(k) {
                    let j = choose|j: int| 0 <= j < mid.objects@.len() && mid.objects@[j].key@ == k;
                    assert(self.objects@[j] == mid.objects@[j]);
                } else if self@.contains_key(k) {
                    let j = choose|j: int| 0 <= j < self.objects@.len() && self.objects@[j].key@ == k;
                    assert(self.objects@[j] == mid.objects@[j]);
                }
            }
            assert(self@ =~= mid@.insert(key@, (bytes@, content_type@)));
            assert(self@ =~= old(self)@.insert(key@, (bytes@, content_type@)));
        }
    }

    /// The bytes stored under the key.
    pub fn get(&self, key: &String) -> (r: Option<Vec<u8>>)
        requires
            self.wf(),
        ensures
            r is Some <==> self@.contains_key(key@),
            r matches Some(b) ==> b@ == self@[key@].0,
    {
        proof { self.lemma_view_keys(); }
        match self.find(key) {
            Some(i) => Some(copy_bytes(&self.objects[i].bytes)),
            None => None,
        }
    }

    /// The content type stored under the key.
    pub fn get_content_type(&self, key: &String) -> (r: Option<String>)
        requires
            self.wf(),
        ensures
            r is Some <==> self@.contains_key(key@),
            r matches Some(t) ==> t@ == self@[key@].1,
    {
        proof { self.lemma_view_keys(); }
        match self.find(key) {
            Some(i) => Some(self.objects[i].content_type.clone()),
            None => None,
        }
    }

    /// The keys that hold an object, each once.
    pub fn keys(&self) -> (r: Vec<String>)
        requires
            self.wf(),
        ensures
            forall|k: Seq<char>| self@.contains_key(k) <==> exists|i: int| 0 <= i < r@.len() && #[trigger] r@[i]@ == k,
            forall|i: int, j: int| 0 <= i < r@.len() && 0 <= j < r@.len() && i != j ==> r@[i]@ != r@[j]@,
    {
        proof { self.lemma_view_keys(); }
        let mut r: Vec<String> = Vec::new();
        let mut i: usize = 0;
        while i < self.objects.len()
            invariant
                self.wf(),
                i <= self.objects@.len(),
                r@.len() == i,
                forall|j: int| 0 <= j < i ==> #[trigger] r@[j]@ == self.objects@[j].key@,
            decreases self.objects@.len() - i,
        {
            r.push(self.objects[i].key.clone());
            i = i + 1;
        }
        assert forall|k: Seq<char>| self@.contains_key(k) implies exists|i: int| 0 <= i < r@.len() && #[trigger] r@[i]@ == k by {
            let j = choose|j: int| 0 <= j < self.objects@.len() && self.objects@[j].key@ == k;
            assert(r@[j]@ == k);
        }
        assert forall|k: Seq<char>| (exists|i: int| 0 <= i < r@.len() && #[trigger] r@[i]@ == k) implies self@.contains_key(k) by {
            let j = choose|j: int| 0 <= j < r@.len() && r@[j]@ == k;
            assert(self.objects@[j].key@ == k);
        }
        r
    }

    /// Removes the object stored under the key; fails where there is none.
    pub fn delete(&mut self, key: &String) -> (r: Result<(), BlobError>)
        requires
            old(self).wf(),
        ensures
            final(self).wf(),
            r is Ok <==> old(self)@.contains_key(key@),
            final(self)@ == old(self)@.remove(key@),
    {
        proof { self.lemma_view_keys(); }
        match self.find(key) {
            Some(i) => {
                self.objects.remove(i);
                proof {
                    self.lemma_view_keys();
                    assert forall|k: Seq<char>| #[trigger] self@.contains_key(k) <==> old(self)@.remove(key@).contains_key(k) by {
                        if k != key@ && old(self)@.contains_key(k) {
                            let j = choose|j: int| 0 <= j < old(self).objects@.len() && old(self).objects@[j].key@ == k;
                            assert(j != i);
                            if j < i {
                                assert(self.objects@[j] == old(self).objects@[j]);
                            } else {
                                assert(self.objects@[j - 1] == old(self).objects@[j]);
                            }
                        }
                    }
                    assert(self@ =~= old(self)@.remove(key@));
                }
                Ok(())
            },
            None => {
                proof { assert(old(self)@.remove(key@) =~= old(self)@); }
                Err(BlobError::NotFound)
            },
        }
    }
}

} // verus!
