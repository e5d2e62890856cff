//! The content store: payloads kept under the hex SHA-256 of their bytes,
//! each written once and never changed.
use vstd::prelude::*;
use crate::digest::{is_object_hash, object_hash, sha256_hex};
use crate::error::RvcsError;

verus! {

/// One stored object: its name and its payload.
pub struct StoredObject {
    pub hash: String,
    pub bytes: Vec<u8>,
}

/// Objects by name, each name at most once.
pub struct ObjectStore {
    pub objects: Vec<StoredObject>,
}

/// The store after putting `b`: unchanged if its name is taken, else with `b`
/// under its name.
pub open spec fn put_result(s: Map<Seq<char>, Seq<u8>>, b: Seq<u8>) -> Map<Seq<char>, Seq<u8>> {
    if s.contains_key(object_hash(b)) {
        s
    } else {
        s.insert(object_hash(b), b)
    }
}

/// Every object is stored under the name of its own bytes.
pub open spec fn content_addressed(s: Map<Seq<char>, Seq<u8>>) -> bool {
    forall|h: Seq<char>| #[trigger] s.contains_key(h) ==> h == object_hash(s[h])
}

impl View for ObjectStore {
    type V = Map<Seq<char>, Seq<u8>>;

    open spec fn view(&self) -> Map<Seq<char>, Seq<u8>> {
        Map::new(
            |h: Seq<char>| exists|i: int| 0 <= i < self.objects@.len() && (#[trigger] self.objects@[i]).hash@ == h,
            |h: Seq<char>|
                self.objects@[choose|i: int| 0 <= i < self.objects@.len() && (#[trigger] self.objects@[i]).hash@ == h].bytes@,
        )
    }
}

impl ObjectStore {
    /// Names distinct, each the name of its payload.
    pub open spec fn wf(&self) -> bool {
        &&& forall|i: int, j: int|
            0 <= i < j < self.objects@.len() ==> (#[trigger] self.objects@[i]).hash@ != (#[trigger] self.objects@[j]).hash@
        &&& forall|i: int|
            0 <= i < self.objects@.len() ==> (#[trigger] self.objects@[i]).hash@ == object_hash(self.objects@[i].bytes@)
    }

    proof fn lemma_view_at(&self, i: int)
        requires
            self.wf(),
            0 <= i < self.objects@.len(),
        ensures
            self@.contains_key(self.objects@[i].hash@),
            self@[self.objects@[i].hash@] == self.objects@[i].bytes@,
    {
        let h = self.objects@[i].hash@;
        assert(self@.contains_key(h));
        let j = choose|j: int| 0 <= j < self.objects@.len() && (#[trigger] self.objects@[j]).hash@ == h;
        if j < i {
            assert(self.objects@[j].hash@ != self.objects@[i].hash@);
        } else if i < j {
            assert(self.objects@[i].hash@ != self.objects@[j].hash@);
        }
    }

    /// A store that holds nothing.
    pub fn new() -> (r: ObjectStore)
        ensures
            r.wf(),
            r@ == Map::<Seq<char>, Seq<u8>>::empty(),
    {
        let r = ObjectStore { objects: Vec::new() };
        assert(r@ =~= Map::<Seq<char>, Seq<u8>>::empty());
        r
    }

    /// The position of the object named `hash`, if one is stored.
    fn find(&self, hash: &String) -> (r: Option<usize>)
        ensures
            r matches Some(i) ==> i < self.objects@.len() && self.objects@[i as int].hash@ == hash@,
            r is None ==> forall|i: int| 0 <= i < self.objects@.len() ==> (#[trigger] self.objects@[i]).hash@ != hash@,
    {
        let n = self.objects.len();
        let mut i: usize = 0;
        while i < n
            invariant
                n == self.objects@.len(),
                i <= n,
                forall|j: int| 0 <= j < i ==> (#[trigger] self.objects@[j]).hash@ != hash@,
            decreases n - i,
        {
            if self.objects[i].hash == *hash {
                return Some(i);
            }
            i = i + 1;
        }
        None
    }

    /// Whether an object named `hash` is stored.
    pub fn contains(&self, hash: &String) -> (r: bool)
        requires
            self.wf(),
        ensures
            r == self@.contains_key(hash@),
    {
        match self.find(hash) {
            Some(i) => {
                proof {
                    self.lemma_view_at(i as int);
                }
                true
            },
            None => false,
        }
    }

    /// Stores `bytes` under its name, unless that name is taken, and returns
    /// the name.
    pub fn put(&mut self, bytes: &[u8]) -> (r: String)
        requires
            old(self).wf(),
        ensures
            final(self).wf(),
            r@ == object_hash(bytes@),
            is_object_hash(r@),
            final(self)@ == put_result(old(self)@, bytes@),
    {
        let hash = sha256_hex(bytes);
        match self.find(&hash) {
            Some(i) => {
                proof {
                    self.lemma_view_at(i as int);
                }
            },
            None => {
                let ghost s = self@;
                let ghost n = self.objects@.len();
                self.objects.push(StoredObject { hash: hash.clone(), bytes: vstd::slice::slice_to_vec(bytes) });
                proof {
                    self.lemma_view_at(n as int);
                    assert forall|h: Seq<char>| #[trigger] self@.contains_key(h) == s.insert(hash@, bytes@).contains_key(h)
                        && (self@.contains_key(h) ==> self@[h] == s.insert(hash@, bytes@)[h]) by {
                        if h != hash@ {
                            if s.contains_key(h) {
                                let j = choose|j: int| 0 <= j < n && (#[trigger] old(self).objects@[j]).hash@ == h;
                                assert(self.objects@[j] == old(self).objects@[j]);
                                self.lemma_view_at(j);
                                old(self).lemma_view_at(j);
                            }
                            if self@.contains_key(h) {
                                let j = choose|j: int| 0 <= j < self.objects@.len() && (#[trigger] self.objects@[j]).hash@ == h;
                                assert(j < n);
                                assert(self.objects@[j] == old(self).objects@[j]);
                            }
                        }
                    }
                    assert(self@ =~= s.insert(hash@, bytes@));
                }
            },
        }
        hash
    }

    /// The payload stored under `hash`; `ObjectNotFound` if there is none.
    pub fn get(&self, hash: &String) -> (r: Result<Vec<u8>, RvcsError>)
        requires
            self.wf(),
        ensures
            self@.contains_key(hash@) ==> (r matches Ok(b) && b@ == self@[hash@]),
            !self@.contains_key(hash@) ==> r == Err::<Vec<u8>, RvcsError>(RvcsError::ObjectNotFound),
    {
        match self.find(hash) {
            Some(i) => {
                proof {
                    self.lemma_view_at(i as int);
                }
                Ok(self.objects[i].bytes.clone())
            },
            None => Err(RvcsError::ObjectNotFound),
        }
    }

    /// Each stored payload sits under the name of its own bytes.
    pub proof fn lemma_content_addressed(&self)
        requires
            self.wf(),
        ensures
            content_addressed(self@),
    {
        assert forall|h: Seq<char>| #[trigger] self@.contains_key(h) implies h == object_hash(self@[h]) by {
            let j = choose|j: int| 0 <= j < self.objects@.len() && (#[trigger] self.objects@[j]).hash@ == h;
            self.lemma_view_at(j);
        }
    }
}

/// Putting the same bytes twice gives the same name both times and leaves
/// the store as the first put did; reading that name gives the bytes back
/// unless the store already held other bytes under the same name.
pub proof fn lemma_put_twice(s: Map<Seq<char>, Seq<u8>>, b: Seq<u8>)
    ensures
        put_result(put_result(s, b), b) == put_result(s, b),
        put_result(s, b).contains_key(object_hash(b)),
        !s.contains_key(object_hash(b)) || s[object_hash(b)] == b ==> put_result(s, b)[object_hash(b)] == b,
{
}

} // verus!
