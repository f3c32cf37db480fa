//! The object store that executed commands act on, and its requests.

use vstd::prelude::*;
use crate::command::{Command, Location, Op};
use crate::logger::Logger;
use crate::object_id::{object_id_text, parse_object_id, simple_text, uuid_from_text};

verus! {

/// Why an object-store request failed.
#[derive(Clone, Copy, PartialEq, Eq, Structural, Debug)]
pub enum StoreError {
    /// The object id is not a readable id.
    BadId,
    /// No object is tracked under the id.
    NotFound,
}

/// HTTP status that answers an error: an unreadable id is a server error
/// (500), a missing object is Not Found (404).
pub open spec fn status_of(e: StoreError) -> u16 {
    match e {
        StoreError::BadId => 500,
        StoreError::NotFound => 404,
    }
}

impl StoreError {
    pub fn status_code(&self) -> (r: u16)
        ensures
            r == status_of(*self),
    {
        match self {
            StoreError::BadId => 500,
            StoreError::NotFound => 404,
        }
    }
}

/// What a request about one object answers: its id in simple form and its
/// location.
#[derive(Clone, Debug)]
pub struct ObjectReply {
    pub object_id: String,
    pub location: Location,
}

/// The tracked objects: each id at one location.
pub struct ObjectStore {
    entries: Vec<(u128, Location)>,
}

pub open spec fn has_key(s: Seq<(u128, Location)>, k: u128) -> bool {
    exists|i: int| 0 <= i < s.len() && s[i].0 == k
}

pub open spec fn keys_unique(s: Seq<(u128, Location)>) -> bool {
    forall|i: int, j: int| 0 <= i < s.len() && 0 <= j < s.len() && i != j ==> s[i].0 != s[j].0
}

pub open spec fn map_of(s: Seq<(u128, Location)>) -> Map<u128, Location> {
    Map::new(
        |k: u128| has_key(s, k),
        |k: u128| s[choose|i: int| 0 <= i < s.len() && s[i].0 == k].1,
    )
}

proof fn lemma_map_of_at(s: Seq<(u128, Location)>, i: int)
    requires
        keys_unique(s),
        0 <= i < s.len(),
    ensures
        map_of(s).contains_key(s[i].0),
        map_of(s)[s[i].0] == s[i].1,
{
    let k = s[i].0;
    assert(has_key(s, k));
    let j = choose|j: int| 0 <= j < s.len() && s[j].0 == k;
    assert(j == i);
}

/// The effect of a command on the tracked objects.
pub open spec fn apply_op(m: Map<u128, Location>, c: Command) -> Map<u128, Location> {
    match c.op {
        Op::Put(loc) => m.insert(c.key, loc),
        Op::Delete => m.remove(c.key),
        Op::Read => m,
    }
}

impl View for ObjectStore {
    type V = Map<u128, Location>;

    closed spec fn view(&self) -> Map<u128, Location> {
        map_of(self.entries@)
    }
}

impl ObjectStore {
    pub closed spec fn wf(&self) -> bool {
        keys_unique(self.entries@)
    }

    /// A store that tracks nothing.
    pub fn new() -> (r: ObjectStore)
        ensures
            r.wf(),
            r@ == Map::<u128, Location>::empty(),
    {
        let r = ObjectStore { entries: Vec::new() };
        proof {
            assert(r@ =~= Map::<u128, Location>::empty());
        }
        r
    }

    fn find(&self, k: u128) -> (r: Option<usize>)
        requires
            self.wf(),
        ensures
            match r {
                Some(i) => i < self.entries@.len() && self.entries@[i as int].0 == k,
                None => !has_key(self.entries@, k),
            },
    {
        let mut i: usize = 0;
        while i < self.entries.len()
            invariant
                i <= self.entries@.len(),
                forall|j: int| 0 <= j < i ==> self.entries@[j].0 != k,
            decreases self.entries@.len() - i,
        {
            if self.entries[i].0 == k {
                return Some(i);
            }
            i += 1;
        }
        None
    }

    /// The location of an object, if it is tracked.
    pub fn get(&self, k: u128) -> (r: Option<Location>)
        requires
            self.wf(),
        ensures
            r == (if self@.contains_key(k) { Some(self@[k]) } else { None::<Location> }),
    {
        match self.find(k) {
            Some(i) => {
                proof {
                    lemma_map_of_at(self.entries@, i as int);
                }
                Some(self.entries[i].1)
            },
            None => None,
        }
    }

    /// Tracks an object at a location, replacing any earlier location.
    pub fn insert(&mut self, k: u128, loc: Location)
        requires
            old(self).wf(),
        ensures
            final(self).wf(),
            final(self)@ == old(self)@.insert(k, loc),
    {
        let ghost s0 = self.entries@;
        match self.find(k) {
            Some(i) => {
                self.entries.set(i, (k, loc));
                proof {
                    let s = self.entries@;
                    assert(s =~= s0.update(i as int, (k, loc)));
                    assert forall|a: u128| #[trigger] has_key(s, a) == (has_key(s0, a) || a == k) by {
                        if has_key(s0, a) {
                            let j = choose|j: int| 0 <= j < s0.len() && s0[j].0 == a;
                            assert(s[j].0 == a);
                        }
                        if has_key(s, a) {
                            let j = choose|j: int| 0 <= j < s.len() && s[j].0 == a;
                            assert(s0[j].0 == a);
                        }
                    }
                    assert forall|a: u128| #[trigger] has_key(s, a) && a != k
                        implies map_of(s)[a] == map_of(s0)[a] by {
                        let j = choose|j: int| 0 <= j < s.len() && s[j].0 == a;
                        lemma_map_of_at(s, j);
                        lemma_map_of_at(s0, j);
                    }
                    lemma_map_of_at(s, i as int);
                    assert(map_of(s) =~= map_of(s0).insert(k, loc));
                }
            },
            None => {
                self.entries.push((k, loc));
                proof {
                    let s = self.entries@;
                    assert(s =~= s0.push((k, loc)));
                    assert forall|a: u128| #[trigger] has_key(s, a) == (has_key(s0, a) || a == k) by {
                        if has_key(s0, a) {
                            let j = choose|j: int| 0 <= j < s0.len() && s0[j].0 == a;
                            assert(s[j].0 == a);
                        }
                        if has_key(s, a) && a != k {
                            let j = choose|j: int| 0 <= j < s.len() && s[j].0 == a;
                            assert(s0[j].0 == a);
                        }
                        if a == k {
                            assert(s[s0.len() as int].0 == a);
                        }
                    }
                    assert forall|a: u128| #[trigger] has_key(s, a) && a != k
                        implies map_of(s)[a] == map_of(s0)[a] by {
                        let j = choose|j: int| 0 <= j < s.len() && s[j].0 == a;
                        lemma_map_of_at(s, j);
                        lemma_map_of_at(s0, j);
                    }
                    lemma_map_of_at(s, s0.len() as int);
                    assert(map_of(s) =~= map_of(s0).insert(k, loc));
                }
            },
        }
    }

    /// Stops tracking an object; returns its last location, if it was tracked.
    pub fn remove(&mut self, k: u128) -> (r: Option<Location>)
        requires
            old(self).wf(),
        ensures
            final(self).wf(),
            final(self)@ == old(self)@.remove(k),
            r == (if old(self)@.contains_key(k) { Some(old(self)@[k]) } else { None::<Location> }),
    {
        let ghost s0 = self.entries@;
        match self.find(k) {
            Some(i) => {
                proof {
                    lemma_map_of_at(s0, i as int);
                }
                let (_, loc) = self.entries.remove(i);
                proof {
                    let s = self.entries@;
                    assert(s =~= s0.remove(i as int));
                    assert forall|a: u128| #[trigger] has_key(s, a) == (has_key(s0, a) && a != k) by {
                        if has_key(s0, a) && a != k {
                            let j = choose|j: int| 0 <= j < s0.len() && s0[j].0 == a;
                            if j < i {
                                assert(s[j].0 == a);
                            } else {
                                assert(s[j - 1].0 == a);
                            }
                        }
                        if has_key(s, a) {
                            let j = choose|j: int| 0 <= j < s.len() && s[j].0 == a;
                            if j < i {
                                assert(s0[j].0 == a);
                            } else {
                                assert(s0[j + 1].0 == a);
                            }
                        }
                    }
                    assert forall|a: u128| #[trigger] has_key(s, a)
                        implies map_of(s)[a] == map_of(s0)[a] by {
                        let j = choose|j: int| 0 <= j < s.len() && s[j].0 == a;
                        lemma_map_of_at(s, j);
                        if j < i {
                            lemma_map_of_at(s0, j);
                        } else {
                            lemma_map_of_at(s0, j + 1);
                        }
                    }
                    assert(map_of(s) =~= map_of(s0).remove(k));
                }
                Some(loc)
            },
            None => {
                proof {
                    assert(map_of(s0) =~= map_of(s0).remove(k));
                }
                None
            },
        }
    }

    /// Applies a command's effect.
    pub fn apply(&mut self, c: &Command)
        requires
            old(self).wf(),
        ensures
            final(self).wf(),
            final(self)@ == apply_op(old(self)@, *c),
    {
        match c.op {
            Op::Put(loc) => self.insert(c.key, loc),
            Op::Delete => {
                self.remove(c.key);
            },
            Op::Read => {},
        }
    }
    /// Every tracked object with its location, each id once.
    pub fn objects(&self) -> (r: Vec<(u128, Location)>)
        requires
            self.wf(),
        ensures
            keys_unique(r@),
            map_of(r@) == self@,
    {
        let mut r: Vec<(u128, Location)> = Vec::new();
        let mut i: usize = 0;
        while i < self.entries.len()
            invariant
                i <= self.entries@.len(),
                r@ == self.entries@.subrange(0, i as int),
            decreases self.entries@.len() - i,
        {
            r.push(self.entries[i]);
            proof {
                assert(self.entries@.subrange(0, i + 1) =~= self.entries@.subrange(0, i as int).push(
                    self.entries@[i as int],
                ));
            }
            i += 1;
        }
        proof {
            assert(self.entries@.subrange(0, self.entries@.len() as int) =~= self.entries@);
        }
        r
    }

    /// Tracks the object `key` at `loc` and answers with both.
    pub fn create_object(&mut self, key: u128, loc: Location) -> (r: ObjectReply)
        requires
            old(self).wf(),
        ensures
            final(self).wf(),
            final(self)@ == old(self)@.insert(key, loc),
            r.object_id@ == simple_text(key),
            r.location == loc,
    {
        self.insert(key, loc);
        ObjectReply { object_id: object_id_text(key), location: loc }
    }

    /// Answers with the location of the object `key`.
    pub fn read_object(&self, key: u128) -> (r: Result<ObjectReply, StoreError>)
        requires
            self.wf(),
        ensures
            self@.contains_key(key) ==> r is Ok && r->Ok_0.object_id@ == simple_text(key)
                && r->Ok_0.location == self@[key],
            !self@.contains_key(key) ==> r == Err::<ObjectReply, StoreError>(StoreError::NotFound),
    {
        match self.get(key) {
            Some(loc) => Ok(ObjectReply { object_id: object_id_text(key), location: loc }),
            None => Err(StoreError::NotFound),
        }
    }

    /// Moves the tracked object `key` to `loc`.
    pub fn update_object(&mut self, key: u128, loc: Location) -> (r: Result<ObjectReply, StoreError>)
        requires
            old(self).wf(),
        ensures
            final(self).wf(),
            old(self)@.contains_key(key) ==> r is Ok && r->Ok_0.object_id@ == simple_text(key)
                && r->Ok_0.location == loc && final(self)@ == old(self)@.insert(key, loc),
            !old(self)@.contains_key(key) ==> r == Err::<ObjectReply, StoreError>(
                StoreError::NotFound,
            ) && final(self)@ == old(self)@,
    {
        match self.find(key) {
            None => {
                proof {
                    assert(!self@.contains_key(key));
                }
                Err(StoreError::NotFound)
            },
            Some(_) => {
                self.insert(key, loc);
                Ok(ObjectReply { object_id: object_id_text(key), location: loc })
            },
        }
    }

    /// Stops tracking the object `key`; answers with its id.
    pub fn delete_object(&mut self, key: u128) -> (r: Result<String, StoreError>)
        requires
            old(self).wf(),
        ensures
            final(self).wf(),
            final(self)@ == old(self)@.remove(key),
            old(self)@.contains_key(key) ==> r is Ok && r->Ok_0@ == simple_text(key),
            !old(self)@.contains_key(key) ==> r == Err::<String, StoreError>(StoreError::NotFound),
    {
        match self.remove(key) {
            Some(_) => Ok(object_id_text(key)),
            None => Err(StoreError::NotFound),
        }
    }

    /// `create_object` on an id given as text.
    pub fn create(&mut self, object_id: &str, loc: Location) -> (r: Result<ObjectReply, StoreError>)
        requires
            old(self).wf(),
        ensures
            final(self).wf(),
            match uuid_from_text(object_id@) {
                Some(k) => r is Ok && r->Ok_0.object_id@ == simple_text(k) && r->Ok_0.location == loc
                    && final(self)@ == old(self)@.insert(k, loc),
                None => r == Err::<ObjectReply, StoreError>(StoreError::BadId) && final(self)@ == old(
                    self,
                )@,
            },
    {
        match parse_object_id(object_id) {
            Some(k) => Ok(self.create_object(k, loc)),
            None => Err(StoreError::BadId),
        }
    }

    /// `read_object` on an id given as text.
    pub fn read(&self, object_id: &str) -> (r: Result<ObjectReply, StoreError>)
        requires
            self.wf(),
        ensures
            match uuid_from_text(object_id@) {
                Some(k) => if self@.contains_key(k) {
                    r is Ok && r->Ok_0.object_id@ == simple_text(k) && r->Ok_0.location == self@[k]
                } else {
                    r == Err::<ObjectReply, StoreError>(StoreError::NotFound)
                },
                None => r == Err::<ObjectReply, StoreError>(StoreError::BadId),
            },
    {
        match parse_object_id(object_id) {
            Some(k) => self.read_object(k),
            None => Err(StoreError::BadId),
        }
    }

    /// `update_object` on an id given as text.
    pub fn update(&mut self, object_id: &str, loc: Location) -> (r: Result<ObjectReply, StoreError>)
        requires
            old(self).wf(),
        ensures
            final(self).wf(),
            match uuid_from_text(object_id@) {
                Some(k) => if old(self)@.contains_key(k) {
                    r is Ok && r->Ok_0.object_id@ == simple_text(k) && r->Ok_0.location == loc
                        && final(self)@ == old(self)@.insert(k, loc)
                } else {
                    r == Err::<ObjectReply, StoreError>(StoreError::NotFound) && final(self)@ == old(
                        self,
                    )@
                },
                None => r == Err::<ObjectReply, StoreError>(StoreError::BadId) && final(self)@ == old(
                    self,
                )@,
            },
    {
        match parse_object_id(object_id) {
            Some(k) => self.update_object(k, loc),
            None => Err(StoreError::BadId),
        }
    }

    /// `delete_object` on an id given as text.
    pub fn delete(&mut self, object_id: &str) -> (r: Result<String, StoreError>)
        requires
            old(self).wf(),
        ensures
            final(self).wf(),
            match uuid_from_text(object_id@) {
                Some(k) => final(self)@ == old(self)@.remove(k) && if old(self)@.contains_key(k) {
                    r is Ok && r->Ok_0@ == simple_text(k)
                } else {
                    r == Err::<String, StoreError>(StoreError::NotFound)
                },
                None => r == Err::<String, StoreError>(StoreError::BadId) && final(self)@ == old(self)@,
            },
    {
        match parse_object_id(object_id) {
            Some(k) => self.delete_object(k),
            None => Err(StoreError::BadId),
        }
    }
}

/// The state of an object-store server: the tracked objects and the
/// request logger attached to it.
pub struct AppState {
    pub objects: ObjectStore,
    pub logger: Logger,
}

/// A freshly started object-store server: no object is tracked yet.
pub fn rocket() -> (r: AppState)
    ensures
        r.objects.wf(),
        r.objects@ == Map::<u128, Location>::empty(),
{
    AppState { objects: ObjectStore::new(), logger: Logger {} }
}

} // verus!
