//! The database: what the schemas declared, and what the resolvers produced.
//!
//! Every declared thing lives in an arena and is known by a handle, its place
//! there. Handles stay valid for as long as the database lives. What a
//! resolver produced is stored under the key of its task: the first entry
//! with a key is the one that counts.

use vstd::prelude::*;
use crate::addresses::{dash_map_contents, dash_map_new, Addresses};
use crate::binary::BinaryData;
use crate::bundle::BundleData;
use crate::collection::CollectionData;
use crate::error::{CauseView, Outcome};
use crate::fileset::FileGroupData;
use crate::path::FsPath;
use crate::schema::SchemaData;
use crate::server::ServerData;
use crate::service::ServiceData;
use crate::task::{TaskKey, TaskValue, TaskValueView, TaskView};
use crate::toolchain::ToolchainData;
use crate::transform::TransformData;

verus! {

/// What is stored for one task: its key and what came back.
#[derive(Debug)]
pub struct Resolution {
    pub key: TaskKey,
    pub outcome: Outcome<TaskValue>,
}

/// The model of what came back for a task.
pub type StoredView = Result<TaskValueView, CauseView>;

/// The model of an outcome of a task.
pub open spec fn stored_view(o: Outcome<TaskValue>) -> StoredView {
    match o {
        Ok(v) => Ok(v@),
        Err(c) => Err(c@),
    }
}

/// What is stored under a key: the outcome of the first entry with that key.
pub open spec fn stored(slots: Seq<Resolution>, key: TaskView) -> Option<StoredView>
    decreases slots.len(),
{
    if slots.len() == 0 {
        None
    } else if slots[0].key@ == key {
        Some(stored_view(slots[0].outcome))
    } else {
        stored(slots.skip(1), key)
    }
}

/// The first entry with a key decides what is stored under it.
pub proof fn lemma_stored_first(slots: Seq<Resolution>, key: TaskView, i: int)
    requires
        0 <= i < slots.len(),
        slots[i].key@ == key,
        forall|j: int| 0 <= j < i ==> slots[j].key@ != key,
    ensures
        stored(slots, key) == Some(stored_view(slots[i].outcome)),
    decreases i,
{
    if i > 0 {
        assert forall|j: int| 0 <= j < i - 1 implies slots.skip(1)[j].key@ != key by {
            assert(slots.skip(1)[j] == slots[j + 1]);
        }
        assert(slots.skip(1)[i - 1] == slots[i]);
        lemma_stored_first(slots.skip(1), key, i - 1);
    }
}

/// Nothing is stored under a key that no entry has.
pub proof fn lemma_stored_none(slots: Seq<Resolution>, key: TaskView)
    requires
        forall|j: int| 0 <= j < slots.len() ==> slots[j].key@ != key,
    ensures
        stored(slots, key) is None,
    decreases slots.len(),
{
    if slots.len() > 0 {
        assert forall|j: int| 0 <= j < slots.skip(1).len() implies slots.skip(1)[j].key@ != key by {
            assert(slots.skip(1)[j] == slots[j + 1]);
        }
        lemma_stored_none(slots.skip(1), key);
    }
}

/// What is stored under a key stands in one of the entries, the first with
/// that key.
pub proof fn lemma_stored_index(slots: Seq<Resolution>, key: TaskView) -> (i: int)
    requires
        stored(slots, key) is Some,
    ensures
        0 <= i < slots.len(),
        slots[i].key@ == key,
        stored(slots, key) == Some(stored_view(slots[i].outcome)),
        forall|j: int| 0 <= j < i ==> slots[j].key@ != key,
    decreases slots.len(),
{
    if slots[0].key@ == key {
        0
    } else {
        let i = lemma_stored_index(slots.skip(1), key);
        assert forall|j: int| 0 <= j < i + 1 implies slots[j].key@ != key by {
            if j > 0 {
                assert(slots.skip(1)[j - 1] == slots[j]);
            }
        }
        assert(slots.skip(1)[i] == slots[i + 1]);
        i + 1
    }
}

/// A project: the directory it lives in.
#[derive(Debug)]
pub struct Project {
    pub root: FsPath,
}

/// What a database of the engine is.
pub trait Db {
    /// The database itself.
    fn database(&self) -> &Database;
}

/// The database.
#[derive(Debug)]
pub struct Database {
    pub file_groups: Vec<FileGroupData>,
    pub transforms: Vec<TransformData>,
    pub collections: Vec<CollectionData>,
    pub bundles: Vec<BundleData>,
    pub binaries: Vec<BinaryData>,
    pub toolchains: Vec<ToolchainData>,
    pub services: Vec<ServiceData>,
    pub servers: Vec<ServerData>,
    pub schemas: Vec<SchemaData>,
    /// What the resolvers produced, by task.
    pub resolved: Vec<Resolution>,
    /// The schemas that were added, by the address they were loaded from.
    pub known: Addresses,
}

impl Db for Database {
    fn database(&self) -> (r: &Database)
        ensures
            r == self,
    {
        self
    }
}

impl Database {
    /// An empty database.
    pub fn new() -> (r: Database)
        ensures
            r.file_groups@.len() == 0,
            r.transforms@.len() == 0,
            r.collections@.len() == 0,
            r.bundles@.len() == 0,
            r.binaries@.len() == 0,
            r.toolchains@.len() == 0,
            r.services@.len() == 0,
            r.servers@.len() == 0,
            r.schemas@.len() == 0,
            r.resolved@.len() == 0,
            dash_map_contents(r.known) == Map::<Seq<char>, usize>::empty(),
    {
        Database {
            file_groups: Vec::new(),
            transforms: Vec::new(),
            collections: Vec::new(),
            bundles: Vec::new(),
            binaries: Vec::new(),
            toolchains: Vec::new(),
            services: Vec::new(),
            servers: Vec::new(),
            schemas: Vec::new(),
            resolved: Vec::new(),
            known: dash_map_new(),
        }
    }

    /// What is stored under a key.
    pub open spec fn stored(&self, key: TaskView) -> Option<StoredView> {
        stored(self.resolved@, key)
    }

    /// What a resolver produced for a task, if it produced anything yet.
    pub fn lookup(&self, key: &TaskKey) -> (r: Option<&Outcome<TaskValue>>)
        ensures
            match r {
                Some(o) => self.stored(key@) == Some(stored_view(*o)),
                None => self.stored(key@) is None,
            },
    {
        let mut i: usize = 0;
        while i < self.resolved.len()
            invariant
                i <= self.resolved.len(),
                forall|j: int| 0 <= j < i ==> self.resolved@[j].key@ != key@,
            decreases self.resolved.len() - i,
        {
            if self.resolved[i].key.same(key) {
                proof {
                    lemma_stored_first(self.resolved@, key@, i as int);
                }
                return Some(&self.resolved[i].outcome);
            }
            i += 1;
        }
        proof {
            lemma_stored_none(self.resolved@, key@);
        }
        None
    }

    /// Stores what a resolver produced for a task, in the place of what was
    /// stored for it before. What is stored for other tasks stays, and so
    /// does everything that was declared.
    pub fn store(&mut self, key: TaskKey, outcome: Outcome<TaskValue>)
        ensures
            forall|k: TaskView|
                #[trigger] final(self).stored(k) == if k == key@ {
                    Some(stored_view(outcome))
                } else {
                    old(self).stored(k)
                },
            *final(self) == (Database { resolved: final(self).resolved, ..*old(self) }),
    {
        let ghost before = self.resolved@;
        let ghost key_view = key@;
        let mut i: usize = 0;
        while i < self.resolved.len()
            invariant
                i <= self.resolved.len(),
                self.resolved@ == before,
                *self == *old(self),
                key_view == key@,
                forall|j: int| 0 <= j < i ==> self.resolved@[j].key@ != key_view,
            decreases self.resolved.len() - i,
        {
            if self.resolved[i].key.same(&key) {
                let entry = Resolution { key, outcome };
                self.resolved.set(i, entry);
                proof {
                    let after = self.resolved@;
                    assert forall|k: TaskView|
                        #[trigger] stored(after, k) == if k == key_view {
                            Some(stored_view(outcome))
                        } else {
                            stored(before, k)
                        } by {
                        if k == key_view {
                            lemma_stored_first(after, k, i as int);
                        } else if stored(before, k) is Some {
                            let j = lemma_stored_index(before, k);
                            assert(after[j] == before[j]);
                            assert forall|m: int| 0 <= m < j implies after[m].key@ != k by {
                                if m != i {
                                    assert(after[m] == before[m]);
                                }
                            }
                            lemma_stored_first(after, k, j);
                        } else {
                            assert forall|m: int| 0 <= m < after.len() implies after[m].key@
                                != k by {
                                if m != i {
                                    assert(after[m] == before[m]);
                                    if before[m].key@ == k {
                                        lemma_stored_some(before, k, m);
                                    }
                                }
                            }
                            lemma_stored_none(after, k);
                        }
                    }
                }
                return ;
            }
            i += 1;
        }
        let entry = Resolution { key, outcome };
        self.resolved.push(entry);
        proof {
            let after = self.resolved@;
            assert forall|k: TaskView|
                #[trigger] stored(after, k) == if k == key_view {
                    Some(stored_view(outcome))
                } else {
                    stored(before, k)
                } by {
                if k == key_view {
                    lemma_stored_first(after, k, before.len() as int);
                } else if stored(before, k) is Some {
                    let j = lemma_stored_index(before, k);
                    assert(after[j] == before[j]);
                    assert forall|m: int| 0 <= m < j implies after[m].key@ != k by {
                        assert(after[m] == before[m]);
                    }
                    lemma_stored_first(after, k, j);
                } else {
                    assert forall|m: int| 0 <= m < after.len() implies after[m].key@ != k by {
                        if m < before.len() {
                            assert(after[m] == before[m]);
                            if before[m].key@ == k {
                                lemma_stored_some(before, k, m);
                            }
                        }
                    }
                    lemma_stored_none(after, k);
                }
            }
        }
    }
}

/// Something is stored under a key that an entry has.
pub proof fn lemma_stored_some(slots: Seq<Resolution>, key: TaskView, i: int)
    requires
        0 <= i < slots.len(),
        slots[i].key@ == key,
    ensures
        stored(slots, key) is Some,
    decreases slots.len(),
{
    if slots[0].key@ != key {
        assert(slots.skip(1)[i - 1] == slots[i]);
        lemma_stored_some(slots.skip(1), key, i - 1);
    }
}

} // verus!
