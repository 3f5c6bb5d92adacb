//! Schemas: what one schema file declared.
//!
//! While a schema file is evaluated, what it declares is registered with a
//! builder. The schema made of the builder holds, of each kind, the handles
//! that were registered, each once, in ascending order.

use vstd::prelude::*;
use crate::addresses::{dash_map_contents, dash_map_get, dash_map_insert};
use crate::binary::Binary;
use crate::collection::Collection;
use crate::db::Database;
use crate::fileset::FileGroup;
use crate::idset::{
    ascending,
    ascends,
    dash_set_contents,
    dash_set_insert,
    dash_set_items,
    dash_set_new,
};
use crate::server::Server;
use crate::service::Service;
use crate::transform::Transform;

verus! {

/// A handle to a schema of the database.
#[derive(Debug, Clone, Copy, PartialEq, Eq, Structural, PartialOrd, Ord, Hash)]
pub struct Schema {
    pub id: usize,
}

/// A handle: a number that stands for a thing of the database.
pub trait Handle: Sized {
    /// The handle's number.
    spec fn number(&self) -> usize;

    /// The handle with a number.
    fn of(id: usize) -> (r: Self)
        ensures
            r.number() == id,
    ;
}

impl Handle for FileGroup {
    open spec fn number(&self) -> usize {
        self.id
    }

    fn of(id: usize) -> (r: Self) {
        FileGroup { id }
    }
}

impl Handle for Transform {
    open spec fn number(&self) -> usize {
        self.id
    }

    fn of(id: usize) -> (r: Self) {
        Transform { id }
    }
}

impl Handle for Collection {
    open spec fn number(&self) -> usize {
        self.id
    }

    fn of(id: usize) -> (r: Self) {
        Collection { id }
    }
}

impl Handle for Server {
    open spec fn number(&self) -> usize {
        self.id
    }

    fn of(id: usize) -> (r: Self) {
        Server { id }
    }
}

impl Handle for Service {
    open spec fn number(&self) -> usize {
        self.id
    }

    fn of(id: usize) -> (r: Self) {
        Service { id }
    }
}

impl Handle for Binary {
    open spec fn number(&self) -> usize {
        self.id
    }

    fn of(id: usize) -> (r: Self) {
        Binary { id }
    }
}

/// The numbers of a sequence of handles.
pub open spec fn numbers<H: Handle>(v: Seq<H>) -> Seq<usize> {
    Seq::new(v.len(), |i: int| v[i].number())
}

/// Whether a sequence of handles holds a set of numbers: each number once,
/// in ascending order.
pub open spec fn holds<H: Handle>(v: Seq<H>, s: Set<usize>) -> bool {
    &&& ascends(numbers(v))
    &&& forall|k: usize| numbers(v).contains(k) <==> s.contains(k)
}

/// The handles of a set, in ascending order.
fn handles_of<H: Handle>(s: &dashmap::DashSet<usize>) -> (r: Vec<H>)
    ensures
        holds(r@, dash_set_contents(*s)),
{
    let items = dash_set_items(s);
    let ids = ascending(&items);
    let mut out: Vec<H> = Vec::new();
    let mut i: usize = 0;
    while i < ids.len()
        invariant
            i <= ids.len(),
            out.len() == i,
            forall|j: int| 0 <= j < i ==> out[j].number() == ids[j],
        decreases ids.len() - i,
    {
        out.push(H::of(ids[i]));
        i += 1;
    }
    assert(numbers(out@) =~= ids@);
    out
}

/// What the database holds of a schema: where it was loaded from and what
/// it declared, each kind in ascending order of the handles.
#[derive(Debug)]
pub struct SchemaData {
    pub url: String,
    pub file_groups: Vec<FileGroup>,
    pub transforms: Vec<Transform>,
    pub collections: Vec<Collection>,
    pub servers: Vec<Server>,
    pub services: Vec<Service>,
    pub binaries: Vec<Binary>,
}

/// A schema under construction: the handles registered so far.
pub struct SchemaBuilder {
    pub file_groups: dashmap::DashSet<usize>,
    pub transforms: dashmap::DashSet<usize>,
    pub collections: dashmap::DashSet<usize>,
    pub servers: dashmap::DashSet<usize>,
    pub services: dashmap::DashSet<usize>,
    pub binaries: dashmap::DashSet<usize>,
}

impl Default for SchemaBuilder {
    fn default() -> (r: SchemaBuilder)
        ensures
            dash_set_contents(r.file_groups) == Set::<usize>::empty(),
            dash_set_contents(r.transforms) == Set::<usize>::empty(),
            dash_set_contents(r.collections) == Set::<usize>::empty(),
            dash_set_contents(r.servers) == Set::<usize>::empty(),
            dash_set_contents(r.services) == Set::<usize>::empty(),
            dash_set_contents(r.binaries) == Set::<usize>::empty(),
    {
        SchemaBuilder::new()
    }
}

impl SchemaBuilder {
    /// A builder with nothing registered.
    pub fn new() -> (r: SchemaBuilder)
        ensures
            dash_set_contents(r.file_groups) == Set::<usize>::empty(),
            dash_set_contents(r.transforms) == Set::<usize>::empty(),
            dash_set_contents(r.collections) == Set::<usize>::empty(),
            dash_set_contents(r.servers) == Set::<usize>::empty(),
            dash_set_contents(r.services) == Set::<usize>::empty(),
            dash_set_contents(r.binaries) == Set::<usize>::empty(),
    {
        SchemaBuilder {
            file_groups: dash_set_new(),
            transforms: dash_set_new(),
            collections: dash_set_new(),
            servers: dash_set_new(),
            services: dash_set_new(),
            binaries: dash_set_new(),
        }
    }

    /// Registers a file group.
    pub fn register_file_group(&mut self, file_group: FileGroup)
        ensures
            dash_set_contents(final(self).file_groups) == dash_set_contents(
                old(self).file_groups,
            ).insert(file_group.id),
            *final(self) == (SchemaBuilder { file_groups: final(self).file_groups, ..*old(self) }),
    {
        dash_set_insert(&mut self.file_groups, file_group.id);
    }

    /// Registers a transform.
    pub fn register_transform(&mut self, transform: Transform)
        ensures
            dash_set_contents(final(self).transforms) == dash_set_contents(
                old(self).transforms,
            ).insert(transform.id),
            *final(self) == (SchemaBuilder { transforms: final(self).transforms, ..*old(self) }),
    {
        dash_set_insert(&mut self.transforms, transform.id);
    }

    /// Registers a collection.
    pub fn register_collection(&mut self, collection: Collection)
        ensures
            dash_set_contents(final(self).collections) == dash_set_contents(
                old(self).collections,
            ).insert(collection.id),
            *final(self) == (SchemaBuilder { collections: final(self).collections, ..*old(self) }),
    {
        dash_set_insert(&mut self.collections, collection.id);
    }

    /// Registers a server.
    pub fn register_server(&mut self, server: Server)
        ensures
            dash_set_contents(final(self).servers) == dash_set_contents(old(self).servers).insert(
                server.id,
            ),
            *final(self) == (SchemaBuilder { servers: final(self).servers, ..*old(self) }),
    {
        dash_set_insert(&mut self.servers, server.id);
    }

    /// Registers a service.
    pub fn register_service(&mut self, service: Service)
        ensures
            dash_set_contents(final(self).services) == dash_set_contents(old(self).services).insert(
                service.id,
            ),
            *final(self) == (SchemaBuilder { services: final(self).services, ..*old(self) }),
    {
        dash_set_insert(&mut self.services, service.id);
    }

    /// Registers a binary.
    pub fn register_binary(&mut self, binary: Binary)
        ensures
            dash_set_contents(final(self).binaries) == dash_set_contents(old(self).binaries).insert(
                binary.id,
            ),
            *final(self) == (SchemaBuilder { binaries: final(self).binaries, ..*old(self) }),
    {
        dash_set_insert(&mut self.binaries, binary.id);
    }
}

impl Schema {
    /// Adds to the database the schema that was loaded from `url` and
    /// declared what `builder` holds.
    pub fn new(db: &mut Database, url: String, builder: SchemaBuilder) -> (r: Schema)
        ensures
            r.id == old(db).schemas@.len(),
            final(db).schemas@.len() == old(db).schemas@.len() + 1,
            forall|i: int|
                0 <= i < old(db).schemas@.len() ==> final(db).schemas@[i] == old(db).schemas@[i],
            final(db).schemas@[r.id as int].url@ == url@,
            holds(final(db).schemas@[r.id as int].file_groups@, dash_set_contents(builder.file_groups)),
            holds(final(db).schemas@[r.id as int].transforms@, dash_set_contents(builder.transforms)),
            holds(
                final(db).schemas@[r.id as int].collections@,
                dash_set_contents(builder.collections),
            ),
            holds(final(db).schemas@[r.id as int].servers@, dash_set_contents(builder.servers)),
            holds(final(db).schemas@[r.id as int].services@, dash_set_contents(builder.services)),
            holds(final(db).schemas@[r.id as int].binaries@, dash_set_contents(builder.binaries)),
            *final(db) == (Database { schemas: final(db).schemas, ..*old(db) }),
    {
        let data = SchemaData {
            url,
            file_groups: handles_of(&builder.file_groups),
            transforms: handles_of(&builder.transforms),
            collections: handles_of(&builder.collections),
            servers: handles_of(&builder.servers),
            services: handles_of(&builder.services),
            binaries: handles_of(&builder.binaries),
        };
        let id = db.schemas.len();
        db.schemas.push(data);
        Schema { id }
    }
}

impl Database {
    /// What the database holds of a schema.
    pub fn schema(&self, s: Schema) -> (r: Option<&SchemaData>)
        ensures
            r is Some <==> s.id < self.schemas@.len(),
            r matches Some(data) ==> *data == self.schemas@[s.id as int],
    {
        if s.id < self.schemas.len() {
            Some(&self.schemas[s.id])
        } else {
            None
        }
    }

    /// Records that a schema was loaded from an address, in the place of
    /// what was recorded for the address before.
    pub fn schema_add(&mut self, url: String, schema: Schema)
        ensures
            dash_map_contents(final(self).known) == dash_map_contents(old(self).known).insert(
                url@,
                schema.id,
            ),
            *final(self) == (Database { known: final(self).known, ..*old(self) }),
    {
        dash_map_insert(&mut self.known, url, schema.id);
    }

    /// The schema that was recorded for an address.
    pub fn schema_at(&self, url: &str) -> (r: Option<Schema>)
        ensures
            r == if dash_map_contents(self.known).contains_key(url@) {
                Some(Schema { id: dash_map_contents(self.known)[url@] })
            } else {
                None
            },
    {
        match dash_map_get(&self.known, url) {
            Some(id) => Some(Schema { id }),
            None => None,
        }
    }
}

} // verus!
