//! Services: binaries that a schema wants running.

use vstd::prelude::*;
use crate::binary::Binary;
use crate::db::Database;
use crate::schema::Schema;

verus! {

/// A handle to a service of the database.
#[derive(Debug, Clone, Copy, PartialEq, Eq, Structural, PartialOrd, Ord, Hash)]
pub struct Service {
    pub id: usize,
}

/// What the database holds of a service.
#[derive(Debug)]
pub struct ServiceData {
    pub name: String,
    pub binary: Binary,
}

impl Database {
    /// Whether the database holds a service.
    pub open spec fn has_service(&self, s: Service) -> bool {
        s.id < self.services@.len()
    }

    /// What the database holds of a service.
    pub fn service(&self, s: Service) -> (r: Option<&ServiceData>)
        ensures
            r is Some <==> self.has_service(s),
            r matches Some(data) ==> *data == self.services@[s.id as int],
    {
        if s.id < self.services.len() {
            Some(&self.services[s.id])
        } else {
            None
        }
    }
}

impl Service {
    /// Declares a service.
    pub fn new(db: &mut Database, name: String, binary: Binary) -> (r: Service)
        ensures
            r.id == old(db).services@.len(),
            final(db).services@ == old(db).services@.push(ServiceData { name, binary }),
            *final(db) == (Database { services: final(db).services, ..*old(db) }),
    {
        let id = db.services.len();
        db.services.push(ServiceData { name, binary });
        Service { id }
    }
}

/// The services among a sequence that the database holds, each with its
/// binary, in order.
pub open spec fn launches(db: Database, services: Seq<Service>) -> Seq<(Service, Binary)>
    decreases services.len(),
{
    if services.len() == 0 {
        Seq::empty()
    } else {
        let rest = launches(db, services.drop_last());
        let s = services.last();
        if db.has_service(s) {
            rest.push((s, db.services@[s.id as int].binary))
        } else {
            rest
        }
    }
}

/// What running a schema launches: each of its services with the binary to
/// resolve and spawn for it, in ascending order of the services' handles.
/// Nothing where the database does not hold the schema.
pub fn schema_services(db: &Database, schema: Schema) -> (r: Vec<(Service, Binary)>)
    ensures
        r@ == if db.has_schema(schema) {
            launches(*db, db.schemas@[schema.id as int].services@)
        } else {
            Seq::<(Service, Binary)>::empty()
        },
{
    let mut out: Vec<(Service, Binary)> = Vec::new();
    if schema.id >= db.schemas.len() {
        return out;
    }
    let all = &db.schemas[schema.id].services;
    let mut i: usize = 0;
    assert(all@.take(0) =~= Seq::<Service>::empty());
    while i < all.len()
        invariant
            i <= all.len(),
            out@ == launches(*db, all@.take(i as int)),
        decreases all.len() - i,
    {
        assert(all@.take(i + 1).drop_last() =~= all@.take(i as int));
        assert(all@.take(i + 1).last() == all@[i as int]);
        match db.service(all[i]) {
            Some(data) => {
                out.push((all[i], data.binary));
            },
            None => {},
        }
        i += 1;
    }
    assert(all@.take(all.len() as int) =~= all@);
    out
}

} // verus!
