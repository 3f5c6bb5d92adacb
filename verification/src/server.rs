//! Servers that a schema declares.

use vstd::prelude::*;
use crate::db::Database;

verus! {

/// A handle to a server of the database.
#[derive(Debug, Clone, Copy, PartialEq, Eq, Structural, PartialOrd, Ord, Hash)]
pub struct Server {
    pub id: usize,
}

/// What the database holds of a server.
#[derive(Debug)]
pub struct ServerData {
    pub name: String,
}

impl Database {
    /// Whether the database holds a server.
    pub open spec fn has_server(&self, s: Server) -> bool {
        s.id < self.servers@.len()
    }

    /// What the database holds of a server.
    pub fn server(&self, s: Server) -> (r: Option<&ServerData>)
        ensures
            r is Some <==> self.has_server(s),
            r matches Some(data) ==> *data == self.servers@[s.id as int],
    {
        if s.id < self.servers.len() {
            Some(&self.servers[s.id])
        } else {
            None
        }
    }
}

impl Server {
    /// Declares a server.
    pub fn new(db: &mut Database, name: String) -> (r: Server)
        ensures
            r.id == old(db).servers@.len(),
            final(db).servers@ == old(db).servers@.push(ServerData { name }),
            *final(db) == (Database { servers: final(db).servers, ..*old(db) }),
    {
        let id = db.servers.len();
        db.servers.push(ServerData { name });
        Server { id }
    }
}

} // verus!
