//! Bundles: like collections, files gathered under path prefixes.

use vstd::prelude::*;
use crate::collection::{
    items_view,
    materialize,
    materialized,
    placed_view,
    CollectionItem,
    Placed,
};
use crate::db::Database;
use crate::deps::Input;
use crate::error::{failure, Cause, CauseView, ErrorKind, Outcome};
use crate::fileset::{tasks_view, File, RuntimeTask};
use crate::path::FsPath;
use crate::schema::Schema;
use crate::task::TaskView;
use crate::transform::grown;

use crate::deps::{lemma_extended_none};

verus! {

/// A handle to a bundle of the database.
#[derive(Debug, Clone, Copy, PartialEq, Eq, Structural, PartialOrd, Ord, Hash)]
pub struct Bundle {
    pub id: usize,
}

/// One item of a bundle: where its files go, and where they come from.
#[derive(Debug)]
pub struct BundleItem {
    pub prefix: FsPath,
    pub content: Input,
}

/// What the database holds of a bundle.
#[derive(Debug)]
pub struct BundleData {
    pub name: String,
    pub items: Vec<BundleItem>,
}

/// The models of the items of a bundle: prefix and content.
pub open spec fn bundle_items_view(v: Seq<BundleItem>) -> Seq<(Seq<Seq<char>>, Input)> {
    Seq::new(v.len(), |i: int| (v[i].prefix@, v[i].content))
}

impl Database {
    /// Whether the database holds a bundle.
    pub open spec fn has_bundle(&self, b: Bundle) -> bool {
        b.id < self.bundles@.len()
    }

    /// What the database holds of a bundle.
    pub fn bundle(&self, b: Bundle) -> (r: Option<&BundleData>)
        ensures
            r is Some <==> self.has_bundle(b),
            r matches Some(data) ==> *data == self.bundles@[b.id as int],
    {
        if b.id < self.bundles.len() {
            Some(&self.bundles[b.id])
        } else {
            None
        }
    }
}

impl Bundle {
    /// Declares a bundle.
    pub fn new(db: &mut Database, name: String, items: Vec<BundleItem>) -> (r: Bundle)
        ensures
            r.id == old(db).bundles@.len(),
            final(db).bundles@ == old(db).bundles@.push(BundleData { name, items }),
            *final(db) == (Database { bundles: final(db).bundles, ..*old(db) }),
    {
        let id = db.bundles.len();
        db.bundles.push(BundleData { name, items });
        Bundle { id }
    }
}

/// The files of a bundle, each place once.
pub open spec fn bundle_files_eval(db: Database, schema: Schema, b: Bundle) -> (
    Result<Seq<Placed>, CauseView>,
    Seq<TaskView>,
) {
    if db.has_bundle(b) {
        materialized(db, schema, bundle_items_view(db.bundles@[b.id as int].items@))
    } else {
        (Err(failure(ErrorKind::UnknownBundle)), Seq::empty())
    }
}

/// The files of a bundle: for each item, the files of the file group or
/// transform it names, each at its place under the item's prefix. The list
/// holds each place once, in the order in which the places were first taken;
/// where two files go to one place, the one listed later stays. Pending and failing as the files of a collection; fails where
/// the database does not hold the bundle.
pub fn bundle_files(db: &Database, schema: Schema, bundle: Bundle, tasks: &mut Vec<RuntimeTask>)
    -> (r: Outcome<Vec<(FsPath, File)>>)
    ensures
        match r {
            Ok(v) => bundle_files_eval(*db, schema, bundle).0 == Ok::<Seq<Placed>, CauseView>(
                placed_view(v@),
            ),
            Err(c) => bundle_files_eval(*db, schema, bundle).0 == Err::<Seq<Placed>, CauseView>(
                c@,
            ),
        },
        grown(old(tasks)@, final(tasks)@, bundle_files_eval(*db, schema, bundle).1),
{
    let data = match db.bundle(bundle) {
        Some(data) => data,
        None => {
            proof {
                lemma_extended_none(tasks_view(tasks@));
            }
            return Err(Cause::error(ErrorKind::UnknownBundle));
        },
    };
    let mut items: Vec<CollectionItem> = Vec::new();
    let mut i: usize = 0;
    while i < data.items.len()
        invariant
            i <= data.items.len(),
            items.len() == i,
            forall|j: int|
                0 <= j < i ==> items[j].prefix@ == data.items[j].prefix@ && items[j].content
                    == data.items[j].content,
        decreases data.items.len() - i,
    {
        items.push(
            CollectionItem { prefix: data.items[i].prefix.clone(), content: data.items[i].content },
        );
        i += 1;
    }
    assert(items_view(items@) =~= bundle_items_view(data.items@));
    materialize(db, schema, &items, tasks)
}

} // verus!
