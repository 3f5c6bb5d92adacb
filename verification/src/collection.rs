//! Collections: files of file groups and transforms, gathered under path
//! prefixes.
//!
//! Each item of a collection names where files come from and a prefix. A
//! file of a file group goes to the prefix joined with the file's path below
//! the group's root directory; a file of a transform to the prefix joined
//! with the file's path. Where two files go to the same place, the one
//! listed later stays.

use vstd::prelude::*;
use vstd::string::*;
use crate::assoc::{first_where, lemma_first_where, lemma_first_where_is};
use crate::db::Database;
use crate::deps::{extended, lemma_extended_add, Input};
use crate::error::{failure, Cause, CauseView, ErrorKind, Outcome};
use crate::fileset::{
    files_view,
    tasks_view,
    File,
    FileView,
    RuntimeTask,
};
use crate::gather::{clean, finished, noted, Gather, GatherView};
use crate::path::{joined, FsPath};
use crate::schema::Schema;
use crate::task::TaskView;
use crate::transform::{grown, input_files, input_files_eval};

use crate::deps::{lemma_extended_none};

verus! {

/// A handle to a collection of the database.
#[derive(Debug, Clone, Copy, PartialEq, Eq, Structural, PartialOrd, Ord, Hash)]
pub struct Collection {
    pub id: usize,
}

/// One item of a collection: where its files go, and where they come from.
#[derive(Debug)]
pub struct CollectionItem {
    pub prefix: FsPath,
    pub content: Input,
}

impl Clone for CollectionItem {
    fn clone(&self) -> (r: Self)
        ensures
            r.prefix@ == self.prefix@,
            r.content == self.content,
    {
        CollectionItem { prefix: self.prefix.clone(), content: self.content }
    }
}

/// What the database holds of a collection.
#[derive(Debug)]
pub struct CollectionData {
    pub name: String,
    pub items: Vec<CollectionItem>,
}

/// A place in a collection and the file that goes there.
pub type Placed = (Seq<Seq<char>>, FileView);

/// The models of a list of placed files.
pub open spec fn placed_view(v: Seq<(FsPath, File)>) -> Seq<Placed> {
    Seq::new(v.len(), |i: int| (v[i].0@, v[i].1@))
}

/// The models of the items of a collection: prefix and content.
pub open spec fn items_view(v: Seq<CollectionItem>) -> Seq<(Seq<Seq<char>>, Input)> {
    Seq::new(v.len(), |i: int| (v[i].prefix@, v[i].content))
}

/// The map that placing files one after the other makes: a later file
/// takes the place of an earlier one.
pub open spec fn artifacts(entries: Seq<Placed>) -> Map<Seq<Seq<char>>, FileView>
    decreases entries.len(),
{
    if entries.len() == 0 {
        Map::empty()
    } else {
        artifacts(entries.drop_last()).insert(entries.last().0, entries.last().1)
    }
}

/// Whether no two entries have the same place.
pub open spec fn distinct_places(entries: Seq<Placed>) -> bool {
    forall|i: int, j: int|
        0 <= i < j < entries.len() ==> (#[trigger] entries[i]).0 != (#[trigger] entries[j]).0
}

/// The overwrite policy: of the files placed at one place, the last one
/// stays. A place holds a file exactly if a file was placed there, and the
/// file it holds is that of the last entry for the place.
pub proof fn lemma_last_write_wins(entries: Seq<Placed>)
    ensures
        forall|k: Seq<Seq<char>>|
            artifacts(entries).contains_key(k) <==> exists|i: int|
                0 <= i < entries.len() && (#[trigger] entries[i]).0 == k,
        forall|i: int|
            0 <= i < entries.len() && (forall|j: int|
                i < j < entries.len() ==> (#[trigger] entries[j]).0 != entries[i].0) ==> artifacts(
                entries,
            )[(#[trigger] entries[i]).0] == entries[i].1,
    decreases entries.len(),
{
    if entries.len() > 0 {
        let before = entries.drop_last();
        let last = entries.last();
        lemma_last_write_wins(before);
        assert forall|k: Seq<Seq<char>>|
            artifacts(entries).contains_key(k) <==> exists|i: int|
                0 <= i < entries.len() && (#[trigger] entries[i]).0 == k by {
            if artifacts(entries).contains_key(k) {
                if k == last.0 {
                    assert(entries[entries.len() - 1].0 == k);
                } else {
                    assert(artifacts(before).contains_key(k));
                    let i = choose|i: int| 0 <= i < before.len() && (#[trigger] before[i]).0 == k;
                    assert(entries[i] == before[i]);
                }
            }
            if exists|i: int| 0 <= i < entries.len() && (#[trigger] entries[i]).0 == k {
                let i = choose|i: int| 0 <= i < entries.len() && (#[trigger] entries[i]).0 == k;
                if i < before.len() {
                    assert(before[i].0 == k);
                    assert(artifacts(before).contains_key(k));
                }
            }
        }
        assert forall|i: int|
            0 <= i < entries.len() && (forall|j: int|
                i < j < entries.len() ==> (#[trigger] entries[j]).0 != entries[i].0) implies artifacts(
            entries,
        )[(#[trigger] entries[i]).0] == entries[i].1 by {
            if i < before.len() {
                assert(before[i] == entries[i]);
                assert(entries[entries.len() - 1].0 != entries[i].0);
                assert forall|j: int| i < j < before.len() implies (#[trigger] before[j]).0
                    != before[i].0 by {
                    assert(before[j] == entries[j]);
                }
            }
        }
    }
}

/// The condition that an entry is at a place.
pub open spec fn is_at(place: Seq<Seq<char>>) -> spec_fn(Placed) -> bool {
    |e: Placed| e.0 == place
}

/// A list of placed files with one more file placed: the file takes the
/// place of the first entry with its place, or comes last where there is
/// none.
pub open spec fn put(s: Seq<Placed>, e: Placed) -> Seq<Placed> {
    match first_where(s, is_at(e.0)) {
        Some(i) => s.update(i, e),
        None => s.push(e),
    }
}

/// A list of placed files with more files placed, one after the other.
pub open spec fn put_all(s: Seq<Placed>, more: Seq<Placed>) -> Seq<Placed>
    decreases more.len(),
{
    if more.len() == 0 {
        s
    } else {
        put(put_all(s, more.drop_last()), more.last())
    }
}

/// Placing two sequences in turn is placing their concatenation.
pub proof fn lemma_put_all_add(s: Seq<Placed>, a: Seq<Placed>, b: Seq<Placed>)
    ensures
        put_all(s, a + b) == put_all(put_all(s, a), b),
    decreases b.len(),
{
    if b.len() == 0 {
        assert(a + b =~= a);
    } else {
        assert((a + b).drop_last() =~= a + b.drop_last());
        assert((a + b).last() == b.last());
        lemma_put_all_add(s, a, b.drop_last());
    }
}

/// Placing a file keeps the places distinct, and makes the map of the list
/// hold the file at its place and everything else as before.
pub proof fn lemma_put(s: Seq<Placed>, e: Placed)
    requires
        distinct_places(s),
    ensures
        distinct_places(put(s, e)),
        artifacts(put(s, e)) == artifacts(s).insert(e.0, e.1),
{
    lemma_first_where(s, is_at(e.0));
    match first_where(s, is_at(e.0)) {
        Some(i) => {
            let after = s.update(i, e);
            assert forall|a: int, b: int| 0 <= a < b < after.len() implies (#[trigger] after[a]).0
                != (#[trigger] after[b]).0 by {
                assert(after[a].0 == s[a].0);
                assert(after[b].0 == s[b].0);
            }
            lemma_last_write_wins(s);
            lemma_last_write_wins(after);
            assert forall|k: Seq<Seq<char>>|
                artifacts(after).contains_key(k) <==> artifacts(s).insert(e.0, e.1).contains_key(
                    k,
                ) by {
                if artifacts(after).contains_key(k) {
                    let m = choose|m: int| 0 <= m < after.len() && (#[trigger] after[m]).0 == k;
                    assert(s[m].0 == k);
                }
                if artifacts(s).contains_key(k) {
                    let m = choose|m: int| 0 <= m < s.len() && (#[trigger] s[m]).0 == k;
                    assert(after[m].0 == k);
                }
                if k == e.0 {
                    assert(after[i].0 == k);
                }
            }
            assert forall|k: Seq<Seq<char>>| artifacts(after).contains_key(k) implies artifacts(
                after,
            )[k] == artifacts(s).insert(e.0, e.1)[k] by {
                let m = choose|m: int| 0 <= m < after.len() && (#[trigger] after[m]).0 == k;
                assert(artifacts(after)[after[m].0] == after[m].1);
                if m != i {
                    assert(s[m] == after[m]);
                    assert(s[m].0 != s[i].0);
                    assert(artifacts(s)[s[m].0] == s[m].1);
                }
            }
            assert(artifacts(after) =~= artifacts(s).insert(e.0, e.1));
        },
        None => {
            let after = s.push(e);
            assert(after.drop_last() =~= s);
            assert forall|a: int, b: int| 0 <= a < b < after.len() implies (#[trigger] after[a]).0
                != (#[trigger] after[b]).0 by {
                assert(after[a] == s[a]);
                assert(!is_at(e.0)(s[a]));
                if b < s.len() {
                    assert(after[b] == s[b]);
                }
            }
        },
    }
}

/// Files placed one after the other end at distinct places, and the map of
/// the list is the map that placing them makes: at each place the file that
/// was placed there last.
pub proof fn lemma_put_all(entries: Seq<Placed>)
    ensures
        distinct_places(put_all(Seq::empty(), entries)),
        artifacts(put_all(Seq::empty(), entries)) == artifacts(entries),
    decreases entries.len(),
{
    if entries.len() > 0 {
        lemma_put_all(entries.drop_last());
        lemma_put(put_all(Seq::empty(), entries.drop_last()), entries.last());
    }
}

/// The overwrite policy. The files of a list of items are the files of the
/// items, placed one after the other: the list holds each place once, a
/// place holds a file exactly if an item put one there, and of the files
/// that items put at one place, it holds the one that was put there last.
pub proof fn lemma_overwrite_policy(
    db: Database,
    schema: Schema,
    items: Seq<(Seq<Seq<char>>, Input)>,
    files: Seq<Placed>,
)
    requires
        materialized(db, schema, items).0 == Ok::<Seq<Placed>, CauseView>(files),
    ensures
        distinct_places(files),
        forall|k: Seq<Seq<char>>|
            artifacts(files).contains_key(k) <==> exists|i: int|
                0 <= i < items_fold(db, schema, items).1.len() && (#[trigger] items_fold(
                    db,
                    schema,
                    items,
                ).1[i]).0 == k,
        forall|i: int|
            0 <= i < items_fold(db, schema, items).1.len() && (forall|j: int|
                i < j < items_fold(db, schema, items).1.len() ==> (#[trigger] items_fold(
                    db,
                    schema,
                    items,
                ).1[j]).0 != items_fold(db, schema, items).1[i].0) ==> artifacts(files)[(
            #[trigger] items_fold(db, schema, items).1[i]).0] == items_fold(db, schema, items).1[i].1,
{
    let entries = items_fold(db, schema, items).1;
    lemma_put_all(entries);
    lemma_last_write_wins(entries);
}

/// Places a file in a list: the file takes the place of the first entry
/// with its place, or comes last where there is none.
pub fn place(out: &mut Vec<(FsPath, File)>, at: FsPath, file: File)
    ensures
        placed_view(final(out)@) == put(placed_view(old(out)@), (at@, file@)),
{
    let ghost before = placed_view(out@);
    let mut i: usize = 0;
    while i < out.len()
        invariant
            i <= out.len(),
            *out == *old(out),
            before == placed_view(out@),
            forall|j: int| 0 <= j < i ==> !is_at(at@)(#[trigger] before[j]),
        decreases out.len() - i,
    {
        if out[i].0.same(&at) {
            proof {
                lemma_first_where_is(before, is_at(at@), i as int);
            }
            out.set(i, (at, file));
            assert(placed_view(out@) =~= before.update(i as int, (at@, file@)));
            return ;
        }
        i += 1;
    }
    proof {
        lemma_first_where(before, is_at(at@));
    }
    out.push((at, file));
    assert(placed_view(out@) =~= before.push((at@, file@)));
}

/// Where a file of an item goes: the prefix joined with the file's path
/// below `base` where it lies under `base`, else with the file's path.
pub open spec fn destination(prefix: Seq<Seq<char>>, base: Option<Seq<Seq<char>>>, file: Seq<Seq<char>>)
    -> Seq<Seq<char>> {
    match base {
        Some(b) => if b.is_prefix_of(file) {
            joined(prefix, file.skip(b.len() as int))
        } else {
            joined(prefix, file)
        },
        None => joined(prefix, file),
    }
}

/// The files of an item, each at its place.
pub open spec fn item_entries(prefix: Seq<Seq<char>>, base: Option<Seq<Seq<char>>>, files: Seq<FileView>)
    -> Seq<Placed> {
    Seq::new(files.len(), |i: int| (destination(prefix, base, files[i].path), files[i]))
}

/// The directory that the paths of an item's files are taken below: the
/// root directory of a file group, none for a transform.
pub open spec fn base_of(db: Database, content: Input) -> Option<Seq<Seq<char>>> {
    match content {
        Input::FileGroup(g) => if db.has_group(g) {
            Some(db.group_root(g))
        } else {
            None
        },
        Input::Transform(t) => None,
    }
}

/// Gathering the files of a sequence of items, each item a branch of its
/// own: what the branches came to, the files placed, and the tasks asked
/// for.
pub open spec fn items_fold(db: Database, schema: Schema, items: Seq<(Seq<Seq<char>>, Input)>)
    -> (GatherView, Seq<Placed>, Seq<TaskView>)
    decreases items.len(),
{
    if items.len() == 0 {
        (clean(), Seq::empty(), Seq::empty())
    } else {
        let (g, entries, tasks) = items_fold(db, schema, items.drop_last());
        let (prefix, content) = items.last();
        let (r, more) = input_files_eval(db, schema, content, db.transforms@.len());
        match r {
            Ok(files) => (
                g,
                entries + item_entries(prefix, base_of(db, content), files),
                tasks + more,
            ),
            Err(c) => (noted(g, c), entries, tasks + more),
        }
    }
}

/// The files of a list of items, each place once: the files of the items
/// placed one after the other.
pub open spec fn materialized(db: Database, schema: Schema, items: Seq<(Seq<Seq<char>>, Input)>)
    -> (Result<Seq<Placed>, CauseView>, Seq<TaskView>) {
    let (g, entries, tasks) = items_fold(db, schema, items);
    (finished(g, put_all(Seq::empty(), entries)), tasks)
}

/// Gathers the files of a list of items into one map from place to file.
pub(crate) fn materialize(
    db: &Database,
    schema: Schema,
    items: &Vec<CollectionItem>,
    tasks: &mut Vec<RuntimeTask>,
) -> (r: Outcome<Vec<(FsPath, File)>>)
    ensures
        match r {
            Ok(v) => materialized(*db, schema, items_view(items@)).0 == Ok::<
                Seq<Placed>,
                CauseView,
            >(placed_view(v@)),
            Err(c) => materialized(*db, schema, items_view(items@)).0 == Err::<
                Seq<Placed>,
                CauseView,
            >(c@),
        },
        grown(old(tasks)@, final(tasks)@, materialized(*db, schema, items_view(items@)).1),
{
    let ghost all = items_view(items@);
    let mut gather = Gather::new();
    let mut out: Vec<(FsPath, File)> = Vec::new();
    let ghost mut emitted: Seq<TaskView> = Seq::empty();
    let mut i: usize = 0;
    proof {
        lemma_extended_none(tasks_view(tasks@));
        assert(all.take(0) =~= Seq::<(Seq<Seq<char>>, Input)>::empty());
    }
    while i < items.len()
        invariant
            i <= items.len(),
            all == items_view(items@),
            gather@ == items_fold(*db, schema, all.take(i as int)).0,
            placed_view(out@) == put_all(
                Seq::empty(),
                items_fold(*db, schema, all.take(i as int)).1,
            ),
            emitted == items_fold(*db, schema, all.take(i as int)).2,
            tasks_view(tasks@) == extended(tasks_view(old(tasks)@), emitted),
        decreases items.len() - i,
    {
        assert(all.take(i + 1).drop_last() =~= all.take(i as int));
        assert(all.take(i + 1).last() == all[i as int]);
        let ghost prefix = items[i as int].prefix@;
        let ghost content = items[i as int].content;
        let ghost more = input_files_eval(*db, schema, content, db.transforms@.len()).1;
        let ghost entries = items_fold(*db, schema, all.take(i as int)).1;
        proof {
            lemma_extended_add(tasks_view(old(tasks)@), emitted, more);
        }
        match input_files(db, schema, items[i].content, db.transforms.len(), tasks) {
            Ok(files) => {
                let ghost fresh = item_entries(prefix, base_of(*db, content), files_view(files@));
                let mut k: usize = 0;
                assert(fresh.take(0) =~= Seq::<Placed>::empty());
                assert(entries + fresh.take(0) =~= entries);
                while k < files.len()
                    invariant
                        i < items.len(),
                        k <= files.len(),
                        prefix == items[i as int].prefix@,
                        content == items[i as int].content,
                        fresh == item_entries(prefix, base_of(*db, content), files_view(files@)),
                        placed_view(out@) == put_all(Seq::empty(), entries + fresh.take(k as int)),
                    decreases files.len() - k,
                {
                    let below = match items[i].content {
                        Input::FileGroup(g) => match db.file_group(g) {
                            Some(data) => files[k].path.strip_prefix(&data.root),
                            None => None,
                        },
                        Input::Transform(_) => None,
                    };
                    let at = match below {
                        Some(rest) => items[i].prefix.join(&rest),
                        None => items[i].prefix.join(&files[k].path),
                    };
                    assert(at@ == fresh[k as int].0);
                    proof {
                        let upto = entries + fresh.take(k + 1);
                        assert(upto.drop_last() =~= entries + fresh.take(k as int));
                        assert(upto.last() == fresh[k as int]);
                    }
                    place(&mut out, at, files[k].clone());
                    k += 1;
                }
                assert(fresh.take(files.len() as int) =~= fresh);
            },
            Err(c) => {
                gather.note(c);
            },
        }
        proof {
            emitted = emitted + more;
        }
        i += 1;
    }
    assert(all.take(items.len() as int) =~= all);
    match gather.cause() {
        Some(c) => Err(c),
        None => Ok(out),
    }
}

impl Database {
    /// Whether the database holds a collection.
    pub open spec fn has_collection(&self, c: Collection) -> bool {
        c.id < self.collections@.len()
    }

    /// What the database holds of a collection.
    pub fn collection(&self, c: Collection) -> (r: Option<&CollectionData>)
        ensures
            r is Some <==> self.has_collection(c),
            r matches Some(data) ==> *data == self.collections@[c.id as int],
    {
        if c.id < self.collections.len() {
            Some(&self.collections[c.id])
        } else {
            None
        }
    }
}

impl Collection {
    /// Declares a collection.
    pub fn new(db: &mut Database, name: String, items: Vec<CollectionItem>) -> (r: Collection)
        ensures
            r.id == old(db).collections@.len(),
            final(db).collections@ == old(db).collections@.push(CollectionData { name, items }),
            *final(db) == (Database { collections: final(db).collections, ..*old(db) }),
    {
        let id = db.collections.len();
        db.collections.push(CollectionData { name, items });
        Collection { id }
    }
}

/// The condition that a collection of a database has a name.
pub open spec fn is_named(db: Database, name: Seq<char>) -> spec_fn(Collection) -> bool {
    |c: Collection| db.has_collection(c) && db.collections@[c.id as int].name@ == name
}

/// The collection of a schema with a name: the first of the schema's
/// collections, in ascending order of the handles, that the database holds
/// under that name.
pub open spec fn collection_named(db: Database, schema: Schema, name: Seq<char>) -> Option<
    Collection,
> {
    if !db.has_schema(schema) {
        None
    } else {
        let all = db.schemas@[schema.id as int].collections@;
        match first_where(all, is_named(db, name)) {
            Some(i) => Some(all[i]),
            None => None,
        }
    }
}

impl Collection {
    /// The collection of a schema with a name.
    pub fn named(db: &Database, schema: Schema, name: &str) -> (r: Option<Collection>)
        ensures
            r == collection_named(*db, schema, name@),
    {
        if schema.id >= db.schemas.len() {
            return None;
        }
        let all = &db.schemas[schema.id].collections;
        let wanted = String::from_str(name);
        let mut i: usize = 0;
        while i < all.len()
            invariant
                i <= all.len(),
                wanted@ == name@,
                db.has_schema(schema),
                all@ == db.schemas@[schema.id as int].collections@,
                forall|j: int| 0 <= j < i ==> !is_named(*db, name@)(#[trigger] all@[j]),
            decreases all.len() - i,
        {
            match db.collection(all[i]) {
                Some(data) => {
                    if data.name == wanted {
                        proof {
                            assert(is_named(*db, name@)(all@[i as int]));
                            lemma_first_where_is(all@, is_named(*db, name@), i as int);
                        }
                        return Some(all[i]);
                    }
                },
                None => {},
            }
            i += 1;
        }
        proof {
            lemma_first_where(all@, is_named(*db, name@));
        }
        None
    }
}

/// The files of a collection, each place once.
pub open spec fn collection_files_eval(db: Database, schema: Schema, c: Collection) -> (
    Result<Seq<Placed>, CauseView>,
    Seq<TaskView>,
) {
    if db.has_collection(c) {
        materialized(db, schema, items_view(db.collections@[c.id as int].items@))
    } else {
        (Err(failure(ErrorKind::UnknownCollection)), Seq::empty())
    }
}

/// The files of a collection: for each item, the files of the file group
/// or transform it names, each at its place under the item's prefix. The
/// list holds each place once, in the order in which the places were first
/// taken; where two files go to one place, the one listed later stays.
///
/// Every item is a branch of its own: all are evaluated, so that all their
/// tasks are recorded. Pending where a branch is pending; else the first
/// failure; else the files. Fails where the database does not hold the
/// collection.
pub fn collection_files(
    db: &Database,
    schema: Schema,
    collection: Collection,
    tasks: &mut Vec<RuntimeTask>,
) -> (r: Outcome<Vec<(FsPath, File)>>)
    ensures
        match r {
            Ok(v) => collection_files_eval(*db, schema, collection).0 == Ok::<
                Seq<Placed>,
                CauseView,
            >(placed_view(v@)),
            Err(c) => collection_files_eval(*db, schema, collection).0 == Err::<
                Seq<Placed>,
                CauseView,
            >(c@),
        },
        grown(old(tasks)@, final(tasks)@, collection_files_eval(*db, schema, collection).1),
{
    match db.collection(collection) {
        Some(data) => materialize(db, schema, &data.items, tasks),
        None => {
            proof {
                lemma_extended_none(tasks_view(tasks@));
            }
            Err(Cause::error(ErrorKind::UnknownCollection))
        },
    }
}

} // verus!
