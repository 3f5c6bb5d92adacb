//! Dependency references: typed handles to nodes of the graph, embedded in
//! structured values.
//!
//! A reference is an object with a field `kind`, one of `"FileGroup"`,
//! `"Transform"` and `"Toolchain"`, and a field `id`, an unsigned integer.
//! Extraction collects the references of a value; substitution puts a
//! resolved value in the place of each. Both walk a value depth first and
//! from left to right, and neither looks inside a reference.

use vstd::prelude::*;
use vstd::string::*;
use crate::assoc::{first_where, lemma_first_where, lemma_first_where_is};
use crate::binary::{Binary, BinaryRuntimeResolved, NativeView};
use crate::fileset::{files_view, File, FileGroup, FileView};
use crate::path::path_text;
use crate::transform::Transform;
use crate::value::{
    field,
    fields_view,
    items_view,
    lemma_array_view,
    lemma_object_view,
    object_get,
    Json,
    Number,
    Value,
};

verus! {

/// What a transform or a collection can take files from.
#[derive(Debug, Clone, Copy, PartialEq, Eq, Structural)]
pub enum Input {
    FileGroup(FileGroup),
    Transform(Transform),
}

/// A reference to a node of the graph.
#[derive(Debug, Clone, Copy, PartialEq, Eq, Structural, PartialOrd, Ord, Hash)]
pub enum Dependency {
    FileGroup(FileGroup),
    Transform(Transform),
    Toolchain(Binary),
}

impl Dependency {
    /// The reference as an input; a toolchain is none.
    pub fn to_input_kind(self) -> (r: Option<Input>)
        ensures
            r == input_of(self),
    {
        match self {
            Dependency::Toolchain(_) => None,
            Dependency::FileGroup(f) => Some(Input::FileGroup(f)),
            Dependency::Transform(t) => Some(Input::Transform(t)),
        }
    }
}

/// The input that a reference stands for, if it stands for one.
pub open spec fn input_of(d: Dependency) -> Option<Input> {
    match d {
        Dependency::Toolchain(_) => None,
        Dependency::FileGroup(f) => Some(Input::FileGroup(f)),
        Dependency::Transform(t) => Some(Input::Transform(t)),
    }
}

/// The reference that an object is, if its fields have the shape of one.
pub open spec fn reference(o: Seq<(Seq<char>, Json)>) -> Option<Dependency> {
    match (field(o, "kind"@), field(o, "id"@)) {
        (Some(Json::String(kind)), Some(Json::Number(Number::PosInt(id)))) => {
            if id > usize::MAX {
                None
            } else if kind == "FileGroup"@ {
                Some(Dependency::FileGroup(FileGroup { id: id as usize }))
            } else if kind == "Transform"@ {
                Some(Dependency::Transform(Transform { id: id as usize }))
            } else if kind == "Toolchain"@ {
                Some(Dependency::Toolchain(Binary { id: id as usize }))
            } else {
                None
            }
        },
        _ => None,
    }
}

/// The references of a value, in the order of a walk depth first and from
/// left to right, each as often as it occurs.
pub open spec fn refs(v: Json) -> Seq<Dependency>
    decreases v, 0nat,
{
    match v {
        Json::Object(o) => match reference(o) {
            Some(d) => seq![d],
            None => refs_fields(o, o.len()),
        },
        Json::Array(a) => refs_items(a, a.len()),
        _ => Seq::empty(),
    }
}

/// The references of the first `n` items of an array.
pub open spec fn refs_items(a: Seq<Json>, n: nat) -> Seq<Dependency>
    decreases a, n,
{
    if n == 0 || n > a.len() {
        Seq::empty()
    } else {
        refs_items(a, (n - 1) as nat) + refs(a[n - 1])
    }
}

/// The references of the values of the first `n` fields of an object.
pub open spec fn refs_fields(o: Seq<(Seq<char>, Json)>, n: nat) -> Seq<Dependency>
    decreases o, n,
{
    if n == 0 || n > o.len() {
        Seq::empty()
    } else {
        refs_fields(o, (n - 1) as nat) + refs(o[n - 1].1)
    }
}

/// `s` with `x` appended, unless `s` holds it already.
pub open spec fn push_new<T>(s: Seq<T>, x: T) -> Seq<T> {
    if s.contains(x) {
        s
    } else {
        s.push(x)
    }
}

/// `s` with each item of `more` appended in turn, unless it is there
/// already: an ordered set grown by a sequence.
pub open spec fn extended<T>(s: Seq<T>, more: Seq<T>) -> Seq<T>
    decreases more.len(),
{
    if more.len() == 0 {
        s
    } else {
        push_new(extended(s, more.drop_last()), more.last())
    }
}

/// Growing an ordered set by nothing leaves it as it is.
pub proof fn lemma_extended_none<T>(s: Seq<T>)
    ensures
        extended(s, Seq::<T>::empty()) == s,
{
}

/// Growing an ordered set by one item appends the item unless it is there.
pub proof fn lemma_extended_one<T>(s: Seq<T>, x: T)
    ensures
        extended(s, seq![x]) == push_new(s, x),
{
    assert(seq![x].drop_last() =~= Seq::<T>::empty());
    assert(extended(s, Seq::<T>::empty()) == s);
    assert(seq![x].last() == x);
}

/// Growing by two sequences in turn is growing by their concatenation.
pub proof fn lemma_extended_add<T>(s: Seq<T>, a: Seq<T>, b: Seq<T>)
    ensures
        extended(s, a + b) == extended(extended(s, a), b),
    decreases b.len(),
{
    if b.len() == 0 {
        assert(a + b =~= a);
    } else {
        assert((a + b).drop_last() =~= a + b.drop_last());
        assert((a + b).last() == b.last());
        lemma_extended_add(s, a, b.drop_last());
    }
}

/// What an ordered set grown by a sequence holds: what it held, and the
/// items of the sequence.
pub proof fn lemma_extended_contains<T>(s: Seq<T>, more: Seq<T>)
    ensures
        forall|x: T| extended(s, more).contains(x) <==> s.contains(x) || more.contains(x),
    decreases more.len(),
{
    if more.len() > 0 {
        lemma_extended_contains(s, more.drop_last());
        let before = extended(s, more.drop_last());
        let last = more.last();
        assert forall|x: T| extended(s, more).contains(x) <==> s.contains(x) || more.contains(
            x,
        ) by {
            if more.contains(x) {
                let i = choose|i: int| 0 <= i < more.len() && more[i] == x;
                if i < more.len() - 1 {
                    assert(more.drop_last()[i] == x);
                }
            }
            if more.drop_last().contains(x) {
                let i = choose|i: int| 0 <= i < more.drop_last().len() && more.drop_last()[i] == x;
                assert(more[i] == x);
            }
            assert(more[more.len() - 1] == last);
            if !before.contains(last) {
                assert(before.push(last)[before.len() as int] == last);
                if before.contains(x) {
                    let i = choose|i: int| 0 <= i < before.len() && before[i] == x;
                    assert(before.push(last)[i] == x);
                }
            }
        }
    }
}

/// Growing an ordered set by items that it holds already leaves it as it
/// is.
pub proof fn lemma_extended_held<T>(s: Seq<T>, more: Seq<T>)
    requires
        forall|i: int| 0 <= i < more.len() ==> s.contains(#[trigger] more[i]),
    ensures
        extended(s, more) == s,
    decreases more.len(),
{
    if more.len() > 0 {
        assert forall|i: int| 0 <= i < more.drop_last().len() implies s.contains(
            #[trigger] more.drop_last()[i],
        ) by {
            assert(more.drop_last()[i] == more[i]);
        }
        lemma_extended_held(s, more.drop_last());
        assert(s.contains(more[more.len() - 1]));
    }
}

/// Growing an ordered set keeps it without duplicates.
pub proof fn lemma_extended_no_duplicates<T>(s: Seq<T>, more: Seq<T>)
    requires
        s.no_duplicates(),
    ensures
        extended(s, more).no_duplicates(),
        forall|x: T| extended(s, more).contains(x) <==> s.contains(x) || more.contains(x),
    decreases more.len(),
{
    if more.len() > 0 {
        lemma_extended_no_duplicates(s, more.drop_last());
        let before = extended(s, more.drop_last());
        let x = more.last();
        assert forall|y: T| extended(s, more).contains(y) <==> s.contains(y) || more.contains(
            y,
        ) by {
            if more.contains(y) {
                let i = choose|i: int| 0 <= i < more.len() && more[i] == y;
                if i < more.len() - 1 {
                    assert(more.drop_last()[i] == y);
                }
            }
            if more.drop_last().contains(y) {
                let i = choose|i: int| 0 <= i < more.drop_last().len() && more.drop_last()[i] == y;
                assert(more[i] == y);
            }
            if !before.contains(x) {
                assert(before.push(x)[before.len() as int] == x);
                if before.contains(y) {
                    let i = choose|i: int| 0 <= i < before.len() && before[i] == y;
                    assert(before.push(x)[i] == y);
                }
            }
            assert(more[more.len() - 1] == x);
        }
    }
}

/// Appends `d` to `buffer` unless it is there already.
pub fn push_unique(buffer: &mut Vec<Dependency>, d: Dependency)
    ensures
        final(buffer)@ == push_new(old(buffer)@, d),
{
    let mut i: usize = 0;
    while i < buffer.len()
        invariant
            i <= buffer.len(),
            *buffer == *old(buffer),
            forall|j: int| 0 <= j < i ==> buffer@[j] != d,
        decreases buffer.len() - i,
    {
        if buffer[i] == d {
            return ;
        }
        i += 1;
    }
    buffer.push(d);
}

/// The reference that an object is, if it is one.
pub fn reference_of(o: &Vec<(String, Value)>) -> (r: Option<Dependency>)
    ensures
        r == reference(fields_view(o@)),
{
    let kind = match object_get(o, "kind") {
        Some(v) => match v.as_str() {
            Some(s) => String::from_str(s),
            None => { return None; },
        },
        None => { return None; },
    };
    let id = match object_get(o, "id") {
        Some(v) => match v.as_u64() {
            Some(n) => n,
            None => { return None; },
        },
        None => { return None; },
    };
    if id > usize::MAX as u64 {
        return None;
    }
    if kind == String::from_str("FileGroup") {
        Some(Dependency::FileGroup(FileGroup { id: id as usize }))
    } else if kind == String::from_str("Transform") {
        Some(Dependency::Transform(Transform { id: id as usize }))
    } else if kind == String::from_str("Toolchain") {
        Some(Dependency::Toolchain(Binary { id: id as usize }))
    } else {
        None
    }
}

/// Appends to `buffer` the references of an object that `buffer` does not
/// hold yet: the object itself where it is a reference, else those of its
/// fields' values.
pub fn extract_dependencies_from_object(o: &Vec<(String, Value)>, buffer: &mut Vec<Dependency>)
    ensures
        final(buffer)@ == extended(old(buffer)@, refs(Json::Object(fields_view(o@)))),
    decreases o, 1nat,
{
    let ghost fields = fields_view(o@);
    match reference_of(o) {
        Some(d) => {
            assert(seq![d].drop_last() =~= Seq::<Dependency>::empty());
            assert(extended(old(buffer)@, Seq::<Dependency>::empty()) == old(buffer)@);
            assert(seq![d].last() == d);
            assert(extended(old(buffer)@, seq![d]) == push_new(old(buffer)@, d));
            push_unique(buffer, d);
        },
        None => {
            let mut i: usize = 0;
            while i < o.len()
                invariant
                    i <= o.len(),
                    fields == fields_view(o@),
                    buffer@ == extended(old(buffer)@, refs_fields(fields, i as nat)),
                decreases o.len() - i,
            {
                assert(decreases_to!(*o => o[i as int].1));
                extract_dependencies(&o[i].1, buffer);
                proof {
                    lemma_extended_add(
                        old(buffer)@,
                        refs_fields(fields, i as nat),
                        refs(fields[i as int].1),
                    );
                }
                i += 1;
            }
        },
    }
}

/// Appends to `buffer` the references of a value that `buffer` does not hold
/// yet, in the order in which a walk depth first and from left to right
/// meets them.
pub fn extract_dependencies(v: &Value, buffer: &mut Vec<Dependency>)
    ensures
        final(buffer)@ == extended(old(buffer)@, refs(v@)),
    decreases v, 2nat,
{
    match v {
        Value::Object(o) => {
            proof {
                lemma_object_view(*o);
            }
            assert(decreases_to!(*v => v->Object_0));
            extract_dependencies_from_object(o, buffer)
        },
        Value::Array(a) => {
            let ghost items = items_view(a@);
            proof {
                lemma_array_view(*a);
            }
            let mut i: usize = 0;
            while i < a.len()
                invariant
                    i <= a.len(),
                    *v == Value::Array(*a),
                    items == items_view(a@),
                    buffer@ == extended(old(buffer)@, refs_items(items, i as nat)),
                decreases a.len() - i,
            {
                assert(decreases_to!(*v => v->Array_0));
                assert(decreases_to!(*a => a[i as int]));
                extract_dependencies(&a[i], buffer);
                proof {
                    lemma_extended_add(
                        old(buffer)@,
                        refs_items(items, i as nat),
                        refs(items[i as int]),
                    );
                }
                i += 1;
            }
        },
        _ => {},
    }
}

/// What a reference resolved to.
#[derive(Debug, PartialEq, Eq)]
pub enum ResolvedDependency {
    /// A toolchain: the executable it resolved to.
    Binary(BinaryRuntimeResolved),
    /// A file group or a transform: its files.
    Files(Vec<File>),
}

/// The model of a [`ResolvedDependency`].
pub enum ResolvedView {
    Binary(NativeView),
    Files(Seq<FileView>),
}

impl View for ResolvedDependency {
    type V = ResolvedView;

    open spec fn view(&self) -> ResolvedView {
        match self {
            ResolvedDependency::Binary(b) => ResolvedView::Binary(b@),
            ResolvedDependency::Files(f) => ResolvedView::Files(files_view(f@)),
        }
    }
}

/// An array of strings.
pub open spec fn text_items(a: Seq<Seq<char>>) -> Seq<Json> {
    Seq::new(a.len(), |i: int| Json::String(a[i]))
}

/// The fields of an object whose values are strings.
pub open spec fn text_fields(e: Seq<(Seq<char>, Seq<char>)>) -> Seq<(Seq<char>, Json)> {
    Seq::new(e.len(), |i: int| (e[i].0, Json::String(e[i].1)))
}

/// A file as a structured value: its path's text and its revision.
pub open spec fn file_json(f: FileView) -> Json {
    Json::Object(
        seq![
            ("path"@, Json::String(path_text(f.path))),
            ("revision"@, Json::Number(Number::PosInt(f.revision))),
        ],
    )
}

/// Files as an array of structured values.
pub open spec fn file_items(f: Seq<FileView>) -> Seq<Json> {
    Seq::new(f.len(), |i: int| file_json(f[i]))
}

/// A resolved executable as a structured value.
pub open spec fn native_json(n: NativeView) -> Json {
    Json::Object(
        seq![
            ("executable"@, Json::String(n.executable)),
            ("env"@, Json::Object(text_fields(n.env))),
            ("args"@, Json::Array(text_items(n.args))),
        ],
    )
}

/// An object with one field.
pub open spec fn tagged(tag: Seq<char>, v: Json) -> Json {
    Json::Object(seq![(tag, v)])
}

/// The structured value that stands for a resolved reference: the variant's
/// name as the single key of an object, its content below.
pub open spec fn resolved_json(r: ResolvedView) -> Json {
    match r {
        ResolvedView::Binary(n) => tagged("Binary"@, tagged("Native"@, native_json(n))),
        ResolvedView::Files(f) => tagged("Files"@, Json::Array(file_items(f))),
    }
}

/// An object with the single field `tag`.
fn tagged_value(tag: &str, v: Value) -> (r: Value)
    ensures
        r@ == tagged(tag@, v@),
{
    let mut fields: Vec<(String, Value)> = Vec::new();
    fields.push((String::from_str(tag), v));
    proof {
        lemma_object_view(fields);
        assert(fields_view(fields@) =~= seq![(tag@, v@)]);
    }
    Value::Object(fields)
}

/// An array of strings.
fn strings_value(a: &Vec<String>) -> (r: Value)
    ensures
        r@ == Json::Array(text_items(crate::text::texts(a@))),
{
    let mut out: Vec<Value> = Vec::new();
    let mut i: usize = 0;
    while i < a.len()
        invariant
            i <= a.len(),
            out.len() == i,
            forall|j: int| 0 <= j < i ==> out[j]@ == Json::String(a[j]@),
        decreases a.len() - i,
    {
        out.push(Value::String(a[i].clone()));
        i += 1;
    }
    proof {
        lemma_array_view(out);
        assert(items_view(out@) =~= text_items(crate::text::texts(a@)));
    }
    Value::Array(out)
}

/// An object whose values are strings.
fn pairs_value(e: &Vec<(String, String)>) -> (r: Value)
    ensures
        r@ == Json::Object(text_fields(crate::text::pair_texts(e@))),
{
    let mut out: Vec<(String, Value)> = Vec::new();
    let mut i: usize = 0;
    while i < e.len()
        invariant
            i <= e.len(),
            out.len() == i,
            forall|j: int|
                0 <= j < i ==> out[j].0@ == e[j].0@ && out[j].1@ == Json::String(e[j].1@),
        decreases e.len() - i,
    {
        out.push((e[i].0.clone(), Value::String(e[i].1.clone())));
        i += 1;
    }
    proof {
        lemma_object_view(out);
        assert(fields_view(out@) =~= text_fields(crate::text::pair_texts(e@)));
    }
    Value::Object(out)
}

/// A file as a structured value.
fn file_value(f: &File) -> (r: Value)
    ensures
        r@ == file_json(f@),
{
    let mut fields: Vec<(String, Value)> = Vec::new();
    fields.push((String::from_str("path"), Value::String(f.path.to_text())));
    fields.push((String::from_str("revision"), Value::Number(Number::PosInt(f.revision))));
    proof {
        lemma_object_view(fields);
        assert(fields_view(fields@) =~= seq![
            ("path"@, Json::String(path_text(f@.path))),
            ("revision"@, Json::Number(Number::PosInt(f@.revision))),
        ]);
    }
    Value::Object(fields)
}

/// Files as an array of structured values.
fn files_value(files: &Vec<File>) -> (r: Value)
    ensures
        r@ == Json::Array(file_items(files_view(files@))),
{
    let mut out: Vec<Value> = Vec::new();
    let mut i: usize = 0;
    while i < files.len()
        invariant
            i <= files.len(),
            out.len() == i,
            forall|j: int| 0 <= j < i ==> out[j]@ == file_json(files[j]@),
        decreases files.len() - i,
    {
        out.push(file_value(&files[i]));
        i += 1;
    }
    proof {
        lemma_array_view(out);
        assert(items_view(out@) =~= file_items(files_view(files@)));
    }
    Value::Array(out)
}

impl ResolvedDependency {
    /// The structured value that stands for the resolved reference.
    pub fn to_value(&self) -> (r: Value)
        ensures
            r@ == resolved_json(self@),
    {
        match self {
            ResolvedDependency::Binary(BinaryRuntimeResolved::Native { executable, env, args }) => {
                let mut fields: Vec<(String, Value)> = Vec::new();
                fields.push((String::from_str("executable"), Value::String(executable.clone())));
                fields.push((String::from_str("env"), pairs_value(env)));
                fields.push((String::from_str("args"), strings_value(args)));
                proof {
                    lemma_object_view(fields);
                    assert(fields_view(fields@) =~= seq![
                        ("executable"@, Json::String(self@->Binary_0.executable)),
                        ("env"@, Json::Object(text_fields(self@->Binary_0.env))),
                        ("args"@, Json::Array(text_items(self@->Binary_0.args))),
                    ]);
                }
                tagged_value("Binary", tagged_value("Native", Value::Object(fields)))
            },
            ResolvedDependency::Files(files) => tagged_value("Files", files_value(files)),
        }
    }
}

/// The resolved values of references, by reference. A later entry for a
/// reference replaces an earlier one.
#[derive(Debug)]
pub struct Resolutions {
    pub entries: Vec<(Dependency, ResolvedDependency)>,
}

/// The map that a sequence of entries stands for.
pub open spec fn resolutions_map(e: Seq<(Dependency, ResolvedDependency)>) -> Map<
    Dependency,
    ResolvedView,
>
    decreases e.len(),
{
    if e.len() == 0 {
        Map::empty()
    } else {
        resolutions_map(e.drop_last()).insert(e.last().0, e.last().1@)
    }
}

/// Entries after the last one for a reference do not change what the map
/// holds for it.
proof fn lemma_resolutions_tail(e: Seq<(Dependency, ResolvedDependency)>, d: Dependency, n: int)
    requires
        0 <= n <= e.len(),
        forall|j: int| n <= j < e.len() ==> e[j].0 != d,
    ensures
        resolutions_map(e).contains_key(d) == resolutions_map(e.take(n)).contains_key(d),
        resolutions_map(e).contains_key(d) ==> resolutions_map(e)[d] == resolutions_map(
            e.take(n),
        )[d],
    decreases e.len() - n,
{
    if n == e.len() {
        assert(e.take(n) =~= e);
    } else {
        assert(e.drop_last().take(n) =~= e.take(n));
        lemma_resolutions_tail(e.drop_last(), d, n);
    }
}

impl View for Resolutions {
    type V = Map<Dependency, ResolvedView>;

    open spec fn view(&self) -> Map<Dependency, ResolvedView> {
        resolutions_map(self.entries@)
    }
}

impl Resolutions {
    /// No resolution.
    pub fn new() -> (r: Resolutions)
        ensures
            r@ == Map::<Dependency, ResolvedView>::empty(),
    {
        Resolutions { entries: Vec::new() }
    }

    /// Records what a reference resolved to.
    pub fn insert(&mut self, d: Dependency, value: ResolvedDependency)
        ensures
            final(self)@ == old(self)@.insert(d, value@),
    {
        self.entries.push((d, value));
        assert(self.entries@.drop_last() =~= old(self).entries@);
    }

    /// What a reference resolved to.
    pub fn get(&self, d: Dependency) -> (r: Option<&ResolvedDependency>)
        ensures
            match r {
                Some(value) => self@.contains_key(d) && self@[d] == value@,
                None => !self@.contains_key(d),
            },
    {
        let mut i: usize = self.entries.len();
        while i > 0
            invariant
                i <= self.entries.len(),
                forall|j: int| i <= j < self.entries.len() ==> self.entries@[j].0 != d,
            decreases i,
        {
            i -= 1;
            if self.entries[i].0 == d {
                proof {
                    lemma_resolutions_tail(self.entries@, d, i + 1);
                    assert(self.entries@.take(i + 1).drop_last() =~= self.entries@.take(i as int));
                }
                return Some(&self.entries[i].1);
            }
        }
        proof {
            lemma_resolutions_tail(self.entries@, d, 0);
            assert(self.entries@.take(0) =~= Seq::empty());
        }
        None
    }
}

/// A value with the resolved value in the place of each reference that
/// `subst` resolves; everything else as it was.
pub open spec fn substitute(v: Json, subst: Map<Dependency, ResolvedView>) -> Json
    decreases v, 0nat,
{
    match v {
        Json::Object(o) => match reference(o) {
            Some(d) => if subst.contains_key(d) {
                resolved_json(subst[d])
            } else {
                v
            },
            None => Json::Object(substitute_fields(o, subst, o.len())),
        },
        Json::Array(a) => Json::Array(substitute_items(a, subst, a.len())),
        _ => v,
    }
}

/// The first `n` items of an array, substituted.
pub open spec fn substitute_items(a: Seq<Json>, subst: Map<Dependency, ResolvedView>, n: nat) -> Seq<
    Json,
>
    decreases a, n,
{
    if n == 0 || n > a.len() {
        Seq::empty()
    } else {
        substitute_items(a, subst, (n - 1) as nat).push(substitute(a[n - 1], subst))
    }
}

/// The first `n` fields of an object, their values substituted.
pub open spec fn substitute_fields(
    o: Seq<(Seq<char>, Json)>,
    subst: Map<Dependency, ResolvedView>,
    n: nat,
) -> Seq<(Seq<char>, Json)>
    decreases o, n,
{
    if n == 0 || n > o.len() {
        Seq::empty()
    } else {
        substitute_fields(o, subst, (n - 1) as nat).push((o[n - 1].0, substitute(o[n - 1].1, subst)))
    }
}

/// Whether `subst` resolves every reference of a sequence.
pub open spec fn covered(rs: Seq<Dependency>, subst: Map<Dependency, ResolvedView>) -> bool {
    forall|i: int| 0 <= i < rs.len() ==> subst.contains_key(#[trigger] rs[i])
}

/// The fields of an object with their values substituted.
fn substituted_fields(o: &Vec<(String, Value)>, subst: &Resolutions) -> (r: Vec<(String, Value)>)
    ensures
        fields_view(r@) == substitute_fields(fields_view(o@), subst@, o.len() as nat),
    decreases o, 0nat,
{
    let ghost fields = fields_view(o@);
    let mut out: Vec<(String, Value)> = Vec::new();
    let mut i: usize = 0;
    assert(fields_view(out@) =~= substitute_fields(fields, subst@, 0));
    while i < o.len()
        invariant
            i <= o.len(),
            fields == fields_view(o@),
            fields_view(out@) == substitute_fields(fields, subst@, i as nat),
        decreases o.len() - i,
    {
        assert(decreases_to!(*o => o[i as int].1));
        let item = substituted(&o[i].1, subst);
        let ghost before = out@;
        out.push((o[i].0.clone(), item));
        assert(fields_view(out@) =~= fields_view(before).push((o[i as int].0@, item@)));
        i += 1;
    }
    out
}

/// A copy of a value with the resolved value in the place of each reference
/// that `subst` resolves.
fn substituted(v: &Value, subst: &Resolutions) -> (r: Value)
    ensures
        r@ == substitute(v@, subst@),
    decreases v, 1nat,
{
    match v {
        Value::Object(o) => {
            proof {
                lemma_object_view(*o);
            }
            match reference_of(o) {
                Some(d) => match subst.get(d) {
                    Some(value) => value.to_value(),
                    None => v.clone(),
                },
                None => {
                    assert(decreases_to!(*v => v->Object_0));
                    let fields = substituted_fields(o, subst);
                    proof {
                        lemma_object_view(fields);
                    }
                    Value::Object(fields)
                },
            }
        },
        Value::Array(a) => {
            let ghost items = items_view(a@);
            proof {
                lemma_array_view(*a);
            }
            let mut out: Vec<Value> = Vec::new();
            let mut i: usize = 0;
            assert(items_view(out@) =~= substitute_items(items, subst@, 0));
            while i < a.len()
                invariant
                    i <= a.len(),
                    *v == Value::Array(*a),
                    items == items_view(a@),
                    items_view(out@) == substitute_items(items, subst@, i as nat),
                decreases a.len() - i,
            {
                assert(decreases_to!(*v => v->Array_0));
                assert(decreases_to!(*a => a[i as int]));
                let item = substituted(&a[i], subst);
                let ghost before = out@;
                out.push(item);
                assert(items_view(out@) =~= items_view(before).push(item@));
                i += 1;
            }
            proof {
                lemma_array_view(out);
            }
            Value::Array(out)
        },
        _ => v.clone(),
    }
}

/// Substitutes in an object. Where the object is itself a reference, the
/// resolved value is returned and the object is left as it is; else the
/// references below it are replaced in place and nothing is returned.
pub fn replace_dependencies_in_object(o: &mut Vec<(String, Value)>, subst: &Resolutions) -> (r:
    Option<Value>)
    requires
        covered(refs(Json::Object(fields_view(old(o)@))), subst@),
    ensures
        match r {
            Some(value) => {
                &&& reference(fields_view(old(o)@)) is Some
                &&& value@ == substitute(Json::Object(fields_view(old(o)@)), subst@)
                &&& fields_view(final(o)@) == fields_view(old(o)@)
            },
            None => {
                &&& reference(fields_view(old(o)@)) is None
                &&& Json::Object(fields_view(final(o)@)) == substitute(
                    Json::Object(fields_view(old(o)@)),
                    subst@,
                )
            },
        },
{
    match reference_of(o) {
        Some(d) => {
            assert(refs(Json::Object(fields_view(o@)))[0] == d);
            let resolved = subst.get(d);
            assert(resolved is Some);
            match resolved {
                Some(value) => Some(value.to_value()),
                None => None,
            }
        },
        None => {
            let fields = substituted_fields(o, subst);
            *o = fields;
            None
        },
    }
}

/// Puts the resolved value in the place of each reference of a value.
/// Everything that is not a reference stays as it was.
pub fn replace_dependencies(v: &mut Value, subst: &Resolutions)
    requires
        covered(refs(old(v)@), subst@),
    ensures
        final(v)@ == substitute(old(v)@, subst@),
{
    let new = substituted(v, subst);
    *v = new;
}

/// The condition that `subst` does not resolve a reference.
pub open spec fn is_unresolved(subst: Map<Dependency, ResolvedView>) -> spec_fn(Dependency) -> bool {
    |d: Dependency| !subst.contains_key(d)
}

/// The first reference of a value, in the order of extraction, that `subst`
/// does not resolve.
pub open spec fn first_unresolved(v: Json, subst: Map<Dependency, ResolvedView>) -> Option<
    Dependency,
> {
    let found = extended(Seq::<Dependency>::empty(), refs(v));
    match first_where(found, is_unresolved(subst)) {
        Some(i) => Some(found[i]),
        None => None,
    }
}

/// Puts the resolved value in the place of each reference of a value, where
/// `subst` resolves every reference of the value. Where it does not, the
/// value stays as it is, and the first reference without a resolution is
/// handed back.
pub fn try_replace_dependencies(v: &mut Value, subst: &Resolutions) -> (r: Option<Dependency>)
    ensures
        r == first_unresolved(old(v)@, subst@),
        r is None ==> final(v)@ == substitute(old(v)@, subst@),
        r is Some ==> final(v)@ == old(v)@,
{
    let mut found: Vec<Dependency> = Vec::new();
    extract_dependencies(v, &mut found);
    let mut i: usize = 0;
    while i < found.len()
        invariant
            i <= found.len(),
            *v == *old(v),
            found@ == extended(Seq::<Dependency>::empty(), refs(v@)),
            forall|j: int| 0 <= j < i ==> subst@.contains_key(#[trigger] found@[j]),
        decreases found.len() - i,
    {
        if subst.get(found[i]).is_none() {
            proof {
                lemma_first_where_is(found@, is_unresolved(subst@), i as int);
            }
            return Some(found[i]);
        }
        i += 1;
    }
    proof {
        lemma_first_where(found@, is_unresolved(subst@));
        lemma_extended_no_duplicates(Seq::<Dependency>::empty(), refs(v@));
        assert forall|k: int| 0 <= k < refs(v@).len() implies subst@.contains_key(
            #[trigger] refs(v@)[k],
        ) by {
            let d = refs(v@)[k];
            assert(refs(v@).contains(d));
            assert(found@.contains(d));
            let j = choose|j: int| 0 <= j < found@.len() && found@[j] == d;
            assert(subst@.contains_key(found@[j]));
        }
    }
    replace_dependencies(v, subst);
    None
}

} // verus!
