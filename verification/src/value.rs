//! Structured values: the opaque blobs that transforms carry as `input` and
//! `dependencies`.
//!
//! A value is a tree of maps, arrays and scalars, in the shape of a JSON
//! document. An object keeps its fields in the order they were given; a
//! field is looked up by its key, the first one with that key.

use vstd::prelude::*;
use vstd::string::*;

verus! {

/// A number of a structured value. A fraction is held as the bits of its
/// IEEE 754 double.
#[derive(Debug, Clone, Copy, PartialEq, Eq, Structural)]
pub enum Number {
    PosInt(u64),
    NegInt(i64),
    Float(u64),
}

/// A structured value.
#[derive(Debug, PartialEq, Eq)]
pub enum Value {
    Null,
    Bool(bool),
    Number(Number),
    String(String),
    Array(Vec<Value>),
    Object(Vec<(String, Value)>),
}

/// The model of a [`Value`].
pub enum Json {
    Null,
    Bool(bool),
    Number(Number),
    String(Seq<char>),
    Array(Seq<Json>),
    Object(Seq<(Seq<char>, Json)>),
}

/// The models of the items of an array.
pub open spec fn items_view(a: Seq<Value>) -> Seq<Json> {
    Seq::new(a.len(), |i: int| a[i]@)
}

/// The models of the fields of an object.
pub open spec fn fields_view(o: Seq<(String, Value)>) -> Seq<(Seq<char>, Json)> {
    Seq::new(o.len(), |i: int| (o[i].0@, o[i].1@))
}

/// The model of a value.
pub open spec fn json_of(v: Value) -> Json
    decreases v,
{
    match v {
        Value::Null => Json::Null,
        Value::Bool(b) => Json::Bool(b),
        Value::Number(n) => Json::Number(n),
        Value::String(s) => Json::String(s@),
        Value::Array(a) => Json::Array(
            Seq::new(
                a.len() as nat,
                |i: int|
                    if 0 <= i < a.len() {
                        json_of(a[i])
                    } else {
                        Json::Null
                    },
            ),
        ),
        Value::Object(o) => Json::Object(
            Seq::new(
                o.len() as nat,
                |i: int|
                    if 0 <= i < o.len() {
                        (o[i].0@, json_of(o[i].1))
                    } else {
                        (Seq::empty(), Json::Null)
                    },
            ),
        ),
    }
}

impl View for Value {
    type V = Json;

    open spec fn view(&self) -> Json {
        json_of(*self)
    }
}

/// The view of an array is the views of its items.
pub proof fn lemma_array_view(a: Vec<Value>)
    ensures
        Value::Array(a)@ == Json::Array(items_view(a@)),
{
    assert(Value::Array(a)@->Array_0 =~= items_view(a@));
}

/// The view of an object is the views of its fields.
pub proof fn lemma_object_view(o: Vec<(String, Value)>)
    ensures
        Value::Object(o)@ == Json::Object(fields_view(o@)),
{
    assert(Value::Object(o)@->Object_0 =~= fields_view(o@));
}

/// The value of the first field with the given key.
pub open spec fn field(o: Seq<(Seq<char>, Json)>, key: Seq<char>) -> Option<Json>
    decreases o.len(),
{
    if o.len() == 0 {
        None
    } else if o[0].0 == key {
        Some(o[0].1)
    } else {
        field(o.skip(1), key)
    }
}

/// The field found by [`field`] is one of the object's fields.
pub proof fn lemma_field_index(o: Seq<(Seq<char>, Json)>, key: Seq<char>) -> (i: int)
    requires
        field(o, key) is Some,
    ensures
        0 <= i < o.len(),
        o[i].0 == key,
        o[i].1 == field(o, key)->0,
        forall|j: int| 0 <= j < i ==> o[j].0 != key,
    decreases o.len(),
{
    if o[0].0 == key {
        0
    } else {
        let i = lemma_field_index(o.skip(1), key);
        assert forall|j: int| 0 <= j < i + 1 implies o[j].0 != key by {
            if j > 0 {
                assert(o.skip(1)[j - 1] == o[j]);
            }
        }
        i + 1
    }
}

/// An object without a field of that key has none under [`field`].
pub proof fn lemma_field_none(o: Seq<(Seq<char>, Json)>, key: Seq<char>)
    requires
        forall|j: int| 0 <= j < o.len() ==> o[j].0 != key,
    ensures
        field(o, key) is None,
    decreases o.len(),
{
    if o.len() > 0 {
        assert forall|j: int| 0 <= j < o.skip(1).len() implies o.skip(1)[j].0 != key by {
            assert(o.skip(1)[j] == o[j + 1]);
        }
        lemma_field_none(o.skip(1), key);
    }
}

/// The first field at or after which the key stands decides [`field`].
pub proof fn lemma_field_first(o: Seq<(Seq<char>, Json)>, key: Seq<char>, i: int)
    requires
        0 <= i < o.len(),
        o[i].0 == key,
        forall|j: int| 0 <= j < i ==> o[j].0 != key,
    ensures
        field(o, key) == Some(o[i].1),
    decreases i,
{
    if i > 0 {
        assert forall|j: int| 0 <= j < i - 1 implies o.skip(1)[j].0 != key by {
            assert(o.skip(1)[j] == o[j + 1]);
        }
        assert(o.skip(1)[i - 1] == o[i]);
        lemma_field_first(o.skip(1), key, i - 1);
    }
}

impl Clone for Value {
    fn clone(&self) -> (r: Self)
        ensures
            r@ == self@,
        decreases self,
    {
        match self {
            Value::Null => Value::Null,
            Value::Bool(b) => Value::Bool(*b),
            Value::Number(n) => Value::Number(*n),
            Value::String(s) => Value::String(s.clone()),
            Value::Array(a) => {
                let mut out: Vec<Value> = Vec::new();
                let mut i: usize = 0;
                while i < a.len()
                    invariant
                        i <= a.len(),
                        *self == Value::Array(*a),
                        out.len() == i,
                        forall|j: int| 0 <= j < i ==> out[j]@ == a[j]@,
                    decreases a.len() - i,
                {
                    assert(decreases_to!(*self => self->Array_0));
                    assert(decreases_to!(*a => a[i as int]));
                    let item = a[i].clone();
                    out.push(item);
                    i += 1;
                }
                proof {
                    lemma_array_view(out);
                    lemma_array_view(*a);
                    assert(items_view(out@) =~= items_view(a@));
                }
                Value::Array(out)
            },
            Value::Object(o) => {
                let mut out: Vec<(String, Value)> = Vec::new();
                let mut i: usize = 0;
                while i < o.len()
                    invariant
                        i <= o.len(),
                        *self == Value::Object(*o),
                        out.len() == i,
                        forall|j: int|
                            0 <= j < i ==> out[j].0@ == o[j].0@ && out[j].1@ == o[j].1@,
                    decreases o.len() - i,
                {
                    assert(decreases_to!(*self => self->Object_0));
                    assert(decreases_to!(*o => o[i as int].1));
                    let item = o[i].1.clone();
                    out.push((o[i].0.clone(), item));
                    i += 1;
                }
                proof {
                    lemma_object_view(out);
                    lemma_object_view(*o);
                    assert(fields_view(out@) =~= fields_view(o@));
                }
                Value::Object(out)
            },
        }
    }
}

impl Value {
    /// Whether two values are the same: the same scalars, the same items in
    /// the same order, the same fields in the same order.
    pub fn same(&self, other: &Value) -> (r: bool)
        ensures
            r == (self@ == other@),
        decreases self,
    {
        match (self, other) {
            (Value::Null, Value::Null) => true,
            (Value::Bool(a), Value::Bool(b)) => *a == *b,
            (Value::Number(a), Value::Number(b)) => *a == *b,
            (Value::String(a), Value::String(b)) => *a == *b,
            (Value::Array(a), Value::Array(b)) => {
                proof {
                    lemma_array_view(*a);
                    lemma_array_view(*b);
                }
                if a.len() != b.len() {
                    assert(items_view(a@).len() != items_view(b@).len());
                    return false;
                }
                let mut i: usize = 0;
                while i < a.len()
                    invariant
                        i <= a.len(),
                        a.len() == b.len(),
                        *self == Value::Array(*a),
                        self@ == Json::Array(items_view(a@)),
                        other@ == Json::Array(items_view(b@)),
                        forall|j: int| 0 <= j < i ==> a[j]@ == b[j]@,
                    decreases a.len() - i,
                {
                    assert(decreases_to!(*self => self->Array_0));
                    assert(decreases_to!(*a => a[i as int]));
                    if !a[i].same(&b[i]) {
                        assert(items_view(a@)[i as int] != items_view(b@)[i as int]);
                        return false;
                    }
                    i += 1;
                }
                assert(items_view(a@) =~= items_view(b@));
                true
            },
            (Value::Object(a), Value::Object(b)) => {
                proof {
                    lemma_object_view(*a);
                    lemma_object_view(*b);
                }
                if a.len() != b.len() {
                    assert(fields_view(a@).len() != fields_view(b@).len());
                    return false;
                }
                let mut i: usize = 0;
                while i < a.len()
                    invariant
                        i <= a.len(),
                        a.len() == b.len(),
                        *self == Value::Object(*a),
                        self@ == Json::Object(fields_view(a@)),
                        other@ == Json::Object(fields_view(b@)),
                        forall|j: int| 0 <= j < i ==> a[j].0@ == b[j].0@ && a[j].1@ == b[j].1@,
                    decreases a.len() - i,
                {
                    assert(decreases_to!(*self => self->Object_0));
                    assert(decreases_to!(*a => a[i as int].1));
                    if a[i].0 != b[i].0 || !a[i].1.same(&b[i].1) {
                        assert(fields_view(a@)[i as int] != fields_view(b@)[i as int]);
                        return false;
                    }
                    i += 1;
                }
                assert(fields_view(a@) =~= fields_view(b@));
                true
            },
            _ => false,
        }
    }

    /// The text of a string value.
    pub fn as_str(&self) -> (r: Option<&str>)
        ensures
            match r {
                Some(s) => self@ == Json::String(s@),
                None => !(self@ is String),
            },
    {
        match self {
            Value::String(s) => Some(s.as_str()),
            _ => None,
        }
    }

    /// The number of a value that is a non-negative integer.
    pub fn as_u64(&self) -> (r: Option<u64>)
        ensures
            match r {
                Some(n) => self@ == Json::Number(Number::PosInt(n)),
                None => !(self@ matches Json::Number(Number::PosInt(_))),
            },
    {
        match self {
            Value::Number(Number::PosInt(n)) => Some(*n),
            _ => None,
        }
    }
}

/// The value of the first field of an object with the given key.
pub fn object_get<'a>(o: &'a Vec<(String, Value)>, key: &str) -> (r: Option<&'a Value>)
    ensures
        match r {
            Some(v) => field(fields_view(o@), key@) == Some(v@),
            None => field(fields_view(o@), key@) is None,
        },
{
    let wanted = String::from_str(key);
    let mut i: usize = 0;
    while i < o.len()
        invariant
            i <= o.len(),
            wanted@ == key@,
            forall|j: int| 0 <= j < i ==> fields_view(o@)[j].0 != key@,
        decreases o.len() - i,
    {
        if o[i].0 == wanted {
            proof {
                lemma_field_first(fields_view(o@), key@, i as int);
            }
            return Some(&o[i].1);
        }
        i += 1;
    }
    proof {
        lemma_field_none(fields_view(o@), key@);
    }
    None
}

} // verus!
