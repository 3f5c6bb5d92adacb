//! What extraction and substitution owe each other.

use vstd::prelude::*;
use crate::deps::{
    covered,
    file_items,
    file_json,
    native_json,
    reference,
    refs,
    refs_fields,
    refs_items,
    resolved_json,
    substitute,
    substitute_fields,
    substitute_items,
    tagged,
    text_fields,
    text_items,
    Dependency,
    ResolvedView,
};
use crate::fileset::FileView;
use crate::value::{field, lemma_field_first, lemma_field_index, lemma_field_none, Json};

verus! {

/// Each substituted item is the substitution of the item at its place.
pub proof fn lemma_substitute_items_index(
    a: Seq<Json>,
    subst: Map<Dependency, ResolvedView>,
    n: nat,
)
    requires
        n <= a.len(),
    ensures
        substitute_items(a, subst, n).len() == n,
        forall|i: int|
            0 <= i < n ==> #[trigger] substitute_items(a, subst, n)[i] == substitute(a[i], subst),
    decreases n,
{
    if n > 0 {
        lemma_substitute_items_index(a, subst, (n - 1) as nat);
    }
}

/// Each substituted field keeps its key and has the substitution of the
/// value at its place.
pub proof fn lemma_substitute_fields_index(
    o: Seq<(Seq<char>, Json)>,
    subst: Map<Dependency, ResolvedView>,
    n: nat,
)
    requires
        n <= o.len(),
    ensures
        substitute_fields(o, subst, n).len() == n,
        forall|i: int|
            0 <= i < n ==> #[trigger] substitute_fields(o, subst, n)[i] == (
                o[i].0,
                substitute(o[i].1, subst),
            ),
    decreases n,
{
    if n > 0 {
        lemma_substitute_fields_index(o, subst, (n - 1) as nat);
    }
}

/// Items without references make an array without references.
pub proof fn lemma_refs_items_empty(a: Seq<Json>, n: nat)
    requires
        n <= a.len(),
        forall|i: int| 0 <= i < n ==> (#[trigger] refs(a[i])).len() == 0,
    ensures
        refs_items(a, n) == Seq::<Dependency>::empty(),
    decreases n,
{
    if n > 0 {
        lemma_refs_items_empty(a, (n - 1) as nat);
        assert(refs(a[n - 1]).len() == 0);
        assert(refs_items(a, n) =~= Seq::<Dependency>::empty());
    }
}

/// Field values without references make fields without references.
pub proof fn lemma_refs_fields_empty(o: Seq<(Seq<char>, Json)>, n: nat)
    requires
        n <= o.len(),
        forall|i: int| 0 <= i < n ==> (#[trigger] refs(o[i].1)).len() == 0,
    ensures
        refs_fields(o, n) == Seq::<Dependency>::empty(),
    decreases n,
{
    if n > 0 {
        lemma_refs_fields_empty(o, (n - 1) as nat);
        assert(refs(o[n - 1].1).len() == 0);
        assert(refs_fields(o, n) =~= Seq::<Dependency>::empty());
    }
}

/// An array without references has items without references.
pub proof fn lemma_refs_items_parts(a: Seq<Json>, n: nat, i: int)
    requires
        n <= a.len(),
        0 <= i < n,
    ensures
        refs_items(a, n).len() >= refs(a[i]).len(),
        forall|d: Dependency| refs(a[i]).contains(d) ==> refs_items(a, n).contains(d),
    decreases n,
{
    let head = refs_items(a, (n - 1) as nat);
    let tail = refs(a[n - 1]);
    if i == n - 1 {
        assert forall|d: Dependency| tail.contains(d) implies (head + tail).contains(d) by {
            let k = choose|k: int| 0 <= k < tail.len() && tail[k] == d;
            assert((head + tail)[head.len() + k] == d);
        }
    } else {
        lemma_refs_items_parts(a, (n - 1) as nat, i);
        assert forall|d: Dependency| refs(a[i]).contains(d) implies (head + tail).contains(d) by {
            assert(head.contains(d));
            let k = choose|k: int| 0 <= k < head.len() && head[k] == d;
            assert((head + tail)[k] == d);
        }
    }
}

/// Fields without references have values without references.
pub proof fn lemma_refs_fields_parts(o: Seq<(Seq<char>, Json)>, n: nat, i: int)
    requires
        n <= o.len(),
        0 <= i < n,
    ensures
        refs_fields(o, n).len() >= refs(o[i].1).len(),
        forall|d: Dependency| refs(o[i].1).contains(d) ==> refs_fields(o, n).contains(d),
    decreases n,
{
    let head = refs_fields(o, (n - 1) as nat);
    let tail = refs(o[n - 1].1);
    if i == n - 1 {
        assert forall|d: Dependency| tail.contains(d) implies (head + tail).contains(d) by {
            let k = choose|k: int| 0 <= k < tail.len() && tail[k] == d;
            assert((head + tail)[head.len() + k] == d);
        }
    } else {
        lemma_refs_fields_parts(o, (n - 1) as nat, i);
        assert forall|d: Dependency| refs(o[i].1).contains(d) implies (head + tail).contains(
            d,
        ) by {
            assert(head.contains(d));
            let k = choose|k: int| 0 <= k < head.len() && head[k] == d;
            assert((head + tail)[k] == d);
        }
    }
}

/// Looking a key up after substitution finds the substitution of what the
/// key held before.
pub proof fn lemma_field_substituted(
    o: Seq<(Seq<char>, Json)>,
    subst: Map<Dependency, ResolvedView>,
    key: Seq<char>,
)
    ensures
        field(substitute_fields(o, subst, o.len()), key) == match field(o, key) {
            Some(x) => Some(substitute(x, subst)),
            None => None,
        },
{
    let after = substitute_fields(o, subst, o.len());
    lemma_substitute_fields_index(o, subst, o.len());
    if field(o, key) is Some {
        let i = lemma_field_index(o, key);
        assert(after[i].0 == key);
        assert forall|j: int| 0 <= j < i implies after[j].0 != key by {
            assert(after[j].0 == o[j].0);
        }
        lemma_field_first(after, key, i);
    } else {
        assert forall|j: int| 0 <= j < after.len() implies after[j].0 != key by {
            assert(after[j].0 == o[j].0);
            if o[j].0 == key {
                let first = choose_first(o, key, j);
                lemma_field_first(o, key, first);
            }
        }
        lemma_field_none(after, key);
    }
}

/// The first place at or before `j` where the key stands.
proof fn choose_first(o: Seq<(Seq<char>, Json)>, key: Seq<char>, j: int) -> (i: int)
    requires
        0 <= j < o.len(),
        o[j].0 == key,
    ensures
        0 <= i <= j,
        o[i].0 == key,
        forall|k: int| 0 <= k < i ==> o[k].0 != key,
    decreases j,
{
    if exists|k: int| 0 <= k < j && o[k].0 == key {
        let k = choose|k: int| 0 <= k < j && o[k].0 == key;
        choose_first(o, key, k)
    } else {
        j
    }
}

/// An object that is no reference is none after substitution either.
pub proof fn lemma_no_reference_after(
    o: Seq<(Seq<char>, Json)>,
    subst: Map<Dependency, ResolvedView>,
)
    requires
        reference(o) is None,
    ensures
        reference(substitute_fields(o, subst, o.len())) is None,
{
    lemma_field_substituted(o, subst, "kind"@);
    lemma_field_substituted(o, subst, "id"@);
}

/// A resolved value holds no reference.
pub proof fn lemma_resolved_without_refs(r: ResolvedView)
    ensures
        refs(resolved_json(r)).len() == 0,
        resolved_json(r) is Object,
{
    match r {
        ResolvedView::Binary(n) => {
            let inner = native_json(n);
            let fields = inner->Object_0;
            let env = text_fields(n.env);
            let args = text_items(n.args);
            assert(reference(env) is None) by {
                if field(env, "id"@) is Some {
                    let i = lemma_field_index(env, "id"@);
                }
            }
            lemma_refs_fields_empty(env, env.len());
            lemma_refs_items_empty(args, args.len());
            assert(reference(fields) is None) by {
                if field(fields, "id"@) is Some {
                    let i = lemma_field_index(fields, "id"@);
                }
            }
            assert(refs(fields[0].1).len() == 0);
            assert(refs(fields[1].1).len() == 0);
            assert(refs(fields[2].1).len() == 0);
            lemma_refs_fields_empty(fields, fields.len());
            lemma_tagged_refs("Native"@, inner);
            lemma_tagged_refs("Binary"@, tagged("Native"@, inner));
        },
        ResolvedView::Files(f) => {
            let items = file_items(f);
            assert forall|i: int| 0 <= i < items.len() implies (#[trigger] refs(
                items[i],
            )).len() == 0 by {
                lemma_file_without_refs(f[i]);
            }
            lemma_refs_items_empty(items, items.len());
            lemma_tagged_refs("Files"@, Json::Array(items));
        },
    }
}

/// A file's structured value holds no reference.
proof fn lemma_file_without_refs(f: FileView)
    ensures
        refs(file_json(f)).len() == 0,
{
    let fields = file_json(f)->Object_0;
    assert(reference(fields) is None) by {
        if field(fields, "id"@) is Some {
            let j = lemma_field_index(fields, "id"@);
            reveal_strlit("revision");
            reveal_strlit("id");
            assert("revision"@.len() != "id"@.len());
        }
    }
    assert(refs(fields[0].1).len() == 0);
    assert(refs(fields[1].1).len() == 0);
    lemma_refs_fields_empty(fields, fields.len());
}

/// An object with one field is no reference, and has the references of its
/// field's value.
proof fn lemma_tagged_refs(tag: Seq<char>, v: Json)
    ensures
        refs(tagged(tag, v)) == refs(v),
{
    let fields = seq![(tag, v)];
    assert(reference(fields) is None) by {
        if field(fields, "kind"@) is Some && field(fields, "id"@) is Some {
            let i = lemma_field_index(fields, "kind"@);
            let j = lemma_field_index(fields, "id"@);
            reveal_strlit("kind");
            reveal_strlit("id");
            assert("kind"@.len() != "id"@.len());
        }
    }
    assert(refs_fields(fields, 0) =~= Seq::<Dependency>::empty());
    assert(refs_fields(fields, 1) =~= refs(v));
}

/// After substitution no reference is left, where every reference of the
/// value was resolved.
pub proof fn lemma_substitute_clears(v: Json, subst: Map<Dependency, ResolvedView>)
    requires
        covered(refs(v), subst),
    ensures
        refs(substitute(v, subst)).len() == 0,
    decreases v, 0nat,
{
    match v {
        Json::Object(o) => match reference(o) {
            Some(d) => {
                assert(refs(v)[0] == d);
                lemma_resolved_without_refs(subst[d]);
            },
            None => {
                let after = substitute_fields(o, subst, o.len());
                lemma_substitute_fields_index(o, subst, o.len());
                lemma_no_reference_after(o, subst);
                assert forall|i: int| 0 <= i < after.len() implies (#[trigger] refs(
                    after[i].1,
                )).len() == 0 by {
                    lemma_refs_fields_parts(o, o.len(), i);
                    assert(covered(refs(o[i].1), subst)) by {
                        assert forall|k: int| 0 <= k < refs(o[i].1).len() implies subst.contains_key(
                            #[trigger] refs(o[i].1)[k],
                        ) by {
                            let d = refs(o[i].1)[k];
                            assert(refs(o[i].1).contains(d));
                            assert(refs(v) == refs_fields(o, o.len()));
                            assert(refs_fields(o, o.len()).contains(d));
                            let m = choose|m: int|
                                0 <= m < refs_fields(o, o.len()).len() && refs_fields(
                                    o,
                                    o.len(),
                                )[m] == d;
                            assert(subst.contains_key(refs(v)[m]));
                        }
                    }
                    lemma_substitute_clears(o[i].1, subst);
                }
                lemma_refs_fields_empty(after, after.len());
            },
        },
        Json::Array(a) => {
            let after = substitute_items(a, subst, a.len());
            lemma_substitute_items_index(a, subst, a.len());
            assert forall|i: int| 0 <= i < after.len() implies (#[trigger] refs(after[i])).len()
                == 0 by {
                lemma_refs_items_parts(a, a.len(), i);
                assert(covered(refs(a[i]), subst)) by {
                    assert forall|k: int| 0 <= k < refs(a[i]).len() implies subst.contains_key(
                        #[trigger] refs(a[i])[k],
                    ) by {
                        let d = refs(a[i])[k];
                        assert(refs(a[i]).contains(d));
                        assert(refs(v) == refs_items(a, a.len()));
                        assert(refs_items(a, a.len()).contains(d));
                        let m = choose|m: int|
                            0 <= m < refs_items(a, a.len()).len() && refs_items(a, a.len())[m]
                                == d;
                        assert(subst.contains_key(refs(v)[m]));
                    }
                }
                lemma_substitute_clears(a[i], subst);
            }
            lemma_refs_items_empty(after, after.len());
        },
        _ => {},
    }
}

/// Substitution leaves a value without references as it is.
pub proof fn lemma_substitute_keeps(v: Json, subst: Map<Dependency, ResolvedView>)
    requires
        refs(v).len() == 0,
    ensures
        substitute(v, subst) == v,
    decreases v, 0nat,
{
    match v {
        Json::Object(o) => match reference(o) {
            Some(d) => {},
            None => {
                let after = substitute_fields(o, subst, o.len());
                lemma_substitute_fields_index(o, subst, o.len());
                assert forall|i: int| 0 <= i < o.len() implies after[i] == o[i] by {
                    lemma_refs_fields_parts(o, o.len(), i);
                    lemma_substitute_keeps(o[i].1, subst);
                }
                assert(after =~= o);
            },
        },
        Json::Array(a) => {
            let after = substitute_items(a, subst, a.len());
            lemma_substitute_items_index(a, subst, a.len());
            assert forall|i: int| 0 <= i < a.len() implies after[i] == a[i] by {
                lemma_refs_items_parts(a, a.len(), i);
                lemma_substitute_keeps(a[i], subst);
            }
            assert(after =~= a);
        },
        _ => {},
    }
}

/// Extraction finds each reference once: the references extracted from a
/// value into an empty buffer are those of the value, none of them twice.
pub proof fn lemma_extracted_once(v: Json)
    ensures
        crate::deps::extended(Seq::<Dependency>::empty(), refs(v)).no_duplicates(),
        forall|d: Dependency|
            crate::deps::extended(Seq::<Dependency>::empty(), refs(v)).contains(d) <==> refs(
                v,
            ).contains(d),
{
    crate::deps::lemma_extended_no_duplicates(Seq::<Dependency>::empty(), refs(v));
}

/// Extraction and substitution round trip: where `subst` resolves every
/// reference that extraction finds in a value, the substituted value holds
/// no reference any more, and every part of the value that held no reference
/// is in it unchanged: an array keeps its length and an object its keys, in
/// their order, and a part without references is the same value after as
/// before.
pub proof fn lemma_substitution_round_trip(v: Json, subst: Map<Dependency, ResolvedView>)
    requires
        covered(refs(v), subst),
    ensures
        refs(substitute(v, subst)).len() == 0,
        refs(v).len() == 0 ==> substitute(v, subst) == v,
        v is Array ==> substitute(v, subst) == Json::Array(
            Seq::new(v->Array_0.len(), |i: int| substitute(v->Array_0[i], subst)),
        ),
        v is Object && reference(v->Object_0) is None ==> substitute(v, subst) == Json::Object(
            Seq::new(
                v->Object_0.len(),
                |i: int| (v->Object_0[i].0, substitute(v->Object_0[i].1, subst)),
            ),
        ),
{
    lemma_substitute_clears(v, subst);
    if refs(v).len() == 0 {
        lemma_substitute_keeps(v, subst);
    }
    match v {
        Json::Array(a) => {
            lemma_substitute_items_index(a, subst, a.len());
            assert(substitute_items(a, subst, a.len()) =~= Seq::new(
                a.len(),
                |i: int| substitute(a[i], subst),
            ));
        },
        Json::Object(o) => {
            lemma_substitute_fields_index(o, subst, o.len());
            assert(substitute_fields(o, subst, o.len()) =~= Seq::new(
                o.len(),
                |i: int| (o[i].0, substitute(o[i].1, subst)),
            ));
        },
        _ => {},
    }
}

} // verus!
