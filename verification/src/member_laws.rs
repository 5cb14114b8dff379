//! What holds of the fields of JSON objects.

use vstd::prelude::*;
use crate::json::{empty_object, lemma_member_lookup, with, JsonFields, JsonModel};
use crate::table::{
    ascending, before, lemma_before_irreflexive, lemma_lookup_put, lemma_put_ascending,
};

verus! {

/// An object whose fields ascend, as every object is built.
pub open spec fn in_order(o: JsonModel) -> bool {
    o is Object && ascending(o->Object_0)
}

pub broadcast proof fn lemma_empty_in_order()
    ensures
        in_order(#[trigger] empty_object()),
{
}

pub broadcast proof fn lemma_set_in_order(o: JsonModel, k: Seq<char>, v: JsonModel)
    requires
        in_order(o),
    ensures
        in_order(#[trigger] o.set(k, v)),
{
    lemma_put_ascending(o->Object_0, k, v);
}

/// A field that was set is there; the others stay.
pub broadcast proof fn lemma_set_get(o: JsonModel, k: Seq<char>, v: JsonModel, q: Seq<char>)
    requires
        in_order(o),
    ensures
        (#[trigger] o.set(k, v).member(q)) == if q == k {
            Some(v)
        } else {
            o.member(q)
        },
{
    let f = o->Object_0;
    lemma_put_ascending(f, k, v);
    lemma_lookup_put(f, k, v, q);
    lemma_member_lookup(f, q);
    lemma_member_lookup(crate::table::put(f, k, v), q);
}

pub broadcast proof fn lemma_with_in_order(o: JsonModel, k: Seq<char>, v: JsonModel)
    requires
        in_order(o),
    ensures
        in_order(#[trigger] with(o, k, v)),
{
    lemma_set_in_order(o, k, v);
}

pub broadcast proof fn lemma_with_get(o: JsonModel, k: Seq<char>, v: JsonModel, q: Seq<char>)
    requires
        in_order(o),
    ensures
        (#[trigger] with(o, k, v).member(q)) == if q == k {
            Some(v)
        } else {
            o.member(q)
        },
{
    lemma_set_get(o, k, v, q);
}

pub broadcast group group_fields {
    lemma_empty_in_order,
    lemma_with_in_order,
    lemma_with_get,
}

pub broadcast group group_members {
    lemma_empty_in_order,
    lemma_set_in_order,
    lemma_set_get,
}

proof fn lemma_member_at(f: JsonFields, i: int, j: int)
    requires
        ascending(f),
        0 <= j <= i < f.len(),
    ensures
        crate::json::member_from(f, j, f[i].0) == Some(f[i].1),
    decreases i - j,
{
    if j < i {
        assert(before(f[j].0, f[i].0));
        lemma_before_irreflexive(f[i].0);
        lemma_member_at(f, i, j + 1);
    }
}

proof fn lemma_no_member(f: JsonFields, k: Seq<char>, j: int)
    requires
        0 <= j <= f.len(),
        forall|i: int| j <= i < f.len() ==> (#[trigger] f[i]).0 != k,
    ensures
        crate::json::member_from(f, j, k) is None,
    decreases f.len() - j,
{
    if j < f.len() {
        lemma_no_member(f, k, j + 1);
    }
}

/// The member called `k` of an object is the value of its field `k`, and there
/// is none where no field is called so.
pub proof fn law_members_are_fields(f: JsonFields, k: Seq<char>, v: JsonModel)
    requires
        ascending(f),
    ensures
        JsonModel::Object(f).member(k) == Some(v) <==> exists|i: int|
            0 <= i < f.len() && #[trigger] f[i] == (k, v),
        JsonModel::Object(f).member(k) is None <==> forall|i: int|
            0 <= i < f.len() ==> (#[trigger] f[i]).0 != k,
{
    if exists|i: int| 0 <= i < f.len() && (#[trigger] f[i]).0 == k {
        let i = choose|i: int| 0 <= i < f.len() && (#[trigger] f[i]).0 == k;
        lemma_member_at(f, i, 0);
        assert(f[i] == (f[i].0, f[i].1));
        assert forall|j: int| 0 <= j < f.len() && #[trigger] f[j] == (k, v) implies f[i].1 == v by {
            lemma_member_at(f, j, 0);
        }
    } else {
        lemma_no_member(f, k, 0);
    }
}

} // verus!
