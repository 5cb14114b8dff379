//! What the schemas of the tools say of their arguments.

use vstd::prelude::*;
use crate::catalogue::{argument_json, properties_to, required_to, schema_json, ArgumentRow};
use crate::json::JsonModel;
use crate::member_laws::{group_fields, group_members, in_order};

verus! {

/// Row `i` is the last that describes the argument `name` of a tool.
pub open spec fn describes(rows: Seq<ArgumentRow>, tool: Seq<char>, name: Seq<char>, i: int) -> bool {
    &&& 0 <= i < rows.len()
    &&& rows[i].0@ == tool
    &&& rows[i].1@ == name
    &&& forall|j: int|
        i < j < rows.len() ==> !((#[trigger] rows[j]).0@ == tool && rows[j].1@ == name)
}

proof fn lemma_argument(kind: Seq<char>, about: Seq<char>)
    ensures
        argument_json(kind, about).member("type"@) == Some(JsonModel::String(kind)),
        argument_json(kind, about).member("description"@) == Some(JsonModel::String(about)),
{
    broadcast use group_members;

    reveal_strlit("type");
    reveal_strlit("description");
    assert("type"@.len() != "description"@.len());
}

proof fn lemma_properties(rows: Seq<ArgumentRow>, tool: Seq<char>, name: Seq<char>, n: int)
    requires
        0 <= n <= rows.len(),
    ensures
        in_order(properties_to(rows, tool, n)),
        match properties_to(rows, tool, n).member(name) {
            Some(v) => exists|i: int|
                0 <= i < n && (#[trigger] rows[i]).0@ == tool && rows[i].1@ == name && v
                    == argument_json(rows[i].2@, rows[i].3@) && forall|j: int|
                    i < j < n ==> !((#[trigger] rows[j]).0@ == tool && rows[j].1@ == name),
            None => forall|i: int|
                0 <= i < n ==> !((#[trigger] rows[i]).0@ == tool && rows[i].1@ == name),
        },
    decreases n,
{
    broadcast use group_fields;

    if n > 0 {
        lemma_properties(rows, tool, name, n - 1);
    }
}

proof fn lemma_required(rows: Seq<ArgumentRow>, tool: Seq<char>, name: Seq<char>, n: int)
    requires
        0 <= n <= rows.len(),
    ensures
        required_to(rows, tool, n).contains(name) <==> exists|i: int|
            0 <= i < n && (#[trigger] rows[i]).0@ == tool && rows[i].1@ == name && rows[i].4,
    decreases n,
{
    if n > 0 {
        lemma_required(rows, tool, name, n - 1);
        let before = required_to(rows, tool, n - 1);
        if rows[n - 1].0@ == tool && rows[n - 1].4 {
            crate::reason::lemma_push_contains(before, rows[n - 1].1@, name);
        }
        if required_to(rows, tool, n - 1).contains(name) {
            let i = choose|i: int|
                0 <= i < n - 1 && (#[trigger] rows[i]).0@ == tool && rows[i].1@ == name
                    && rows[i].4;
            assert(rows[i].0@ == tool);
        }
    }
}

/// The schema of a tool describes an argument where a row does, with its type
/// and what it is about, and says of no other.
pub proof fn law_schemas_describe_the_arguments(
    rows: Seq<ArgumentRow>,
    tool: Seq<char>,
    name: Seq<char>,
)
    ensures
        schema_json(rows, tool).member("type"@) == Some(JsonModel::String("object"@)),
        schema_json(rows, tool).member("properties"@) matches Some(o) && {
            &&& forall|i: int| #[trigger]
                describes(rows, tool, name, i) ==> (o.member(name) matches Some(v) && v.member(
                    "type"@,
                ) == Some(JsonModel::String(rows[i].2@)) && v.member("description"@) == Some(
                    JsonModel::String(rows[i].3@),
                ))
            &&& o.member(name) is Some ==> exists|i: int| #[trigger]
                describes(rows, tool, name, i)
        },
        schema_json(rows, tool).member("required"@) matches Some(JsonModel::Array(l))
            && (l.contains(JsonModel::String(name)) <==> exists|i: int|
            0 <= i < rows.len() && (#[trigger] rows[i]).0@ == tool && rows[i].1@ == name
                && rows[i].4),
{
    let n = rows.len() as int;
    let o = properties_to(rows, tool, n);
    lemma_schema(rows, tool);
    lemma_properties(rows, tool, name, n);
    lemma_required(rows, tool, name, n);
    assert forall|i: int| #[trigger] describes(rows, tool, name, i) implies (o.member(
        name,
    ) matches Some(v) && v.member("type"@) == Some(JsonModel::String(rows[i].2@)) && v.member(
        "description"@,
    ) == Some(JsonModel::String(rows[i].3@))) by {
        lemma_argument(rows[i].2@, rows[i].3@);
        assert(rows[i].0@ == tool);
    }
    if o.member(name) is Some {
        let i = choose|i: int|
            0 <= i < n && (#[trigger] rows[i]).0@ == tool && rows[i].1@ == name && o.member(name)
                == Some(argument_json(rows[i].2@, rows[i].3@)) && forall|j: int|
                i < j < n ==> !((#[trigger] rows[j]).0@ == tool && rows[j].1@ == name);
        assert(describes(rows, tool, name, i));
    }
    let q = required_to(rows, tool, n);
    let l = Seq::new(q.len(), |i: int| JsonModel::String(q[i]));
    if q.contains(name) {
        let i = choose|i: int| 0 <= i < q.len() && q[i] == name;
        assert(l[i] == JsonModel::String(name));
    }
    if l.contains(JsonModel::String(name)) {
        let i = choose|i: int| 0 <= i < l.len() && l[i] == JsonModel::String(name);
        assert(q[i] == name);
    }
}

proof fn lemma_schema(rows: Seq<ArgumentRow>, tool: Seq<char>)
    ensures
        schema_json(rows, tool).member("type"@) == Some(JsonModel::String("object"@)),
        schema_json(rows, tool).member("properties"@) == Some(
            properties_to(rows, tool, rows.len() as int),
        ),
        schema_json(rows, tool).member("required"@) == Some(
            crate::json::texts(required_to(rows, tool, rows.len() as int)),
        ),
{
    broadcast use group_members;

    reveal_strlit("type");
    reveal_strlit("properties");
    reveal_strlit("required");
    assert("type"@.len() != "properties"@.len());
    assert("type"@.len() != "required"@.len());
    assert("properties"@.len() != "required"@.len());
}

} // verus!
