//! The arguments of a tool.

use vstd::prelude::*;
use crate::json::{JsonModel, Value};
use crate::mcp::{ToolError, ToolErrorModel};
use crate::model::{id_error, lemma_valid_id, unhex, ConceptId, ContentId};
use crate::text::{lemma_views_push, opt_view, res_view, views};

verus! {

/// Arguments that were read, or why they were refused.
pub type Parsed<T> = Result<T, ToolErrorModel>;

pub open spec fn invalid<T>(m: Seq<char>) -> Parsed<T> {
    Err(ToolErrorModel::InvalidArguments(m))
}

/// A text argument, if it is there and a text.
pub open spec fn text_arg(a: JsonModel, k: Seq<char>) -> Option<Seq<char>> {
    match a.member(k) {
        Some(v) => v.text(),
        None => None,
    }
}

pub open spec fn no_text(k: Seq<char>) -> Seq<char> {
    "falta el argumento '"@ + k + "' (string)"@
}

/// A text argument that must be there.
pub open spec fn need_text(a: JsonModel, k: Seq<char>) -> Parsed<Seq<char>> {
    match text_arg(a, k) {
        Some(t) => Ok(t),
        None => invalid(no_text(k)),
    }
}

/// A whole number, if it is there; null stands for nothing.
pub open spec fn size_arg(a: JsonModel, k: Seq<char>) -> Parsed<Option<usize>> {
    match a.member(k) {
        None => Ok(None),
        Some(JsonModel::Null) => Ok(None),
        Some(v) => match v.whole() {
            Some(u) => Ok(Some(u as usize)),
            None => invalid("'"@ + k + "' debe ser un entero >= 0"@),
        },
    }
}

/// A flag; `default` where it is not there or not a flag.
pub open spec fn flag_arg(a: JsonModel, k: Seq<char>, default: bool) -> bool {
    match a.member(k) {
        Some(v) => match v.truth() {
            Some(b) => b,
            None => default,
        },
        None => default,
    }
}

/// A list, if it is there and a list.
pub open spec fn list_arg(a: JsonModel, k: Seq<char>) -> Option<Seq<JsonModel>> {
    match a.member(k) {
        Some(v) => v.items(),
        None => None,
    }
}

/// The texts among the first `n` values.
pub open spec fn texts_in(l: Seq<JsonModel>, n: int) -> Seq<Seq<char>>
    decreases n,
{
    if n <= 0 {
        Seq::empty()
    } else {
        match l[n - 1].text() {
            Some(t) => texts_in(l, n - 1).push(t),
            None => texts_in(l, n - 1),
        }
    }
}

/// The texts of a list; none where there is no list.
pub open spec fn texts_arg(a: JsonModel, k: Seq<char>) -> Seq<Seq<char>> {
    match list_arg(a, k) {
        Some(l) => texts_in(l, l.len() as int),
        None => Seq::empty(),
    }
}

/// A text that must be an id.
pub open spec fn read_id(raw: Seq<char>) -> Parsed<Seq<char>> {
    match id_error(raw) {
        None => Ok(raw),
        Some(e) => invalid("concept_id inválido: "@ + e.message()),
    }
}

/// An id that must be there.
pub open spec fn need_id(a: JsonModel, k: Seq<char>) -> Parsed<Seq<char>> {
    match need_text(a, k) {
        Ok(t) => read_id(t),
        Err(e) => Err(e),
    }
}

/// The hash that a writer read, if it says so; null stands for nothing.
pub open spec fn hash_arg(a: JsonModel) -> Parsed<Option<Seq<u8>>> {
    match a.member("expected_hash"@) {
        None => Ok(None),
        Some(JsonModel::Null) => Ok(None),
        Some(JsonModel::String(t)) => match unhex(t) {
            Some(h) => Ok(Some(h)),
            None => invalid("'expected_hash' debe ser 64 caracteres hexadecimales"@),
        },
        Some(_) => invalid("'expected_hash' debe ser string"@),
    }
}

/// The hash that a writer must name, with the complaint about one that is no
/// hash.
pub open spec fn need_hash(a: JsonModel, complaint: Seq<char>) -> Parsed<Seq<u8>> {
    match need_text(a, "expected_hash"@) {
        Ok(t) => match unhex(t) {
            Some(h) => Ok(h),
            None => invalid(complaint),
        },
        Err(e) => Err(e),
    }
}

pub fn invalid_arguments(m: &str) -> (r: ToolError)
    ensures
        r@ == ToolErrorModel::InvalidArguments(m@),
{
    ToolError::InvalidArguments(m.to_owned())
}

pub fn arg_str(args: &Value, key: &str) -> (r: Option<String>)
    ensures
        opt_view(r) == text_arg(args@, key@),
{
    match args.get(key) {
        Some(v) => match v.as_str() {
            Some(t) => Some(t.to_owned()),
            None => None,
        },
        None => None,
    }
}

pub fn require_str(args: &Value, key: &str) -> (r: Result<String, ToolError>)
    ensures
        res_view(r) == need_text(args@, key@),
{
    match arg_str(args, key) {
        Some(t) => Ok(t),
        None => {
            let mut m = "falta el argumento '".to_owned();
            m.push_str(key);
            m.push_str("' (string)");
            Err(ToolError::InvalidArguments(m))
        },
    }
}

#[verifier::truncate]
pub fn arg_usize(args: &Value, key: &str) -> (r: Result<Option<usize>, ToolError>)
    ensures
        res_view(r) == size_arg(args@, key@),
{
    match args.get(key) {
        None => Ok(None),
        Some(Value::Null) => Ok(None),
        Some(v) => match v.as_u64() {
            Some(u) => Ok(Some(u as usize)),
            None => {
                let mut m = "'".to_owned();
                m.push_str(key);
                m.push_str("' debe ser un entero >= 0");
                Err(ToolError::InvalidArguments(m))
            },
        },
    }
}

pub fn arg_flag(args: &Value, key: &str, default: bool) -> (r: bool)
    ensures
        r == flag_arg(args@, key@, default),
{
    match args.get(key) {
        Some(v) => match v.as_bool() {
            Some(b) => b,
            None => default,
        },
        None => default,
    }
}

pub fn arg_list<'a>(args: &'a Value, key: &str) -> (r: Option<&'a Vec<Value>>)
    ensures
        match r {
            Some(l) => list_arg(args@, key@) == Some(views(l@)),
            None => list_arg(args@, key@) is None,
        },
{
    match args.get(key) {
        Some(v) => v.as_array(),
        None => None,
    }
}

pub fn arg_texts(args: &Value, key: &str) -> (r: Vec<String>)
    ensures
        views(r@) == texts_arg(args@, key@),
{
    let mut out: Vec<String> = Vec::new();
    assert(views(out@) =~= Seq::empty());
    match arg_list(args, key) {
        Some(l) => {
            let ghost all = views(l@);
            let mut i: usize = 0;
            while i < l.len()
                invariant
                    i <= l.len(),
                    all == views(l@),
                    views(out@) == texts_in(all, i as int),
                decreases l.len() - i,
            {
                assert(all[i as int] == l@[i as int]@);
                match l[i].as_str() {
                    Some(t) => {
                        let t = t.to_owned();
                        proof {
                            lemma_views_push(out@, t);
                        }
                        out.push(t);
                    },
                    None => {},
                }
                i += 1;
            }
        },
        None => {},
    }
    out
}

pub fn concept_id(raw: &str) -> (r: Result<ConceptId, ToolError>)
    ensures
        res_view(r) == read_id(raw@),
{
    proof {
        lemma_valid_id(raw@);
    }
    match ConceptId::parse(raw) {
        Ok(id) => Ok(id),
        Err(e) => {
            let mut m = "concept_id inválido: ".to_owned();
            let why = e.message();
            m.push_str(why.as_str());
            Err(ToolError::InvalidArguments(m))
        },
    }
}

pub fn require_id(args: &Value, key: &str) -> (r: Result<ConceptId, ToolError>)
    ensures
        res_view(r) == need_id(args@, key@),
{
    match require_str(args, key) {
        Ok(t) => concept_id(t.as_str()),
        Err(e) => Err(e),
    }
}

/// The view of an optional hash.
pub open spec fn hash_result(r: Result<Option<ContentId>, ToolError>) -> Parsed<Option<Seq<u8>>> {
    match r {
        Ok(h) => Ok(opt_view(h)),
        Err(e) => Err(e@),
    }
}

pub fn arg_hash(args: &Value) -> (r: Result<Option<ContentId>, ToolError>)
    ensures
        hash_result(r) == hash_arg(args@),
{
    match args.get("expected_hash") {
        None => Ok(None),
        Some(Value::Null) => Ok(None),
        Some(v) => match v.as_str() {
            Some(t) => match ContentId::from_hex(t) {
                Some(h) => Ok(Some(h)),
                None => Err(
                    invalid_arguments("'expected_hash' debe ser 64 caracteres hexadecimales"),
                ),
            },
            None => Err(invalid_arguments("'expected_hash' debe ser string")),
        },
    }
}

pub fn require_hash(args: &Value, complaint: &str) -> (r: Result<ContentId, ToolError>)
    ensures
        res_view(r) == need_hash(args@, complaint@),
{
    match require_str(args, "expected_hash") {
        Ok(t) => match ContentId::from_hex(t.as_str()) {
            Some(h) => Ok(h),
            None => Err(invalid_arguments(complaint)),
        },
        Err(e) => Err(e),
    }
}

} // verus!
