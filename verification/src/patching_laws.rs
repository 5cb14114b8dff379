//! What patches of frontmatter do to the documents of a store.

use vstd::prelude::*;
use crate::args::{texts_arg, texts_in};
use crate::json::{member_from, JsonFields, JsonModel};
use crate::mcp::ToolAnswer;
use crate::memory::{got, store_ok, InMemoryStore};
use crate::model::{Budget, PrincipalModel};
use crate::number::display_text;
use crate::okf::{field, field_from, frontmatter, parsed, split, Fields, FmModel};
use crate::patch::{patched, with_new, without};
use crate::patch_laws::{law_patched_fields, law_patched_tags};
use crate::patching::{
    all_texts, field_value, head_args, patch_arg, patch_tool, patched_doc, patched_with, set_arg,
    set_to,
};
use crate::repo::{Answer, MemoryRepository};
use crate::search_laws::holds_document;
use crate::store::{DocViewModel, OutcomeModel};
use crate::writing_laws::{lemma_holds, lemma_wrote, named_hash, says_written, wrote};

verus! {

/// The array `name` of the arguments holds the text `t`.
pub open spec fn lists_text(args: JsonModel, name: Seq<char>, t: Seq<char>) -> bool {
    args.member(name) matches Some(JsonModel::Array(l)) && l.contains(JsonModel::String(t))
}

/// What the object `set` of the arguments has for the field `k`.
pub open spec fn set_for(args: JsonModel, k: Seq<char>) -> Option<JsonModel> {
    match args.member("set"@) {
        Some(o) => o.member(k),
        None => None,
    }
}

/// A value of JSON as a field of a document: a text as it is, a flag or a number
/// as it is shown, a list of texts as a list.
pub open spec fn stands_as(v: JsonModel, x: FmModel) -> bool {
    match v {
        JsonModel::String(t) => x == FmModel::Scalar(t),
        JsonModel::Bool(b) => x == FmModel::Scalar(
            if b {
                "true"@
            } else {
                "false"@
            },
        ),
        JsonModel::Number(n) => x == FmModel::Scalar(display_text(n)),
        JsonModel::Array(l) => x matches FmModel::List(items) && items.len() == l.len()
            && forall|i: int| 0 <= i < l.len() ==> #[trigger] l[i] == JsonModel::String(items[i]),
        _ => false,
    }
}

/// The fields of a document.
pub open spec fn fields_of(raw: Seq<char>, b: Budget) -> Fields {
    frontmatter(split(raw, b.max_frontmatter_bytes as nat)->Ok_0.0)->Ok_0
}

/// What follows the frontmatter of a document.
pub open spec fn body_of(raw: Seq<char>, b: Budget) -> Seq<char> {
    raw.skip(split(raw, b.max_frontmatter_bytes as nat)->Ok_0.1)
}

/// A field other than the tags after a patch: what `set` has for it; gone,
/// where `remove` holds it; else as it was.
pub open spec fn field_is_right(
    args: JsonModel,
    b: Budget,
    before: Seq<char>,
    after: Seq<char>,
    k: Seq<char>,
) -> bool {
    match set_for(args, k) {
        Some(v) => field(fields_of(after, b), k) is Some && stands_as(
            v,
            field(fields_of(after, b), k)->0,
        ),
        None => if lists_text(args, "remove"@, k) {
            forall|i: int|
                0 <= i < fields_of(after, b).len() ==> (#[trigger] fields_of(after, b)[i]).0 != k
        } else {
            field(fields_of(after, b), k) == field(fields_of(before, b), k)
        },
    }
}

/// A tag after a patch: there, where `add_tags` holds it; else gone, where
/// `remove_tags` holds it; else as `set` says, or as it was.
pub open spec fn tag_is_right(
    args: JsonModel,
    b: Budget,
    before: Seq<char>,
    after: Seq<char>,
    t: Seq<char>,
) -> bool {
    let is_there = parsed(after, b)->Ok_0.tags.contains(t);
    if lists_text(args, "add_tags"@, t) {
        is_there
    } else if lists_text(args, "remove_tags"@, t) {
        !is_there
    } else {
        match set_for(args, "tags"@) {
            Some(JsonModel::Array(l)) => is_there == l.contains(JsonModel::String(t)),
            Some(_) => false,
            None => if lists_text(args, "remove"@, "tags"@) {
                is_there ==> parsed(before, b)->Ok_0.tags.contains(t)
            } else {
                is_there == parsed(before, b)->Ok_0.tags.contains(t)
            },
        }
    }
}

/// A document before and after a patch: both are valid, the body is the same,
/// and every field and every tag is what the arguments say.
pub open spec fn patched_so(
    args: JsonModel,
    b: Budget,
    before: Seq<char>,
    after: Seq<char>,
) -> bool {
    &&& parsed(before, b) is Ok
    &&& parsed(after, b) is Ok
    &&& exists|head: Seq<char>| after == #[trigger] (head + body_of(before, b))
    &&& forall|k: Seq<char>|
        k != "tags"@ ==> #[trigger] field_is_right(args, b, before, after, k)
    &&& forall|t: Seq<char>| #[trigger] tag_is_right(args, b, before, after, t)
    &&& (lists_text(args, "remove"@, "tags"@) && set_for(args, "tags"@) is None && (forall|
        t: Seq<char>,
    | !#[trigger] lists_text(args, "add_tags"@, t)) && (forall|t: Seq<char>|
        !#[trigger] lists_text(args, "remove_tags"@, t))) ==> parsed(after, b)->Ok_0.tags.len()
        == 0
}

proof fn lemma_texts_in(l: Seq<JsonModel>, n: int, t: Seq<char>)
    requires
        0 <= n <= l.len(),
    ensures
        texts_in(l, n).contains(t) <==> l.take(n).contains(JsonModel::String(t)),
    decreases n,
{
    let x = JsonModel::String(t);
    if n > 0 {
        lemma_texts_in(l, n - 1, t);
        let a = texts_in(l, n - 1);
        assert(l.take(n) =~= l.take(n - 1).push(l[n - 1]));
        lemma_push_contains(l.take(n - 1), l[n - 1], x);
        match l[n - 1].text() {
            Some(u) => lemma_push_contains(a, u, t),
            None => {},
        }
    }
}

proof fn lemma_push_contains<A>(s: Seq<A>, y: A, x: A)
    ensures
        s.push(y).contains(x) <==> s.contains(x) || x == y,
{
    let u = s.push(y);
    assert(u[s.len() as int] == y);
    if s.contains(x) {
        let k = choose|k: int| 0 <= k < s.len() && s[k] == x;
        assert(u[k] == x);
    }
    if u.contains(x) && x != y {
        let k = choose|k: int| 0 <= k < u.len() && u[k] == x;
        assert(s[k] == x);
    }
}

/// The texts that are read of an array are those that it holds.
pub proof fn lemma_texts_arg(args: JsonModel, name: Seq<char>, t: Seq<char>)
    ensures
        texts_arg(args, name).contains(t) <==> lists_text(args, name, t),
{
    match args.member(name) {
        Some(JsonModel::Array(l)) => {
            lemma_texts_in(l, l.len() as int, t);
            assert(l.take(l.len() as int) =~= l);
        },
        _ => {},
    }
}

proof fn lemma_all_texts(l: Seq<JsonModel>, n: int)
    requires
        0 <= n <= l.len(),
        all_texts(l, n) is Ok,
    ensures
        all_texts(l, n)->Ok_0.len() == n,
        forall|i: int|
            0 <= i < n ==> #[trigger] l[i] == JsonModel::String(all_texts(l, n)->Ok_0[i]),
    decreases n,
{
    if n > 0 {
        lemma_all_texts(l, n - 1);
    }
}

proof fn lemma_field_value(k: Seq<char>, v: JsonModel)
    requires
        field_value(k, v) is Ok,
    ensures
        stands_as(v, field_value(k, v)->Ok_0),
{
    match v {
        JsonModel::Array(l) => lemma_all_texts(l, l.len() as int),
        _ => {},
    }
}

/// The fields to write are those of the object, in order.
proof fn lemma_set_to(f: JsonFields, n: int)
    requires
        0 <= n <= f.len(),
        set_to(f, n) is Ok,
    ensures
        set_to(f, n)->Ok_0.len() == n,
        forall|i: int|
            0 <= i < n ==> (#[trigger] set_to(f, n)->Ok_0[i]).0 == f[i].0 && stands_as(
                f[i].1,
                set_to(f, n)->Ok_0[i].1,
            ),
    decreases n,
{
    if n > 0 {
        lemma_set_to(f, n - 1);
        lemma_field_value(f[n - 1].0, f[n - 1].1);
    }
}

proof fn lemma_first_alike(f: JsonFields, s: Fields, i: int, k: Seq<char>)
    requires
        0 <= i <= f.len(),
        f.len() == s.len(),
        forall|j: int|
            0 <= j < f.len() ==> (#[trigger] s[j]).0 == f[j].0 && stands_as(f[j].1, s[j].1),
    ensures
        member_from(f, i, k) is Some <==> field_from(s, i, k) is Some,
        member_from(f, i, k) is Some ==> stands_as(
            member_from(f, i, k)->0,
            field_from(s, i, k)->0,
        ),
    decreases f.len() - i,
{
    if i < f.len() {
        assert(s[i].0 == f[i].0);
        lemma_first_alike(f, s, i + 1, k);
    }
}

proof fn lemma_set(args: JsonModel, k: Seq<char>)
    requires
        set_arg(args) is Ok,
    ensures
        set_for(args, k) is Some <==> field(set_arg(args)->Ok_0, k) is Some,
        set_for(args, k) is Some ==> stands_as(
            set_for(args, k)->0,
            field(set_arg(args)->Ok_0, k)->0,
        ),
{
    match args.member("set"@) {
        Some(v) => {
            let f = v.fields()->0;
            lemma_set_to(f, f.len() as int);
            lemma_first_alike(f, set_arg(args)->Ok_0, 0, k);
        },
        None => {},
    }
}

proof fn lemma_no_field(f: Fields, i: int, k: Seq<char>)
    requires
        0 <= i <= f.len(),
        field_from(f, i, k) is None,
    ensures
        forall|j: int| i <= j < f.len() ==> (#[trigger] f[j]).0 != k,
    decreases f.len() - i,
{
    if i < f.len() {
        lemma_no_field(f, i + 1, k);
    }
}

proof fn lemma_kept_tags(s: Seq<Seq<char>>, out: Seq<Seq<char>>, n: int, t: Seq<char>)
    requires
        0 <= n <= s.len(),
    ensures
        without(s, out, n).contains(t) <==> s.take(n).contains(t) && !out.contains(t),
    decreases n,
{
    if n > 0 {
        lemma_kept_tags(s, out, n - 1, t);
        assert(s.take(n) =~= s.take(n - 1).push(s[n - 1]));
        lemma_push_contains(s.take(n - 1), s[n - 1], t);
        lemma_push_contains(without(s, out, n - 1), s[n - 1], t);
    }
}

proof fn lemma_new_tags(s: Seq<Seq<char>>, more: Seq<Seq<char>>, n: int, t: Seq<char>)
    requires
        0 <= n <= more.len(),
    ensures
        with_new(s, more, n).contains(t) <==> s.contains(t) || more.take(n).contains(t),
    decreases n,
{
    if n > 0 {
        lemma_new_tags(s, more, n - 1, t);
        assert(more.take(n) =~= more.take(n - 1).push(more[n - 1]));
        lemma_push_contains(more.take(n - 1), more[n - 1], t);
        lemma_push_contains(with_new(s, more, n - 1), more[n - 1], t);
    }
}

/// A tag of the tags that a patch leaves.
proof fn lemma_changed_tags(
    base: Seq<Seq<char>>,
    remove: Seq<Seq<char>>,
    more: Seq<Seq<char>>,
    t: Seq<char>,
)
    ensures
        crate::patch::changed_tags(base, remove, more).contains(t) <==> more.contains(t) || (
        base.contains(t) && !remove.contains(t)),
{
    lemma_kept_tags(base, remove, base.len() as int, t);
    let kept = without(base, remove, base.len() as int);
    lemma_new_tags(kept, more, more.len() as int, t);
    assert(base.take(base.len() as int) =~= base);
    assert(more.take(more.len() as int) =~= more);
}

proof fn lemma_tag(args: JsonModel, b: Budget, raw: Seq<char>, t: Seq<char>)
    requires
        patch_arg(args) is Ok,
        patched(raw, patch_arg(args)->Ok_0, b) is Ok,
    ensures
        tag_is_right(args, b, raw, patched(raw, patch_arg(args)->Ok_0, b)->Ok_0, t),
{
    let p = patch_arg(args)->Ok_0;
    let tags = parsed(raw, b)->Ok_0.tags;
    law_patched_tags(raw, p, b);
    lemma_texts_arg(args, "add_tags"@, t);
    lemma_texts_arg(args, "remove_tags"@, t);
    lemma_texts_arg(args, "remove"@, "tags"@);
    lemma_set(args, "tags"@);
    crate::patch_laws::lemma_planned(raw, p, b);
    match field(p.set, "tags"@) {
        Some(FmModel::List(l)) => {
            lemma_changed_tags(l, p.remove_tags, p.add_tags, t);
            let v = set_for(args, "tags"@)->0;
            let items = v->Array_0;
            if l.contains(t) {
                let i = choose|i: int| 0 <= i < l.len() && l[i] == t;
                assert(items[i] == JsonModel::String(t));
            }
            if items.contains(JsonModel::String(t)) {
                let i = choose|i: int|
                    0 <= i < items.len() && items[i] == JsonModel::String(t);
                assert(items[i] == JsonModel::String(l[i]));
                assert(l.contains(l[i]));
            }
        },
        _ => {
            lemma_changed_tags(tags, p.remove_tags, p.add_tags, t);
        },
    }
}

proof fn lemma_field(args: JsonModel, b: Budget, raw: Seq<char>, k: Seq<char>)
    requires
        patch_arg(args) is Ok,
        patched(raw, patch_arg(args)->Ok_0, b) is Ok,
        k != "tags"@,
    ensures
        field_is_right(args, b, raw, patched(raw, patch_arg(args)->Ok_0, b)->Ok_0, k),
{
    let p = patch_arg(args)->Ok_0;
    law_patched_fields(raw, p, b, k);
    lemma_texts_arg(args, "remove"@, k);
    lemma_set(args, k);
    let f = fields_of(patched(raw, p, b)->Ok_0, b);
    if field(f, k) is None {
        lemma_no_field(f, 0, k);
    }
}

/// A patch that succeeds does what its arguments say.
pub proof fn law_patched_documents_are_right(args: JsonModel, d: DocViewModel, b: Budget)
    requires
        patched_doc(args, d, b) is Ok,
    ensures
        patched_so(args, b, d.raw, patched_doc(args, d, b)->Ok_0),
{
    let p = patch_arg(args)->Ok_0;
    let raw = d.raw;
    let after = patched_doc(args, d, b)->Ok_0;
    crate::patch::law_patch_keeps_the_body(raw, p, b);
    let body = body_of(raw, b);
    let head = after.take(after.len() - body.len());
    assert(after =~= head + body) by {
        let end = after.subrange(after.len() - body.len(), after.len() as int);
        assert(end == body);
        assert forall|i: int| 0 <= i < body.len() implies after[head.len() + i] == body[i] by {
            assert(end[i] == body[i]);
        }
    }
    assert forall|k: Seq<char>| k != "tags"@ implies #[trigger] field_is_right(
        args,
        b,
        raw,
        after,
        k,
    ) by {
        lemma_field(args, b, raw, k);
    }
    assert forall|t: Seq<char>| #[trigger] tag_is_right(args, b, raw, after, t) by {
        lemma_tag(args, b, raw, t);
    }
    if lists_text(args, "remove"@, "tags"@) && set_for(args, "tags"@) is None && (forall|
        t: Seq<char>,
    | !#[trigger] lists_text(args, "add_tags"@, t)) && (forall|t: Seq<char>|
        !#[trigger] lists_text(args, "remove_tags"@, t)) {
        lemma_texts_arg(args, "remove"@, "tags"@);
        lemma_set(args, "tags"@);
        if p.add_tags.len() > 0 {
            assert(p.add_tags.contains(p.add_tags[0]));
            lemma_texts_arg(args, "add_tags"@, p.add_tags[0]);
        }
        if p.remove_tags.len() > 0 {
            assert(p.remove_tags.contains(p.remove_tags[0]));
            lemma_texts_arg(args, "remove_tags"@, p.remove_tags[0]);
        }
        law_patched_tags(raw, p, b);
    }
}

/// What `memory_patch` leaves in the store: the document it names, patched as
/// its arguments say, written by a writer that had read the hash it names.
pub proof fn law_patches_do_what_they_say(
    pre: InMemoryStore,
    actor: PrincipalModel,
    b: Budget,
    args: JsonModel,
    post: InMemoryStore,
    r: ToolAnswer,
    id: Seq<char>,
    reason: Seq<char>,
)
    requires
        store_ok(pre@),
        patch_tool(pre, actor, b, args, post, r),
        r is Ok,
        args.member("concept_id"@) == Some(JsonModel::String(id)),
        args.member("reason"@) == Some(JsonModel::String(reason)),
        args.member("dry_run"@) != Some(JsonModel::Bool(true)),
    ensures
        exists|before: Seq<char>, after: Seq<char>|
            #![trigger patched_so(args, b, before, after)]
            holds_document(pre@, id, before) && patched_so(args, b, before, after) && wrote(
                pre@,
                post@,
                id,
                named_hash(args.member("expected_hash"@)),
                after,
                reason,
                actor,
            ) && says_written(pre@, post@, id, after, r->Ok_0),
{
    let h = head_args(args)->Ok_0;
    let a = got(pre@, id);
    assert(patched_with(pre, actor, b, args, h, a, post, r));
    let d = a->Ok_0->0;
    let after = patched_doc(args, d, b)->Ok_0;
    law_patched_documents_are_right(args, d, b);
    lemma_holds(pre@, id, d.raw);
    let req = crate::patching::patch_request(h, after);
    let o = choose|o: Answer<OutcomeModel>| #[trigger]
        <InMemoryStore as MemoryRepository>::commit_rel(pre, req, actor, b, post, o) && r
            == crate::writing::outcome_answer(id, o);
    lemma_wrote(pre@, req, actor, b);
    assert(patched_so(args, b, d.raw, after));
}

} // verus!
