//! What the documents of a plan hold of the files of a source.

use vstd::prelude::*;
use crate::axiom_laws::{is_tight, lemma_tight};
use crate::importing::unit_text;
use crate::ingest::{
    cut_mark, is_markdown, is_skill_md, monus, resolved, some_markdown, wrap_header, wrapped_text,
    ActionModel, FileModel, PlanModel, PlannedUnit, ResolvedFormat, SkillFormat, UnitModel,
};
use crate::model::Budget;
use crate::names::{clean_scalar, fitting, path_slug, slug, stem, unlinked};
use crate::okf::{line_end, parsed, trim_eol};
use crate::plan::{
    after_open, aux_to, bare_body, close_end, code_block, deeper, deepest_first, drafted, dump_to,
    full_id, generic_to, has_unit, home, in_order, is_component, members, okf_to, over_limit,
    planned, raw_to, repeated_to, shadcn_to, skill_body, skill_dir, skill_dirs, skill_first,
    skill_from, skills_to, some_aux, sorted_in, sorted_to, unique_to, with_skill, with_verbatim,
    with_wrapped, Dir, Draft, Member, Ranked, Setting,
};
use crate::text::{
    ends_with, holds, is_white, last_segment, lemma_find_char_from, lemma_utf8_len_concat,
    lemma_utf8_len_push, starts_with, trim, trim_end, trim_end_char, trim_start, utf8_len,
};

verus! {

// ---------------------------------------------------------------------
// Text inside a document
// ---------------------------------------------------------------------

/// A text with a space between any two opening brackets.
pub open spec fn spaced(t: Seq<char>) -> Seq<char>
    decreases t.len(),
{
    if t.len() == 0 {
        Seq::empty()
    } else if t.len() > 1 && t[0] == '[' && t[1] == '[' {
        seq!['[', ' '] + spaced(t.skip(1))
    } else {
        seq![t[0]] + spaced(t.skip(1))
    }
}

/// A text stands in a document, opening brackets spaced.
pub open spec fn carries(doc: Seq<char>, t: Seq<char>) -> bool {
    exists|a: Seq<char>, c: Seq<char>| doc == #[trigger] (a + spaced(t) + c)
}

/// A document that says that it was cut, and is as long as it may be: within a
/// character of the limit.
pub open spec fn is_cut(doc: Seq<char>, b: Budget) -> bool {
    &&& ends_with(doc, "\n\n*[contenido truncado por presupuesto]*\n"@)
    &&& utf8_len(doc) + 3 >= b.max_document_bytes
}

/// A text stands in a document, or the document was cut.
pub open spec fn carries_or_cut(doc: Seq<char>, t: Seq<char>, b: Budget) -> bool {
    carries(doc, t) || is_cut(doc, b)
}

spec fn gap(a: Seq<char>, c: Seq<char>) -> Seq<char> {
    if a.len() > 0 && c.len() > 0 && a.last() == '[' && c[0] == '[' {
        seq![' ']
    } else {
        Seq::empty()
    }
}

proof fn lemma_spaced_concat(a: Seq<char>, c: Seq<char>)
    ensures
        spaced(a + c) == spaced(a) + gap(a, c) + spaced(c),
    decreases a.len(),
{
    let s = a + c;
    if a.len() == 0 {
        assert(s =~= c);
        assert(spaced(a) + gap(a, c) + spaced(c) =~= spaced(c));
    } else {
        assert(s.skip(1) =~= a.skip(1) + c);
        lemma_spaced_concat(a.skip(1), c);
        assert(s[0] == a[0]);
        if a.len() > 1 {
            assert(s[1] == a[1]);
            assert(a.skip(1).last() == a.last());
            assert(gap(a.skip(1), c) == gap(a, c));
            assert(spaced(s) =~= spaced(a) + gap(a, c) + spaced(c));
        } else {
            assert(a.skip(1) =~= Seq::<char>::empty());
            assert(spaced(a.skip(1)) =~= Seq::<char>::empty());
            assert(gap(a.skip(1), c) =~= Seq::<char>::empty());
            assert(spaced(a) =~= seq![a[0]]);
            if c.len() > 0 {
                assert(s[1] == c[0]);
            }
            assert(spaced(s) =~= spaced(a) + gap(a, c) + spaced(c));
        }
    }
}

proof fn lemma_unlinked(s: Seq<char>, n: int)
    requires
        0 <= n <= s.len(),
    ensures
        unlinked(s, n) == spaced(s.take(n)),
    decreases n,
{
    if n == 0 {
        assert(s.take(0) =~= Seq::<char>::empty());
    } else {
        lemma_unlinked(s, n - 1);
        let a = s.take(n - 1);
        let c = seq![s[n - 1]];
        assert(s.take(n) =~= a + c);
        lemma_spaced_concat(a, c);
        assert(c.skip(1) =~= Seq::<char>::empty());
        assert(spaced(c.skip(1)) =~= Seq::<char>::empty());
        assert(spaced(c) =~= c);
        if n >= 2 {
            assert(a.last() == s[n - 2]);
        }
        assert(unlinked(s, n) =~= spaced(a) + gap(a, c) + spaced(c));
    }
}

/// A part of a text is there, spaced, once the whole text is spaced.
proof fn lemma_spaced_part(a: Seq<char>, t: Seq<char>, c: Seq<char>) -> (r: (Seq<char>, Seq<char>))
    ensures
        spaced(a + t + c) == r.0 + spaced(t) + r.1,
{
    lemma_spaced_concat(a + t, c);
    lemma_spaced_concat(a, t);
    let x = spaced(a) + gap(a, t);
    let y = gap(a + t, c) + spaced(c);
    assert(spaced(a + t + c) =~= x + spaced(t) + y);
    (x, y)
}

proof fn lemma_trim_start_keeps(a: Seq<char>, t: Seq<char>, c: Seq<char>) -> (r: Seq<char>)
    requires
        is_tight(t),
    ensures
        trim_start(a + t + c) == r + t + c,
    decreases a.len(),
{
    let s = a + t + c;
    if a.len() > 0 && is_white(a[0]) {
        assert(s.skip(1) =~= a.skip(1) + t + c);
        assert(s[0] == a[0]);
        lemma_trim_start_keeps(a.skip(1), t, c)
    } else {
        if a.len() == 0 {
            assert(s[0] == t[0]);
        } else {
            assert(s[0] == a[0]);
        }
        a
    }
}

proof fn lemma_trim_end_keeps(a: Seq<char>, t: Seq<char>, c: Seq<char>) -> (r: Seq<char>)
    requires
        is_tight(t),
    ensures
        trim_end(a + t + c) == a + t + r,
    decreases c.len(),
{
    let s = a + t + c;
    if c.len() > 0 && is_white(c.last()) {
        assert(s.drop_last() =~= a + t + c.drop_last());
        assert(s.last() == c.last());
        lemma_trim_end_keeps(a, t, c.drop_last())
    } else {
        if c.len() == 0 {
            assert(s.last() == t.last());
        } else {
            assert(s.last() == c.last());
        }
        c
    }
}

/// A part that neither starts nor ends with white space is not trimmed away.
proof fn lemma_trim_keeps(a: Seq<char>, t: Seq<char>, c: Seq<char>) -> (r: (Seq<char>, Seq<char>))
    requires
        is_tight(t),
    ensures
        trim(a + t + c) == r.0 + t + r.1,
{
    let x = lemma_trim_start_keeps(a, t, c);
    let y = lemma_trim_end_keeps(x, t, c);
    (x, y)
}

proof fn lemma_fitting_fills(s: Seq<char>, max: nat)
    requires
        utf8_len(s) > max,
    ensures
        utf8_len(fitting(s, max)) + 3 >= max,
    decreases s.len(),
{
    if s.len() == 0 {
        assert(s =~= Seq::<char>::empty());
        lemma_utf8_len_concat(s, s);
        assert(s + s =~= s);
    } else {
        let d = s.drop_last();
        lemma_utf8_len_push(d, s.last());
        assert(d.push(s.last()) =~= s);
        if utf8_len(d) > max {
            lemma_fitting_fills(d, max);
        } else {
            assert(fitting(d, max) == d);
        }
    }
}

/// The document that wraps a body holds each part of it, unless it is cut.
proof fn lemma_wrapped_carries(
    title: Seq<char>,
    source: Seq<char>,
    tag: Seq<char>,
    body: Seq<char>,
    b: Budget,
    license: Option<Seq<char>>,
    a: Seq<char>,
    t: Seq<char>,
    c: Seq<char>,
)
    requires
        trim(body) == a + t + c,
    ensures
        carries_or_cut(wrapped_text(title, source, tag, body, b, license), t, b),
{
    let doc = wrapped_text(title, source, tag, body, b, license);
    let header = wrap_header(title, source, tag, license);
    let s = trim(body);
    let u = unlinked(s, s.len() as int);
    lemma_unlinked(s, s.len() as int);
    assert(s.take(s.len() as int) =~= s);
    let over = utf8_len(header) + utf8_len(cut_mark()) + 1;
    let room = monus(b.max_document_bytes as nat, over);
    lemma_newline();
    if utf8_len(u) > room {
        let f = fitting(u, room);
        lemma_fitting_fills(u, room);
        assert(doc == header + (f + cut_mark()) + "\n"@);
        lemma_utf8_len_concat(f, cut_mark());
        lemma_utf8_len_concat(header, f + cut_mark());
        lemma_utf8_len_concat(header + (f + cut_mark()), "\n"@);
        assert(utf8_len(doc) == over + utf8_len(f));
        let end = "\n\n*[contenido truncado por presupuesto]*\n"@;
        lemma_mark();
        assert(doc =~= (header + f) + end);
        assert(doc.subrange(doc.len() - end.len(), doc.len() as int) =~= end);
    } else {
        let (x, y) = lemma_spaced_part(a, t, c);
        assert(doc =~= (header + x) + spaced(t) + (y + "\n"@));
    }
}

proof fn lemma_newline()
    ensures
        utf8_len("\n"@) == 1,
{
    reveal_strlit("\n");
    crate::text::lemma_utf8_len_one('\n');
    assert("\n"@ =~= seq!['\n']);
}

proof fn lemma_mark()
    ensures
        "\n\n*[contenido truncado por presupuesto]*\n"@ == cut_mark() + "\n"@,
{
    reveal_strlit("\n");
    reveal_strlit("\n\n*[contenido truncado por presupuesto]*\n");
    reveal_strlit("\n\n*[contenido truncado por presupuesto]*");
    assert("\n\n*[contenido truncado por presupuesto]*\n"@ =~= cut_mark() + "\n"@);
}

// ---------------------------------------------------------------------
// From a draft to a plan
// ---------------------------------------------------------------------

proof fn lemma_sorted_in_holds<T: Ranked>(s: Seq<T::V>, e: T::V, x: T::V)
    ensures
        sorted_in::<T>(s, e).contains(x) <==> s.contains(x) || x == e,
    decreases s.len(),
{
    let t = sorted_in::<T>(s, e);
    if s.len() == 0 || T::goes_before(e, s[0]) {
        assert(t == seq![e] + s);
        if t.contains(x) {
            let k = choose|k: int| 0 <= k < t.len() && t[k] == x;
            if k > 0 {
                assert(s[k - 1] == x);
            }
        }
        if s.contains(x) {
            let k = choose|k: int| 0 <= k < s.len() && s[k] == x;
            assert(t[k + 1] == x);
        }
        assert(t[0] == e);
    } else {
        let u = sorted_in::<T>(s.skip(1), e);
        lemma_sorted_in_holds::<T>(s.skip(1), e, x);
        lemma_sorted_in_holds::<T>(s.skip(1), e, e);
        assert(t == seq![s[0]] + u);
        if t.contains(x) {
            let k = choose|k: int| 0 <= k < t.len() && t[k] == x;
            if k == 0 {
                assert(s[0] == x);
            } else {
                assert(u[k - 1] == x);
                assert(u.contains(x));
                if s.skip(1).contains(x) {
                    let j = choose|j: int| 0 <= j < s.skip(1).len() && s.skip(1)[j] == x;
                    assert(s[j + 1] == x);
                }
            }
        }
        if s.contains(x) {
            let k = choose|k: int| 0 <= k < s.len() && s[k] == x;
            if k == 0 {
                assert(t[0] == x);
            } else {
                assert(s.skip(1)[k - 1] == x);
                let j = choose|j: int| 0 <= j < u.len() && u[j] == x;
                assert(t[j + 1] == x);
            }
        }
        if x == e {
            let j = choose|j: int| 0 <= j < u.len() && u[j] == x;
            assert(t[j + 1] == x);
        }
    }
}

proof fn lemma_sorted_to_holds<T: Ranked>(s: Seq<T::V>, n: int, x: T::V)
    requires
        0 <= n <= s.len(),
    ensures
        sorted_to::<T>(s, n).contains(x) <==> s.take(n).contains(x),
    decreases n,
{
    if n > 0 {
        lemma_sorted_to_holds::<T>(s, n - 1, x);
        lemma_sorted_in_holds::<T>(sorted_to::<T>(s, n - 1), s[n - 1], x);
        assert(s.take(n) =~= s.take(n - 1).push(s[n - 1]));
        crate::reason::lemma_push_contains(s.take(n - 1), s[n - 1], x);
    } else {
        assert(s.take(0) =~= Seq::empty());
    }
}

/// Sorting loses nothing and adds nothing.
proof fn lemma_in_order_holds<T: Ranked>(s: Seq<T::V>, x: T::V)
    ensures
        in_order::<T>(s).contains(x) <==> s.contains(x),
{
    lemma_sorted_to_holds::<T>(s, s.len() as int, x);
    assert(s.take(s.len() as int) =~= s);
}

proof fn lemma_unique_from(units: Seq<UnitModel>, n: int)
    requires
        0 <= n <= units.len(),
    ensures
        forall|x: UnitModel| #[trigger]
            unique_to(units, n).contains(x) ==> units.contains(x),
        forall|k: int| 0 <= k < n ==> has_unit(
            unique_to(units, n),
            (#[trigger] units[k]).concept_id,
        ),
    decreases n,
{
    if n > 0 {
        lemma_unique_from(units, n - 1);
        let u = unique_to(units, n - 1);
        let t = unique_to(units, n);
        let e = units[n - 1];
        assert forall|x: UnitModel| #[trigger] t.contains(x) implies units.contains(x) by {
            if !has_unit(u, e.concept_id) {
                crate::reason::lemma_push_contains(u, e, x);
            }
        }
        assert forall|k: int| 0 <= k < n implies has_unit(
            t,
            (#[trigger] units[k]).concept_id,
        ) by {
            if has_unit(u, e.concept_id) {
            } else {
                if k == n - 1 {
                    assert(t[u.len() as int] == e);
                } else {
                    let i = choose|i: int|
                        0 <= i < u.len() && (#[trigger] u[i]).concept_id == units[k].concept_id;
                    assert(t[i] == u[i]);
                }
            }
        }
    }
}

/// Something is named among what was skipped.
pub open spec fn is_skipped(p: PlanModel, what: Seq<char>) -> bool {
    exists|i: int| 0 <= i < p.skipped.len() && (#[trigger] p.skipped[i]).0 == what
}

/// A plan has the units that were drafted, and of each one its id or a reason
/// why not.
proof fn lemma_planned(files: Seq<FileModel>, requested: SkillFormat, s: Setting)
    requires
        planned(files, requested, s) is Ok,
    ensures
        ({
            let p = planned(files, requested, s)->Ok_0;
            let d = drafted(p.format, s, files);
            &&& p.format == resolved(requested, files, s.budget)
            &&& forall|i: int| 0 <= i < p.units.len() ==> d.units.contains(#[trigger] p.units[i])
            &&& forall|k: int|
                0 <= k < d.units.len() ==> has_unit(p.units, (#[trigger] d.units[k]).concept_id)
                    || is_skipped(p, d.units[k].concept_id)
            &&& forall|k: int|
                0 <= k < d.skipped.len() ==> is_skipped(p, (#[trigger] d.skipped[k]).0)
        }),
{
    let p = planned(files, requested, s)->Ok_0;
    let d = drafted(p.format, s, files);
    let sorted = in_order::<PlannedUnit>(d.units);
    let n = sorted.len() as int;
    let unique = unique_to(sorted, n);
    let max = s.budget.max_bulk_commits as nat;
    lemma_unique_from(sorted, n);
    assert forall|i: int| 0 <= i < p.units.len() implies d.units.contains(
        #[trigger] p.units[i],
    ) by {
        assert(unique[i] == p.units[i]);
        assert(unique.contains(unique[i]));
        assert(sorted.contains(p.units[i]));
        lemma_in_order_holds::<PlannedUnit>(d.units, p.units[i]);
    }
    let first = d.skipped + repeated_to(sorted, n);
    assert(p.skipped == first + over_limit(unique, max));
    assert forall|k: int| 0 <= k < d.skipped.len() implies is_skipped(
        p,
        (#[trigger] d.skipped[k]).0,
    ) by {
        assert(p.skipped[k] == d.skipped[k]);
    }
    assert forall|k: int| 0 <= k < d.units.len() implies has_unit(
        p.units,
        (#[trigger] d.units[k]).concept_id,
    ) || is_skipped(p, d.units[k].concept_id) by {
        let id = d.units[k].concept_id;
        lemma_in_order_holds::<PlannedUnit>(d.units, d.units[k]);
        assert(d.units.contains(d.units[k]));
        let j = choose|j: int| 0 <= j < n && sorted[j] == d.units[k];
        assert(has_unit(unique, sorted[j].concept_id));
        let i = choose|i: int| 0 <= i < unique.len() && (#[trigger] unique[i]).concept_id == id;
        if i < p.units.len() {
            assert(p.units[i] == unique[i]);
        } else {
            let m = i - max;
            assert(over_limit(unique, max)[m].0 == id);
            assert(p.skipped[first.len() + m] == over_limit(unique, max)[m]);
        }
    }
}

// ---------------------------------------------------------------------
// One file, one unit
// ---------------------------------------------------------------------

/// A path with one of the endings of a component, under `components/ui/`.
pub open spec fn names_component(path: Seq<char>) -> bool {
    &&& holds(path, "components/ui/"@)
    &&& ends_with(path, ".tsx"@) || ends_with(path, ".ts"@) || ends_with(path, ".jsx"@)
        || ends_with(path, ".js"@)
}

/// A path with one of the endings of Markdown.
pub open spec fn names_markdown(path: Seq<char>) -> bool {
    ends_with(path, ".md"@) || ends_with(path, ".markdown"@) || ends_with(path, ".mdx"@)
}

/// The content of a component file in a code block.
pub open spec fn fenced(f: FileModel) -> Seq<char> {
    if ends_with(f.path, ".tsx"@) || ends_with(f.path, ".ts"@) {
        "```tsx\n"@ + trim_end(f.content) + "\n```"@
    } else {
        "```jsx\n"@ + trim_end(f.content) + "\n```"@
    }
}

/// A document that starts by saying what it is, its title, where it comes from
/// and under which license.
pub open spec fn is_credited(doc: Seq<char>, title: Seq<char>, s: Setting) -> bool {
    starts_with(
        doc,
        "---\ntype: skill\ntitle: "@ + clean_scalar(title) + "\ntags:\n  - skill\n  - "@ + slug(
            "verbatim-import"@,
        ) + "\nsource: "@ + clean_scalar(s.source) + "\n"@ + (match s.license {
            Some(l) => "license: "@ + clean_scalar(l) + "\n"@,
            None => Seq::empty(),
        }) + "---\n\n"@,
    )
}

proof fn lemma_credited(title: Seq<char>, s: Setting, body: Seq<char>)
    ensures
        is_credited(
            wrapped_text(title, s.source, "verbatim-import"@, body, s.budget, s.license),
            title,
            s,
        ),
{
    let doc = wrapped_text(title, s.source, "verbatim-import"@, body, s.budget, s.license);
    let header = wrap_header(title, s.source, "verbatim-import"@, s.license);
    assert(doc.subrange(0, header.len() as int) =~= header);
}

/// A unit that stands for a component file.
pub open spec fn is_of_component(u: UnitModel, s: Setting, f: FileModel) -> bool {
    &&& names_component(f.path)
    &&& u.concept_id == s.prefix + "/"@ + slug(stem(f.path))
    &&& u.title == "Componente "@ + stem(f.path)
    &&& u.action is Convert
    &&& is_credited(unit_text(u), u.title, s)
    &&& carries_or_cut(unit_text(u), fenced(f), s.budget)
}

/// A unit whose document is a file as it is.
pub open spec fn is_verbatim(u: UnitModel, s: Setting, f: FileModel) -> bool {
    &&& names_markdown(f.path)
    &&& parsed(f.content, s.budget) is Ok
    &&& u.concept_id == s.prefix + "/"@ + path_slug(f.path)
    &&& u.action == ActionModel::Commit { markdown: f.content }
}

/// A unit whose document wraps the body of a file.
pub open spec fn is_of_body(u: UnitModel, s: Setting, f: FileModel) -> bool {
    &&& names_markdown(f.path)
    &&& u.concept_id == s.prefix + "/"@ + path_slug(f.path)
    &&& is_credited(unit_text(u), u.title, s)
    &&& carries_or_cut(unit_text(u), trim(bare_body(f.content)), s.budget)
}

/// A unit of a format that goes file by file stands for a file.
pub open spec fn stands_for(format: ResolvedFormat, u: UnitModel, s: Setting, f: FileModel) -> bool {
    match format {
        ResolvedFormat::Shadcn => is_of_component(u, s, f),
        ResolvedFormat::Okf => is_verbatim(u, s, f),
        ResolvedFormat::Raw => if parsed(f.content, s.budget) is Ok {
            is_verbatim(u, s, f)
        } else {
            is_of_body(u, s, f) && u.action is Commit
        },
        ResolvedFormat::Generic => is_of_body(u, s, f) && u.action is Convert,
        ResolvedFormat::AgenticSkills => false,
    }
}

/// Whether a file is one that a format makes a unit of.
pub open spec fn is_taken(format: ResolvedFormat, f: FileModel) -> bool {
    match format {
        ResolvedFormat::Shadcn => names_component(f.path),
        ResolvedFormat::AgenticSkills => false,
        _ => names_markdown(f.path),
    }
}

/// The id of the unit that a format makes of a file.
pub open spec fn taken_id(format: ResolvedFormat, s: Setting, f: FileModel) -> Seq<char> {
    match format {
        ResolvedFormat::Shadcn => s.prefix + "/"@ + slug(stem(f.path)),
        _ => s.prefix + "/"@ + path_slug(f.path),
    }
}

spec fn draft_to(format: ResolvedFormat, s: Setting, files: Seq<FileModel>, n: int) -> Draft {
    let none = Draft { units: Seq::empty(), skipped: Seq::empty() };
    match format {
        ResolvedFormat::Shadcn => shadcn_to(none, s, files, n),
        ResolvedFormat::Okf => okf_to(none, s, files, n),
        ResolvedFormat::Raw => raw_to(none, s, files, n),
        ResolvedFormat::Generic => generic_to(none, s, files, n),
        ResolvedFormat::AgenticSkills => none,
    }
}

/// A draft names an id, as a unit or as skipped, or the path of its file.
spec fn is_dealt(d: Draft, id: Seq<char>, path: Seq<char>) -> bool {
    ||| has_unit(d.units, id)
    ||| exists|i: int|
        0 <= i < d.skipped.len() && ((#[trigger] d.skipped[i]).0 == id || d.skipped[i].0 == path)
}

/// A draft that goes on from another keeps what it has.
spec fn goes_on(d: Draft, e: Draft) -> bool {
    &&& d.units.len() <= e.units.len()
    &&& d.skipped.len() <= e.skipped.len()
    &&& forall|i: int| 0 <= i < d.units.len() ==> e.units[i] == #[trigger] d.units[i]
    &&& forall|i: int| 0 <= i < d.skipped.len() ==> e.skipped[i] == #[trigger] d.skipped[i]
}

proof fn lemma_dealt_stays(d: Draft, e: Draft, id: Seq<char>, path: Seq<char>)
    requires
        goes_on(d, e),
        is_dealt(d, id, path),
    ensures
        is_dealt(e, id, path),
{
    if has_unit(d.units, id) {
        let i = choose|i: int| 0 <= i < d.units.len() && (#[trigger] d.units[i]).concept_id == id;
        assert(e.units[i] == d.units[i]);
    } else {
        let i = choose|i: int|
            0 <= i < d.skipped.len() && ((#[trigger] d.skipped[i]).0 == id || d.skipped[i].0
                == path);
        assert(e.skipped[i] == d.skipped[i]);
    }
}

proof fn lemma_verbatim_step(
    d: Draft,
    s: Setting,
    name: Seq<char>,
    title: Seq<char>,
    content: Seq<char>,
    path: Seq<char>,
)
    ensures
        ({
            let e = with_verbatim(d, s, name, title, content);
            let id = s.prefix + "/"@ + name;
            &&& goes_on(d, e)
            &&& is_dealt(e, id, path)
            &&& e.units.len() <= d.units.len() + 1
            &&& e.units.len() > d.units.len() ==> e.units.last().concept_id == id
                && e.units.last().action == ActionModel::Commit { markdown: content }
        }),
{
    let e = with_verbatim(d, s, name, title, content);
    if e.units.len() > d.units.len() {
        assert(e.units[d.units.len() as int] == e.units.last());
    } else {
        assert(e.skipped[d.skipped.len() as int].0 == full_id(s, name));
    }
}

proof fn lemma_wrapped_step(
    d: Draft,
    s: Setting,
    name: Seq<char>,
    title: Seq<char>,
    body: Seq<char>,
    label: Seq<char>,
    commit: bool,
)
    ensures
        ({
            let e = with_wrapped(d, s, name, title, body, label, commit);
            let id = s.prefix + "/"@ + name;
            &&& goes_on(d, e)
            &&& is_dealt(e, id, label)
            &&& e.units.len() <= d.units.len() + 1
            &&& e.units.len() > d.units.len() ==> {
                let u = e.units.last();
                &&& u.concept_id == id
                &&& u.title == title
                &&& u.action is Commit == commit
                &&& unit_text(u) == wrapped_text(
                    title,
                    s.source,
                    "verbatim-import"@,
                    body,
                    s.budget,
                    s.license,
                )
            }
        }),
{
    let e = with_wrapped(d, s, name, title, body, label, commit);
    if e.units.len() > d.units.len() {
        assert(e.units[d.units.len() as int] == e.units.last());
    } else {
        assert(e.skipped[d.skipped.len() as int].0 == full_id(s, name)
            || e.skipped[d.skipped.len() as int].0 == label);
    }
}

proof fn lemma_fenced(f: FileModel)
    ensures
        is_tight(fenced(f)),
        code_block(f.path, f.content) == fenced(f),
        trim(fenced(f)) == fenced(f),
{
    reveal_strlit("```tsx\n");
    reveal_strlit("```jsx\n");
    reveal_strlit("\n```");
    let t = fenced(f);
    assert(t[0] == '`');
    assert(t.last() == '`');
    lemma_tight(t);
}

proof fn lemma_body_carried(
    title: Seq<char>,
    s: Setting,
    body: Seq<char>,
)
    ensures
        carries_or_cut(
            wrapped_text(title, s.source, "verbatim-import"@, body, s.budget, s.license),
            trim(body),
            s.budget,
        ),
{
    let t = trim(body);
    let none = Seq::<char>::empty();
    assert(t =~= none + t + none);
    lemma_wrapped_carries(
        title,
        s.source,
        "verbatim-import"@,
        body,
        s.budget,
        s.license,
        none,
        t,
        none,
    );
}

/// One more file.
proof fn lemma_step(format: ResolvedFormat, s: Setting, files: Seq<FileModel>, n: int)
    requires
        0 < n <= files.len(),
        !(format is AgenticSkills),
    ensures
        ({
            let d = draft_to(format, s, files, n - 1);
            let e = draft_to(format, s, files, n);
            let f = files[n - 1];
            &&& goes_on(d, e)
            &&& e.units.len() <= d.units.len() + 1
            &&& e.units.len() > d.units.len() ==> stands_for(format, e.units.last(), s, f)
            &&& is_taken(format, f) ==> is_dealt(e, taken_id(format, s, f), f.path)
        }),
{
    let d = draft_to(format, s, files, n - 1);
    let f = files[n - 1];
    match format {
        ResolvedFormat::Shadcn => {
            if is_component(f.path) {
                let title = "Componente "@ + stem(f.path);
                lemma_wrapped_step(
                    d,
                    s,
                    slug(stem(f.path)),
                    title,
                    code_block(f.path, f.content),
                    f.path,
                    false,
                );
                lemma_fenced(f);
                lemma_credited(title, s, fenced(f));
                lemma_body_carried(title, s, fenced(f));
            }
        },
        ResolvedFormat::Okf => {
            if is_markdown(f.path) {
                match parsed(f.content, s.budget) {
                    Err(_) => {
                        let e = draft_to(format, s, files, n);
                        assert(e.skipped[d.skipped.len() as int].0 == f.path);
                    },
                    Ok(doc) => {
                        let title = match doc.title {
                            Some(t) => t,
                            None => stem(f.path),
                        };
                        lemma_verbatim_step(d, s, path_slug(f.path), title, f.content, f.path);
                    },
                }
            }
        },
        ResolvedFormat::Raw => {
            if is_markdown(f.path) {
                if parsed(f.content, s.budget) is Ok {
                    lemma_verbatim_step(
                        d,
                        s,
                        path_slug(f.path),
                        stem(f.path),
                        f.content,
                        f.path,
                    );
                } else {
                    let title = crate::plan::raw_title(f);
                    lemma_wrapped_step(
                        d,
                        s,
                        path_slug(f.path),
                        title,
                        bare_body(f.content),
                        f.path,
                        true,
                    );
                    lemma_credited(title, s, bare_body(f.content));
                    lemma_body_carried(title, s, bare_body(f.content));
                }
            }
        },
        ResolvedFormat::Generic => {
            if is_markdown(f.path) {
                let title = crate::plan::generic_title(f);
                lemma_wrapped_step(
                    d,
                    s,
                    path_slug(f.path),
                    title,
                    bare_body(f.content),
                    f.path,
                    false,
                );
                lemma_credited(title, s, bare_body(f.content));
                lemma_body_carried(title, s, bare_body(f.content));
            }
        },
        ResolvedFormat::AgenticSkills => {},
    }
}

/// A unit among the first files of a format stands for one of them.
spec fn has_file(format: ResolvedFormat, u: UnitModel, s: Setting, files: Seq<FileModel>, n: int) -> bool {
    exists|k: int| 0 <= k < n && stands_for(format, u, s, #[trigger] files[k])
}

proof fn lemma_files_drafted(format: ResolvedFormat, s: Setting, files: Seq<FileModel>, n: int)
    requires
        0 <= n <= files.len(),
        !(format is AgenticSkills),
    ensures
        ({
            let d = draft_to(format, s, files, n);
            &&& forall|i: int|
                0 <= i < d.units.len() ==> has_file(format, #[trigger] d.units[i], s, files, n)
            &&& forall|k: int|
                0 <= k < n && is_taken(format, #[trigger] files[k]) ==> is_dealt(
                    d,
                    taken_id(format, s, files[k]),
                    files[k].path,
                )
        }),
    decreases n,
{
    if n > 0 {
        lemma_files_drafted(format, s, files, n - 1);
        lemma_step(format, s, files, n);
        let d = draft_to(format, s, files, n - 1);
        let e = draft_to(format, s, files, n);
        assert forall|i: int| 0 <= i < e.units.len() implies has_file(
            format,
            #[trigger] e.units[i],
            s,
            files,
            n,
        ) by {
            if i < d.units.len() {
                assert(e.units[i] == d.units[i]);
                assert(has_file(format, d.units[i], s, files, n - 1));
                let k = choose|k: int|
                    0 <= k < n - 1 && stands_for(format, d.units[i], s, #[trigger] files[k]);
                assert(stands_for(format, e.units[i], s, files[k]));
            } else {
                assert(e.units[i] == e.units.last());
                assert(stands_for(format, e.units[i], s, files[n - 1]));
            }
        }
        assert forall|k: int| 0 <= k < n && is_taken(format, #[trigger] files[k]) implies is_dealt(
            e,
            taken_id(format, s, files[k]),
            files[k].path,
        ) by {
            if k < n - 1 {
                lemma_dealt_stays(d, e, taken_id(format, s, files[k]), files[k].path);
            }
        }
    }
}

/// A plan that goes file by file.
pub open spec fn goes_by_files(p: PlanModel, files: Seq<FileModel>) -> bool {
    match p.format {
        ResolvedFormat::AgenticSkills => false,
        ResolvedFormat::Generic => exists|i: int|
            0 <= i < files.len() && names_markdown((#[trigger] files[i]).path),
        _ => true,
    }
}

/// In a plan that goes file by file, the document of every unit holds the text
/// of a file of the source: the whole of a document as it is, else what the file
/// says, opening brackets spaced, as far as the limit of a document allows.
pub proof fn law_units_hold_their_files(
    files: Seq<FileModel>,
    requested: SkillFormat,
    s: Setting,
    i: int,
)
    requires
        planned(files, requested, s) is Ok,
        goes_by_files(planned(files, requested, s)->Ok_0, files),
        0 <= i < planned(files, requested, s)->Ok_0.units.len(),
    ensures
        ({
            let p = planned(files, requested, s)->Ok_0;
            exists|k: int|
                0 <= k < files.len() && stands_for(p.format, p.units[i], s, #[trigger] files[k])
        }),
{
    let p = planned(files, requested, s)->Ok_0;
    lemma_planned(files, requested, s);
    lemma_files_drafted(p.format, s, files, files.len() as int);
    let d = drafted(p.format, s, files);
    lemma_by_files(p, s, files);
    assert(d.units.contains(p.units[i]));
    let m = choose|m: int| 0 <= m < d.units.len() && d.units[m] == p.units[i];
    assert(has_file(p.format, d.units[m], s, files, files.len() as int));
}

proof fn lemma_by_files(p: PlanModel, s: Setting, files: Seq<FileModel>)
    requires
        goes_by_files(p, files),
    ensures
        drafted(p.format, s, files) == draft_to(p.format, s, files, files.len() as int),
{
    if p.format is Generic {
        let i = choose|i: int| 0 <= i < files.len() && names_markdown((#[trigger] files[i]).path);
        assert(is_markdown(files[i].path));
    }
}

/// In a plan that goes file by file, no file that the format takes is lost:
/// there is a unit with its id, or its id or its path is named as skipped.
pub proof fn law_no_file_is_lost(
    files: Seq<FileModel>,
    requested: SkillFormat,
    s: Setting,
    k: int,
)
    requires
        planned(files, requested, s) is Ok,
        goes_by_files(planned(files, requested, s)->Ok_0, files),
        0 <= k < files.len(),
        is_taken(planned(files, requested, s)->Ok_0.format, files[k]),
    ensures
        ({
            let p = planned(files, requested, s)->Ok_0;
            let id = taken_id(p.format, s, files[k]);
            ||| has_unit(p.units, id)
            ||| is_skipped(p, id)
            ||| is_skipped(p, files[k].path)
        }),
{
    let p = planned(files, requested, s)->Ok_0;
    let id = taken_id(p.format, s, files[k]);
    lemma_planned(files, requested, s);
    lemma_files_drafted(p.format, s, files, files.len() as int);
    let d = drafted(p.format, s, files);
    lemma_by_files(p, s, files);
    assert(is_dealt(d, id, files[k].path));
    if has_unit(d.units, id) {
        let i = choose|i: int| 0 <= i < d.units.len() && (#[trigger] d.units[i]).concept_id == id;
        assert(has_unit(p.units, d.units[i].concept_id) || is_skipped(p, d.units[i].concept_id));
    } else {
        let i = choose|i: int|
            0 <= i < d.skipped.len() && ((#[trigger] d.skipped[i]).0 == id || d.skipped[i].0
                == files[k].path);
        assert(is_skipped(p, d.skipped[i].0));
    }
}

/// Where no other component file has its id, a component file whose id is kept
/// has a unit whose document holds its content in a code block, unless that
/// document was cut at the limit.
pub proof fn law_components_are_held(
    files: Seq<FileModel>,
    requested: SkillFormat,
    s: Setting,
    k: int,
    i: int,
)
    requires
        planned(files, requested, s) is Ok,
        planned(files, requested, s)->Ok_0.format is Shadcn,
        0 <= k < files.len(),
        names_component(files[k].path),
        forall|j: int|
            0 <= j < files.len() && j != k && names_component((#[trigger] files[j]).path) ==> slug(
                stem(files[j].path),
            ) != slug(stem(files[k].path)),
        0 <= i < planned(files, requested, s)->Ok_0.units.len(),
        planned(files, requested, s)->Ok_0.units[i].concept_id == s.prefix + "/"@ + slug(
            stem(files[k].path),
        ),
    ensures
        carries_or_cut(
            unit_text(planned(files, requested, s)->Ok_0.units[i]),
            fenced(files[k]),
            s.budget,
        ),
{
    let p = planned(files, requested, s)->Ok_0;
    let u = p.units[i];
    law_units_hold_their_files(files, requested, s, i);
    let j = choose|j: int|
        0 <= j < files.len() && stands_for(p.format, u, s, #[trigger] files[j]);
    let a = s.prefix + "/"@;
    let x = slug(stem(files[j].path));
    let y = slug(stem(files[k].path));
    assert((a + x).skip(a.len() as int) =~= x);
    assert((a + y).skip(a.len() as int) =~= y);
}

// ---------------------------------------------------------------------
// A source as one unit
// ---------------------------------------------------------------------

/// A file as it stands in the document of a whole source.
pub open spec fn filed(f: FileModel) -> Seq<char> {
    "### Archivo: "@ + f.path + "\n\n````\n"@ + trim_end(f.content) + "\n````"@
}

proof fn lemma_filed(f: FileModel)
    ensures
        is_tight(filed(f)),
{
    reveal_strlit("### Archivo: ");
    reveal_strlit("\n````");
    assert(filed(f)[0] == '#');
    assert(filed(f).last() == '`');
}

proof fn lemma_dump_has(files: Seq<FileModel>, n: int, k: int) -> (r: (Seq<char>, Seq<char>))
    requires
        0 <= k < n <= files.len(),
    ensures
        dump_to(files, n) == r.0 + filed(files[k]) + r.1,
    decreases n,
{
    reveal_strlit("\n````\n\n");
    reveal_strlit("\n````");
    reveal_strlit("\n\n");
    assert("\n````\n\n"@ =~= "\n````"@ + "\n\n"@);
    let d = dump_to(files, n - 1);
    assert(dump_to(files, n) =~= d + filed(files[n - 1]) + "\n\n"@);
    if k == n - 1 {
        (d, "\n\n"@)
    } else {
        let (a, c) = lemma_dump_has(files, n - 1, k);
        let e = c + filed(files[n - 1]) + "\n\n"@;
        assert(dump_to(files, n) =~= a + filed(files[k]) + e);
        (a, e)
    }
}

/// A source without Markdown that follows no convention is one unit, and its
/// document holds the path and the content of every file, unless it was cut.
pub proof fn law_whole_sources_hold_every_file(
    files: Seq<FileModel>,
    requested: SkillFormat,
    s: Setting,
    i: int,
    k: int,
)
    requires
        planned(files, requested, s) is Ok,
        planned(files, requested, s)->Ok_0.format is Generic,
        forall|j: int| 0 <= j < files.len() ==> !names_markdown((#[trigger] files[j]).path),
        0 <= i < planned(files, requested, s)->Ok_0.units.len(),
        0 <= k < files.len(),
    ensures
        i == 0,
        planned(files, requested, s)->Ok_0.units[i].concept_id == s.prefix + "/"@ + slug(
            last_segment(s.source),
        ),
        carries_or_cut(
            unit_text(planned(files, requested, s)->Ok_0.units[i]),
            filed(files[k]),
            s.budget,
        ),
        is_credited(
            unit_text(planned(files, requested, s)->Ok_0.units[i]),
            last_segment(s.source),
            s,
        ),
{
    let p = planned(files, requested, s)->Ok_0;
    let n = files.len() as int;
    lemma_planned(files, requested, s);
    let d = drafted(p.format, s, files);
    let none = Draft { units: Seq::empty(), skipped: Seq::empty() };
    assert(!some_markdown(files)) by {
        assert forall|j: int| 0 <= j < files.len() implies !is_markdown(
            (#[trigger] files[j]).path,
        ) by {
            assert(!names_markdown(files[j].path));
        }
    }
    let title = last_segment(s.source);
    let body = dump_to(files, n);
    lemma_wrapped_step(none, s, slug(title), title, body, s.source, false);
    lemma_credited(title, s, body);
    assert(d.units.contains(p.units[i]));
    assert(d.units.len() <= 1);
    assert(p.units[i] == d.units.last());
    let (a, c) = lemma_dump_has(files, n, k);
    lemma_filed(files[k]);
    let (x, y) = lemma_trim_keeps(a, filed(files[k]), c);
    lemma_wrapped_carries(
        title,
        s.source,
        "verbatim-import"@,
        body,
        s.budget,
        s.license,
        x,
        filed(files[k]),
        y,
    );
    if i > 0 {
        crate::plan::law_plans_are_sound(files, requested, s);
        assert(d.units.contains(p.units[0]));
        assert(p.units[0] == d.units.last());
        crate::table::lemma_before_irreflexive(p.units[0].concept_id);
        assert(crate::table::before(p.units[0].concept_id, p.units[i].concept_id));
    }
}

// ---------------------------------------------------------------------
// Formats
// ---------------------------------------------------------------------

/// A plan has the format that was asked for. Where none was, a `SKILL.md` makes
/// it one of skills; else a file under `components/ui/` one of components; else
/// Markdown that is all documents one of documents.
pub proof fn law_formats_are_those_asked_for(
    files: Seq<FileModel>,
    requested: SkillFormat,
    s: Setting,
)
    requires
        planned(files, requested, s) is Ok,
    ensures
        ({
            let format = planned(files, requested, s)->Ok_0.format;
            let skill = exists|i: int| 0 <= i < files.len() && names_skill((#[trigger] files[i]).path);
            let component = exists|i: int|
                0 <= i < files.len() && holds((#[trigger] files[i]).path, "components/ui/"@);
            let documents = (exists|i: int|
                0 <= i < files.len() && names_markdown((#[trigger] files[i]).path)) && forall|i: int|
                0 <= i < files.len() && names_markdown((#[trigger] files[i]).path) ==> parsed(
                    files[i].content,
                    s.budget,
                ) is Ok;
            match requested {
                SkillFormat::AgenticSkills => format is AgenticSkills,
                SkillFormat::Shadcn => format is Shadcn,
                SkillFormat::Okf => format is Okf,
                SkillFormat::Raw => format is Raw,
                SkillFormat::Auto => {
                    &&& skill ==> format is AgenticSkills
                    &&& !skill && component ==> format is Shadcn
                    &&& !skill && !component && documents ==> format is Okf
                    &&& !skill && !component && !documents ==> format is Generic
                },
            }
        }),
{
    lemma_planned(files, requested, s);
    if crate::ingest::some_skill(files) {
        let i = choose|i: int| 0 <= i < files.len() && is_skill_md((#[trigger] files[i]).path);
        assert(names_skill(files[i].path));
    }
    if crate::ingest::some_component(files) {
        let i = choose|i: int|
            0 <= i < files.len() && crate::ingest::in_components((#[trigger] files[i]).path);
        assert(holds(files[i].path, "components/ui/"@));
    }
    if some_markdown(files) {
        let i = choose|i: int| 0 <= i < files.len() && is_markdown((#[trigger] files[i]).path);
        assert(names_markdown(files[i].path));
    }
    if exists|i: int| 0 <= i < files.len() && names_markdown((#[trigger] files[i]).path) {
        let i = choose|i: int| 0 <= i < files.len() && names_markdown((#[trigger] files[i]).path);
        assert(is_markdown(files[i].path));
    }
    if exists|i: int| 0 <= i < files.len() && names_skill((#[trigger] files[i]).path) {
        let i = choose|i: int| 0 <= i < files.len() && names_skill((#[trigger] files[i]).path);
        assert(is_skill_md(files[i].path));
    }
    if exists|i: int|
        0 <= i < files.len() && holds((#[trigger] files[i]).path, "components/ui/"@) {
        let i = choose|i: int|
            0 <= i < files.len() && holds((#[trigger] files[i]).path, "components/ui/"@);
        assert(crate::ingest::in_components(files[i].path));
    }
    assert(crate::ingest::all_documents(files, s.budget) <==> forall|i: int|
        0 <= i < files.len() && names_markdown((#[trigger] files[i]).path) ==> parsed(
            files[i].content,
            s.budget,
        ) is Ok) by {
        if crate::ingest::all_documents(files, s.budget) {
            assert forall|i: int|
                0 <= i < files.len() && names_markdown(
                    (#[trigger] files[i]).path,
                ) implies parsed(files[i].content, s.budget) is Ok by {
                assert(is_markdown(files[i].path));
            }
        } else {
            let i = choose|i: int|
                0 <= i < files.len() && is_markdown((#[trigger] files[i]).path) && !(parsed(
                    files[i].content,
                    s.budget,
                ) is Ok);
            assert(names_markdown(files[i].path));
        }
    }
}

/// A path that ends in a segment `SKILL.md`.
pub open spec fn names_skill(path: Seq<char>) -> bool {
    path == "SKILL.md"@ || ends_with(path, "/SKILL.md"@)
}

// ---------------------------------------------------------------------
// Bodies
// ---------------------------------------------------------------------

/// What a file says beside its frontmatter: all of it, where it does not start
/// with a line `---`; else a part up to the end of it.
pub proof fn law_bodies_are_what_follows(content: Seq<char>)
    ensures
        !starts_with(content, "---\n"@) && !starts_with(content, "---\r\n"@) ==> bare_body(content)
            == content,
        exists|k: int| 0 <= k <= content.len() && #[trigger] content.skip(k) == bare_body(content),
{
    reveal_strlit("---");
    reveal_strlit("\n");
    reveal_strlit("\r\n");
    reveal_strlit("---\n");
    reveal_strlit("---\r\n");
    assert(content.skip(0) =~= content);
    match after_open(content) {
        None => {},
        Some(rest) => {
            let t = content.skip(3);
            assert(content.take(3) =~= "---"@);
            if starts_with(t, "\r\n"@) {
                assert(rest =~= content.skip(5));
                assert(content.subrange(0, 5) =~= "---\r\n"@) by {
                    assert(t.subrange(0, 2) =~= "\r\n"@);
                    assert(t[0] == content[3] && t[1] == content[4]);
                    assert(t.subrange(0, 2)[0] == '\r' && t.subrange(0, 2)[1] == '\n');
                    assert(content.subrange(0, 3)[0] == '-');
                    assert(content.subrange(0, 3)[1] == '-');
                    assert(content.subrange(0, 3)[2] == '-');
                }
            } else {
                assert(rest =~= content.skip(4));
                assert(content.subrange(0, 4) =~= "---\n"@) by {
                    assert(t.subrange(0, 1) =~= "\n"@);
                    assert(t[0] == content[3]);
                    assert(t.subrange(0, 1)[0] == '\n');
                    assert(content.subrange(0, 3)[0] == '-');
                    assert(content.subrange(0, 3)[1] == '-');
                    assert(content.subrange(0, 3)[2] == '-');
                }
            }
            match close_end(rest, 0) {
                None => {},
                Some(e) => {
                    lemma_close_end(rest, 0);
                    let k = content.len() - rest.len() + e;
                    assert(rest.skip(e) =~= content.skip(k));
                },
            }
        },
    }
}

proof fn lemma_close_end(t: Seq<char>, i: int)
    requires
        0 <= i,
    ensures
        close_end(t, i) matches Some(e) ==> i < e <= t.len(),
    decreases t.len() - i,
{
    let e = crate::okf::line_end(t, i);
    if i < e <= t.len() {
        lemma_close_end(t, e);
    }
}

/// From `i` up to `e` there is one line of a text, with the end of it.
pub open spec fn is_line(t: Seq<char>, i: int, e: int) -> bool {
    &&& 0 <= i < e <= t.len()
    &&& i == 0 || t[i - 1] == '\n'
    &&& t[e - 1] == '\n'
    &&& forall|j: int| i <= j < e - 1 ==> #[trigger] t[j] != '\n'
}

proof fn lemma_skips_lines(t: Seq<char>, n: int, i: int)
    requires
        0 <= i <= n <= t.len(),
        n == 0 || t[n - 1] == '\n',
        i == 0 || t[i - 1] == '\n',
        forall|j: int, e: int|
            e <= n && #[trigger] is_line(t, j, e) ==> trim_eol(t.subrange(j, e)) != "---"@,
    ensures
        close_end(t, i) == close_end(t, n),
    decreases n - i,
{
    if i < n {
        let e = line_end(t, i);
        lemma_find_char_from(t, i, '\n');
        assert(t[n - 1] == '\n');
        assert(e <= n);
        assert(is_line(t, i, e));
        lemma_skips_lines(t, n, e);
    }
}

/// Where a file is a line `---`, lines that do not read `---`, another line
/// `---` and a rest, the rest is what it says.
pub proof fn law_bodies_follow_the_frontmatter(front: Seq<char>, rest: Seq<char>)
    requires
        front.len() == 0 || front.last() == '\n',
        forall|i: int, e: int| #[trigger]
            is_line(front, i, e) ==> trim_eol(front.subrange(i, e)) != "---"@,
    ensures
        bare_body("---\n"@ + front + "---\n"@ + rest) == rest,
{
    reveal_strlit("---");
    reveal_strlit("\n");
    reveal_strlit("\r\n");
    reveal_strlit("---\n");
    let content = "---\n"@ + front + "---\n"@ + rest;
    let t = front + "---\n"@ + rest;
    let n = front.len() as int;
    assert(content.subrange(0, 3) =~= "---"@);
    let u = content.skip(3);
    assert(u[0] == '\n');
    if starts_with(u, "\r\n"@) {
        assert(u.subrange(0, 2)[0] == '\r');
    }
    assert(u.subrange(0, 1) =~= "\n"@);
    assert(u.skip(1) =~= t);
    assert(after_open(content) == Some(t));
    assert forall|j: int, e: int| e <= n && #[trigger] is_line(t, j, e) implies trim_eol(
        t.subrange(j, e),
    ) != "---"@ by {
        assert(is_line(front, j, e)) by {
            assert forall|m: int| j <= m < e - 1 implies #[trigger] front[m] != '\n' by {
                assert(t[m] == front[m]);
            }
        }
        assert(t.subrange(j, e) =~= front.subrange(j, e));
    }
    if n > 0 {
        assert(t[n - 1] == front.last());
    }
    lemma_skips_lines(t, n, 0);
    let e = line_end(t, n);
    lemma_find_char_from(t, n, '\n');
    assert(t[n] == '-' && t[n + 1] == '-' && t[n + 2] == '-' && t[n + 3] == '\n');
    assert(e == n + 4);
    let line = t.subrange(n, e);
    assert(line =~= "---\n"@);
    assert(line.drop_last() =~= "---"@);
    assert("---"@.last() == '-');
    assert(trim_eol(line.drop_last()) == "---"@);
    assert(trim_eol(line) == "---"@);
    assert(t.skip(e) =~= rest);
}

// ---------------------------------------------------------------------
// Skills
// ---------------------------------------------------------------------

/// So many slashes.
pub open spec fn slashes(n: nat) -> Seq<char> {
    Seq::new(n, |i: int| '/')
}

/// A path is that of a `SKILL.md` in the directory `dir`, which is empty for the
/// root.
pub open spec fn sits_in(path: Seq<char>, dir: Seq<char>) -> bool {
    exists|n: nat|
        path == dir + #[trigger] slashes(n) + "SKILL.md"@ && (dir.len() > 0 ==> n > 0 && dir.last()
            != '/')
}

/// A path lies in a directory.
pub open spec fn lies_in(path: Seq<char>, dir: Seq<char>) -> bool {
    dir.len() == 0 || starts_with(path, dir + "/"@)
}

/// The skill in `dir` is the nearest one above a path.
pub open spec fn is_nearest(files: Seq<FileModel>, dir: Seq<char>, path: Seq<char>) -> bool {
    &&& lies_in(path, dir)
    &&& forall|m: int, other: Seq<char>|
        0 <= m < files.len() && #[trigger] sits_in(files[m].path, other) && lies_in(
            path,
            other,
        ) ==> other.len() <= dir.len()
}

/// An auxiliary file as it stands in the document of a skill.
pub open spec fn attached(f: FileModel) -> Seq<char> {
    "### `"@ + f.path + "`\n\n````\n"@ + trim_end(f.content) + "\n````"@
}

proof fn lemma_attached(f: FileModel)
    ensures
        is_tight(attached(f)),
{
    reveal_strlit("### `");
    reveal_strlit("\n````");
    assert(attached(f)[0] == '#');
    assert(attached(f).last() == '`');
}

proof fn lemma_aux_has(files: Seq<FileModel>, n: int, k: int) -> (r: (Seq<char>, Seq<char>))
    requires
        0 <= k < n <= files.len(),
        !is_skill_md(files[k].path),
    ensures
        aux_to(files, n) == r.0 + attached(files[k]) + r.1,
    decreases n,
{
    reveal_strlit("\n````\n");
    reveal_strlit("\n````");
    reveal_strlit("\n### `");
    reveal_strlit("### `");
    reveal_strlit("\n");
    assert("\n````\n"@ =~= "\n````"@ + "\n"@);
    assert("\n### `"@ =~= "\n"@ + "### `"@);
    let d = aux_to(files, n - 1);
    if is_skill_md(files[n - 1].path) {
        lemma_aux_has(files, n - 1, k)
    } else {
        assert(aux_to(files, n) =~= d + "\n"@ + attached(files[n - 1]) + "\n"@);
        if k == n - 1 {
            (d + "\n"@, "\n"@)
        } else {
            let (a, c) = lemma_aux_has(files, n - 1, k);
            let e = c + "\n"@ + attached(files[n - 1]) + "\n"@;
            assert(aux_to(files, n) =~= a + attached(files[k]) + e);
            (a, e)
        }
    }
}

/// No directory comes after one that is not as deep.
spec fn falls(s: Seq<Seq<char>>) -> bool {
    forall|i: int, j: int|
        0 <= i < j < s.len() ==> utf8_len(#[trigger] s[i]) >= utf8_len(#[trigger] s[j])
}

proof fn lemma_dirs_sorted_in(s: Seq<Seq<char>>, e: Seq<char>)
    requires
        falls(s),
    ensures
        falls(sorted_in::<Dir>(s, e)),
    decreases s.len(),
{
    let t = sorted_in::<Dir>(s, e);
    if s.len() == 0 || deeper(e, s[0]) {
        assert(t == seq![e] + s);
        assert forall|i: int, j: int| 0 <= i < j < t.len() implies utf8_len(#[trigger] t[i])
            >= utf8_len(#[trigger] t[j]) by {
            assert(t[j] == s[j - 1]);
            if i > 0 {
                assert(t[i] == s[i - 1]);
            } else if j > 1 {
                assert(utf8_len(s[0]) >= utf8_len(s[j - 1]));
            }
        }
    } else {
        let rest = s.skip(1);
        assert(falls(rest)) by {
            assert forall|i: int, j: int| 0 <= i < j < rest.len() implies utf8_len(
                #[trigger] rest[i],
            ) >= utf8_len(#[trigger] rest[j]) by {
                assert(rest[i] == s[i + 1] && rest[j] == s[j + 1]);
            }
        }
        lemma_dirs_sorted_in(rest, e);
        let u = sorted_in::<Dir>(rest, e);
        assert(t == seq![s[0]] + u);
        assert forall|i: int, j: int| 0 <= i < j < t.len() implies utf8_len(#[trigger] t[i])
            >= utf8_len(#[trigger] t[j]) by {
            assert(t[j] == u[j - 1]);
            if i > 0 {
                assert(t[i] == u[i - 1]);
            } else {
                lemma_sorted_in_holds::<Dir>(rest, e, t[j]);
                assert(u.contains(t[j]));
                if t[j] != e {
                    let m = choose|m: int| 0 <= m < rest.len() && rest[m] == t[j];
                    assert(s[m + 1] == t[j]);
                }
            }
        }
    }
}

proof fn lemma_dirs_sorted(s: Seq<Seq<char>>, n: int)
    requires
        0 <= n <= s.len(),
    ensures
        falls(sorted_to::<Dir>(s, n)),
    decreases n,
{
    if n > 0 {
        lemma_dirs_sorted(s, n - 1);
        lemma_dirs_sorted_in(sorted_to::<Dir>(s, n - 1), s[n - 1]);
    }
}

proof fn lemma_home(dirs: Seq<Seq<char>>, i: int, path: Seq<char>)
    requires
        0 <= i,
    ensures
        match home(dirs, i, path) {
            Some(d) => exists|k: int|
                i <= k < dirs.len() && #[trigger] dirs[k] == d && lies_in(path, d) && forall|j: int|
                    i <= j < k ==> !lies_in(path, #[trigger] dirs[j]),
            None => forall|j: int| i <= j < dirs.len() ==> !lies_in(path, #[trigger] dirs[j]),
        },
    decreases dirs.len() - i,
{
    if i < dirs.len() {
        if lies_in(path, dirs[i]) {
            assert(dirs[i] == dirs[i]);
        } else {
            lemma_home(dirs, i + 1, path);
            match home(dirs, i + 1, path) {
                Some(d) => {
                    let k = choose|k: int|
                        i + 1 <= k < dirs.len() && #[trigger] dirs[k] == d && lies_in(path, d)
                            && forall|j: int|
                            i + 1 <= j < k ==> !lies_in(path, #[trigger] dirs[j]);
                    assert(dirs[k] == d);
                },
                None => {},
            }
        }
    }
}

/// Of two directories that a path lies in, the one with the shorter path takes
/// fewer bytes.
proof fn lemma_depths(path: Seq<char>, a: Seq<char>, c: Seq<char>)
    requires
        lies_in(path, a),
        lies_in(path, c),
    ensures
        a.len() < c.len() ==> utf8_len(a) < utf8_len(c),
        a.len() == c.len() ==> a == c,
{
    if a.len() > 0 {
        let x = a + "/"@;
        assert(path.subrange(0, x.len() as int) == x);
        assert(a =~= x.take(a.len() as int));
        assert(a =~= path.take(a.len() as int));
    }
    if c.len() > 0 {
        let x = c + "/"@;
        assert(path.subrange(0, x.len() as int) == x);
        assert(c =~= x.take(c.len() as int));
        assert(c =~= path.take(c.len() as int));
    }
    if a.len() < c.len() {
        let r = c.skip(a.len() as int);
        if a.len() > 0 {
            assert(c.take(a.len() as int) =~= a);
        } else {
            assert(c.take(0) =~= a);
        }
        assert(c =~= a + r);
        lemma_utf8_len_concat(a, r);
        crate::text::lemma_utf8_len_at_least(r);
    }
    if a.len() == 0 && c.len() == 0 {
        assert(a =~= c);
    }
}

proof fn lemma_trim_slashes(dir: Seq<char>, n: nat)
    requires
        dir.len() > 0 ==> dir.last() != '/',
    ensures
        trim_end_char(dir + slashes(n), '/') == dir,
    decreases n,
{
    let t = dir + slashes(n);
    if n == 0 {
        assert(t =~= dir);
    } else {
        assert(t.last() == '/');
        assert(t.drop_last() =~= dir + slashes((n - 1) as nat));
        lemma_trim_slashes(dir, (n - 1) as nat);
    }
}

proof fn lemma_untrim(t: Seq<char>) -> (n: nat)
    ensures
        t == trim_end_char(t, '/') + slashes(n),
        trim_end_char(t, '/').len() > 0 ==> trim_end_char(t, '/').last() != '/',
    decreases t.len(),
{
    if t.len() > 0 && t.last() == '/' {
        let n = lemma_untrim(t.drop_last());
        let d = trim_end_char(t.drop_last(), '/');
        assert(slashes(n + 1) =~= slashes(n).push('/'));
        assert(t =~= t.drop_last().push('/'));
        assert(t =~= d + slashes(n + 1));
        n + 1
    } else {
        assert(t =~= t + slashes(0));
        0
    }
}

/// The directory of a `SKILL.md` is the one that it sits in.
proof fn lemma_skill_dir(path: Seq<char>, dir: Seq<char>)
    ensures
        sits_in(path, dir) <==> is_skill_md(path) && skill_dir(path) == dir,
{
    reveal_strlit("SKILL.md");
    reveal_strlit("/SKILL.md");
    let suffix = "SKILL.md"@;
    if sits_in(path, dir) {
        let n = choose|n: nat|
            path == dir + #[trigger] slashes(n) + "SKILL.md"@ && (dir.len() > 0 ==> n > 0
                && dir.last() != '/');
        let t = dir + slashes(n);
        lemma_trim_slashes(dir, n);
        assert(path.subrange(t.len() as int, path.len() as int) =~= suffix);
        assert(path.take(t.len() as int) =~= t);
        if n > 0 {
            assert(t.last() == '/');
            assert(path.subrange(t.len() - 1, path.len() as int) =~= "/SKILL.md"@);
        } else {
            assert(path =~= suffix);
        }
    }
    if is_skill_md(path) && skill_dir(path) == dir {
        if path == suffix {
            assert(path.subrange(0, path.len() as int) =~= suffix);
        } else {
            let k = path.len() - 9;
            assert(path.subrange(k, path.len() as int) == "/SKILL.md"@);
            assert(path.subrange(k + 1, path.len() as int) =~= suffix) by {
                assert forall|i: int| 0 <= i < 8 implies path[k + 1 + i] == suffix[i] by {
                    assert(path.subrange(k, path.len() as int)[i + 1] == "/SKILL.md"@[i + 1]);
                }
            }
            assert(path.subrange(k, path.len() as int)[0] == '/');
        }
        let t = path.take(path.len() - 8);
        assert(path =~= t + suffix);
        let n = lemma_untrim(t);
        assert(dir == trim_end_char(t, '/'));
        if dir.len() > 0 && n == 0 {
            assert(t =~= dir);
            assert(t.last() == '/');
        }
        assert(path =~= dir + slashes(n) + suffix);
    }
}

/// No directory with a `SKILL.md` is nearer to a `SKILL.md` than its own.
proof fn lemma_own_is_nearest(path: Seq<char>, dir: Seq<char>, other: Seq<char>)
    requires
        sits_in(path, dir),
        lies_in(path, other),
        other.len() > 0 ==> other.last() != '/',
    ensures
        lies_in(path, dir),
        other.len() <= dir.len(),
{
    reveal_strlit("SKILL.md");
    reveal_strlit("/");
    let n = choose|n: nat|
        path == dir + #[trigger] slashes(n) + "SKILL.md"@ && (dir.len() > 0 ==> n > 0
            && dir.last() != '/');
    if dir.len() > 0 {
        assert(path.subrange(0, dir.len() as int + 1) =~= dir + "/"@);
    }
    if other.len() > dir.len() {
        let m = other.len() as int;
        let x = other + "/"@;
        assert(path.subrange(0, m + 1) == x);
        assert(path[m] == x[m]);
        assert(path[m - 1] == x[m - 1]);
        assert(path[m] == '/');
        if m >= dir.len() + n {
            let i = m - dir.len() - n;
            assert(path[m] == "SKILL.md"@[i]);
        } else {
            assert(path[m - 1] == '/');
        }
    }
}

proof fn lemma_skill_dirs(files: Seq<FileModel>, n: int, d: Seq<char>)
    requires
        0 <= n <= files.len(),
    ensures
        skill_dirs(files, n).contains(d) <==> exists|k: int|
            0 <= k < n && is_skill_md((#[trigger] files[k]).path) && skill_dir(files[k].path) == d,
    decreases n,
{
    if n > 0 {
        lemma_skill_dirs(files, n - 1, d);
        if is_skill_md(files[n - 1].path) {
            crate::reason::lemma_push_contains(
                skill_dirs(files, n - 1),
                skill_dir(files[n - 1].path),
                d,
            );
        }
    }
}

proof fn lemma_members(
    files: Seq<FileModel>,
    n: int,
    dirs: Seq<Seq<char>>,
    dir: Seq<char>,
    f: FileModel,
)
    requires
        0 <= n <= files.len(),
    ensures
        members(files, n, dirs, dir).contains(f) <==> exists|k: int|
            0 <= k < n && #[trigger] files[k] == f && home(dirs, 0, f.path) == Some(dir),
    decreases n,
{
    if n > 0 {
        lemma_members(files, n - 1, dirs, dir, f);
        if home(dirs, 0, files[n - 1].path) == Some(dir) {
            crate::reason::lemma_push_contains(
                members(files, n - 1, dirs, dir),
                files[n - 1],
                f,
            );
        }
    }
}

spec fn dirs_of(files: Seq<FileModel>) -> Seq<Seq<char>> {
    deepest_first(skill_dirs(files, files.len() as int))
}

proof fn lemma_dirs(files: Seq<FileModel>, d: Seq<char>)
    ensures
        falls(dirs_of(files)),
        dirs_of(files).contains(d) <==> exists|k: int|
            0 <= k < files.len() && sits_in((#[trigger] files[k]).path, d),
{
    let raw = skill_dirs(files, files.len() as int);
    lemma_dirs_sorted(raw, raw.len() as int);
    lemma_in_order_holds::<Dir>(raw, d);
    lemma_skill_dirs(files, files.len() as int, d);
    if raw.contains(d) {
        let k = choose|k: int|
            0 <= k < files.len() && is_skill_md((#[trigger] files[k]).path) && skill_dir(
                files[k].path,
            ) == d;
        lemma_skill_dir(files[k].path, d);
        assert(sits_in(files[k].path, d));
    }
    if exists|k: int| 0 <= k < files.len() && sits_in((#[trigger] files[k]).path, d) {
        let k = choose|k: int| 0 <= k < files.len() && sits_in((#[trigger] files[k]).path, d);
        lemma_skill_dir(files[k].path, d);
        assert(is_skill_md(files[k].path));
    }
}

/// The nearest directory is the home of a file.
proof fn lemma_nearest_is_home(files: Seq<FileModel>, dir: Seq<char>, path: Seq<char>)
    requires
        dirs_of(files).contains(dir),
        is_nearest(files, dir, path),
    ensures
        home(dirs_of(files), 0, path) == Some(dir),
{
    let dirs = dirs_of(files);
    lemma_dirs(files, dir);
    lemma_home(dirs, 0, path);
    let i = choose|i: int| 0 <= i < dirs.len() && dirs[i] == dir;
    assert(lies_in(path, dirs[i]));
    let h = home(dirs, 0, path)->0;
    let k = choose|k: int|
        0 <= k < dirs.len() && #[trigger] dirs[k] == h && lies_in(path, h) && forall|j: int|
            0 <= j < k ==> !lies_in(path, #[trigger] dirs[j]);
    assert(k <= i);
    assert(dirs.contains(h));
    lemma_dirs(files, h);
    let m = choose|m: int| 0 <= m < files.len() && sits_in((#[trigger] files[m]).path, h);
    assert(h.len() <= dir.len());
    lemma_depths(path, h, dir);
    if k < i {
        assert(utf8_len(dirs[k]) >= utf8_len(dirs[i]));
    }
}

/// A `SKILL.md` has its home where it sits.
proof fn lemma_skill_home(files: Seq<FileModel>, dir: Seq<char>, path: Seq<char>)
    requires
        is_skill_md(path),
        exists|k: int| 0 <= k < files.len() && (#[trigger] files[k]).path == path,
        home(dirs_of(files), 0, path) == Some(dir),
    ensures
        sits_in(path, dir),
{
    let own = skill_dir(path);
    let k = choose|k: int| 0 <= k < files.len() && (#[trigger] files[k]).path == path;
    lemma_skill_dir(path, own);
    assert(sits_in(files[k].path, own));
    lemma_dirs(files, own);
    lemma_own_is_nearest(path, own, Seq::empty());
    assert forall|m: int, other: Seq<char>|
        0 <= m < files.len() && #[trigger] sits_in(files[m].path, other) && lies_in(
            path,
            other,
        ) implies other.len() <= own.len() by {
        lemma_own_is_nearest(path, own, other);
    }
    lemma_nearest_is_home(files, own, path);
}

proof fn lemma_trimmed_is_tight(s: Seq<char>)
    ensures
        trim(s).len() > 0 ==> is_tight(trim(s)),
{
    lemma_trim_start_first(s);
    lemma_trim_end_last(trim_start(s));
}

proof fn lemma_trim_start_first(s: Seq<char>)
    ensures
        trim_start(s).len() > 0 ==> !is_white(trim_start(s)[0]),
    decreases s.len(),
{
    if s.len() > 0 && is_white(s[0]) {
        lemma_trim_start_first(s.skip(1));
    }
}

proof fn lemma_trim_end_last(s: Seq<char>)
    ensures
        trim_end(s).len() > 0 ==> !is_white(trim_end(s).last()) && trim_end(s)[0] == s[0],
    decreases s.len(),
{
    if s.len() > 0 && is_white(s.last()) {
        lemma_trim_end_last(s.drop_last());
    }
}

proof fn lemma_skill_from(files: Seq<FileModel>, i: int)
    requires
        0 <= i,
    ensures
        skill_from(files, i) matches Some(f) ==> files.contains(f) && is_skill_md(f.path),
    decreases files.len() - i,
{
    if i < files.len() && !is_skill_md(files[i].path) {
        lemma_skill_from(files, i + 1);
    }
}

/// The document of a unit holds a file that belongs to the skill in `dir`.
pub open spec fn holds_own(
    u: UnitModel,
    s: Setting,
    files: Seq<FileModel>,
    dir: Seq<char>,
    f: FileModel,
) -> bool {
    !names_skill(f.path) && is_nearest(files, dir, f.path) ==> carries_or_cut(
        unit_text(u),
        attached(f),
        s.budget,
    )
}

/// A unit that stands for a `SKILL.md` and for the files that belong to it.
pub open spec fn is_of_skill(
    u: UnitModel,
    s: Setting,
    files: Seq<FileModel>,
    skill: FileModel,
    dir: Seq<char>,
) -> bool {
    &&& sits_in(skill.path, dir)
    &&& dir.len() > 0 ==> u.concept_id == s.prefix + "/"@ + slug(last_segment(dir))
    &&& u.action is Convert
    &&& is_credited(unit_text(u), u.title, s)
    &&& carries_or_cut(unit_text(u), trim(bare_body(skill.content)), s.budget)
    &&& forall|j: int| 0 <= j < files.len() ==> holds_own(u, s, files, dir, #[trigger] files[j])
}

proof fn lemma_skill_text(title: Seq<char>, s: Setting, skill: FileModel, own: Seq<FileModel>)
    ensures
        ({
            let doc = wrapped_text(
                title,
                s.source,
                "verbatim-import"@,
                skill_body(skill, own),
                s.budget,
                s.license,
            );
            &&& carries_or_cut(doc, trim(bare_body(skill.content)), s.budget)
            &&& forall|f: FileModel|
                own.contains(f) && !is_skill_md(f.path) ==> carries_or_cut(
                    doc,
                    #[trigger] attached(f),
                    s.budget,
                )
        }),
{
    let body = skill_body(skill, own);
    let t = trim(bare_body(skill.content));
    let none = Seq::<char>::empty();
    let tail = if some_aux(own) {
        "\n\n## Archivos auxiliares de la skill\n"@ + aux_to(own, own.len() as int)
    } else {
        none
    };
    let doc = wrapped_text(title, s.source, "verbatim-import"@, body, s.budget, s.license);
    assert(body =~= none + t + tail);
    lemma_trimmed_is_tight(bare_body(skill.content));
    if t.len() > 0 {
        let (x, y) = lemma_trim_keeps(none, t, tail);
        lemma_wrapped_carries(
            title,
            s.source,
            "verbatim-import"@,
            body,
            s.budget,
            s.license,
            x,
            t,
            y,
        );
    } else {
        let w = trim(body);
        assert(w =~= w + t + none);
        lemma_wrapped_carries(
            title,
            s.source,
            "verbatim-import"@,
            body,
            s.budget,
            s.license,
            w,
            t,
            none,
        );
    }
    assert forall|f: FileModel| own.contains(f) && !is_skill_md(f.path) implies carries_or_cut(
        doc,
        #[trigger] attached(f),
        s.budget,
    ) by {
        let k = choose|k: int| 0 <= k < own.len() && own[k] == f;
        assert(!is_skill_md(own[k].path));
        assert(some_aux(own));
        let (a, c) = lemma_aux_has(own, own.len() as int, k);
        let b = t + "\n\n## Archivos auxiliares de la skill\n"@ + a;
        assert(body =~= b + attached(f) + c);
        lemma_attached(f);
        let (x, y) = lemma_trim_keeps(b, attached(f), c);
        lemma_wrapped_carries(
            title,
            s.source,
            "verbatim-import"@,
            body,
            s.budget,
            s.license,
            x,
            attached(f),
            y,
        );
    }
}

/// A unit stands for some skill of the source.
spec fn has_skill(u: UnitModel, s: Setting, files: Seq<FileModel>) -> bool {
    exists|k: int, dir: Seq<char>|
        0 <= k < files.len() && #[trigger] is_of_skill(u, s, files, files[k], dir)
}

#[verifier::spinoff_prover]
proof fn lemma_with_skill(d: Draft, s: Setting, files: Seq<FileModel>, dir: Seq<char>)
    requires
        dirs_of(files).contains(dir),
    ensures
        ({
            let e = with_skill(d, s, files, dirs_of(files), dir);
            &&& goes_on(d, e)
            &&& e.units.len() <= d.units.len() + 1
            &&& e.units.len() > d.units.len() ==> has_skill(e.units.last(), s, files)
        }),
{
    let dirs = dirs_of(files);
    let all = members(files, files.len() as int, dirs, dir);
    let own = skill_first(all);
    let e = with_skill(d, s, files, dirs, dir);
    match skill_from(own, 0) {
        None => {},
        Some(skill) => {
            lemma_skill_from(own, 0);
            lemma_in_order_holds::<Member>(all, skill);
            lemma_members(files, files.len() as int, dirs, dir, skill);
            let k = choose|k: int|
                0 <= k < files.len() && #[trigger] files[k] == skill && home(dirs, 0, skill.path)
                    == Some(dir);
            assert(files[k].path == skill.path);
            lemma_skill_home(files, dir, skill.path);
            let name = crate::plan::skill_name(skill);
            let id = if dir.len() > 0 {
                slug(last_segment(dir))
            } else {
                slug(
                    match name {
                        Some(n) => n,
                        None => last_segment(s.source),
                    },
                )
            };
            let title = match name {
                Some(n) => n,
                None => id,
            };
            lemma_wrapped_step(d, s, id, title, skill_body(skill, own), skill.path, false);
            lemma_skill_text(title, s, skill, own);
            lemma_credited(title, s, skill_body(skill, own));
            if e.units.len() > d.units.len() {
                let u = e.units.last();
                assert forall|j: int| 0 <= j < files.len() implies holds_own(
                    u,
                    s,
                    files,
                    dir,
                    #[trigger] files[j],
                ) by {
                    let f = files[j];
                    if !names_skill(f.path) && is_nearest(files, dir, f.path) {
                        lemma_nearest_is_home(files, dir, f.path);
                        lemma_members(files, files.len() as int, dirs, dir, f);
                        lemma_in_order_holds::<Member>(all, f);
                        assert(own.contains(f));
                        assert(carries_or_cut(unit_text(u), attached(f), s.budget));
                    }
                }
                assert(is_of_skill(u, s, files, files[k], dir));
            }
        },
    }
}

proof fn lemma_skills_drafted(s: Setting, files: Seq<FileModel>, n: int)
    requires
        0 <= n <= dirs_of(files).len(),
    ensures
        ({
            let none = Draft { units: Seq::empty(), skipped: Seq::empty() };
            let d = skills_to(none, s, files, dirs_of(files), n);
            forall|i: int| 0 <= i < d.units.len() ==> has_skill(#[trigger] d.units[i], s, files)
        }),
    decreases n,
{
    if n > 0 {
        let none = Draft { units: Seq::empty(), skipped: Seq::empty() };
        let dirs = dirs_of(files);
        lemma_skills_drafted(s, files, n - 1);
        let d = skills_to(none, s, files, dirs, n - 1);
        let e = skills_to(none, s, files, dirs, n);
        assert(dirs.contains(dirs[n - 1]));
        lemma_with_skill(d, s, files, dirs[n - 1]);
        assert forall|i: int| 0 <= i < e.units.len() implies has_skill(
            #[trigger] e.units[i],
            s,
            files,
        ) by {
            if i < d.units.len() {
                assert(e.units[i] == d.units[i]);
            } else {
                assert(e.units[i] == e.units.last());
            }
        }
    }
}

/// Every unit of a plan of skills stands for a `SKILL.md` of the source: its
/// document holds what that file says and, with its path, each other file whose
/// nearest skill it is, unless it was cut.
pub proof fn law_skills_hold_their_files(
    files: Seq<FileModel>,
    requested: SkillFormat,
    s: Setting,
    i: int,
)
    requires
        planned(files, requested, s) is Ok,
        planned(files, requested, s)->Ok_0.format is AgenticSkills,
        0 <= i < planned(files, requested, s)->Ok_0.units.len(),
    ensures
        exists|k: int, dir: Seq<char>|
            0 <= k < files.len() && #[trigger] is_of_skill(
                planned(files, requested, s)->Ok_0.units[i],
                s,
                files,
                files[k],
                dir,
            ),
{
    let p = planned(files, requested, s)->Ok_0;
    lemma_planned(files, requested, s);
    let d = drafted(p.format, s, files);
    lemma_skills_drafted(s, files, dirs_of(files).len() as int);
    assert(d.units.contains(p.units[i]));
    let m = choose|m: int| 0 <= m < d.units.len() && d.units[m] == p.units[i];
    assert(has_skill(d.units[m], s, files));
}

} // verus!
