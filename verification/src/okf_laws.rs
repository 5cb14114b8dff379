//! What holds of every document: the frontmatter decides what it says of
//! itself, the body decides its links.

use vstd::prelude::*;
use crate::model::Budget;
use crate::okf::{
    closing, extras, fence_at, frontmatter, is_extra, lemma_split_parts, line_end, link, links_in,
    open_len, parsed, scan, split, targets, trim_eol, DocModel, Fields, LinkModel, OkfErrorModel,
};
use crate::table::{ascending, lemma_put_ascending, lemma_put_entries};
use crate::text::{at, find_char_from, find_from, lemma_find_char_from, starts_with, utf8_len};

verus! {

// ---------------------------------------------------------------------
// The frontmatter
// ---------------------------------------------------------------------

/// A line starts at `j`.
pub open spec fn line_starts(t: Seq<char>, j: int) -> bool {
    j == 0 || (0 < j <= t.len() && t[j - 1] == '\n')
}

/// The line that starts at `j` closes a frontmatter.
pub open spec fn closes_at(t: Seq<char>, j: int) -> bool {
    trim_eol(t.subrange(j, line_end(t, j))) == "---"@
}

/// The closing delimiter is the first line that reads as one.
pub(crate) proof fn lemma_first_closing(t: Seq<char>, i: int, max: nat)
    requires
        0 <= i,
        closing(t, i, max) is Ok,
    ensures
        ({
            let (a, e) = closing(t, i, max)->Ok_0;
            &&& i <= a < e <= t.len()
            &&& e == line_end(t, a)
            &&& closes_at(t, a)
            &&& line_starts(t, i) ==> line_starts(t, a)
            &&& line_starts(t, i) ==> forall|j: int|
                i <= j < a && #[trigger] line_starts(t, j) ==> !closes_at(t, j)
        }),
    decreases t.len() - i,
{
    let e = line_end(t, i);
    lemma_find_char_from(t, i, '\n');
    if !closes_at(t, i) {
        lemma_first_closing(t, e, max);
        let a = closing(t, i, max)->Ok_0.0;
        if line_starts(t, i) {
            assert(e < t.len() ==> line_starts(t, e));
            assert forall|j: int| i <= j < a && #[trigger] line_starts(t, j) implies !closes_at(
                t,
                j,
            ) by {
                if i < j < e {
                    assert(t[j - 1] == '\n');
                }
            }
        }
    }
}

/// The closing delimiter does not depend on what follows its line.
proof fn lemma_closing_alone(t: Seq<char>, u: Seq<char>, i: int, max: nat)
    requires
        0 <= i,
        closing(t, i, max) is Ok,
        ({
            let e = closing(t, i, max)->Ok_0.1;
            &&& e <= u.len()
            &&& u.take(e) == t.take(e)
            &&& t[e - 1] == '\n'
        }),
    ensures
        closing(u, i, max) == closing(t, i, max),
    decreases t.len() - i,
{
    lemma_first_closing(t, i, max);
    let end = closing(t, i, max)->Ok_0.1;
    let e = line_end(t, i);
    lemma_find_char_from(t, i, '\n');
    lemma_find_char_from(u, i, '\n');
    if !closes_at(t, i) {
        lemma_first_closing(t, e, max);
    }
    assert(e <= end);
    assert forall|j: int| 0 <= j < end implies #[trigger] u[j] == t[j] by {
        assert(u[j] == u.take(end)[j]);
        assert(t[j] == t.take(end)[j]);
    }
    if t[e - 1] != '\n' {
        assert(e == t.len());
    }
    assert(t[e - 1] == '\n');
    assert(u[e - 1] == '\n');
    let k = find_char_from(u, i, '\n')->0;
    if k < e - 1 {
        assert(u[k] == t[k]);
    }
    assert(line_end(u, i) == e);
    assert(u.subrange(i, e) =~= t.subrange(i, e));
    assert(u.take(i) =~= t.take(i));
    assert(u.take(e) =~= t.take(e));
    if !closes_at(t, i) {
        lemma_closing_alone(t, u, e, max);
    }
}

proof fn lemma_extras(f: Fields, n: int)
    requires
        0 <= n <= f.len(),
    ensures
        ascending(extras(f, n)),
        forall|i: int|
            0 <= i < extras(f, n).len() ==> (#[trigger] extras(f, n)[i]).0 != "type"@ && extras(
                f,
                n,
            )[i].0 != "tags"@,
    decreases n,
{
    if n > 0 {
        lemma_extras(f, n - 1);
        let e = extras(f, n - 1);
        if is_extra(f[n - 1].0, f[n - 1].1) {
            lemma_put_ascending(e, f[n - 1].0, f[n - 1].1);
            assert forall|i: int| 0 <= i < extras(f, n).len() implies (#[trigger] extras(f, n)[i]).0
                != "type"@ && extras(f, n)[i].0 != "tags"@ by {
                lemma_put_entries(e, f[n - 1].0, f[n - 1].1, i);
            }
        }
    }
}

/// A valid document is no larger than allowed; its body starts after the first
/// line, after the opening one, that reads `---`; its links are those of the
/// body; and neither `type` nor `tags` is among its other fields.
pub proof fn law_documents_are_framed(raw: Seq<char>, budget: Budget)
    requires
        parsed(raw, budget) is Ok,
    ensures
        ({
            let d = parsed(raw, budget)->Ok_0;
            let (fm, b) = split(raw, budget.max_frontmatter_bytes as nat)->Ok_0;
            let t = raw.skip(open_len(raw)->0 as int);
            &&& utf8_len(raw) <= budget.max_document_bytes
            &&& d.body_offset == utf8_len(raw.take(b))
            &&& b == open_len(raw)->0 + line_end(t, fm.len() as int)
            &&& line_starts(t, fm.len() as int)
            &&& closes_at(t, fm.len() as int)
            &&& forall|j: int|
                0 <= j < fm.len() && #[trigger] line_starts(t, j) ==> !closes_at(t, j)
            &&& links_in(raw.skip(b), d.body_offset, budget.max_links_per_document as nat) == Ok::<
                _,
                OkfErrorModel,
            >(d.links)
            &&& forall|i: int|
                0 <= i < d.extra.len() ==> (#[trigger] d.extra[i]).0 != "type"@ && d.extra[i].0
                    != "tags"@
        }),
{
    let max = budget.max_frontmatter_bytes as nat;
    let (fm, b) = split(raw, max)->Ok_0;
    lemma_split_parts(raw, max);
    let t = raw.skip(open_len(raw)->0 as int);
    lemma_first_closing(t, 0, max);
    let f = frontmatter(fm)->Ok_0;
    lemma_extras(f, f.len() as int);
}

/// The frontmatter alone fixes the type, the title, the tags, the other fields
/// and where the body starts, whatever the body: two valid documents that
/// agree up to there agree on all of them.
pub proof fn law_the_frontmatter_decides(raw: Seq<char>, body: Seq<char>, budget: Budget)
    requires
        parsed(raw, budget) is Ok,
        ({
            let b = split(raw, budget.max_frontmatter_bytes as nat)->Ok_0.1;
            &&& raw[b - 1] == '\n'
            &&& parsed(raw.take(b) + body, budget) is Ok
        }),
    ensures
        ({
            let d = parsed(raw, budget)->Ok_0;
            let b = split(raw, budget.max_frontmatter_bytes as nat)->Ok_0.1;
            let e = parsed(raw.take(b) + body, budget)->Ok_0;
            &&& split(raw.take(b) + body, budget.max_frontmatter_bytes as nat) == split(
                raw,
                budget.max_frontmatter_bytes as nat,
            )
            &&& e == (DocModel { links: e.links, ..d })
        }),
{
    let max = budget.max_frontmatter_bytes as nat;
    let (fm, b) = split(raw, max)->Ok_0;
    let other = raw.take(b) + body;
    lemma_split_parts(raw, max);
    let o = open_len(raw)->0 as int;
    reveal_strlit("---\n");
    reveal_strlit("---\r\n");
    assert(starts_with(raw, raw.take(o)));
    if starts_with(raw, "---\n"@) {
        assert(other.subrange(0, 4) =~= raw.subrange(0, 4));
    } else {
        assert(other.subrange(0, 5) =~= raw.subrange(0, 5));
        if starts_with(other, "---\n"@) {
            assert(other.subrange(0, 4) =~= raw.subrange(0, 4));
        }
    }
    assert(open_len(other) == open_len(raw));
    let t = raw.skip(o);
    let u = other.skip(o);
    lemma_first_closing(t, 0, max);
    let e = closing(t, 0, max)->Ok_0.1;
    assert(e == b - o);
    assert(u.take(e) =~= t.take(e));
    assert(t[e - 1] == raw[b - 1]);
    lemma_closing_alone(t, u, 0, max);
    assert(u.take(fm.len() as int) =~= t.take(fm.len() as int));
    assert(other.take(b) =~= raw.take(b));
}

// ---------------------------------------------------------------------
// Links
// ---------------------------------------------------------------------

/// Every closed `[[...]]` outside code fences from index `i` on, in order of
/// appearance, up to one that never closes.
pub open spec fn mentions(s: Seq<char>, i: int, fence: bool, line_start: bool) -> Seq<Seq<char>>
    decreases s.len() - i,
{
    if i < 0 || i >= s.len() {
        Seq::empty()
    } else {
        let inside = fence_at(s, i, fence, line_start);
        if !inside && at(s, i, "[["@) {
            match find_from(s, i + "[["@.len(), "]]"@) {
                None => Seq::empty(),
                Some(j) => if !(i < j + "]]"@.len() <= s.len()) {
                    Seq::empty()
                } else {
                    seq![s.subrange(i + "[["@.len(), j)] + mentions(
                        s,
                        j + "]]"@.len(),
                        inside,
                        false,
                    )
                },
            }
        } else {
            mentions(s, i + 1, inside, s[i] == '\n')
        }
    }
}

/// The links of the first `n` mentions, each target where it comes first.
pub open spec fn firsts(ms: Seq<Seq<char>>, n: int) -> Seq<LinkModel>
    decreases n,
{
    if n <= 0 {
        Seq::empty()
    } else {
        let before = firsts(ms, n - 1);
        match link(ms[n - 1]) {
            Some(l) => if targets(before, l.target) {
                before
            } else {
                before.push(l)
            },
            None => before,
        }
    }
}

proof fn lemma_firsts_prefix(a: Seq<Seq<char>>, b: Seq<Seq<char>>, n: int)
    requires
        0 <= n <= a.len(),
    ensures
        firsts(a + b, n) == firsts(a, n),
    decreases n,
{
    if n > 0 {
        lemma_firsts_prefix(a, b, n - 1);
        assert((a + b)[n - 1] == a[n - 1]);
    }
}

proof fn lemma_scan_lists(
    s: Seq<char>,
    i: int,
    fence: bool,
    line_start: bool,
    before: Seq<Seq<char>>,
    base: nat,
    max: nat,
)
    requires
        forall|k: int| 0 <= k < before.len() ==> link(#[trigger] before[k]) is Some,
    ensures
        ({
            let found = firsts(before, before.len() as int);
            let all = before + mentions(s, i, fence, line_start);
            match scan(s, i, fence, line_start, found, base, max) {
                Ok(l) => l == firsts(all, all.len() as int) && forall|k: int|
                    0 <= k < all.len() ==> link(#[trigger] all[k]) is Some,
                Err(_) => true,
            }
        }),
    decreases s.len() - i,
{
    let found = firsts(before, before.len() as int);
    let all = before + mentions(s, i, fence, line_start);
    assert(before + Seq::empty() =~= before);
    if 0 <= i < s.len() {
        let inside = fence_at(s, i, fence, line_start);
        if !inside && at(s, i, "[["@) {
            match find_from(s, i + "[["@.len(), "]]"@) {
                None => {},
                Some(j) => {
                    let raw = s.subrange(i + "[["@.len(), j);
                    match link(raw) {
                        None => {},
                        Some(l) => if i < j + "]]"@.len() <= s.len() {
                            let more = before.push(raw);
                            assert(more =~= before + seq![raw]);
                            lemma_firsts_prefix(before, seq![raw], before.len() as int);
                            assert(more[before.len() as int] == raw);
                            assert forall|k: int| 0 <= k < more.len() implies link(
                                #[trigger] more[k],
                            ) is Some by {
                                if k < before.len() {
                                    assert(more[k] == before[k]);
                                }
                            }
                            lemma_scan_lists(s, j + "]]"@.len(), inside, false, more, base, max);
                            assert(more + mentions(s, j + "]]"@.len(), inside, false) =~= all);
                        },
                    }
                },
            }
        } else {
            lemma_scan_lists(s, i + 1, inside, s[i] == '\n', before, base, max);
        }
    }
}

/// The links of a body are, in order of first appearance, those of every
/// closed `[[...]]` outside code fences, each target with the relation of its
/// first appearance.
pub proof fn law_links_come_in_order(body: Seq<char>, base: nat, max: nat)
    requires
        links_in(body, base, max) is Ok,
    ensures
        ({
            let ms = mentions(body, 0, false, true);
            &&& links_in(body, base, max)->Ok_0 == firsts(ms, ms.len() as int)
            &&& forall|k: int| 0 <= k < ms.len() ==> link(#[trigger] ms[k]) is Some
        }),
{
    let none: Seq<Seq<char>> = Seq::empty();
    lemma_scan_lists(body, 0, false, true, none, base, max);
    assert(none + mentions(body, 0, false, true) =~= mentions(body, 0, false, true));
}

/// The same error, `by` bytes further on.
pub open spec fn moved(e: OkfErrorModel, by: int) -> OkfErrorModel {
    match e {
        OkfErrorModel::InvalidLink { offset, target } => OkfErrorModel::InvalidLink {
            offset: (offset + by) as nat,
            target,
        },
        x => x,
    }
}

proof fn lemma_scan_moves(
    s: Seq<char>,
    i: int,
    fence: bool,
    line_start: bool,
    found: Seq<LinkModel>,
    base: nat,
    other: nat,
    max: nat,
)
    ensures
        match scan(s, i, fence, line_start, found, base, max) {
            Ok(l) => scan(s, i, fence, line_start, found, other, max) == Ok::<_, OkfErrorModel>(l),
            Err(e) => scan(s, i, fence, line_start, found, other, max) == Err::<
                Seq<LinkModel>,
                _,
            >(moved(e, other - base)),
        },
    decreases s.len() - i,
{
    if 0 <= i < s.len() {
        let inside = fence_at(s, i, fence, line_start);
        if !inside && at(s, i, "[["@) {
            match find_from(s, i + "[["@.len(), "]]"@) {
                None => {},
                Some(j) => match link(s.subrange(i + "[["@.len(), j)) {
                    None => {},
                    Some(l) => if i < j + "]]"@.len() <= s.len() {
                        let next = j + "]]"@.len();
                        lemma_scan_moves(s, next, inside, false, found, base, other, max);
                        lemma_scan_moves(s, next, inside, false, found.push(l), base, other, max);
                    },
                },
            }
        } else {
            lemma_scan_moves(s, i + 1, inside, s[i] == '\n', found, base, other, max);
        }
    }
}

/// Where a body starts changes only the offset that an error names.
pub proof fn law_offsets_move_errors_only(body: Seq<char>, base: nat, other: nat, max: nat)
    ensures
        match links_in(body, base, max) {
            Ok(l) => links_in(body, other, max) == Ok::<_, OkfErrorModel>(l),
            Err(e) => links_in(body, other, max) == Err::<Seq<LinkModel>, _>(
                moved(e, other - base),
            ),
        },
{
    lemma_scan_moves(body, 0, false, true, Seq::empty(), base, other, max);
}

} // verus!
