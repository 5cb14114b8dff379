//! What a patch leaves: the fields it names as it says, every other one as it
//! was, and nothing more to do when it is applied again.

use vstd::prelude::*;
use crate::model::Budget;
use crate::okf::{
    field, field_from, frontmatter, is_filler, lemma_split_parts, line_end, line_key, open_len,
    parsed, read_lines, scalar, split, step, trim_eol, with_item, Fields, FmModel, OkfErrorModel,
    Reading,
};
use crate::okf_laws::{closes_at, lemma_first_closing, line_starts};
use crate::patch::{
    add_fields, clash, cut, cut_from, field_text, final_tags, item_line, items_text,
    lemma_item_line, lemma_key_line, lemma_scalar_round_trip, lemma_trim_end_keeps,
    lemma_trim_start_keeps, open_after, owner, patched, plan, rewritten, scalar_text, touches_tags,
    uncut, untagged, with_frontmatter, with_new, without, Cutting, PatchModel, Plan, Refusal,
};
use crate::text::{
    find_char, find_char_from, is_white, lemma_find_char_from, lines, lines_from, starts_with,
    strip_cr, strip_prefix, trim, trim_end, trim_start,
};

verus! {

// ---------------------------------------------------------------------
// Fields
// ---------------------------------------------------------------------

/// No key twice.
pub open spec fn distinct(f: Fields) -> bool {
    forall|i: int, j: int| 0 <= i < j < f.len() ==> (#[trigger] f[i]).0 != (#[trigger] f[j]).0
}

proof fn lemma_field_from(f: Fields, i: int, k: Seq<char>)
    requires
        0 <= i <= f.len(),
    ensures
        match field_from(f, i, k) {
            Some(v) => exists|j: int| i <= j < f.len() && #[trigger] f[j] == (k, v),
            None => forall|j: int| i <= j < f.len() ==> (#[trigger] f[j]).0 != k,
        },
    decreases f.len() - i,
{
    if i < f.len() {
        if f[i].0 == k {
            assert(f[i] == (k, f[i].1));
        } else {
            lemma_field_from(f, i + 1, k);
        }
    }
}

/// The first field of a key is the one that counts.
proof fn lemma_field_first(f: Fields, i: int, j: int)
    requires
        0 <= i <= j < f.len(),
        forall|x: int| i <= x < j ==> (#[trigger] f[x]).0 != f[j].0,
    ensures
        field_from(f, i, f[j].0) == Some(f[j].1),
    decreases j - i,
{
    if i < j {
        lemma_field_first(f, i + 1, j);
    }
}

proof fn lemma_field_push_from(f: Fields, e: (Seq<char>, FmModel), i: int, k: Seq<char>)
    requires
        0 <= i <= f.len(),
    ensures
        field_from(f.push(e), i, k) == if field_from(f, i, k) is Some {
            field_from(f, i, k)
        } else if e.0 == k {
            Some(e.1)
        } else {
            None
        },
    decreases f.len() - i,
{
    let g = f.push(e);
    if i < f.len() {
        assert(g[i] == f[i]);
        lemma_field_push_from(f, e, i + 1, k);
    } else {
        assert(g[i] == e);
        assert(field_from(g, i + 1, k) is None);
    }
}

/// A field added at the end counts unless its key is there.
proof fn lemma_field_push(f: Fields, e: (Seq<char>, FmModel), k: Seq<char>)
    ensures
        field(f.push(e), k) == if field(f, k) is Some {
            field(f, k)
        } else if e.0 == k {
            Some(e.1)
        } else {
            None
        },
{
    lemma_field_push_from(f, e, 0, k);
}

proof fn lemma_distinct_push(f: Fields, e: (Seq<char>, FmModel))
    requires
        distinct(f),
        field(f, e.0) is None,
    ensures
        distinct(f.push(e)),
{
    lemma_field_from(f, 0, e.0);
    let g = f.push(e);
    assert forall|i: int, j: int| 0 <= i < j < g.len() implies (#[trigger] g[i]).0 != (
    #[trigger] g[j]).0 by {
        assert(g[i] == f[i]);
        if j < f.len() {
            assert(g[j] == f[j]);
        }
    }
}

/// An item goes to the last field and to no other.
proof fn lemma_with_item(f: Fields, v: Seq<char>, k: Seq<char>)
    requires
        distinct(f),
        f.len() > 0,
        f.last().1 is List,
    ensures
        ({
            let g = with_item(f, v);
            let items = f.last().1->List_0;
            &&& distinct(g)
            &&& g.len() > 0
            &&& g.last() == (f.last().0, FmModel::List(items.push(v)))
            &&& field(f, f.last().0) == Some(f.last().1)
            &&& field(g, k) == if k == f.last().0 {
                Some(FmModel::List(items.push(v)))
            } else {
                field(f, k)
            }
        }),
{
    let h = f.drop_last();
    let key = f.last().0;
    let items = f.last().1->List_0;
    assert(h.push(f.last()) =~= f);
    lemma_field_from(h, 0, key);
    if field(h, key) is Some {
        let j = choose|j: int| 0 <= j < h.len() && #[trigger] h[j] == (key, field(h, key)->0);
        assert(f[j] == h[j]);
        assert(f[j].0 != f[f.len() - 1].0);
    }
    lemma_field_push(h, f.last(), k);
    lemma_field_push(h, f.last(), key);
    lemma_field_push(h, (key, FmModel::List(items.push(v))), k);
    assert(distinct(h)) by {
        assert forall|i: int, j: int| 0 <= i < j < h.len() implies (#[trigger] h[i]).0 != (
        #[trigger] h[j]).0 by {
            assert(f[i] == h[i] && f[j] == h[j]);
        }
    }
    lemma_distinct_push(h, (key, FmModel::List(items.push(v))));
}

// ---------------------------------------------------------------------
// Reading line by line
// ---------------------------------------------------------------------

/// Empty, or a sequence of whole lines.
pub open spec fn whole_lines(s: Seq<char>) -> bool {
    s.len() == 0 || s.last() == '\n'
}

/// What the lines of a frontmatter from index `i` on add to what was read.
pub open spec fn read_from(t: Seq<char>, i: int, st: Reading) -> Option<Reading>
    decreases t.len() - i,
{
    let e = line_end(t, i);
    if i < 0 || !(i < e <= t.len()) {
        Some(st)
    } else {
        match step(t.subrange(i, e), 0, st) {
            Err(_) => None,
            Ok(next) => read_from(t, e, next),
        }
    }
}

proof fn lemma_trim_end_white(s: Seq<char>, c: char)
    requires
        is_white(c),
    ensures
        trim_end(s.push(c)) == trim_end(s),
{
    assert(s.push(c).drop_last() =~= s);
}

/// The number of a line does not matter where it is read.
proof fn lemma_step_no(l: Seq<char>, m: Seq<char>, no: nat, st: Reading)
    requires
        step(l, no, st) is Ok,
        trim_end(l) == trim_end(m),
    ensures
        step(m, 0, st) == step(l, no, st),
{
}

proof fn lemma_read_from(t: Seq<char>, i: int, ls: Seq<Seq<char>>, n: int, st: Reading)
    requires
        whole_lines(t),
        0 <= i <= t.len(),
        0 <= n <= ls.len(),
        ls.skip(n) == lines_from(t, i),
        read_lines(ls, n, st) is Ok,
    ensures
        read_from(t, i, st) is Some,
        read_from(t, i, st)->0.fields == read_lines(ls, n, st)->Ok_0,
    decreases t.len() - i,
{
    lemma_find_char_from(t, i, '\n');
    if i < t.len() {
        assert(t[t.len() - 1] == '\n');
        let k = find_char_from(t, i, '\n')->0;
        let x = t.subrange(i, k);
        assert(ls.skip(n).len() > 0);
        assert(ls[n] == ls.skip(n)[0]);
        assert(ls[n] == strip_cr(x));
        let seg = t.subrange(i, k + 1);
        assert(seg =~= x.push('\n'));
        lemma_trim_end_white(x, '\n');
        if x.len() > 0 && x.last() == '\r' {
            assert(x.drop_last().push('\r') =~= x);
            lemma_trim_end_white(x.drop_last(), '\r');
        }
        lemma_step_no(ls[n], seg, (n + 2) as nat, st);
        let next = step(ls[n], (n + 2) as nat, st)->Ok_0;
        assert(ls.skip(n + 1) =~= ls.skip(n).skip(1));
        assert(lines_from(t, i).skip(1) =~= lines_from(t, k + 1));
        lemma_read_from(t, k + 1, ls, n + 1, next);
    } else {
        assert(ls.skip(n).len() == 0);
    }
}

pub open spec fn unread() -> Reading {
    Reading { fields: Seq::empty(), open: false }
}

proof fn lemma_frontmatter_read(t: Seq<char>)
    requires
        whole_lines(t),
        frontmatter(t) is Ok,
    ensures
        read_from(t, 0, unread()) is Some,
        read_from(t, 0, unread())->0.fields == frontmatter(t)->Ok_0,
{
    assert(lines(t).skip(0) =~= lines(t));
    lemma_read_from(t, 0, lines(t), 0, unread());
}

/// A line that stands in a text ends where it says.
proof fn lemma_line_at(t: Seq<char>, x: int, seg: Seq<char>)
    requires
        0 <= x,
        x + seg.len() <= t.len(),
        t.subrange(x, x + seg.len()) == seg,
        seg.len() > 0,
        seg.last() == '\n',
        forall|j: int| 0 <= j < seg.len() - 1 ==> #[trigger] seg[j] != '\n',
    ensures
        line_end(t, x) == x + seg.len(),
{
    lemma_find_char_from(t, x, '\n');
    let e = x + seg.len() - 1;
    assert(t[e] == seg[seg.len() - 1]);
    let k = find_char_from(t, x, '\n')->0;
    if k < e {
        assert(t[k] == seg[k - x]);
    }
}

// ---------------------------------------------------------------------
// Written fields, cut and read
// ---------------------------------------------------------------------

/// The plan leaves the lines of a key out.
pub open spec fn leaves_out(p: Plan, k: Seq<char>) -> bool {
    p.remove.contains(k) || (k == "tags"@ && p.drop_tags)
}

/// The plan names a key.
pub open spec fn touched(p: Plan, k: Seq<char>) -> bool {
    leaves_out(p, k) || field(p.fields, k) is Some
}

/// The list open after a written field.
pub open spec fn left_open(k: Seq<char>, v: FmModel) -> Option<Seq<char>> {
    if v is List {
        Some(k)
    } else {
        None
    }
}

proof fn lemma_items_prefix(items: Seq<Seq<char>>, n: int, m: int)
    requires
        0 <= n <= m,
        items_text(items, m) is Ok,
    ensures
        items_text(items, n) is Ok,
        items_text(items, n)->Ok_0.len() <= items_text(items, m)->Ok_0.len(),
        items_text(items, m)->Ok_0.take(items_text(items, n)->Ok_0.len() as int) == items_text(
            items,
            n,
        )->Ok_0,
    decreases m - n,
{
    let b = items_text(items, m)->Ok_0;
    if n < m {
        lemma_items_prefix(items, n, m - 1);
        let a = items_text(items, n)->Ok_0;
        let c = items_text(items, m - 1)->Ok_0;
        assert(b.take(a.len() as int) =~= c.take(a.len() as int));
    } else {
        assert(b.take(b.len() as int) =~= b);
    }
}

/// The items of a written list from the `n`th on.
#[verifier::spinoff_prover]
#[verifier::rlimit(60)]
proof fn lemma_block_items(
    t: Seq<char>,
    x: int,
    key: Seq<char>,
    items: Seq<Seq<char>>,
    n: int,
    st: Cutting,
    base: Fields,
    p: Plan,
)
    requires
        0 <= x,
        0 <= n <= items.len(),
        items_text(items, items.len() as int) is Ok,
        ({
            let full = items_text(items, items.len() as int)->Ok_0;
            x + full.len() <= t.len() && t.subrange(x, x + full.len()) == full
        }),
        st.open == Some(key),
        leaves_out(p, key) || (field(p.fields, key) is Some && st.emitted.contains(key)),
    ensures
        ({
            let full = items_text(items, items.len() as int)->Ok_0;
            let here = x + items_text(items, n)->Ok_0.len();
            &&& cut_from(t, here, st, p) == cut_from(t, x + full.len(), st, p)
            &&& read_from(
                t,
                here,
                Reading { fields: base.push((key, FmModel::List(items.take(n)))), open: true },
            ) == read_from(
                t,
                x + full.len(),
                Reading { fields: base.push((key, FmModel::List(items))), open: true },
            )
        }),
    decreases items.len() - n,
{
    let m = items.len() as int;
    let full = items_text(items, m)->Ok_0;
    lemma_items_prefix(items, n, m);
    if n < m {
        lemma_items_prefix(items, n + 1, m);
        let a = items_text(items, n)->Ok_0;
        let b = items_text(items, n + 1)->Ok_0;
        reveal_strlit("\n");
        reveal_strlit("  - ");
        let l = item_line(items[n]);
        let seg = l.push('\n');
        assert(scalar_text(items[n]) is Ok);
        lemma_item_line(items[n]);
        assert(b =~= a + seg);
        let here = x + a.len();
        assert(t.subrange(here, here + seg.len()) =~= full.subrange(a.len() as int, b.len() as int));
        assert(full.subrange(a.len() as int, b.len() as int) =~= full.take(b.len() as int).skip(
            a.len() as int,
        ));
        assert(b.skip(a.len() as int) =~= seg);
        assert forall|j: int| 0 <= j < seg.len() - 1 implies #[trigger] seg[j] != '\n' by {
            assert(seg[j] == l[j]);
            assert(l.contains(l[j]));
        }
        lemma_line_at(t, here, seg);
        lemma_trim_end_white(l, '\n');
        assert(trim_end(seg) == l);
        assert(owner(l, st.open) == Some(key));
        assert(open_after(l, st.open) == st.open);
        assert(cut(seg, st, p) == Ok::<_, Refusal>(st));
        let fields = base.push((key, FmModel::List(items.take(n))));
        let st_r = Reading { fields, open: true };
        assert(fields.last() == (key, FmModel::List(items.take(n))));
        assert(items.take(n).push(items[n]) =~= items.take(n + 1));
        assert(fields.drop_last() =~= base);
        assert(with_item(fields, items[n]) == base.push((key, FmModel::List(items.take(n + 1)))));
        assert(step(seg, 0, st_r) == Ok::<_, OkfErrorModel>(
            Reading { fields: base.push((key, FmModel::List(items.take(n + 1)))), open: true },
        ));
        lemma_block_items(t, x, key, items, n + 1, st, base, p);
    } else {
        assert(items.take(n) =~= items);
    }
}

/// A written field that stands in a text, cut under a plan and read.
proof fn lemma_block(
    t: Seq<char>,
    x: int,
    key: Seq<char>,
    v: FmModel,
    st: Cutting,
    r: Reading,
    p: Plan,
)
    requires
        0 <= x,
        field_text(key, v) is Ok,
        ({
            let ft = field_text(key, v)->Ok_0;
            x + ft.len() <= t.len() && t.subrange(x, x + ft.len()) == ft
        }),
    ensures
        ({
            let ft = field_text(key, v)->Ok_0;
            let e = x + ft.len();
            &&& ft.len() > 0
            &&& read_from(t, x, r) is Some ==> field(r.fields, key) is None && read_from(t, x, r)
                == read_from(
                t,
                e,
                Reading { fields: r.fields.push((key, v)), open: v is List },
            )
            &&& leaves_out(p, key) ==> cut_from(t, x, st, p) == cut_from(
                t,
                e,
                Cutting { out: st.out, emitted: st.emitted, open: left_open(key, v) },
                p,
            )
            &&& !leaves_out(p, key) && field(p.fields, key) == Some(v) && !st.emitted.contains(key)
                ==> cut_from(t, x, st, p) == cut_from(
                t,
                e,
                Cutting {
                    out: st.out + ft,
                    emitted: st.emitted.push(key),
                    open: left_open(key, v),
                },
                p,
            )
        }),
{
    reveal_strlit("\n");
    reveal_strlit(": ");
    reveal_strlit(":\n");
    let ft = field_text(key, v)->Ok_0;
    let after = if leaves_out(p, key) {
        Cutting { out: st.out, emitted: st.emitted, open: left_open(key, v) }
    } else {
        Cutting { out: st.out + ft, emitted: st.emitted.push(key), open: left_open(key, v) }
    };
    assert(st.emitted.push(key).contains(key)) by {
        assert(st.emitted.push(key)[st.emitted.len() as int] == key);
    }
    assert forall|j: int| 0 <= j < key.len() implies #[trigger] key[j] != '\n' by {
        assert(crate::text::is_alnum(key[j]) || key[j] == '_' || key[j] == '-');
    }
    match v {
        FmModel::Scalar(s) => {
            let sc = scalar_text(s)->Ok_0;
            lemma_scalar_round_trip(s, 0);
            let tail = ": "@ + sc;
            let l = key + tail;
            assert(tail.last() == sc.last());
            lemma_key_line(key, tail);
            let seg = l.push('\n');
            assert(ft =~= seg);
            assert forall|j: int| 0 <= j < seg.len() - 1 implies #[trigger] seg[j] != '\n' by {
                if j < key.len() {
                    assert(seg[j] == key[j]);
                } else if j >= key.len() + 2 {
                    assert(seg[j] == sc[j - key.len() - 2]);
                    assert(sc.contains(sc[j - key.len() - 2]));
                }
            }
            lemma_line_at(t, x, seg);
            lemma_trim_end_white(l, '\n');
            let rest = tail.skip(1);
            assert(rest.skip(1) =~= sc);
            assert(rest[0] == ' ');
            assert(trim_start(rest) == trim_start(rest.skip(1)));
            lemma_trim_start_keeps(sc);
            lemma_trim_end_keeps(sc);
            assert(trim(rest) == sc);
            assert(line_key(l) == key);
            assert(!starts_with(trim_start(l), "- "@));
            assert(owner(l, st.open) == Some(key));
            assert(open_after(l, st.open) is None);
        },
        FmModel::List(items) => {
            let tail = seq![':'];
            let l = key + tail;
            lemma_key_line(key, tail);
            let seg = l.push('\n');
            assert(seg =~= key + ":\n"@);
            let full = items_text(items, items.len() as int)->Ok_0;
            assert(ft =~= seg + full);
            assert(t.subrange(x, x + seg.len()) =~= ft.take(seg.len() as int));
            assert(ft.take(seg.len() as int) =~= seg);
            assert forall|j: int| 0 <= j < seg.len() - 1 implies #[trigger] seg[j] != '\n' by {
                if j < key.len() {
                    assert(seg[j] == key[j]);
                }
            }
            lemma_line_at(t, x, seg);
            lemma_trim_end_white(l, '\n');
            let rest = tail.skip(1);
            assert(rest.len() == 0);
            assert(trim(rest).len() == 0) by {
                lemma_trim_start_keeps(rest);
                lemma_trim_end_keeps(rest);
            }
            assert(line_key(l) == key);
            assert(!starts_with(trim_start(l), "- "@));
            assert(owner(l, st.open) == Some(key));
            assert(open_after(l, st.open) == Some(key));
            let y = x + seg.len();
            assert(t.subrange(y, y + full.len()) =~= ft.skip(seg.len() as int));
            assert(ft.skip(seg.len() as int) =~= full);
            assert(items.take(0) =~= Seq::<Seq<char>>::empty());
            if leaves_out(p, key) || (field(p.fields, key) == Some(v) && !st.emitted.contains(key)) {
                lemma_block_items(t, y, key, items, 0, after, r.fields, p);
            } else {
                let q = Plan { fields: Seq::empty(), remove: seq![key], drop_tags: false };
                assert(q.remove[0] == key);
                assert(q.remove.contains(key));
                lemma_block_items(t, y, key, items, 0, after, r.fields, q);
            }
        },
    }
}

// ---------------------------------------------------------------------
// A patch applied twice, side by side
// ---------------------------------------------------------------------

/// The list that cutting has open is the last field read.
pub open spec fn agrees(open: Option<Seq<char>>, r: Reading) -> bool {
    &&& distinct(r.fields)
    &&& r.open == (open is Some)
    &&& open is Some ==> r.fields.len() > 0 && r.fields.last().0 == open->0 && r.fields.last().1
        is List
}

/// What holds line by line between a frontmatter being cut (state `st`, read
/// as `r`) and the text that comes of it being cut again (open list `open2`,
/// read as `r2`).
spec fn in_step(st: Cutting, r: Reading, open2: Option<Seq<char>>, r2: Reading, p: Plan) -> bool {
    &&& agrees(st.open, r)
    &&& agrees(open2, r2)
    &&& st.open is Some && !touched(p, st.open->0) ==> open2 == st.open
    &&& forall|k: Seq<char>|
        !touched(p, k) ==> #[trigger] field(r2.fields, k) == field(r.fields, k)
    &&& forall|k: Seq<char>|
        touched(p, k) ==> #[trigger] field(r2.fields, k) == if st.emitted.contains(k) {
            field(p.fields, k)
        } else {
            None
        }
}

/// A line that starts a field, read.
proof fn lemma_key_step(seg: Seq<char>, open: Option<Seq<char>>, r: Reading)
    requires
        agrees(open, r),
        step(seg, 0, r) is Ok,
        !is_filler(trim_end(seg)),
        !starts_with(trim_start(trim_end(seg)), "- "@),
    ensures
        ({
            let line = trim_end(seg);
            let key = line_key(line);
            let next = step(seg, 0, r)->Ok_0;
            &&& field(r.fields, key) is None
            &&& next.fields == r.fields.push((key, next.fields.last().1))
            &&& next.fields.last().1 == line_value(line)
            &&& agrees(open_after(line, open), next)
        }),
{
    let line = trim_end(seg);
    let key = line_key(line);
    let next = step(seg, 0, r)->Ok_0;
    lemma_distinct_push(r.fields, (key, line_value(line)));
    assert(next.fields == r.fields.push((key, line_value(line))));
    assert(next.fields.last() == (key, line_value(line)));
}

/// The value that a line gives to the field it starts.
pub open spec fn line_value(line: Seq<char>) -> FmModel {
    let rest = trim(line.skip(find_char(line, ':')->0 + 1));
    if rest.len() == 0 {
        FmModel::List(Seq::empty())
    } else {
        FmModel::Scalar(scalar(rest, 0)->Ok_0)
    }
}

/// A line that is an item, read.
proof fn lemma_item_step_any(seg: Seq<char>, open: Option<Seq<char>>, r: Reading, k: Seq<char>)
    requires
        agrees(open, r),
        step(seg, 0, r) is Ok,
        !is_filler(trim_end(seg)),
        starts_with(trim_start(trim_end(seg)), "- "@),
    ensures
        ({
            let v = scalar(strip_prefix(trim_start(trim_end(seg)), "- "@)->0, 0)->Ok_0;
            let next = step(seg, 0, r)->Ok_0;
            &&& open is Some
            &&& agrees(open, next)
            &&& field(r.fields, open->0) is Some
            &&& field(r.fields, open->0)->0 is List
            &&& field(next.fields, k) == if k == open->0 {
                Some(FmModel::List(field(r.fields, k)->0->List_0.push(v)))
            } else {
                field(r.fields, k)
            }
        }),
{
    let v = scalar(strip_prefix(trim_start(trim_end(seg)), "- "@)->0, 0)->Ok_0;
    lemma_with_item(r.fields, v, k);
    lemma_with_item(r.fields, v, open->0);
}

/// Cutting only adds to the text.
proof fn lemma_cut_grows(fm: Seq<char>, i: int, st: Cutting, p: Plan)
    requires
        0 <= i,
        cut_from(fm, i, st, p) is Ok,
    ensures
        ({
            let end = cut_from(fm, i, st, p)->Ok_0;
            &&& end.out.len() >= st.out.len()
            &&& end.out.take(st.out.len() as int) == st.out
        }),
    decreases fm.len() - i,
{
    let e = line_end(fm, i);
    let end = cut_from(fm, i, st, p)->Ok_0;
    if i < e <= fm.len() {
        let next = cut(fm.subrange(i, e), st, p)->Ok_0;
        lemma_cut_grows(fm, e, next, p);
        assert(next.out.take(st.out.len() as int) =~= st.out);
        assert(end.out.take(st.out.len() as int) =~= end.out.take(next.out.len() as int).take(
            st.out.len() as int,
        ));
    } else {
        assert(end.out.take(st.out.len() as int) =~= st.out);
    }
}

/// One line of a frontmatter, and what comes of it in the text.
#[verifier::rlimit(40)]
#[verifier::spinoff_prover]
proof fn lemma_side_step(
    seg: Seq<char>,
    st: Cutting,
    r: Reading,
    t: Seq<char>,
    open2: Option<Seq<char>>,
    r2: Reading,
    p: Plan,
) -> (res: (Option<Seq<char>>, Reading))
    requires
        seg.len() > 0,
        seg.last() == '\n',
        forall|j: int| 0 <= j < seg.len() - 1 ==> #[trigger] seg[j] != '\n',
        cut(seg, st, p) is Ok,
        step(seg, 0, r) is Ok,
        in_step(st, r, open2, r2, p),
        ({
            let next = cut(seg, st, p)->Ok_0;
            next.out.len() <= t.len() && t.take(next.out.len() as int) == next.out
        }),
        read_from(t, st.out.len() as int, r2) is Some,
    ensures
        ({
            let next = cut(seg, st, p)->Ok_0;
            &&& in_step(next, step(seg, 0, r)->Ok_0, res.0, res.1, p)
            &&& read_from(t, st.out.len() as int, r2) == read_from(
                t,
                next.out.len() as int,
                res.1,
            )
            &&& cut_from(
                t,
                st.out.len() as int,
                Cutting { out: st.out, emitted: st.emitted, open: open2 },
                p,
            ) == cut_from(
                t,
                next.out.len() as int,
                Cutting { out: next.out, emitted: next.emitted, open: res.0 },
                p,
            )
        }),
{
    let line = trim_end(seg);
    let next = cut(seg, st, p)->Ok_0;
    let after = step(seg, 0, r)->Ok_0;
    let x = st.out.len() as int;
    let st2 = Cutting { out: st.out, emitted: st.emitted, open: open2 };
    let filler = is_filler(line);
    let item = starts_with(trim_start(line), "- "@);
    if !filler && item {
        lemma_item_step_any(seg, st.open, r, st.open->0);
    }
    if !filler && !item {
        lemma_key_step(seg, st.open, r);
    }
    let who = owner(line, st.open);
    let copied = who is None || !touched(p, who->0);
    if copied {
        assert(next.out == st.out + seg);
        assert(t.subrange(x, x + seg.len()) =~= t.take(next.out.len() as int).skip(x));
        assert(next.out.skip(x) =~= seg);
        lemma_line_at(t, x, seg);
        assert(step(seg, 0, r2) is Ok);
        let after2 = step(seg, 0, r2)->Ok_0;
        let o = open_after(line, open2);
        assert(cut(seg, st2, p) == Ok::<_, Refusal>(
            Cutting { out: next.out, emitted: st.emitted, open: o },
        ));
        if filler {
        } else if item {
            let key = st.open->0;
            lemma_item_step_any(seg, open2, r2, key);
            assert forall|k: Seq<char>| !touched(p, k) implies #[trigger] field(after2.fields, k)
                == field(after.fields, k) by {
                lemma_item_step_any(seg, st.open, r, k);
                lemma_item_step_any(seg, open2, r2, k);
                assert(field(r2.fields, k) == field(r.fields, k));
                assert(field(r2.fields, key) == field(r.fields, key));
            }
            assert forall|k: Seq<char>| touched(p, k) implies #[trigger] field(after2.fields, k)
                == (if next.emitted.contains(k) {
                field(p.fields, k)
            } else {
                None
            }) by {
                lemma_item_step_any(seg, open2, r2, k);
                assert(field(r2.fields, k) == field(r2.fields, k));
            }
        } else {
            lemma_key_step(seg, open2, r2);
            let key = line_key(line);
            assert forall|k: Seq<char>| !touched(p, k) implies #[trigger] field(after2.fields, k)
                == field(after.fields, k) by {
                lemma_field_push(r.fields, (key, line_value(line)), k);
                lemma_field_push(r2.fields, (key, line_value(line)), k);
                assert(field(r2.fields, k) == field(r.fields, k));
            }
            assert forall|k: Seq<char>| touched(p, k) implies #[trigger] field(after2.fields, k)
                == (if next.emitted.contains(k) {
                field(p.fields, k)
            } else {
                None
            }) by {
                lemma_field_push(r2.fields, (key, line_value(line)), k);
                assert(field(r2.fields, k) == field(r2.fields, k));
            }
        }
        (o, after2)
    } else {
        let key = who->0;
        // The field is named: what is read of the frontmatter changes only there.
        assert forall|k: Seq<char>| !touched(p, k) implies #[trigger] field(after.fields, k)
            == field(r.fields, k) by {
            if item {
                lemma_item_step_any(seg, st.open, r, k);
            } else {
                lemma_field_push(r.fields, (key, line_value(line)), k);
            }
        }
        if next.out == st.out && next.emitted == st.emitted {
            assert forall|k: Seq<char>| !touched(p, k) implies #[trigger] field(r2.fields, k)
                == field(after.fields, k) by {
                assert(field(after.fields, k) == field(r.fields, k));
            }
            (open2, r2)
        } else {
            let v = field(p.fields, key)->0;
            let ft = field_text(key, v)->Ok_0;
            assert(next.out == st.out + ft);
            assert(t.subrange(x, x + ft.len()) =~= t.take(next.out.len() as int).skip(x));
            assert(next.out.skip(x) =~= ft);
            lemma_block(t, x, key, v, st2, r2, p);
            let after2 = Reading { fields: r2.fields.push((key, v)), open: v is List };
            lemma_distinct_push(r2.fields, (key, v));
            assert forall|k: Seq<char>| !touched(p, k) implies #[trigger] field(after2.fields, k)
                == field(after.fields, k) by {
                lemma_field_push(r2.fields, (key, v), k);
                assert(field(after.fields, k) == field(r.fields, k));
                assert(field(r2.fields, k) == field(r.fields, k));
            }
            assert forall|k: Seq<char>| touched(p, k) implies #[trigger] field(after2.fields, k)
                == (if next.emitted.contains(k) {
                field(p.fields, k)
            } else {
                None
            }) by {
                lemma_field_push(r2.fields, (key, v), k);
                assert(field(r2.fields, k) == field(r2.fields, k));
                if k == key {
                    assert(next.emitted[st.emitted.len() as int] == key);
                } else {
                    if st.emitted.contains(k) {
                        let j = choose|j: int| 0 <= j < st.emitted.len() && st.emitted[j] == k;
                        assert(next.emitted[j] == k);
                    }
                    if next.emitted.contains(k) {
                        let j = choose|j: int| 0 <= j < next.emitted.len() && next.emitted[j] == k;
                        assert(st.emitted[j] == k);
                    }
                }
            }
            (left_open(key, v), after2)
        }
    }
}

/// The lines of a frontmatter from index `i` on, and what comes of them.
proof fn lemma_side_by_side(
    fm: Seq<char>,
    i: int,
    st: Cutting,
    r: Reading,
    t: Seq<char>,
    open2: Option<Seq<char>>,
    r2: Reading,
    p: Plan,
) -> (res: (Option<Seq<char>>, Reading))
    requires
        whole_lines(fm),
        0 <= i <= fm.len(),
        cut_from(fm, i, st, p) is Ok,
        ({
            let end = cut_from(fm, i, st, p)->Ok_0;
            end.out.len() <= t.len() && t.take(end.out.len() as int) == end.out
        }),
        read_from(fm, i, r) is Some,
        read_from(t, st.out.len() as int, r2) is Some,
        in_step(st, r, open2, r2, p),
    ensures
        ({
            let end = cut_from(fm, i, st, p)->Ok_0;
            &&& in_step(end, read_from(fm, i, r)->0, res.0, res.1, p)
            &&& read_from(t, st.out.len() as int, r2) == read_from(t, end.out.len() as int, res.1)
            &&& cut_from(
                t,
                st.out.len() as int,
                Cutting { out: st.out, emitted: st.emitted, open: open2 },
                p,
            ) == cut_from(
                t,
                end.out.len() as int,
                Cutting { out: end.out, emitted: end.emitted, open: res.0 },
                p,
            )
        }),
    decreases fm.len() - i,
{
    lemma_find_char_from(fm, i, '\n');
    if i < fm.len() {
        assert(fm[fm.len() - 1] == '\n');
        let e = line_end(fm, i);
        let seg = fm.subrange(i, e);
        assert(seg.last() == '\n');
        assert forall|j: int| 0 <= j < seg.len() - 1 implies #[trigger] seg[j] != '\n' by {
            assert(seg[j] == fm[i + j]);
        }
        let next = cut(seg, st, p)->Ok_0;
        let end = cut_from(fm, i, st, p)->Ok_0;
        lemma_cut_grows(fm, e, next, p);
        assert(t.take(next.out.len() as int) =~= t.take(end.out.len() as int).take(
            next.out.len() as int,
        ));
        let (o, b) = lemma_side_step(seg, st, r, t, open2, r2, p);
        lemma_side_by_side(fm, e, next, step(seg, 0, r)->Ok_0, t, o, b, p)
    } else {
        (open2, r2)
    }
}

/// What a plan leaves of a field that was `old`.
pub open spec fn field_after(p: Plan, k: Seq<char>, old: Option<FmModel>) -> Option<FmModel> {
    if !touched(p, k) {
        old
    } else if k == "tags"@ && p.drop_tags {
        None
    } else {
        field(p.fields, k)
    }
}

/// Fields that need not be added are passed over.
proof fn lemma_passed_over(
    fields: Fields,
    i: int,
    n: int,
    out: Seq<char>,
    emitted: Seq<Seq<char>>,
    drop_tags: bool,
)
    requires
        0 <= i <= n <= fields.len(),
        forall|x: int|
            i <= x < n ==> ((#[trigger] fields[x]).0 == "tags"@ && drop_tags) || emitted.contains(
                fields[x].0,
            ),
    ensures
        add_fields(fields, i, out, emitted, drop_tags) == add_fields(
            fields,
            n,
            out,
            emitted,
            drop_tags,
        ),
    decreases n - i,
{
    if i < n {
        assert(fields[i].0 == fields[i].0);
        lemma_passed_over(fields, i + 1, n, out, emitted, drop_tags);
    }
}

/// Only a field that the plan adds last may be among those it leaves out.
pub open spec fn plan_ok(p: Plan) -> bool {
    forall|x: int|
        0 <= x < p.fields.len() && p.remove.contains((#[trigger] p.fields[x]).0) ==> x
            == p.fields.len() - 1
}

proof fn lemma_added_grows(
    fields: Fields,
    j: int,
    out: Seq<char>,
    emitted: Seq<Seq<char>>,
    drop_tags: bool,
)
    requires
        0 <= j,
        add_fields(fields, j, out, emitted, drop_tags) is Ok,
    ensures
        ({
            let t = add_fields(fields, j, out, emitted, drop_tags)->Ok_0;
            t.len() >= out.len() && t.take(out.len() as int) == out
        }),
    decreases fields.len() - j,
{
    let t = add_fields(fields, j, out, emitted, drop_tags)->Ok_0;
    if j < fields.len() {
        if (fields[j].0 == "tags"@ && drop_tags) || emitted.contains(fields[j].0) {
            lemma_added_grows(fields, j + 1, out, emitted, drop_tags);
        } else {
            let more = out + field_text(fields[j].0, fields[j].1)->Ok_0;
            lemma_added_grows(fields, j + 1, more, emitted, drop_tags);
            assert(more.take(out.len() as int) =~= out);
            assert(t.take(out.len() as int) =~= t.take(more.len() as int).take(out.len() as int));
        }
    } else {
        assert(t.take(out.len() as int) =~= out);
    }
}

/// The fields added at the end, from the `j`th on: cut again they are written
/// the same, and they are read as the plan says.
#[verifier::rlimit(60)]
#[verifier::spinoff_prover]
proof fn lemma_added(
    p: Plan,
    j: int,
    out: Seq<char>,
    first: Seq<Seq<char>>,
    emitted: Seq<Seq<char>>,
    t: Seq<char>,
    open2: Option<Seq<char>>,
    r2: Reading,
)
    requires
        plan_ok(p),
        0 <= j <= p.fields.len(),
        add_fields(p.fields, j, out, first, p.drop_tags) == Ok::<_, Refusal>(t),
        read_from(t, out.len() as int, r2) is Some,
        distinct(r2.fields),
        forall|k: Seq<char>| first.contains(k) ==> #[trigger] emitted.contains(k),
        forall|x: int|
            0 <= x < j ==> ((#[trigger] p.fields[x]).0 == "tags"@ && p.drop_tags)
                || emitted.contains(p.fields[x].0),
        forall|k: Seq<char>|
            touched(p, k) ==> #[trigger] field(r2.fields, k) == if emitted.contains(k) {
                field(p.fields, k)
            } else {
                None
            },
        forall|k: Seq<char>| #[trigger] emitted.contains(k) ==> field(p.fields, k) is Some && !(k
            == "tags"@ && p.drop_tags),
    ensures
        ({
            let c = cut_from(t, out.len() as int, Cutting { out, emitted, open: open2 }, p);
            &&& c is Ok
            &&& add_fields(p.fields, 0, c->Ok_0.out, c->Ok_0.emitted, p.drop_tags) == Ok::<
                _,
                Refusal,
            >(t)
        }),
        forall|k: Seq<char>|
            #[trigger] field(read_from(t, out.len() as int, r2)->0.fields, k) == field_after(
                p,
                k,
                field(r2.fields, k),
            ),
    decreases p.fields.len() - j,
{
    let n = p.fields.len() as int;
    lemma_added_grows(p.fields, j, out, first, p.drop_tags);
    if j >= n {
        assert(out == t);
        lemma_passed_over(p.fields, 0, n, t, emitted, p.drop_tags);
        assert forall|k: Seq<char>| #[trigger] field(
            read_from(t, out.len() as int, r2)->0.fields,
            k,
        ) == field_after(p, k, field(r2.fields, k)) by {
            lemma_field_from(p.fields, 0, k);
            if touched(p, k) && field(p.fields, k) is Some && !(k == "tags"@ && p.drop_tags) {
                let x = choose|x: int|
                    0 <= x < n && #[trigger] p.fields[x] == (k, field(p.fields, k)->0);
                assert(emitted.contains(p.fields[x].0));
            }
            assert(field(r2.fields, k) == field(r2.fields, k));
        }
    } else {
        let (key, v) = p.fields[j];
        if (key == "tags"@ && p.drop_tags) || first.contains(key) {
            lemma_added(p, j + 1, out, first, emitted, t, open2, r2);
        } else {
            let ft = field_text(key, v)->Ok_0;
            let more = out + ft;
            let x = out.len() as int;
            lemma_added_grows(p.fields, j + 1, more, first, p.drop_tags);
            assert(t.subrange(x, x + ft.len()) =~= t.take(more.len() as int).skip(x));
            assert(more.skip(x) =~= ft);
            let st = Cutting { out, emitted, open: open2 };
            lemma_block(t, x, key, v, st, r2, p);
            lemma_field_from(p.fields, 0, key);
            assert(field(p.fields, key) is Some) by {
                if field(p.fields, key) is None {
                    assert(p.fields[j].0 != key);
                }
            }
            assert(touched(p, key));
            assert(field(r2.fields, key) is None);
            assert(!emitted.contains(key));
            assert forall|y: int| 0 <= y < j implies (#[trigger] p.fields[y]).0 != p.fields[j].0 by {
                if p.fields[y].0 == key {
                    assert(emitted.contains(p.fields[y].0));
                }
            }
            lemma_field_first(p.fields, 0, j);
            let after = Reading { fields: r2.fields.push((key, v)), open: v is List };
            lemma_distinct_push(r2.fields, (key, v));
            let now = emitted.push(key);
            assert(now[emitted.len() as int] == key);
            assert forall|k: Seq<char>| now.contains(k) == (emitted.contains(k) || k == key) by {
                if emitted.contains(k) {
                    let y = choose|y: int| 0 <= y < emitted.len() && emitted[y] == k;
                    assert(now[y] == k);
                }
                if now.contains(k) && k != key {
                    let y = choose|y: int| 0 <= y < now.len() && now[y] == k;
                    assert(emitted[y] == k);
                }
            }
            assert forall|k: Seq<char>| touched(p, k) implies #[trigger] field(after.fields, k)
                == (if now.contains(k) {
                field(p.fields, k)
            } else {
                None
            }) by {
                lemma_field_push(r2.fields, (key, v), k);
                assert(field(r2.fields, k) == field(r2.fields, k));
            }
            if p.remove.contains(key) {
                assert(j == n - 1);
                assert(more == t);
                let c = Cutting { out, emitted, open: left_open(key, v) };
                assert(cut_from(t, t.len() as int, c, p) == Ok::<_, Refusal>(c));
                lemma_passed_over(p.fields, 0, j, out, emitted, p.drop_tags);
                assert(add_fields(p.fields, j, out, emitted, p.drop_tags) == Ok::<_, Refusal>(t)) by {
                    assert(add_fields(p.fields, n, more, emitted, p.drop_tags) == Ok::<_, Refusal>(
                        more,
                    ));
                }
                assert forall|k: Seq<char>| #[trigger] field(
                    read_from(t, out.len() as int, r2)->0.fields,
                    k,
                ) == field_after(p, k, field(r2.fields, k)) by {
                    lemma_field_push(r2.fields, (key, v), k);
                    lemma_field_from(p.fields, 0, k);
                    if touched(p, k) && k != key && field(p.fields, k) is Some && !(k == "tags"@
                        && p.drop_tags) {
                        let y = choose|y: int|
                            0 <= y < n && #[trigger] p.fields[y] == (k, field(p.fields, k)->0);
                        assert(emitted.contains(p.fields[y].0));
                    }
                    assert(field(r2.fields, k) == field(r2.fields, k));
                }
            } else {
                assert forall|y: int| 0 <= y < j + 1 implies ((#[trigger] p.fields[y]).0
                    == "tags"@ && p.drop_tags) || now.contains(p.fields[y].0) by {
                    if y < j {
                        assert(emitted.contains(p.fields[y].0) || (p.fields[y].0 == "tags"@
                            && p.drop_tags));
                    }
                }
                lemma_added(p, j + 1, more, first, now, t, left_open(key, v), after);
                assert forall|k: Seq<char>| #[trigger] field(
                    read_from(t, out.len() as int, r2)->0.fields,
                    k,
                ) == field_after(p, k, field(r2.fields, k)) by {
                    lemma_field_push(r2.fields, (key, v), k);
                    assert(field(read_from(t, more.len() as int, after)->0.fields, k)
                        == field_after(p, k, field(after.fields, k)));
                }
            }
        }
    }
}

/// Keys already written are fields of the plan.
proof fn lemma_emitted(fm: Seq<char>, i: int, st: Cutting, p: Plan)
    requires
        0 <= i,
        cut_from(fm, i, st, p) is Ok,
        forall|k: Seq<char>| #[trigger] st.emitted.contains(k) ==> field(p.fields, k) is Some && !(k
            == "tags"@ && p.drop_tags),
    ensures
        forall|k: Seq<char>| #[trigger]
            cut_from(fm, i, st, p)->Ok_0.emitted.contains(k) ==> field(p.fields, k) is Some && !(k
                == "tags"@ && p.drop_tags),
    decreases fm.len() - i,
{
    let e = line_end(fm, i);
    if i < e <= fm.len() {
        let next = cut(fm.subrange(i, e), st, p)->Ok_0;
        assert forall|k: Seq<char>| #[trigger] next.emitted.contains(k) implies field(p.fields, k)
            is Some && !(k == "tags"@ && p.drop_tags) by {
            if !st.emitted.contains(k) {
                let y = choose|y: int| 0 <= y < next.emitted.len() && next.emitted[y] == k;
                if y < st.emitted.len() {
                    assert(st.emitted[y] == k);
                }
            }
        }
        lemma_emitted(fm, e, next, p);
    }
}

/// The text that a plan makes of a frontmatter: the same plan makes nothing
/// else of it, and it reads as the plan says.
proof fn lemma_rewritten(fm: Seq<char>, p: Plan)
    requires
        whole_lines(fm),
        plan_ok(p),
        frontmatter(fm) is Ok,
        rewritten(fm, p) is Ok,
        whole_lines(rewritten(fm, p)->Ok_0),
        frontmatter(rewritten(fm, p)->Ok_0) is Ok,
    ensures
        rewritten(rewritten(fm, p)->Ok_0, p) == rewritten(fm, p),
        forall|k: Seq<char>|
            #[trigger] field(frontmatter(rewritten(fm, p)->Ok_0)->Ok_0, k) == field_after(
                p,
                k,
                field(frontmatter(fm)->Ok_0, k),
            ),
{
    let t = rewritten(fm, p)->Ok_0;
    let end = cut_from(fm, 0, uncut(), p)->Ok_0;
    lemma_frontmatter_read(fm);
    lemma_frontmatter_read(t);
    lemma_added_grows(p.fields, 0, end.out, end.emitted, p.drop_tags);
    let (o, b) = lemma_side_by_side(fm, 0, uncut(), unread(), t, None, unread(), p);
    lemma_emitted(fm, 0, uncut(), p);
    lemma_added(p, 0, end.out, end.emitted, end.emitted, t, o, b);
    let f = frontmatter(fm)->Ok_0;
    assert forall|k: Seq<char>| #[trigger] field(frontmatter(t)->Ok_0, k) == field_after(
        p,
        k,
        field(f, k),
    ) by {
        assert(field(read_from(t, end.out.len() as int, b)->0.fields, k) == field_after(
            p,
            k,
            field(b.fields, k),
        ));
        assert(field(b.fields, k) == field(b.fields, k));
    }
}

// ---------------------------------------------------------------------
// Documents
// ---------------------------------------------------------------------

/// No line of a text closes a frontmatter.
spec fn unclosed(t: Seq<char>) -> bool {
    forall|j: int| 0 <= j < t.len() && #[trigger] line_starts(t, j) ==> !closes_at(t, j)
}

/// Texts of whole lines that do not close, one after the other.
proof fn lemma_unclosed_join(a: Seq<char>, b: Seq<char>)
    requires
        whole_lines(a),
        whole_lines(b),
        unclosed(a),
        unclosed(b),
    ensures
        whole_lines(a + b),
        unclosed(a + b),
{
    let w = a + b;
    let n = a.len() as int;
    assert forall|j: int| 0 <= j < w.len() && #[trigger] line_starts(w, j) implies !closes_at(
        w,
        j,
    ) by {
        lemma_find_char_from(w, j, '\n');
        if j < n {
            assert(line_starts(a, j)) by {
                if j > 0 {
                    assert(w[j - 1] == a[j - 1]);
                }
            }
            lemma_find_char_from(a, j, '\n');
            assert(a[n - 1] == '\n');
            let k = find_char_from(a, j, '\n')->0;
            assert(w[k] == a[k]);
            let kw = find_char_from(w, j, '\n')->0;
            if kw < k {
                assert(w[kw] == a[kw]);
            }
            assert(w.subrange(j, k + 1) =~= a.subrange(j, k + 1));
        } else {
            let i = j - n;
            assert(line_starts(b, i)) by {
                if i > 0 {
                    assert(w[j - 1] == b[i - 1]);
                }
            }
            lemma_find_char_from(b, i, '\n');
            assert(b[b.len() - 1] == '\n');
            let k = find_char_from(b, i, '\n')->0;
            assert(w[n + k] == b[k]);
            let kw = find_char_from(w, j, '\n')->0;
            if kw < n + k {
                assert(w[kw] == b[kw - n]);
            }
            assert(w.subrange(j, n + k + 1) =~= b.subrange(i, k + 1));
        }
    }
    if b.len() > 0 {
        assert(w.last() == b.last());
    } else {
        assert(w =~= a);
    }
}

/// A single line that is no delimiter does not close.
proof fn lemma_unclosed_line(seg: Seq<char>)
    requires
        seg.len() > 0,
        seg.last() == '\n',
        forall|j: int| 0 <= j < seg.len() - 1 ==> #[trigger] seg[j] != '\n',
        trim_eol(seg) != "---"@,
    ensures
        whole_lines(seg),
        unclosed(seg),
{
    assert(seg.subrange(0, seg.len() as int) =~= seg);
    lemma_line_at(seg, 0, seg);
    assert forall|j: int| 0 <= j < seg.len() && #[trigger] line_starts(seg, j) implies !closes_at(
        seg,
        j,
    ) by {
        if j > 0 {
            assert(seg[j - 1] != '\n');
        }
    }
}

/// A line with a colon, or one that starts with a space, is no delimiter.
proof fn lemma_no_delimiter(l: Seq<char>)
    requires
        l.len() > 0,
        l.last() != '\r',
        l.last() != '\n',
        l[0] == ' ' || l.contains(':'),
    ensures
        trim_eol(l.push('\n')) != "---"@,
{
    reveal_strlit("---");
    assert(l.push('\n').drop_last() =~= l);
    assert(trim_eol(l) == l);
    assert(trim_eol(l.push('\n')) == trim_eol(l));
    if l == "---"@ {
        if l.contains(':') {
            let j = choose|j: int| 0 <= j < l.len() && l[j] == ':';
            assert("---"@[j] == '-');
        }
    }
}

proof fn lemma_items_unclosed(items: Seq<Seq<char>>, n: int)
    requires
        0 <= n <= items.len(),
        items_text(items, n) is Ok,
    ensures
        whole_lines(items_text(items, n)->Ok_0),
        unclosed(items_text(items, n)->Ok_0),
    decreases n,
{
    if n > 0 {
        lemma_items_unclosed(items, n - 1);
        reveal_strlit("\n");
        reveal_strlit("  - ");
        let l = item_line(items[n - 1]);
        lemma_item_line(items[n - 1]);
        lemma_scalar_round_trip(items[n - 1], 0);
        let sc = scalar_text(items[n - 1])->Ok_0;
        assert(l.last() == sc.last());
        let seg = l.push('\n');
        assert forall|j: int| 0 <= j < seg.len() - 1 implies #[trigger] seg[j] != '\n' by {
            assert(seg[j] == l[j]);
            assert(l.contains(l[j]));
        }
        lemma_no_delimiter(l);
        lemma_unclosed_line(seg);
        lemma_unclosed_join(items_text(items, n - 1)->Ok_0, seg);
        assert(items_text(items, n)->Ok_0 =~= items_text(items, n - 1)->Ok_0 + seg);
    }
}

/// A written field does not close a frontmatter.
proof fn lemma_field_unclosed(key: Seq<char>, v: FmModel)
    requires
        field_text(key, v) is Ok,
    ensures
        whole_lines(field_text(key, v)->Ok_0),
        unclosed(field_text(key, v)->Ok_0),
{
    reveal_strlit("\n");
    reveal_strlit(": ");
    reveal_strlit(":\n");
    let ft = field_text(key, v)->Ok_0;
    assert forall|j: int| 0 <= j < key.len() implies #[trigger] key[j] != '\n' by {
        assert(crate::text::is_alnum(key[j]) || key[j] == '_' || key[j] == '-');
    }
    match v {
        FmModel::Scalar(s) => {
            let sc = scalar_text(s)->Ok_0;
            lemma_scalar_round_trip(s, 0);
            let l = key + ": "@ + sc;
            let seg = l.push('\n');
            assert(ft =~= seg);
            assert(l[key.len() as int] == ':');
            assert(l.contains(l[key.len() as int]));
            assert(l.last() == sc.last());
            assert forall|j: int| 0 <= j < seg.len() - 1 implies #[trigger] seg[j] != '\n' by {
                if j < key.len() {
                    assert(seg[j] == key[j]);
                } else if j >= key.len() + 2 {
                    assert(seg[j] == sc[j - key.len() - 2]);
                    assert(sc.contains(sc[j - key.len() - 2]));
                }
            }
            lemma_no_delimiter(l);
            lemma_unclosed_line(seg);
        },
        FmModel::List(items) => {
            let l = key.push(':');
            let seg = l.push('\n');
            assert(seg =~= key + ":\n"@);
            assert(l[key.len() as int] == ':');
            assert(l.contains(l[key.len() as int]));
            assert forall|j: int| 0 <= j < seg.len() - 1 implies #[trigger] seg[j] != '\n' by {
                if j < key.len() {
                    assert(seg[j] == key[j]);
                }
            }
            lemma_no_delimiter(l);
            lemma_unclosed_line(seg);
            lemma_items_unclosed(items, items.len() as int);
            lemma_unclosed_join(seg, items_text(items, items.len() as int)->Ok_0);
        },
    }
}

proof fn lemma_cut_unclosed(fm: Seq<char>, i: int, st: Cutting, p: Plan)
    requires
        whole_lines(fm),
        unclosed(fm),
        0 <= i <= fm.len(),
        line_starts(fm, i),
        cut_from(fm, i, st, p) is Ok,
        whole_lines(st.out),
        unclosed(st.out),
    ensures
        whole_lines(cut_from(fm, i, st, p)->Ok_0.out),
        unclosed(cut_from(fm, i, st, p)->Ok_0.out),
    decreases fm.len() - i,
{
    lemma_find_char_from(fm, i, '\n');
    if i < fm.len() {
        assert(fm[fm.len() - 1] == '\n');
        let e = line_end(fm, i);
        let seg = fm.subrange(i, e);
        let next = cut(seg, st, p)->Ok_0;
        assert(!closes_at(fm, i));
        assert forall|j: int| 0 <= j < seg.len() - 1 implies #[trigger] seg[j] != '\n' by {
            assert(seg[j] == fm[i + j]);
        }
        lemma_unclosed_line(seg);
        lemma_unclosed_join(st.out, seg);
        match owner(trim_end(seg), st.open) {
            Some(key) => {
                if field(p.fields, key) is Some && field_text(key, field(p.fields, key)->0) is Ok {
                    lemma_field_unclosed(key, field(p.fields, key)->0);
                    lemma_unclosed_join(st.out, field_text(key, field(p.fields, key)->0)->Ok_0);
                }
            },
            None => {},
        }
        lemma_cut_unclosed(fm, e, next, p);
    }
}

proof fn lemma_added_unclosed(
    fields: Fields,
    j: int,
    out: Seq<char>,
    emitted: Seq<Seq<char>>,
    drop_tags: bool,
)
    requires
        0 <= j,
        add_fields(fields, j, out, emitted, drop_tags) is Ok,
        whole_lines(out),
        unclosed(out),
    ensures
        whole_lines(add_fields(fields, j, out, emitted, drop_tags)->Ok_0),
        unclosed(add_fields(fields, j, out, emitted, drop_tags)->Ok_0),
    decreases fields.len() - j,
{
    if j < fields.len() {
        if (fields[j].0 == "tags"@ && drop_tags) || emitted.contains(fields[j].0) {
            lemma_added_unclosed(fields, j + 1, out, emitted, drop_tags);
        } else {
            let ft = field_text(fields[j].0, fields[j].1)->Ok_0;
            lemma_field_unclosed(fields[j].0, fields[j].1);
            lemma_unclosed_join(out, ft);
            lemma_added_unclosed(fields, j + 1, out + ft, emitted, drop_tags);
        }
    }
}

/// The frontmatter of a document is made of whole lines, and none closes it.
proof fn lemma_split_unclosed(raw: Seq<char>, max: nat)
    requires
        split(raw, max) is Ok,
    ensures
        whole_lines(split(raw, max)->Ok_0.0),
        unclosed(split(raw, max)->Ok_0.0),
        closes_at(raw.skip(open_len(raw)->0 as int), split(raw, max)->Ok_0.0.len() as int),
{
    let fm = split(raw, max)->Ok_0.0;
    lemma_split_parts(raw, max);
    let t = raw.skip(open_len(raw)->0 as int);
    lemma_first_closing(t, 0, max);
    let n = fm.len() as int;
    assert(fm =~= t.take(n));
    if n > 0 {
        assert(fm.last() == t[n - 1]);
    }
    assert forall|j: int| 0 <= j < fm.len() && #[trigger] line_starts(fm, j) implies !closes_at(
        fm,
        j,
    ) by {
        assert(line_starts(t, j)) by {
            if j > 0 {
                assert(t[j - 1] == fm[j - 1]);
            }
        }
        lemma_find_char_from(fm, j, '\n');
        lemma_find_char_from(t, j, '\n');
        assert(fm[n - 1] == '\n');
        let k = find_char_from(fm, j, '\n')->0;
        assert(t[k] == fm[k]);
        let kt = find_char_from(t, j, '\n')->0;
        if kt < k {
            assert(t[kt] == fm[kt]);
        }
        assert(t.subrange(j, k + 1) =~= fm.subrange(j, k + 1));
    }
}

/// Another frontmatter text of whole lines that do not close is found where it
/// was put.
proof fn lemma_put_frontmatter(raw: Seq<char>, text: Seq<char>, max: nat)
    requires
        split(raw, max) is Ok,
        whole_lines(text),
        unclosed(text),
        split(with_frontmatter(raw, split(raw, max)->Ok_0.0, text), max) is Ok,
    ensures
        ({
            let out = with_frontmatter(raw, split(raw, max)->Ok_0.0, text);
            &&& split(out, max)->Ok_0.0 == text
            &&& open_len(out) == open_len(raw)
        }),
{
    let fm = split(raw, max)->Ok_0.0;
    let out = with_frontmatter(raw, fm, text);
    lemma_split_parts(raw, max);
    lemma_split_unclosed(raw, max);
    let o = open_len(raw)->0 as int;
    reveal_strlit("---\n");
    reveal_strlit("---\r\n");
    if starts_with(raw, "---\n"@) {
        assert(out.subrange(0, 4) =~= raw.subrange(0, 4));
    } else {
        assert(out.subrange(0, 5) =~= raw.subrange(0, 5));
        if starts_with(out, "---\n"@) {
            assert(out.subrange(0, 4) =~= raw.subrange(0, 4));
        }
    }
    assert(open_len(out) == open_len(raw));
    let t = raw.skip(o);
    let u = out.skip(o);
    let n = text.len() as int;
    let rest = raw.skip(o + fm.len());
    assert(u =~= text + rest);
    assert(t =~= fm + rest);
    lemma_first_closing(u, 0, max);
    let a = split(out, max)->Ok_0.0.len() as int;
    // The line where the old closing delimiter stands closes.
    lemma_find_char_from(t, fm.len() as int, '\n');
    lemma_find_char_from(u, n, '\n');
    assert(line_starts(u, n)) by {
        if n > 0 {
            assert(u[n - 1] == text[n - 1]);
        }
    }
    let d = n - fm.len();
    assert forall|j: int| fm.len() <= j < t.len() implies #[trigger] u[j + d] == t[j] by {
        assert(u[j + d] == rest[j - fm.len()]);
        assert(t[j] == rest[j - fm.len()]);
    }
    assert(line_end(u, n) == line_end(t, fm.len() as int) + d) by {
        match find_char_from(t, fm.len() as int, '\n') {
            Some(k) => {
                assert(u[k + d] == t[k]);
                let ku = find_char_from(u, n, '\n')->0;
                if ku < k + d {
                    assert(u[(ku - d) + d] == t[ku - d]);
                }
            },
            None => {
                if find_char_from(u, n, '\n') is Some {
                    let ku = find_char_from(u, n, '\n')->0;
                    assert(u[(ku - d) + d] == t[ku - d]);
                }
            },
        }
    }
    assert(u.subrange(n, line_end(u, n)) =~= t.subrange(
        fm.len() as int,
        line_end(t, fm.len() as int),
    ));
    assert(closes_at(u, n));
    lemma_split_parts(out, max);
    if a > n {
        assert(!closes_at(u, n));
    } else if a < n {
        assert(closes_at(u, a));
        assert(line_starts(text, a)) by {
            if a > 0 {
                assert(u[a - 1] == text[a - 1]);
            }
        }
        lemma_find_char_from(text, a, '\n');
        lemma_find_char_from(u, a, '\n');
        assert(text[n - 1] == '\n');
        let k = find_char_from(text, a, '\n')->0;
        assert(u[k] == text[k]);
        let ku = find_char_from(u, a, '\n')->0;
        if ku < k {
            assert(u[ku] == text[ku]);
        }
        assert(u.subrange(a, k + 1) =~= text.subrange(a, k + 1));
        assert(closes_at(text, a));
    }
    assert(split(out, max)->Ok_0.0 =~= text) by {
        assert(out.subrange(o, o + a) =~= text);
    }
}

proof fn lemma_clash(set: Fields, i: int, remove: Seq<Seq<char>>, x: int)
    requires
        0 <= i <= x < set.len(),
        clash(set, i, remove) is None,
    ensures
        !remove.contains(set[x].0),
    decreases x - i,
{
    if i < x {
        lemma_clash(set, i + 1, remove, x);
    }
}

proof fn lemma_untagged(set: Fields, n: int, x: int)
    requires
        0 <= n <= set.len(),
        0 <= x < untagged(set, n).len(),
    ensures
        untagged(set, n)[x].0 != "tags"@,
        exists|y: int| 0 <= y < n && #[trigger] set[y] == untagged(set, n)[x],
    decreases n,
{
    if n > 0 {
        let before = untagged(set, n - 1);
        if x < before.len() {
            lemma_untagged(set, n - 1, x);
            let y = choose|y: int| 0 <= y < n - 1 && #[trigger] set[y] == before[x];
            assert(set[y] == untagged(set, n)[x]);
        } else {
            assert(set[n - 1] == untagged(set, n)[x]);
        }
    }
}

/// A plan names no field that it also leaves out, but for the tags.
proof fn lemma_plan_ok(patch: PatchModel, tags: Seq<Seq<char>>)
    requires
        plan(patch, tags) is Ok,
    ensures
        plan_ok(plan(patch, tags)->Ok_0),
{
    let p = plan(patch, tags)->Ok_0;
    let others = untagged(patch.set, patch.set.len() as int);
    assert forall|x: int|
        0 <= x < p.fields.len() && p.remove.contains((#[trigger] p.fields[x]).0) implies x
        == p.fields.len() - 1 by {
        if x < others.len() {
            assert(p.fields[x] == others[x]);
            lemma_untagged(patch.set, patch.set.len() as int, x);
            let y = choose|y: int|
                0 <= y < patch.set.len() && #[trigger] patch.set[y] == others[x];
            lemma_clash(patch.set, 0, patch.remove, y);
        }
    }
}

/// What a patch that succeeds says of the fields of a document.
proof fn lemma_patched(raw: Seq<char>, patch: PatchModel, budget: Budget)
    requires
        patched(raw, patch, budget) is Ok,
    ensures
        ({
            let max = budget.max_frontmatter_bytes as nat;
            let fm = split(raw, max)->Ok_0.0;
            let p = plan(patch, parsed(raw, budget)->Ok_0.tags)->Ok_0;
            let t = rewritten(fm, p)->Ok_0;
            let out = patched(raw, patch, budget)->Ok_0;
            &&& parsed(raw, budget) is Ok
            &&& parsed(out, budget) is Ok
            &&& plan(patch, parsed(raw, budget)->Ok_0.tags) is Ok
            &&& rewritten(fm, p) is Ok
            &&& out == with_frontmatter(raw, fm, t)
            &&& split(out, max)->Ok_0.0 == t
            &&& open_len(out) == open_len(raw)
            &&& rewritten(t, p) == Ok::<_, Refusal>(t)
            &&& with_frontmatter(out, t, t) == out
            &&& forall|k: Seq<char>|
                #[trigger] field(frontmatter(t)->Ok_0, k) == field_after(
                    p,
                    k,
                    field(frontmatter(fm)->Ok_0, k),
                )
        }),
{
    let max = budget.max_frontmatter_bytes as nat;
    let fm = split(raw, max)->Ok_0.0;
    let p = plan(patch, parsed(raw, budget)->Ok_0.tags)->Ok_0;
    let t = rewritten(fm, p)->Ok_0;
    let out = patched(raw, patch, budget)->Ok_0;
    lemma_split_unclosed(raw, max);
    lemma_plan_ok(patch, parsed(raw, budget)->Ok_0.tags);
    let end = cut_from(fm, 0, uncut(), p)->Ok_0;
    lemma_cut_unclosed(fm, 0, uncut(), p);
    lemma_added_unclosed(p.fields, 0, end.out, end.emitted, p.drop_tags);
    lemma_put_frontmatter(raw, t, max);
    lemma_rewritten(fm, p);
    lemma_split_parts(out, max);
    assert(with_frontmatter(out, t, t) =~= out);
}

/// A patch that succeeds had a plan.
pub proof fn lemma_planned(raw: Seq<char>, patch: PatchModel, budget: Budget)
    requires
        patched(raw, patch, budget) is Ok,
    ensures
        parsed(raw, budget) is Ok,
        plan(patch, parsed(raw, budget)->Ok_0.tags) is Ok,
{
    lemma_patched(raw, patch, budget);
}

/// The tags of a patched document are those that the patch leaves.
pub proof fn law_patched_tags(raw: Seq<char>, patch: PatchModel, budget: Budget)
    requires
        patched(raw, patch, budget) is Ok,
    ensures
        parsed(patched(raw, patch, budget)->Ok_0, budget)->Ok_0.tags == final_tags(
            patch,
            parsed(raw, budget)->Ok_0.tags,
        ),
{
    lemma_patched(raw, patch, budget);
    let max = budget.max_frontmatter_bytes as nat;
    let fm = split(raw, max)->Ok_0.0;
    let tags = parsed(raw, budget)->Ok_0.tags;
    let p = plan(patch, tags)->Ok_0;
    let t = rewritten(fm, p)->Ok_0;
    let f = frontmatter(fm)->Ok_0;
    let others = untagged(patch.set, patch.set.len() as int);
    assert(field(frontmatter(t)->Ok_0, "tags"@) == field_after(p, "tags"@, field(f, "tags"@)));
    lemma_field_from(others, 0, "tags"@);
    if field(others, "tags"@) is Some {
        let j = choose|j: int|
            0 <= j < others.len() && #[trigger] others[j] == (
                "tags"@,
                field(others, "tags"@)->0,
            );
        lemma_untagged(patch.set, patch.set.len() as int, j);
    }
    if touches_tags(patch) {
        lemma_field_push(
            others,
            ("tags"@, FmModel::List(final_tags(patch, tags))),
            "tags"@,
        );
        if p.drop_tags {
            assert(final_tags(patch, tags) =~= Seq::empty());
        }
    }
}

/// A field that a patch does not name keeps its value; one that it sets has
/// the value set; one that it removes is gone.
pub proof fn law_patched_fields(raw: Seq<char>, patch: PatchModel, budget: Budget, k: Seq<char>)
    requires
        patched(raw, patch, budget) is Ok,
        k != "tags"@,
    ensures
        ({
            let max = budget.max_frontmatter_bytes as nat;
            let before = frontmatter(split(raw, max)->Ok_0.0)->Ok_0;
            let out = patched(raw, patch, budget)->Ok_0;
            let after = frontmatter(split(out, max)->Ok_0.0)->Ok_0;
            field(after, k) == if field(patch.set, k) is Some {
                field(patch.set, k)
            } else if patch.remove.contains(k) {
                None
            } else {
                field(before, k)
            }
        }),
{
    lemma_patched(raw, patch, budget);
    let max = budget.max_frontmatter_bytes as nat;
    let fm = split(raw, max)->Ok_0.0;
    let tags = parsed(raw, budget)->Ok_0.tags;
    let p = plan(patch, tags)->Ok_0;
    let t = rewritten(fm, p)->Ok_0;
    assert(field(frontmatter(t)->Ok_0, k) == field_after(
        p,
        k,
        field(frontmatter(fm)->Ok_0, k),
    ));
    lemma_untagged_field(patch.set, patch.set.len() as int, k);
    assert(patch.set.take(patch.set.len() as int) =~= patch.set);
    let others = untagged(patch.set, patch.set.len() as int);
    if touches_tags(patch) {
        lemma_field_push(others, ("tags"@, FmModel::List(final_tags(patch, tags))), k);
    }
    lemma_field_from(patch.set, 0, k);
    if field(patch.set, k) is Some {
        let y = choose|y: int|
            0 <= y < patch.set.len() && #[trigger] patch.set[y] == (k, field(patch.set, k)->0);
        lemma_clash(patch.set, 0, patch.remove, y);
    }
}

proof fn lemma_untagged_field(set: Fields, n: int, k: Seq<char>)
    requires
        0 <= n <= set.len(),
        k != "tags"@,
    ensures
        field(untagged(set, n), k) == field(set.take(n), k),
    decreases n,
{
    if n > 0 {
        lemma_untagged_field(set, n - 1, k);
        assert(set.take(n) =~= set.take(n - 1).push(set[n - 1]));
        lemma_field_push(set.take(n - 1), set[n - 1], k);
        lemma_field_push(untagged(set, n - 1), set[n - 1], k);
    }
}

/// The tags that a patch leaves are not changed by the same patch.
pub open spec fn tags_settle(patch: PatchModel, tags: Seq<Seq<char>>) -> bool {
    final_tags(patch, final_tags(patch, tags)) == final_tags(patch, tags)
}

proof fn lemma_without(s: Seq<Seq<char>>, out: Seq<Seq<char>>, n: int)
    requires
        0 <= n <= s.len(),
    ensures
        forall|i: int|
            0 <= i < without(s, out, n).len() ==> !out.contains(#[trigger] without(s, out, n)[i]),
        (forall|i: int| 0 <= i < n ==> !out.contains(#[trigger] s[i])) ==> without(s, out, n)
            == s.take(n),
    decreases n,
{
    if n > 0 {
        lemma_without(s, out, n - 1);
        let a = without(s, out, n - 1);
        let b = without(s, out, n);
        assert forall|i: int| 0 <= i < b.len() implies !out.contains(#[trigger] b[i]) by {
            if i < a.len() {
                assert(b[i] == a[i]);
            }
        }
        assert(s.take(n) =~= s.take(n - 1).push(s[n - 1]));
    } else {
        assert(s.take(0) =~= Seq::empty());
    }
}

proof fn lemma_with_new(s: Seq<Seq<char>>, more: Seq<Seq<char>>, n: int)
    requires
        0 <= n <= more.len(),
    ensures
        forall|i: int|
            0 <= i < with_new(s, more, n).len() ==> s.contains(
                #[trigger] with_new(s, more, n)[i],
            ) || more.contains(with_new(s, more, n)[i]),
        forall|i: int| 0 <= i < n ==> with_new(s, more, n).contains(#[trigger] more[i]),
        (forall|i: int| 0 <= i < n ==> s.contains(#[trigger] more[i])) ==> with_new(s, more, n)
            == s,
    decreases n,
{
    if n > 0 {
        lemma_with_new(s, more, n - 1);
        let a = with_new(s, more, n - 1);
        let b = with_new(s, more, n);
        assert forall|i: int| 0 <= i < n implies b.contains(#[trigger] more[i]) by {
            if a.contains(more[i]) {
                let j = choose|j: int| 0 <= j < a.len() && a[j] == more[i];
                assert(b[j] == more[i]);
            } else {
                assert(b[a.len() as int] == more[i]);
            }
        }
        assert(more.contains(more[n - 1]));
    } else {
        assert forall|i: int| 0 <= i < s.len() implies s.contains(#[trigger] s[i]) by {}
    }
}

/// Tags settle wherever no tag is both added and taken away.
pub proof fn law_tags_settle(patch: PatchModel, tags: Seq<Seq<char>>)
    requires
        forall|i: int|
            0 <= i < patch.add_tags.len() ==> !patch.remove_tags.contains(
                #[trigger] patch.add_tags[i],
            ),
    ensures
        tags_settle(patch, tags),
{
    let once = final_tags(patch, tags);
    if touches_tags(patch) {
        match field(patch.set, "tags"@) {
            Some(FmModel::List(_)) => {},
            _ => {
                let kept = without(tags, patch.remove_tags, tags.len() as int);
                let n = patch.add_tags.len() as int;
                lemma_without(tags, patch.remove_tags, tags.len() as int);
                lemma_with_new(kept, patch.add_tags, n);
                assert forall|i: int| 0 <= i < once.len() implies !patch.remove_tags.contains(
                    #[trigger] once[i],
                ) by {
                    if kept.contains(once[i]) {
                        let j = choose|j: int| 0 <= j < kept.len() && kept[j] == once[i];
                        assert(!patch.remove_tags.contains(kept[j]));
                    } else {
                        let j = choose|j: int|
                            0 <= j < n && patch.add_tags[j] == once[i];
                        assert(!patch.remove_tags.contains(patch.add_tags[j]));
                    }
                }
                lemma_without(once, patch.remove_tags, once.len() as int);
                assert(once.take(once.len() as int) =~= once);
                lemma_with_new(once, patch.add_tags, n);
            },
        }
    }
}

/// Applying a patch again changes nothing: no field is repeated and no tag is
/// moved. A tag that is both added and taken away may move to the end, and is
/// left out where it does.
pub proof fn law_patching_twice_is_patching_once(
    raw: Seq<char>,
    patch: PatchModel,
    budget: Budget,
)
    requires
        patched(raw, patch, budget) is Ok,
        tags_settle(patch, parsed(raw, budget)->Ok_0.tags),
    ensures
        patched(patched(raw, patch, budget)->Ok_0, patch, budget) == patched(raw, patch, budget),
{
    lemma_patched(raw, patch, budget);
    law_patched_tags(raw, patch, budget);
}

} // verus!
