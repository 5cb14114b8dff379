//! What the lines of a document say.

use vstd::prelude::*;
use crate::axiom_laws::{is_tight, is_word, lemma_keyed};
use crate::model::{valid_id, Budget};
use crate::okf::{
    field, field_from, frontmatter, key_ok, link, links_in, marker_error, parsed, read_lines,
    rel_ok, scalar, scan, split, step, with_item, Fields, FmModel, LinkModel, Reading,
};
use crate::text::{
    at, find_from, lemma_find_char_from, lemma_find_from, lines, starts_with, trim, trim_end,
    trim_start,
};

verus! {

/// A value that stands on its line as it is: no quotes, no mark that the
/// frontmatter does not take, no comment.
pub open spec fn is_plain_value(v: Seq<char>) -> bool {
    &&& is_tight(v)
    &&& v[0] != '"'
    &&& v[0] != '|' && v[0] != '>' && v[0] != '&' && v[0] != '*' && v[0] != '{' && v[0] != '['
    &&& forall|i: int| 0 <= i < v.len() - 1 ==> !(#[trigger] v[i] == ' ' && v[i + 1] == '#')
}

proof fn lemma_plain_scalar(v: Seq<char>, line: nat)
    requires
        is_plain_value(v),
    ensures
        scalar(v, line) == Ok::<_, crate::okf::OkfErrorModel>(v),
{
    reveal_strlit(" #");
    assert(marker_error(v[0]) is None);
    lemma_find_from(v, 0, " #"@);
    if let Some(k) = find_from(v, 0, " #"@) {
        let s = v.subrange(k, k + 2);
        assert(s[0] == ' ' && s[1] == '#');
        assert(v[k] == ' ' && v[k + 1] == '#');
    }
}

proof fn lemma_ends(s: Seq<char>)
    requires
        is_tight(s),
    ensures
        trim_start(s) == s,
        trim_end(s) == s,
{
}

/// A line `key: value` gives the field.
proof fn lemma_field_line(key: Seq<char>, v: Seq<char>, no: nat, st: Reading)
    requires
        is_word(key),
        key_ok(key),
        is_plain_value(v),
        step(key + ": "@ + v, no, st) is Ok,
    ensures
        step(key + ": "@ + v, no, st)->Ok_0 == (Reading {
            fields: st.fields.push((key, FmModel::Scalar(v))),
            open: false,
        }),
{
    let line = key + ": "@ + v;
    lemma_keyed(key, v);
    reveal_strlit(": ");
    reveal_strlit("- ");
    assert(line[0] == key[0] && line.last() == v.last());
    lemma_ends(line);
    let c = key.len() as int;
    assert(line[c] == ':');
    if starts_with(line, "- "@) {
        assert(line.subrange(0, 2)[1] == ' ');
        assert(line[1] == ' ');
        if c > 1 {
            assert(key[1] == ' ');
            assert(key_ok(key));
            lemma_space_no_key(key, 1);
        }
    }
    lemma_plain_scalar(v, no);
}

proof fn lemma_space_no_key(key: Seq<char>, i: int)
    requires
        key_ok(key),
        0 <= i < key.len(),
    ensures
        key[i] != ' ',
{
    assert(crate::text::is_alnum(key[i]) || key[i] == '_' || key[i] == '-');
}

/// A line `key:` opens a list.
proof fn lemma_list_line(key: Seq<char>, no: nat, st: Reading)
    requires
        is_word(key),
        key_ok(key),
        step(key + ":"@, no, st) is Ok,
    ensures
        step(key + ":"@, no, st)->Ok_0 == (Reading {
            fields: st.fields.push((key, FmModel::List(Seq::empty()))),
            open: true,
        }),
{
    let line = key + ":"@;
    let c = key.len() as int;
    reveal_strlit(":");
    reveal_strlit("- ");
    reveal_strlit("#");
    assert(line[0] == key[0] && line.last() == ':');
    lemma_ends(line);
    lemma_ends(key);
    if starts_with(line, "#"@) {
        assert(line.subrange(0, 1)[0] == '#');
    }
    if starts_with(line, "- "@) {
        assert(line.subrange(0, 2)[1] == ' ');
        assert(line[1] == ' ');
        if c > 1 {
            lemma_space_no_key(key, 1);
        }
    }
    lemma_find_char_from(line, 0, ':');
    assert(line[c] == ':');
    assert forall|j: int| 0 <= j < c implies #[trigger] line[j] != ':' by {
        assert(line[j] == key[j]);
    }
    assert(line.take(c) =~= key);
    assert(line.skip(c + 1) =~= Seq::<char>::empty());
    assert(trim(line.skip(c + 1)).len() == 0);
}

/// A line `  - value` adds an item to the list that is open.
proof fn lemma_item_line(v: Seq<char>, no: nat, st: Reading)
    requires
        is_plain_value(v),
        st.open,
    ensures
        step("  - "@ + v, no, st) == Ok::<_, crate::okf::OkfErrorModel>(
            Reading { fields: with_item(st.fields, v), open: true },
        ),
{
    let line = "  - "@ + v;
    reveal_strlit("  - ");
    reveal_strlit("- ");
    reveal_strlit("#");
    let rest = "- "@ + v;
    assert(line.last() == v.last());
    assert(trim_end(line) == line);
    assert(line.skip(1).skip(1) =~= rest);
    assert(line.skip(1)[0] == ' ');
    assert(rest[0] == '-');
    assert(trim_start(rest) == rest);
    assert(trim_start(line.skip(1)) == rest);
    assert(trim_start(line) == rest);
    if starts_with(rest, "#"@) {
        assert(rest.subrange(0, 1)[0] == '#');
    }
    assert(rest.subrange(0, 2) =~= "- "@);
    assert(rest.skip(2) =~= v);
    lemma_plain_scalar(v, no);
}

/// Fields before the last stay as they are, and so does a last one that is no
/// list.
spec fn keeps(f: Fields, g: Fields, i: int) -> bool {
    i < g.len() && g[i] == f[i]
}

proof fn lemma_step_keeps(raw_line: Seq<char>, no: nat, st: Reading, i: int)
    requires
        step(raw_line, no, st) is Ok,
        0 <= i < st.fields.len(),
        i < st.fields.len() - 1 || st.fields[i].1 is Scalar,
    ensures
        keeps(st.fields, step(raw_line, no, st)->Ok_0.fields, i),
        i < step(raw_line, no, st)->Ok_0.fields.len() - 1
            || step(raw_line, no, st)->Ok_0.fields[i].1 is Scalar,
{
}

proof fn lemma_lines_keep(ls: Seq<Seq<char>>, k: int, st: Reading, i: int)
    requires
        0 <= k,
        read_lines(ls, k, st) is Ok,
        0 <= i < st.fields.len(),
        i < st.fields.len() - 1 || st.fields[i].1 is Scalar,
    ensures
        keeps(st.fields, read_lines(ls, k, st)->Ok_0, i),
    decreases ls.len() - k,
{
    if k < ls.len() {
        let no = (k + 2) as nat;
        lemma_step_keeps(ls[k], no, st, i);
        lemma_lines_keep(ls, k + 1, step(ls[k], no, st)->Ok_0, i);
    }
}

/// The last field keeps its name, and a list keeps its items, more at its end
/// aside.
spec fn grows(x: (Seq<char>, FmModel), y: (Seq<char>, FmModel)) -> bool {
    &&& x.0 == y.0
    &&& match (x.1, y.1) {
        (FmModel::List(a), FmModel::List(c)) => a.is_prefix_of(c),
        (a, c) => a == c,
    }
}

proof fn lemma_lines_grow(ls: Seq<Seq<char>>, k: int, st: Reading, i: int)
    requires
        0 <= k,
        read_lines(ls, k, st) is Ok,
        0 <= i < st.fields.len(),
    ensures
        i < read_lines(ls, k, st)->Ok_0.len(),
        grows(st.fields[i], read_lines(ls, k, st)->Ok_0[i]),
    decreases ls.len() - k,
{
    if k < ls.len() {
        let no = (k + 2) as nat;
        let next = step(ls[k], no, st)->Ok_0;
        assert(i < next.fields.len() && grows(st.fields[i], next.fields[i]));
        lemma_lines_grow(ls, k + 1, next, i);
    }
}

/// The state of reading before line `k`.
proof fn lemma_reach(ls: Seq<Seq<char>>, i: int, st: Reading, k: int) -> (mid: Reading)
    requires
        0 <= i <= k <= ls.len(),
        read_lines(ls, i, st) is Ok,
    ensures
        read_lines(ls, k, mid) == read_lines(ls, i, st),
    decreases k - i,
{
    if i == k {
        st
    } else {
        lemma_reach(ls, i + 1, step(ls[i], (i + 2) as nat, st)->Ok_0, k)
    }
}

/// No field is there twice.
spec fn are_distinct(f: Fields) -> bool {
    forall|i: int, j: int| 0 <= i < j < f.len() ==> (#[trigger] f[i]).0 != (#[trigger] f[j]).0
}

proof fn lemma_no_field(f: Fields, i: int, k: Seq<char>)
    requires
        0 <= i,
        field_from(f, i, k) is None,
    ensures
        forall|j: int| i <= j < f.len() ==> (#[trigger] f[j]).0 != k,
    decreases f.len() - i,
{
    if i < f.len() {
        lemma_no_field(f, i + 1, k);
    }
}

proof fn lemma_field_at(f: Fields, i: int, k: int)
    requires
        are_distinct(f),
        0 <= i <= k < f.len(),
    ensures
        field_from(f, i, f[k].0) == Some(f[k].1),
    decreases k - i,
{
    if i < k {
        assert(f[i].0 != f[k].0);
        lemma_field_at(f, i + 1, k);
    }
}

proof fn lemma_step_distinct(raw_line: Seq<char>, no: nat, st: Reading)
    requires
        are_distinct(st.fields),
        st.open ==> st.fields.len() > 0,
        step(raw_line, no, st) is Ok,
    ensures
        are_distinct(step(raw_line, no, st)->Ok_0.fields),
        step(raw_line, no, st)->Ok_0.open ==> step(raw_line, no, st)->Ok_0.fields.len() > 0,
{
    let f = st.fields;
    let g = step(raw_line, no, st)->Ok_0.fields;
    if g.len() == f.len() + 1 {
        lemma_no_field(f, 0, g.last().0);
        assert forall|i: int, j: int| 0 <= i < j < g.len() implies (#[trigger] g[i]).0 != (
        #[trigger] g[j]).0 by {
            assert(g[i] == f[i]);
            if j < f.len() {
                assert(g[j] == f[j]);
            }
        }
    } else {
        assert forall|i: int, j: int| 0 <= i < j < g.len() implies (#[trigger] g[i]).0 != (
        #[trigger] g[j]).0 by {
            assert(g[i].0 == f[i].0 && g[j].0 == f[j].0);
        }
    }
}

proof fn lemma_distinct(ls: Seq<Seq<char>>, i: int, st: Reading)
    requires
        0 <= i,
        are_distinct(st.fields),
        st.open ==> st.fields.len() > 0,
        read_lines(ls, i, st) is Ok,
    ensures
        are_distinct(read_lines(ls, i, st)->Ok_0),
    decreases ls.len() - i,
{
    if i < ls.len() {
        lemma_step_distinct(ls[i], (i + 2) as nat, st);
        lemma_distinct(ls, i + 1, step(ls[i], (i + 2) as nat, st)->Ok_0);
    }
}

spec fn fresh() -> Reading {
    Reading { fields: Seq::empty(), open: false }
}

/// A line `key: value` of a frontmatter gives the field its value.
pub proof fn law_lines_give_fields(fm: Seq<char>, k: int, key: Seq<char>, v: Seq<char>)
    requires
        frontmatter(fm) is Ok,
        0 <= k < lines(fm).len(),
        lines(fm)[k] == key + ": "@ + v,
        is_word(key),
        key_ok(key),
        is_plain_value(v),
    ensures
        field(frontmatter(fm)->Ok_0, key) == Some(FmModel::Scalar(v)),
{
    let ls = lines(fm);
    let mid = lemma_reach(ls, 0, fresh(), k);
    let no = (k + 2) as nat;
    lemma_field_line(key, v, no, mid);
    let next = step(ls[k], no, mid)->Ok_0;
    let i = mid.fields.len() as int;
    assert(next.fields[i] == (key, FmModel::Scalar(v)));
    lemma_lines_keep(ls, k + 1, next, i);
    lemma_distinct(ls, 0, fresh());
    let f = frontmatter(fm)->Ok_0;
    assert(f[i] == (key, FmModel::Scalar(v)));
    lemma_field_at(f, 0, i);
}

/// Some lines of a frontmatter, from `k` on, are the items of a list.
pub open spec fn are_items(ls: Seq<Seq<char>>, k: int, items: Seq<Seq<char>>) -> bool {
    &&& k + items.len() <= ls.len()
    &&& forall|j: int|
        0 <= j < items.len() ==> is_plain_value(#[trigger] items[j]) && ls[k + j] == "  - "@
            + items[j]
}

proof fn lemma_items(ls: Seq<Seq<char>>, k: int, st: Reading, items: Seq<Seq<char>>)
    requires
        0 <= k,
        read_lines(ls, k, st) is Ok,
        st.open,
        st.fields.len() > 0,
        st.fields.last().1 is List,
        are_items(ls, k, items),
    ensures
        ({
            let i = st.fields.len() - 1;
            let f = read_lines(ls, k, st)->Ok_0;
            &&& i < f.len()
            &&& f[i].0 == st.fields[i].0
            &&& f[i].1 is List
            &&& (st.fields[i].1->List_0 + items).is_prefix_of(f[i].1->List_0)
        }),
    decreases items.len(),
{
    let i = st.fields.len() - 1;
    if items.len() == 0 {
        lemma_lines_grow(ls, k, st, i);
        assert(st.fields[i].1->List_0 + items =~= st.fields[i].1->List_0);
    } else {
        let v = items[0];
        assert(ls[k + 0] == "  - "@ + v);
        lemma_item_line(v, (k + 2) as nat, st);
        let next = step(ls[k], (k + 2) as nat, st)->Ok_0;
        let rest = items.skip(1);
        assert forall|j: int| 0 <= j < rest.len() implies is_plain_value(#[trigger] rest[j])
            && ls[k + 1 + j] == "  - "@ + rest[j] by {
            assert(rest[j] == items[j + 1]);
        }
        let a = st.fields[i].1->List_0;
        assert(next.fields.len() == st.fields.len());
        assert(next.fields[i] == (st.fields[i].0, FmModel::List(a.push(v))));
        lemma_items(ls, k + 1, next, rest);
        assert(a.push(v) + rest =~= a + items);
    }
}

/// A line `key:` of a frontmatter and the lines `  - item` after it give the
/// field these items first, in order.
pub proof fn law_lines_give_lists(fm: Seq<char>, k: int, key: Seq<char>, items: Seq<Seq<char>>)
    requires
        frontmatter(fm) is Ok,
        0 <= k < lines(fm).len(),
        lines(fm)[k] == key + ":"@,
        is_word(key),
        key_ok(key),
        are_items(lines(fm), k + 1, items),
    ensures
        field(frontmatter(fm)->Ok_0, key) matches Some(FmModel::List(l)) && items.is_prefix_of(l),
{
    let ls = lines(fm);
    let mid = lemma_reach(ls, 0, fresh(), k);
    let no = (k + 2) as nat;
    lemma_list_line(key, no, mid);
    let next = step(ls[k], no, mid)->Ok_0;
    let i = mid.fields.len() as int;
    lemma_items(ls, k + 1, next, items);
    lemma_distinct(ls, 0, fresh());
    let f = frontmatter(fm)->Ok_0;
    assert(Seq::<Seq<char>>::empty() + items =~= items);
    lemma_field_at(f, 0, i);
}

proof fn lemma_keys()
    ensures
        is_word("type"@) && key_ok("type"@),
        is_word("title"@) && key_ok("title"@),
        is_word("tags"@) && key_ok("tags"@),
{
    reveal_strlit("type");
    reveal_strlit("title");
    reveal_strlit("tags");
}

/// The frontmatter of a document, line by line.
pub open spec fn front_lines(raw: Seq<char>, b: Budget) -> Seq<Seq<char>> {
    lines(split(raw, b.max_frontmatter_bytes as nat)->Ok_0.0)
}

/// A valid document has the type and the title that its frontmatter gives on
/// lines of their own, and the tags that it lists, in order.
pub proof fn law_documents_say_what_their_lines_say(
    raw: Seq<char>,
    b: Budget,
    k: int,
    v: Seq<char>,
    items: Seq<Seq<char>>,
)
    requires
        parsed(raw, b) is Ok,
        0 <= k < front_lines(raw, b).len(),
        is_plain_value(v),
    ensures
        front_lines(raw, b)[k] == "type: "@ + v ==> parsed(raw, b)->Ok_0.doc_type == v,
        front_lines(raw, b)[k] == "title: "@ + v ==> parsed(raw, b)->Ok_0.title == Some(v),
        front_lines(raw, b)[k] == "tags:"@ && are_items(front_lines(raw, b), k + 1, items)
            ==> items.is_prefix_of(parsed(raw, b)->Ok_0.tags),
{
    let fm = split(raw, b.max_frontmatter_bytes as nat)->Ok_0.0;
    let line = front_lines(raw, b)[k];
    lemma_keys();
    reveal_strlit("type");
    reveal_strlit("title");
    reveal_strlit("tags");
    reveal_strlit("type: ");
    reveal_strlit("title: ");
    reveal_strlit("tags:");
    reveal_strlit(": ");
    reveal_strlit(":");
    if line == "type: "@ + v {
        assert("type: "@ =~= "type"@ + ": "@);
        law_lines_give_fields(fm, k, "type"@, v);
    }
    if line == "title: "@ + v {
        assert("title: "@ =~= "title"@ + ": "@);
        law_lines_give_fields(fm, k, "title"@, v);
    }
    if line == "tags:"@ && are_items(front_lines(raw, b), k + 1, items) {
        assert("tags:"@ =~= "tags"@ + ":"@);
        law_lines_give_lists(fm, k, "tags"@, items);
    }
}

// ---------------------------------------------------------------------
// Links
// ---------------------------------------------------------------------

/// A link names its target, after its relation and a colon where it has one.
pub proof fn law_links_name_relation_and_target(rel: Seq<char>, target: Seq<char>)
    requires
        valid_id(target),
        forall|i: int| 0 <= i < target.len() ==> #[trigger] target[i] != ':',
        rel_ok(rel),
    ensures
        link(target) == Some(LinkModel { target, rel: None }),
        link(rel + ":"@ + target) == Some(LinkModel { target, rel: Some(rel) }),
{
    reveal_strlit(":");
    lemma_find_char_from(target, 0, ':');
    let raw = rel + ":"@ + target;
    let c = rel.len() as int;
    lemma_find_char_from(raw, 0, ':');
    assert(raw[c] == ':');
    assert forall|j: int| 0 <= j < c implies #[trigger] raw[j] != ':' by {
        assert(raw[j] == rel[j]);
        assert(crate::okf::is_rel_char(rel[j]));
    }
    assert(raw.take(c) =~= rel);
    assert(raw.skip(c + 1) =~= target);
}

/// A text in which no link and no code block opens.
pub open spec fn is_quiet(a: Seq<char>) -> bool {
    &&& forall|i: int| 0 <= i < a.len() - 1 ==> !(#[trigger] a[i] == '[' && a[i + 1] == '[')
    &&& a.len() > 0 ==> a.last() != '['
    &&& forall|i: int| 0 <= i < a.len() ==> #[trigger] a[i] != '`'
}

proof fn lemma_quiet_scan(
    s: Seq<char>,
    a: Seq<char>,
    i: int,
    line_start: bool,
    base: nat,
    max: nat,
) -> (b: bool)
    requires
        is_quiet(a),
        a.is_prefix_of(s),
        0 <= i <= a.len(),
    ensures
        scan(s, i, false, line_start, Seq::empty(), base, max) == scan(
            s,
            a.len() as int,
            false,
            b,
            Seq::empty(),
            base,
            max,
        ),
    decreases a.len() - i,
{
    reveal_strlit("[[");
    reveal_strlit("```");
    if i == a.len() {
        line_start
    } else {
        assert(s[i] == a[i]);
        if at(s, i, "[["@) {
            assert(s.subrange(i, i + 2)[0] == '[' && s.subrange(i, i + 2)[1] == '[');
            assert(s[i] == '[' && s[i + 1] == '[');
            if i < a.len() - 1 {
                assert(s[i + 1] == a[i + 1]);
                assert(a[i] == '[' && a[i + 1] == '[');
            }
        }
        if at(s, i, "```"@) {
            assert(s.subrange(i, i + 3)[0] == '`');
        }
        lemma_quiet_scan(s, a, i + 1, s[i] == '\n', base, max)
    }
}

/// The text of a link: nothing in it ends it.
pub open spec fn is_link_text(x: Seq<char>) -> bool {
    &&& forall|i: int| 0 <= i < x.len() - 1 ==> !(#[trigger] x[i] == ']' && x[i + 1] == ']')
    &&& x.len() > 0 ==> x.last() != ']'
}

proof fn lemma_found_stays(
    s: Seq<char>,
    i: int,
    fence: bool,
    line_start: bool,
    found: Seq<LinkModel>,
    base: nat,
    max: nat,
)
    requires
        0 <= i,
        scan(s, i, fence, line_start, found, base, max) is Ok,
    ensures
        found.is_prefix_of(scan(s, i, fence, line_start, found, base, max)->Ok_0),
    decreases s.len() - i,
{
    if i < s.len() {
        let inside = crate::okf::fence_at(s, i, fence, line_start);
        if !inside && at(s, i, "[["@) {
            match find_from(s, i + "[["@.len(), "]]"@) {
                None => {},
                Some(j) => {
                    let raw = s.subrange(i + "[["@.len(), j);
                    let l = link(raw)->0;
                    let e = j + "]]"@.len();
                    if !(i < e <= s.len()) {
                    } else if crate::okf::targets(found, l.target) {
                        lemma_found_stays(s, e, inside, false, found, base, max);
                    } else {
                        lemma_found_stays(s, e, inside, false, found.push(l), base, max);
                    }
                },
            }
        } else {
            lemma_found_stays(s, i + 1, inside, s[i] == '\n', found, base, max);
        }
    }
}

/// The first `[[...]]` of a body outside code blocks is its first link.
pub proof fn law_first_links_are_found(
    a: Seq<char>,
    x: Seq<char>,
    c: Seq<char>,
    base: nat,
    max: nat,
)
    requires
        is_quiet(a),
        is_link_text(x),
        links_in(a + "[["@ + x + "]]"@ + c, base, max) is Ok,
    ensures
        links_in(a + "[["@ + x + "]]"@ + c, base, max)->Ok_0.len() > 0,
        link(x) == Some(links_in(a + "[["@ + x + "]]"@ + c, base, max)->Ok_0[0]),
{
    reveal_strlit("[[");
    reveal_strlit("]]");
    reveal_strlit("```");
    let s = a + "[["@ + x + "]]"@ + c;
    let n = a.len() as int;
    let m = n + 2 + x.len();
    assert(s.subrange(0, n) =~= a);
    let b = lemma_quiet_scan(s, a, 0, true, base, max);
    assert(s.subrange(n, n + 2) =~= "[["@);
    assert(at(s, n, "[["@));
    if at(s, n, "```"@) {
        assert(s.subrange(n, n + 3)[0] == '`');
        assert(s[n] == '[');
    }
    assert(s.subrange(m, m + 2) =~= "]]"@);
    assert(at(s, m, "]]"@));
    lemma_find_from(s, n + 2, "]]"@);
    assert forall|j: int| n + 2 <= j < m implies !#[trigger] at(s, j, "]]"@) by {
        if at(s, j, "]]"@) {
            assert(s.subrange(j, j + 2)[0] == ']' && s.subrange(j, j + 2)[1] == ']');
            assert(s[j] == ']' && s[j + 1] == ']');
            let k = j - n - 2;
            assert(x[k] == s[j]);
            if k < x.len() - 1 {
                assert(x[k + 1] == s[j + 1]);
                assert(x[k] == ']' && x[k + 1] == ']');
            }
        }
    }
    assert(find_from(s, n + 2, "]]"@) == Some(m));
    assert(s.subrange(n + 2, m) =~= x);
    let none: Seq<LinkModel> = Seq::empty();
    let l = link(x)->0;
    assert(link(x) is Some);
    assert(!crate::okf::targets(none, l.target));
    lemma_found_stays(s, m + 2, false, false, none.push(l), base, max);
    let found = links_in(s, base, max)->Ok_0;
    assert(found[0] == none.push(l)[0]);
}

/// A body without `[[` has no links.
pub proof fn law_quiet_bodies_have_no_links(a: Seq<char>, base: nat, max: nat)
    requires
        is_quiet(a),
    ensures
        links_in(a, base, max) == Ok::<_, crate::okf::OkfErrorModel>(Seq::<LinkModel>::empty()),
{
    assert(a.is_prefix_of(a));
    let b = lemma_quiet_scan(a, a, 0, true, base, max);
}

} // verus!
