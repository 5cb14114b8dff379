//! Names and texts made safe for ids, frontmatter and bodies.

use vstd::prelude::*;
use crate::consolidate::{
    lemma_trim_start_plain, lemma_unprefixed, starts_plainly, unprefix, unprefixed,
};
use crate::text::{
    at, chars_of, control, holds, is_control, is_white, last_segment, last_segment_of,
    lemma_utf8_len_push, lemma_utf8_len_take, lemma_views_push, part_from, part_to, rfind,
    rfind_of, split, split_of, string_of, join_of, joined, trim, trim_end, trim_of, trim_start,
    utf8_len, views, width_of,
};

verus! {

// ---------------------------------------------------------------------
// Slugs
// ---------------------------------------------------------------------

/// An upper-case ASCII letter in lower case; any other character as it is.
pub open spec fn ascii_lower(c: char) -> char {
    if 'A' <= c && c <= 'Z' {
        (c as u8 + 32) as u8 as char
    } else {
        c
    }
}

pub fn ascii_lower_of(c: char) -> (r: char)
    ensures
        r == ascii_lower(c),
{
    if 'A' <= c && c <= 'Z' {
        (c as u8 + 32) as char
    } else {
        c
    }
}

/// Characters a slug keeps.
pub open spec fn is_slug_char(c: char) -> bool {
    ('a' <= c && c <= 'z') || ('0' <= c && c <= '9') || c == '_'
}

/// The slug of the first `n` characters: those kept, with one dash for each
/// run of others between two of them.
pub open spec fn slug_to(s: Seq<char>, n: int) -> Seq<char>
    decreases n,
{
    if n <= 0 {
        Seq::empty()
    } else {
        let out = slug_to(s, n - 1);
        let c = ascii_lower(s[n - 1]);
        if !is_slug_char(c) {
            out
        } else if out.len() > 0 && n >= 2 && !is_slug_char(ascii_lower(s[n - 2])) {
            out.push('-').push(c)
        } else {
            out.push(c)
        }
    }
}

/// A name as a segment of a concept id.
pub open spec fn slug(s: Seq<char>) -> Seq<char> {
    let out = slug_to(s, s.len() as int);
    if out.len() == 0 {
        "item"@
    } else {
        out
    }
}

fn slug_char(c: char) -> (r: bool)
    ensures
        r == is_slug_char(c),
{
    ('a' <= c && c <= 'z') || ('0' <= c && c <= '9') || c == '_'
}

pub fn slug_of(raw: &[char]) -> (r: String)
    ensures
        r@ == slug(raw@),
{
    let mut out: Vec<char> = Vec::new();
    let mut i: usize = 0;
    while i < raw.len()
        invariant
            i <= raw.len(),
            out@ == slug_to(raw@, i as int),
        decreases raw.len() - i,
    {
        let c = ascii_lower_of(raw[i]);
        if slug_char(c) {
            if out.len() > 0 && i >= 1 && !slug_char(ascii_lower_of(raw[i - 1])) {
                out.push('-');
            }
            out.push(c);
        }
        i += 1;
    }
    if out.len() == 0 {
        "item".to_owned()
    } else {
        string_of(out.as_slice())
    }
}

/// Turns any name into a valid segment of a concept id.
pub fn slugify(raw: &str) -> (r: String)
    ensures
        r@ == slug(raw@),
{
    let chars = chars_of(raw);
    slug_of(chars.as_slice())
}

proof fn lemma_slug_to(s: Seq<char>, n: int)
    requires
        0 <= n <= s.len(),
    ensures
        ({
            let o = slug_to(s, n);
            &&& forall|i: int| 0 <= i < o.len() ==> is_slug_char(#[trigger] o[i]) || o[i] == '-'
            &&& o.len() > 0 ==> is_slug_char(o[0]) && is_slug_char(o.last())
            &&& forall|i: int| 0 <= i < o.len() - 1 ==> !(o[i] == '-' && #[trigger] o[i + 1] == '-')
        }),
    decreases n,
{
    if n > 0 {
        lemma_slug_to(s, n - 1);
        let p = slug_to(s, n - 1);
        let o = slug_to(s, n);
        assert forall|i: int| 0 <= i < o.len() - 1 implies !(o[i] == '-' && #[trigger] o[i + 1]
            == '-') by {
            if i + 1 < p.len() {
                assert(o[i] == p[i] && o[i + 1] == p[i + 1]);
            } else if i + 1 == p.len() {
                assert(o[i] == p.last());
            }
        }
    }
}

/// What a slug looks like: kept characters, with single dashes between them.
pub open spec fn is_slug(o: Seq<char>) -> bool {
    &&& o.len() > 0
    &&& is_slug_char(o[0])
    &&& is_slug_char(o.last())
    &&& forall|i: int| 0 <= i < o.len() ==> is_slug_char(#[trigger] o[i]) || o[i] == '-'
    &&& forall|i: int| 0 <= i < o.len() - 1 ==> !(o[i] == '-' && #[trigger] o[i + 1] == '-')
}

#[verifier::spinoff_prover]
proof fn lemma_slug_of_slug(o: Seq<char>, n: int)
    requires
        is_slug(o),
        0 <= n <= o.len(),
    ensures
        slug_to(o, n) == if n > 0 && o[n - 1] == '-' {
            o.take(n - 1)
        } else {
            o.take(n)
        },
    decreases n,
{
    if n > 0 {
        lemma_slug_of_slug(o, n - 1);
        let c = o[n - 1];
        assert(is_slug_char(c) || c == '-');
        assert(ascii_lower(c) == c);
        if c != '-' {
            if n >= 2 {
                let d = o[n - 2];
                assert(is_slug_char(d) || d == '-');
                assert(ascii_lower(d) == d);
                if d == '-' {
                    assert(n - 2 > 0);
                    assert(o.take(n - 2).push('-').push(c) =~= o.take(n));
                } else {
                    assert(o.take(n - 1).push(c) =~= o.take(n));
                }
            } else {
                assert(o.take(n - 1).push(c) =~= o.take(n));
            }
        } else {
            assert(n >= 2);
            assert(!(o[n - 2] == '-' && o[(n - 2) + 1] == '-'));
            assert(slug_to(o, n) == slug_to(o, n - 1));
        }
    } else {
        assert(o.take(0) =~= Seq::<char>::empty());
    }
}

/// A slug has no two dashes in a row, none at its ends, and is its own slug.
pub proof fn law_slugs_are_settled(s: Seq<char>)
    ensures
        is_slug(slug(s)),
        slug(slug(s)) == slug(s),
{
    lemma_slug_to(s, s.len() as int);
    reveal_strlit("item");
    let o = slug(s);
    lemma_slug_of_slug(o, o.len() as int);
    assert(o.take(o.len() as int) =~= o);
}

/// A slug is a valid concept id by itself, as long as it is not too long.
pub proof fn law_slugs_are_valid_ids(s: Seq<char>)
    requires
        slug(s).len() <= crate::model::MAX_CONCEPT_ID_LEN,
    ensures
        crate::model::valid_id(slug(s)),
{
    lemma_slug_to(s, s.len() as int);
    let o = slug(s);
    reveal_strlit("item");
    assert forall|i: int| 0 <= i < o.len() implies crate::model::is_id_char(#[trigger] o[i])
        && o[i] != '/' by {}
    if crate::model::has_empty_segment(o) {
        let i = choose|i: int| 0 <= i < o.len() - 1 && o[i] == '/' && #[trigger] o[i + 1] == '/';
        assert(o[i] != '/');
    }
}

/// Without the extension of the last segment.
pub open spec fn without_extension(path: Seq<char>) -> Seq<char> {
    match rfind(path, '.') {
        Some(k) => if k > 0 && !path.skip(k + 1).contains('/') {
            path.take(k)
        } else {
            path
        },
        None => path,
    }
}

/// The slugs of those of the first `n` parts that are not empty.
pub open spec fn slugs(parts: Seq<Seq<char>>, n: int) -> Seq<Seq<char>>
    decreases n,
{
    if n <= 0 {
        Seq::empty()
    } else if parts[n - 1].len() == 0 {
        slugs(parts, n - 1)
    } else {
        slugs(parts, n - 1).push(slug(parts[n - 1]))
    }
}

/// A path, each segment a slug, without its extension.
pub open spec fn path_slug(path: Seq<char>) -> Seq<char> {
    let parts = split(without_extension(path), '/');
    let s = slugs(parts, parts.len() as int);
    joined(s, s.len() as int, "/"@)
}

pub fn slug_path(path: &str) -> (r: String)
    ensures
        r@ == path_slug(path@),
{
    let chars = chars_of(path);
    let mut bare: &[char] = chars.as_slice();
    match rfind_of(bare, '.') {
        Some(k) => {
            if k > 0 && !crate::text::has_char(part_from(bare, k + 1), '/') {
                bare = part_to(bare, k);
            }
        },
        None => {},
    }
    let parts = split_of(bare, '/');
    let mut out: Vec<String> = Vec::new();
    let mut i: usize = 0;
    assert(views(out@) =~= Seq::<Seq<char>>::empty());
    while i < parts.len()
        invariant
            i <= parts.len(),
            views(out@) == slugs(views(parts@), i as int),
        decreases parts.len() - i,
    {
        assert(views(parts@)[i as int] == parts@[i as int]@);
        if parts[i].len() > 0 {
            let t = slug_of(parts[i].as_slice());
            proof {
                lemma_views_push(out@, t);
            }
            out.push(t);
        }
        i += 1;
    }
    join_of(&out, "/")
}

/// The name of a file without its extension.
pub open spec fn stem(path: Seq<char>) -> Seq<char> {
    let name = last_segment(path);
    match rfind(name, '.') {
        Some(k) => if k > 0 {
            name.take(k)
        } else {
            name
        },
        None => name,
    }
}

pub fn file_stem(path: &str) -> (r: String)
    ensures
        r@ == stem(path@),
{
    let chars = chars_of(path);
    let name = last_segment_of(chars.as_slice());
    match rfind_of(name, '.') {
        Some(k) => {
            if k > 0 {
                string_of(part_to(name, k))
            } else {
                string_of(name)
            }
        },
        None => string_of(name),
    }
}

// ---------------------------------------------------------------------
// Scalars
// ---------------------------------------------------------------------

/// The first `n` characters on one line, without double quotes, hashes and
/// control characters.
pub open spec fn flat(s: Seq<char>, n: int) -> Seq<char>
    decreases n,
{
    if n <= 0 {
        Seq::empty()
    } else {
        let c = s[n - 1];
        let out = flat(s, n - 1);
        if c == '\n' || c == '\r' || c == '\t' {
            out.push(' ')
        } else if c == '"' || c == '#' || is_control(c) {
            out
        } else {
            out.push(c)
        }
    }
}

pub fn flat_of(raw: &[char]) -> (r: Vec<char>)
    ensures
        r@ == flat(raw@, raw@.len() as int),
{
    let mut out: Vec<char> = Vec::new();
    let mut i: usize = 0;
    while i < raw.len()
        invariant
            i <= raw.len(),
            out@ == flat(raw@, i as int),
        decreases raw.len() - i,
    {
        let c = raw[i];
        if c == '\n' || c == '\r' || c == '\t' {
            out.push(' ');
        } else if !(c == '"' || c == '#' || control(c)) {
            out.push(c);
        }
        i += 1;
    }
    out
}

/// The first `n` characters with every run of spaces as one.
pub open spec fn single_spaced(s: Seq<char>, n: int) -> Seq<char>
    decreases n,
{
    if n <= 0 {
        Seq::empty()
    } else if s[n - 1] == ' ' && n >= 2 && s[n - 2] == ' ' {
        single_spaced(s, n - 1)
    } else {
        single_spaced(s, n - 1).push(s[n - 1])
    }
}

/// A text made safe as a frontmatter scalar.
pub open spec fn clean_scalar(raw: Seq<char>) -> Seq<char> {
    let t = unprefixed(trim(flat(raw, raw.len() as int)));
    let c = single_spaced(t, t.len() as int);
    if c.len() == 0 {
        "sin título"@
    } else {
        c
    }
}

pub fn sanitize_scalar(raw: &str) -> (r: String)
    ensures
        r@ == clean_scalar(raw@),
{
    let chars = chars_of(raw);
    let line = flat_of(chars.as_slice());
    let rest = unprefix(trim_of(line.as_slice()));
    let mut out: Vec<char> = Vec::new();
    let mut i: usize = 0;
    while i < rest.len()
        invariant
            i <= rest.len(),
            out@ == single_spaced(rest@, i as int),
        decreases rest.len() - i,
    {
        if !(rest[i] == ' ' && i >= 1 && rest[i - 1] == ' ') {
            out.push(rest[i]);
        }
        i += 1;
    }
    if out.len() == 0 {
        "sin título".to_owned()
    } else {
        string_of(out.as_slice())
    }
}

/// A title made safe as a frontmatter scalar.
pub open spec fn clean_title(raw: Seq<char>) -> Seq<char> {
    let t = unprefixed(trim(flat(raw, raw.len() as int)));
    if t.len() == 0 {
        "sin título"@
    } else {
        t
    }
}

pub fn sanitize_title(raw: &str) -> (r: String)
    ensures
        r@ == clean_title(raw@),
{
    let chars = chars_of(raw);
    let line = flat_of(chars.as_slice());
    let t = unprefix(trim_of(line.as_slice()));
    if t.len() == 0 {
        "sin título".to_owned()
    } else {
        string_of(t)
    }
}

proof fn lemma_trim_end_first(s: Seq<char>)
    ensures
        trim_end(s).len() > 0 ==> s.len() > 0 && trim_end(s)[0] == s[0],
    decreases s.len(),
{
    if s.len() > 0 && is_white(s.last()) {
        lemma_trim_end_first(s.drop_last());
    }
}

proof fn lemma_single_spaced_first(s: Seq<char>, n: int)
    requires
        0 <= n <= s.len(),
    ensures
        (single_spaced(s, n).len() > 0) == (n > 0),
        n > 0 ==> single_spaced(s, n)[0] == s[0],
    decreases n,
{
    if n > 0 {
        lemma_single_spaced_first(s, n - 1);
    }
}

/// A title or scalar made safe is never empty, and begins with neither a
/// marker nor white space.
pub proof fn law_titles_start_plainly(s: Seq<char>)
    ensures
        clean_title(s).len() > 0,
        clean_scalar(s).len() > 0,
        starts_plainly(clean_title(s)),
        starts_plainly(clean_scalar(s)),
{
    reveal_strlit("sin título");
    let line = flat(s, s.len() as int);
    lemma_trim_start_plain(line);
    lemma_trim_end_first(trim_start(line));
    let t = trim(line);
    lemma_unprefixed(t);
    let u = unprefixed(t);
    lemma_single_spaced_first(u, u.len() as int);
}

// ---------------------------------------------------------------------
// Bodies
// ---------------------------------------------------------------------

/// The first `n` characters with a space between any two opening brackets, so
/// that no link opens.
pub open spec fn unlinked(s: Seq<char>, n: int) -> Seq<char>
    decreases n,
{
    if n <= 0 {
        Seq::empty()
    } else if s[n - 1] == '[' && n >= 2 && s[n - 2] == '[' {
        unlinked(s, n - 1).push(' ').push('[')
    } else {
        unlinked(s, n - 1).push(s[n - 1])
    }
}

proof fn lemma_unlinked(s: Seq<char>, n: int)
    requires
        0 <= n <= s.len(),
    ensures
        ({
            let u = unlinked(s, n);
            &&& (u.len() > 0) == (n > 0)
            &&& n > 0 ==> u.last() == s[n - 1]
            &&& forall|i: int| 0 <= i < u.len() - 1 ==> !(u[i] == '[' && #[trigger] u[i + 1] == '[')
        }),
    decreases n,
{
    if n > 0 {
        lemma_unlinked(s, n - 1);
        let v = unlinked(s, n - 1);
        let u = unlinked(s, n);
        assert forall|i: int| 0 <= i < u.len() - 1 implies !(u[i] == '[' && #[trigger] u[i + 1]
            == '[') by {
            if i + 1 < v.len() {
                assert(u[i] == v[i] && u[i + 1] == v[i + 1]);
            } else if i + 1 == v.len() {
                assert(u[i] == v[i]);
            }
        }
    }
}

/// Imported text opens no link.
pub proof fn law_imported_text_opens_no_link(s: Seq<char>)
    ensures
        !holds(unlinked(s, s.len() as int), "[["@),
{
    reveal_strlit("[[");
    lemma_unlinked(s, s.len() as int);
    let u = unlinked(s, s.len() as int);
    if holds(u, "[["@) {
        let i = choose|i: int| #[trigger] at(u, i, "[["@);
        let w = u.subrange(i, i + 2);
        assert(w[0] == '[' && w[1] == '[');
        assert(u[i] == '[' && u[i + 1] == '[');
    }
}

pub fn unlink(s: &[char]) -> (r: Vec<char>)
    ensures
        r@ == unlinked(s@, s@.len() as int),
{
    let mut out: Vec<char> = Vec::new();
    let mut i: usize = 0;
    while i < s.len()
        invariant
            i <= s.len(),
            out@ == unlinked(s@, i as int),
        decreases s.len() - i,
    {
        if s[i] == '[' && i >= 1 && s[i - 1] == '[' {
            out.push(' ');
        }
        out.push(s[i]);
        i += 1;
    }
    out
}

/// The longest prefix that takes at most `max` bytes.
pub open spec fn fitting(s: Seq<char>, max: nat) -> Seq<char>
    decreases s.len(),
{
    if s.len() == 0 || utf8_len(s) <= max {
        s
    } else {
        fitting(s.drop_last(), max)
    }
}

proof fn lemma_fitting(s: Seq<char>, k: int, max: nat)
    requires
        0 <= k < s.len(),
        utf8_len(s.take(k)) <= max,
        utf8_len(s.take(k + 1)) > max,
    ensures
        fitting(s, max) == s.take(k),
    decreases s.len(),
{
    lemma_utf8_len_take(s, k + 1, s.len() as int);
    if k + 1 == s.len() {
        assert(s.drop_last() =~= s.take(k));
        assert(fitting(s.take(k), max) == s.take(k));
    } else {
        assert(s.drop_last().take(k) =~= s.take(k));
        assert(s.drop_last().take(k + 1) =~= s.take(k + 1));
        lemma_fitting(s.drop_last(), k, max);
    }
}

/// The longest prefix that takes at most `max` bytes.
pub fn fit(s: &[char], max: usize) -> (r: &[char])
    ensures
        r@ == fitting(s@, max as nat),
{
    let mut i: usize = 0;
    let mut n: usize = 0;
    assert(s@.take(0) =~= Seq::<char>::empty());
    while i < s.len()
        invariant
            i <= s.len(),
            n == utf8_len(s@.take(i as int)),
            n <= max,
        decreases s.len() - i,
    {
        let w = width_of(s[i]);
        proof {
            assert(s@.take(i + 1) =~= s@.take(i as int).push(s@[i as int]));
            lemma_utf8_len_push(s@.take(i as int), s@[i as int]);
        }
        if w > max - n {
            proof {
                lemma_fitting(s@, i as int, max as nat);
            }
            return part_to(s, i);
        }
        n = n + w;
        i += 1;
    }
    assert(s@.take(i as int) =~= s@);
    s
}

} // verus!
