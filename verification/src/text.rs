//! Characters and strings: the vocabulary every other module is stated in.
//!
//! Strings are modelled as `Seq<char>`; lengths in bytes go through
//! [`utf8_len`].

use vstd::prelude::*;
use vstd::utf8::*;

verus! {

/// `String::push` appends one character.
pub assume_specification[ std::string::String::push ](dst: &mut std::string::String, ch: char)
    ensures
        final(dst)@ == old(dst)@.push(ch),
;

/// `String::push_str` appends a whole string slice.
pub assume_specification[ std::string::String::push_str ](dst: &mut std::string::String, piece: &str)
    ensures
        final(dst)@ == old(dst)@ + piece@,
;

/// What `{:?}` shows of a string: quoted, with escapes.
pub uninterp spec fn debug_text(s: Seq<char>) -> Seq<char>;

/// `<str as Debug>::fmt`, through `format!`. Its result depends on the string
/// alone; how each character is escaped is left unsaid.
#[verifier::external_body]
pub(crate) fn quoted(s: &str) -> (r: String)
    ensures
        r@ == debug_text(s@),
{
    format!("{:?}", s)
}

/// What `{:?}` shows of a character: between single quotes, with escapes.
pub uninterp spec fn debug_char(c: char) -> Seq<char>;

/// `<char as Debug>::fmt`, through `format!`. Its result depends on the
/// character alone; how it is escaped is left unsaid.
#[verifier::external_body]
pub(crate) fn quoted_char(c: char) -> (r: String)
    ensures
        r@ == debug_char(c),
{
    format!("{:?}", c)
}

/// `char::from_u32` gives the character of a Unicode scalar value, and nothing
/// for any other number.
pub assume_specification[ std::primitive::char::from_u32 ](code_point: u32) -> (res: Option<char>)
    ensures
        res is Some <==> is_scalar(code_point),
        res is Some ==> res->0 == code_point as char,
;

/// What the failure to read bytes as UTF-8 says of itself.
pub uninterp spec fn utf8_complaint(bytes: Seq<u8>) -> Seq<char>;

/// `String::from_utf8` gives the text that some bytes encode, exactly where
/// they are valid UTF-8; elsewhere its error, as text, depends on the bytes
/// alone. How that text reads is left unsaid.
#[verifier::external_body]
pub(crate) fn utf8_text(bytes: Vec<u8>) -> (r: Result<String, String>)
    ensures
        r is Ok <==> valid_utf8(bytes@),
        r is Ok ==> r->Ok_0@ == decode_utf8(bytes@),
        r is Err ==> r->Err_0@ == utf8_complaint(bytes@),
{
    String::from_utf8(bytes).map_err(|e| e.to_string())
}

/// A text in lower case.
pub uninterp spec fn lowercase(s: Seq<char>) -> Seq<char>;

/// `str::to_lowercase`. Its result depends on the string alone; which
/// character maps to which is left unsaid.
#[verifier::external_body]
pub(crate) fn lowercase_of(s: &str) -> (r: String)
    ensures
        r@ == lowercase(s@),
{
    s.to_lowercase()
}

// ---------------------------------------------------------------------
// Lifting views through containers
// ---------------------------------------------------------------------

/// The views of the elements of a sequence.
pub open spec fn views<T: View>(s: Seq<T>) -> Seq<T::V> {
    Seq::new(s.len(), |i: int| s[i]@)
}

/// The view of what an option holds.
pub open spec fn opt_view<T: View>(o: Option<T>) -> Option<T::V> {
    match o {
        Some(x) => Some(x@),
        None => None,
    }
}

/// The view of a result on either side.
pub open spec fn res_view<T: View, E: View>(r: Result<T, E>) -> Result<T::V, E::V> {
    match r {
        Ok(x) => Ok(x@),
        Err(e) => Err(e@),
    }
}

pub proof fn lemma_views_push<T: View>(s: Seq<T>, x: T)
    ensures
        views(s.push(x)) == views(s).push(x@),
{
    assert(views(s.push(x)) =~= views(s).push(x@));
}

/// A copy of a list of strings.
pub fn clone_strings(v: &Vec<String>) -> (r: Vec<String>)
    ensures
        views(r@) == views(v@),
{
    let mut out: Vec<String> = Vec::new();
    let mut i: usize = 0;
    while i < v.len()
        invariant
            i <= v.len(),
            out@.len() == i,
            forall|k: int| 0 <= k < i ==> (#[trigger] out@[k])@ == v@[k]@,
        decreases v.len() - i,
    {
        out.push(v[i].clone());
        i += 1;
    }
    assert(views(out@) =~= views(v@));
    out
}

/// A copy of an optional string.
pub fn clone_opt(o: &Option<String>) -> (r: Option<String>)
    ensures
        opt_view(r) == opt_view(*o),
{
    match o {
        Some(x) => Some(x.clone()),
        None => None,
    }
}

// ---------------------------------------------------------------------
// Conversions and equality
// ---------------------------------------------------------------------

/// The characters of `s`, in order.
pub fn chars_of(s: &str) -> (r: Vec<char>)
    ensures
        r@ == s@,
{
    let mut out: Vec<char> = Vec::new();
    for c in it: s.chars()
        invariant
            out@ == it.seq().take(it.index() as int),
    {
        out.push(c);
    }
    out
}

/// Appends the characters of a slice to a string.
pub fn push_chars(out: &mut String, v: &[char])
    ensures
        final(out)@ == old(out)@ + v@,
{
    let mut i: usize = 0;
    while i < v.len()
        invariant
            i <= v.len(),
            out@ == old(out)@ + v@.take(i as int),
        decreases v.len() - i,
    {
        out.push(v[i]);
        i += 1;
        assert(v@.take(i as int) =~= v@.take(i - 1).push(v@[i - 1]));
        assert(out@ =~= old(out)@ + v@.take(i as int));
    }
    assert(v@.take(i as int) =~= v@);
}

/// The string made of the characters of a slice.
pub fn string_of(v: &[char]) -> (r: String)
    ensures
        r@ == v@,
{
    let mut out = String::new();
    push_chars(&mut out, v);
    assert(out@ =~= v@);
    out
}

/// Whether two slices of characters are equal.
pub fn chars_eq(a: &[char], b: &[char]) -> (r: bool)
    ensures
        r == (a@ == b@),
{
    if a.len() != b.len() {
        return false;
    }
    let mut i: usize = 0;
    while i < a.len()
        invariant
            i <= a.len(),
            a.len() == b.len(),
            a@.take(i as int) == b@.take(i as int),
        decreases a.len() - i,
    {
        if a[i] != b[i] {
            return false;
        }
        i += 1;
        assert(a@.take(i as int) =~= a@.take(i - 1).push(a@[i - 1]));
        assert(b@.take(i as int) =~= b@.take(i - 1).push(b@[i - 1]));
    }
    assert(a@.take(i as int) =~= a@);
    assert(b@.take(i as int) =~= b@);
    true
}

/// Whether a slice of characters spells the string `p`.
pub fn chars_are(v: &[char], p: &str) -> (r: bool)
    ensures
        r == (v@ == p@),
{
    let pc = chars_of(p);
    chars_eq(v, pc.as_slice())
}

/// Whether two strings are equal.
pub fn str_eq(a: &str, b: &str) -> (r: bool)
    ensures
        r == (a@ == b@),
{
    let x = a.as_bytes();
    let y = b.as_bytes();
    proof {
        encode_utf8_decode_utf8(a@);
        encode_utf8_decode_utf8(b@);
    }
    if x.len() != y.len() {
        return false;
    }
    let mut i: usize = 0;
    while i < x.len()
        invariant
            i <= x.len(),
            x.len() == y.len(),
            x@ == encode_utf8(a@),
            y@ == encode_utf8(b@),
            forall|k: int| 0 <= k < i ==> x@[k] == y@[k],
        decreases x.len() - i,
    {
        if x[i] != y[i] {
            return false;
        }
        i += 1;
    }
    assert(x@ =~= y@);
    true
}

/// Whether a list of strings holds the string `x`.
pub fn has_string(v: &Vec<String>, x: &str) -> (r: bool)
    ensures
        r == views(v@).contains(x@),
{
    let mut i: usize = 0;
    while i < v.len()
        invariant
            i <= v.len(),
            forall|k: int| 0 <= k < i ==> (#[trigger] views(v@)[k]) != x@,
        decreases v.len() - i,
    {
        if str_eq(v[i].as_str(), x) {
            assert(views(v@)[i as int] == x@);
            return true;
        }
        i += 1;
    }
    false
}

// ---------------------------------------------------------------------
// Length in bytes
// ---------------------------------------------------------------------

/// Length of a text in bytes once encoded as UTF-8.
pub open spec fn utf8_len(s: Seq<char>) -> nat {
    encode_utf8(s).len()
}

/// Bytes that one character takes in UTF-8.
pub open spec fn char_width(c: char) -> nat {
    let u = c as u32;
    if u < 0x80 {
        1
    } else if u < 0x800 {
        2
    } else if u < 0x10000 {
        3
    } else {
        4
    }
}

pub fn width_of(c: char) -> (r: usize)
    ensures
        r == char_width(c),
{
    let u: u32 = c as u32;
    if u < 0x80 {
        1
    } else if u < 0x800 {
        2
    } else if u < 0x10000 {
        3
    } else {
        4
    }
}

pub proof fn lemma_utf8_len_concat(a: Seq<char>, b: Seq<char>)
    ensures
        utf8_len(a + b) == utf8_len(a) + utf8_len(b),
        encode_utf8(a + b) == encode_utf8(a) + encode_utf8(b),
    decreases a.len(),
{
    if a.len() == 0 {
        assert(a + b =~= b);
        assert(encode_utf8(a) =~= Seq::<u8>::empty());
        assert(encode_utf8(a) + encode_utf8(b) =~= encode_utf8(b));
    } else {
        lemma_utf8_len_concat(a.drop_first(), b);
        assert((a + b).drop_first() =~= a.drop_first() + b);
        assert((a + b)[0] == a[0]);
        assert(encode_utf8(a + b) =~= encode_utf8(a) + encode_utf8(b));
    }
}

pub proof fn lemma_utf8_len_one(c: char)
    ensures
        utf8_len(seq![c]) == char_width(c),
{
    let s = seq![c];
    assert(s.drop_first() =~= Seq::<char>::empty());
    assert(encode_utf8(s.drop_first()).len() == 0);
    char_is_scalar(c);
}

pub proof fn lemma_utf8_len_push(s: Seq<char>, c: char)
    ensures
        utf8_len(s.push(c)) == utf8_len(s) + char_width(c),
{
    lemma_utf8_len_concat(s, seq![c]);
    lemma_utf8_len_one(c);
    assert(s.push(c) =~= s + seq![c]);
}

pub proof fn lemma_utf8_len_at_least(s: Seq<char>)
    ensures
        s.len() <= utf8_len(s),
    decreases s.len(),
{
    if s.len() == 0 {
    } else {
        lemma_utf8_len_at_least(s.drop_last());
        lemma_utf8_len_push(s.drop_last(), s.last());
        assert(s.drop_last().push(s.last()) =~= s);
    }
}

pub proof fn lemma_utf8_len_take(s: Seq<char>, i: int, j: int)
    requires
        0 <= i <= j <= s.len(),
    ensures
        utf8_len(s.take(i)) <= utf8_len(s.take(j)) <= utf8_len(s),
        utf8_len(s.take(i)) + utf8_len(s.subrange(i, j)) == utf8_len(s.take(j)),
        utf8_len(s.take(j)) + utf8_len(s.skip(j)) == utf8_len(s),
{
    assert(s.take(j) =~= s.take(i) + s.subrange(i, j));
    lemma_utf8_len_concat(s.take(i), s.subrange(i, j));
    assert(s =~= s.take(j) + s.skip(j));
    lemma_utf8_len_concat(s.take(j), s.skip(j));
}

/// Length in bytes of a run of characters.
pub fn bytes_of(v: &[char]) -> (r: usize)
    requires
        utf8_len(v@) <= usize::MAX,
    ensures
        r == utf8_len(v@),
{
    let mut n: usize = 0;
    let mut i: usize = 0;
    assert(v@.take(0) =~= Seq::<char>::empty());
    while i < v.len()
        invariant
            i <= v.len(),
            n == utf8_len(v@.take(i as int)),
            utf8_len(v@) <= usize::MAX,
        decreases v.len() - i,
    {
        proof {
            assert(v@.take(i + 1) =~= v@.take(i as int).push(v@[i as int]));
            lemma_utf8_len_push(v@.take(i as int), v@[i as int]);
            lemma_utf8_len_take(v@, i + 1, v@.len() as int);
        }
        n += width_of(v[i]);
        i += 1;
    }
    assert(v@.take(i as int) =~= v@);
    n
}

// ---------------------------------------------------------------------
// Numbers in decimal and hexadecimal
// ---------------------------------------------------------------------

/// The digit `d`, for `d` below ten.
pub open spec fn digit(d: nat) -> char {
    (48 + d) as u8 as char
}

/// A natural number in decimal, without leading zeros.
pub open spec fn dec(n: nat) -> Seq<char>
    decreases n,
{
    if n < 10 {
        seq![digit(n)]
    } else {
        dec(n / 10).push(digit(n % 10))
    }
}

/// Appends `n` in decimal.
pub fn push_dec(out: &mut String, n: u64)
    ensures
        final(out)@ == old(out)@ + dec(n as nat),
    decreases n,
{
    if n >= 10 {
        push_dec(out, n / 10);
    }
    let d: u8 = (n % 10) as u8;
    out.push((48u8 + d) as char);
    assert(out@ =~= old(out)@ + dec(n as nat));
}

/// `n` in decimal.
pub fn dec_string(n: u64) -> (r: String)
    ensures
        r@ == dec(n as nat),
{
    let mut out = String::new();
    push_dec(&mut out, n);
    assert(out@ =~= dec(n as nat));
    out
}

/// The lower-case hexadecimal digit of `d`, for `d` below sixteen.
pub open spec fn hex_digit(d: int) -> char {
    if d < 10 {
        (48 + d) as u8 as char
    } else {
        (87 + d) as u8 as char
    }
}

/// A byte as two lower-case hexadecimal digits.
pub open spec fn hex_byte(b: u8) -> Seq<char> {
    seq![hex_digit(b as int / 16), hex_digit(b as int % 16)]
}

pub fn hex_digit_of(d: u8) -> (r: char)
    requires
        d < 16,
    ensures
        r == hex_digit(d as int),
{
    if d < 10 {
        (48u8 + d) as char
    } else {
        (87u8 + d) as char
    }
}

pub fn push_hex_byte(out: &mut String, b: u8)
    ensures
        final(out)@ == old(out)@ + hex_byte(b),
{
    out.push(hex_digit_of(b / 16));
    out.push(hex_digit_of(b % 16));
    assert(out@ =~= old(out)@ + hex_byte(b));
}

// ---------------------------------------------------------------------
// Classes of characters
// ---------------------------------------------------------------------

/// Unicode `White_Space`.
pub open spec fn is_white(c: char) -> bool {
    let u = c as u32;
    ||| 0x9 <= u <= 0xd
    ||| u == 0x20
    ||| u == 0x85
    ||| u == 0xa0
    ||| u == 0x1680
    ||| 0x2000 <= u <= 0x200a
    ||| u == 0x2028
    ||| u == 0x2029
    ||| u == 0x202f
    ||| u == 0x205f
    ||| u == 0x3000
}

pub fn white(c: char) -> (r: bool)
    ensures
        r == is_white(c),
{
    let u: u32 = c as u32;
    (0x9 <= u && u <= 0xd) || u == 0x20 || u == 0x85 || u == 0xa0 || u == 0x1680 || (0x2000 <= u
        && u <= 0x200a) || u == 0x2028 || u == 0x2029 || u == 0x202f || u == 0x205f || u == 0x3000
}

/// Unicode control characters (general category `Cc`).
pub open spec fn is_control(c: char) -> bool {
    let u = c as u32;
    u < 0x20 || 0x7f <= u <= 0x9f
}

pub fn control(c: char) -> (r: bool)
    ensures
        r == is_control(c),
{
    let u: u32 = c as u32;
    u < 0x20 || (0x7f <= u && u <= 0x9f)
}

/// ASCII letters and digits.
pub open spec fn is_alnum(c: char) -> bool {
    ('a' <= c && c <= 'z') || ('A' <= c && c <= 'Z') || ('0' <= c && c <= '9')
}

pub fn alnum(c: char) -> (r: bool)
    ensures
        r == is_alnum(c),
{
    ('a' <= c && c <= 'z') || ('A' <= c && c <= 'Z') || ('0' <= c && c <= '9')
}

// ---------------------------------------------------------------------
// Trimming
// ---------------------------------------------------------------------

/// Without leading white space.
pub open spec fn trim_start(s: Seq<char>) -> Seq<char>
    decreases s.len(),
{
    if s.len() > 0 && is_white(s[0]) {
        trim_start(s.skip(1))
    } else {
        s
    }
}

/// Without trailing white space.
pub open spec fn trim_end(s: Seq<char>) -> Seq<char>
    decreases s.len(),
{
    if s.len() > 0 && is_white(s.last()) {
        trim_end(s.drop_last())
    } else {
        s
    }
}

/// Without white space at either end.
pub open spec fn trim(s: Seq<char>) -> Seq<char> {
    trim_end(trim_start(s))
}

/// The part of `v` from `i` up to `j`.
pub fn part(v: &[char], i: usize, j: usize) -> (r: &[char])
    requires
        i <= j <= v.len(),
    ensures
        r@ == v@.subrange(i as int, j as int),
{
    vstd::slice::slice_subrange(v, i, j)
}

/// The part of `v` from `i` on.
pub fn part_from(v: &[char], i: usize) -> (r: &[char])
    requires
        i <= v.len(),
    ensures
        r@ == v@.skip(i as int),
{
    let r = vstd::slice::slice_subrange(v, i, v.len());
    assert(r@ =~= v@.skip(i as int));
    r
}

/// The part of `v` before `i`.
pub fn part_to(v: &[char], i: usize) -> (r: &[char])
    requires
        i <= v.len(),
    ensures
        r@ == v@.take(i as int),
{
    let r = vstd::slice::slice_subrange(v, 0, i);
    assert(r@ =~= v@.take(i as int));
    r
}

pub fn trim_start_of(v: &[char]) -> (r: &[char])
    ensures
        r@ == trim_start(v@),
{
    let mut i: usize = 0;
    assert(v@.skip(0) =~= v@);
    while i < v.len() && white(v[i])
        invariant
            i <= v.len(),
            trim_start(v@) == trim_start(v@.skip(i as int)),
        decreases v.len() - i,
    {
        assert(v@.skip(i as int).skip(1) =~= v@.skip(i + 1));
        i += 1;
    }
    part_from(v, i)
}

pub fn trim_end_of(v: &[char]) -> (r: &[char])
    ensures
        r@ == trim_end(v@),
{
    let mut n: usize = v.len();
    assert(v@.take(n as int) =~= v@);
    while n > 0 && white(v[n - 1])
        invariant
            n <= v.len(),
            trim_end(v@) == trim_end(v@.take(n as int)),
        decreases n,
    {
        assert(v@.take(n as int).drop_last() =~= v@.take(n - 1));
        n -= 1;
    }
    part_to(v, n)
}

pub fn trim_of(v: &[char]) -> (r: &[char])
    ensures
        r@ == trim(v@),
{
    trim_end_of(trim_start_of(v))
}

// ---------------------------------------------------------------------
// Searching
// ---------------------------------------------------------------------

/// Whether `p` stands in `s` at index `i`.
pub open spec fn at(s: Seq<char>, i: int, p: Seq<char>) -> bool {
    0 <= i && i + p.len() <= s.len() && s.subrange(i, i + p.len()) == p
}

pub open spec fn starts_with(s: Seq<char>, p: Seq<char>) -> bool {
    at(s, 0, p)
}

pub open spec fn ends_with(s: Seq<char>, p: Seq<char>) -> bool {
    at(s, s.len() - p.len(), p)
}

/// What follows the prefix `p`, where `s` starts with it.
pub open spec fn strip_prefix(s: Seq<char>, p: Seq<char>) -> Option<Seq<char>> {
    if starts_with(s, p) {
        Some(s.skip(p.len() as int))
    } else {
        None
    }
}

/// What precedes the suffix `p`, where `s` ends with it.
pub open spec fn strip_suffix(s: Seq<char>, p: Seq<char>) -> Option<Seq<char>> {
    if ends_with(s, p) {
        Some(s.take(s.len() - p.len()))
    } else {
        None
    }
}

/// The first index, from `i` on, at which `p` stands in `s`.
pub open spec fn find_from(s: Seq<char>, i: int, p: Seq<char>) -> Option<int>
    decreases s.len() + 1 - i,
{
    if i < 0 || i + p.len() > s.len() {
        None
    } else if at(s, i, p) {
        Some(i)
    } else {
        find_from(s, i + 1, p)
    }
}

pub open spec fn find(s: Seq<char>, p: Seq<char>) -> Option<int> {
    find_from(s, 0, p)
}

/// Whether `p` stands somewhere in `s`.
pub open spec fn holds(s: Seq<char>, p: Seq<char>) -> bool {
    exists|i: int| #[trigger] at(s, i, p)
}

/// The first index, from `i` on, of the character `c`.
pub open spec fn find_char_from(s: Seq<char>, i: int, c: char) -> Option<int>
    decreases s.len() - i,
{
    if i < 0 || i >= s.len() {
        None
    } else if s[i] == c {
        Some(i)
    } else {
        find_char_from(s, i + 1, c)
    }
}

pub open spec fn find_char(s: Seq<char>, c: char) -> Option<int> {
    find_char_from(s, 0, c)
}

pub proof fn lemma_find_from(s: Seq<char>, i: int, p: Seq<char>)
    requires
        0 <= i,
    ensures
        match find_from(s, i, p) {
            Some(k) => i <= k && at(s, k, p) && (forall|j: int|
                i <= j < k ==> !#[trigger] at(s, j, p)),
            None => forall|j: int| i <= j ==> !#[trigger] at(s, j, p),
        },
    decreases s.len() + 1 - i,
{
    if i + p.len() <= s.len() && !at(s, i, p) {
        lemma_find_from(s, i + 1, p);
    }
}

pub proof fn lemma_find_char_from(s: Seq<char>, i: int, c: char)
    requires
        0 <= i,
    ensures
        match find_char_from(s, i, c) {
            Some(k) => i <= k < s.len() && s[k] == c && (forall|j: int|
                i <= j < k ==> #[trigger] s[j] != c),
            None => forall|j: int| i <= j < s.len() ==> #[trigger] s[j] != c,
        },
    decreases s.len() - i,
{
    if i < s.len() && s[i] != c {
        lemma_find_char_from(s, i + 1, c);
    }
}

pub fn at_of(v: &[char], i: usize, p: &[char]) -> (r: bool)
    ensures
        r == at(v@, i as int, p@),
{
    if p.len() > v.len() || i > v.len() - p.len() {
        return false;
    }
    chars_eq(part(v, i, i + p.len()), p)
}

pub fn starts_with_of(v: &[char], p: &str) -> (r: bool)
    ensures
        r == starts_with(v@, p@),
{
    let pc = chars_of(p);
    at_of(v, 0, pc.as_slice())
}

pub fn ends_with_of(v: &[char], p: &str) -> (r: bool)
    ensures
        r == ends_with(v@, p@),
{
    let pc = chars_of(p);
    if pc.len() > v.len() {
        return false;
    }
    at_of(v, v.len() - pc.len(), pc.as_slice())
}

pub fn strip_prefix_of<'a>(v: &'a [char], p: &str) -> (r: Option<&'a [char]>)
    ensures
        r is Some <==> starts_with(v@, p@),
        r is Some ==> r->0@ == v@.skip(p@.len() as int),
{
    let pc = chars_of(p);
    if at_of(v, 0, pc.as_slice()) {
        Some(part_from(v, pc.len()))
    } else {
        None
    }
}

pub fn strip_suffix_of<'a>(v: &'a [char], p: &str) -> (r: Option<&'a [char]>)
    ensures
        r is Some <==> ends_with(v@, p@),
        r is Some ==> r->0@ == v@.take(v@.len() - p@.len()),
{
    let pc = chars_of(p);
    if pc.len() <= v.len() && at_of(v, v.len() - pc.len(), pc.as_slice()) {
        Some(part_to(v, v.len() - pc.len()))
    } else {
        None
    }
}

pub fn find_from_of(v: &[char], from: usize, p: &str) -> (r: Option<usize>)
    ensures
        r is Some <==> find_from(v@, from as int, p@) is Some,
        r is Some ==> find_from(v@, from as int, p@) == Some(r->0 as int) && from <= r->0
            && r->0 + p@.len() <= v@.len(),
{
    let pc = chars_of(p);
    if pc.len() > v.len() {
        return None;
    }
    let mut i: usize = from;
    while i <= v.len() - pc.len()
        invariant
            pc@ == p@,
            pc.len() <= v.len(),
            from <= i,
            from <= v.len() - pc.len() ==> i <= v.len() - pc.len() + 1,
            find_from(v@, from as int, p@) == find_from(v@, i as int, p@),
        decreases v.len() - i + 1,
    {
        if at_of(v, i, pc.as_slice()) {
            return Some(i);
        }
        if i == v.len() - pc.len() {
            assert(find_from(v@, i + 1, p@) is None);
            return None;
        }
        i += 1;
    }
    None
}

pub fn find_of(v: &[char], p: &str) -> (r: Option<usize>)
    ensures
        r is Some <==> find(v@, p@) is Some,
        r is Some ==> find(v@, p@) == Some(r->0 as int) && r->0 + p@.len() <= v@.len(),
{
    find_from_of(v, 0, p)
}

pub fn holds_of(v: &[char], p: &str) -> (r: bool)
    ensures
        r == holds(v@, p@),
{
    let r = find_of(v, p);
    proof {
        lemma_find_from(v@, 0, p@);
        if r is Some {
            assert(at(v@, r->0 as int, p@));
        }
    }
    r.is_some()
}

pub fn find_char_of(v: &[char], c: char) -> (r: Option<usize>)
    ensures
        r is Some <==> find_char(v@, c) is Some,
        r is Some ==> find_char(v@, c) == Some(r->0 as int) && r->0 < v@.len() && v@[r->0 as int]
            == c,
{
    let mut i: usize = 0;
    while i < v.len()
        invariant
            i <= v.len(),
            find_char(v@, c) == find_char_from(v@, i as int, c),
        decreases v.len() - i,
    {
        if v[i] == c {
            return Some(i);
        }
        i += 1;
    }
    None
}

pub fn has_char(v: &[char], c: char) -> (r: bool)
    ensures
        r == v@.contains(c),
{
    proof {
        lemma_find_char_from(v@, 0, c);
    }
    match find_char_of(v, c) {
        Some(i) => true,
        None => false,
    }
}

// ---------------------------------------------------------------------
// Lines
// ---------------------------------------------------------------------

/// Without one carriage return at the end.
pub open spec fn strip_cr(s: Seq<char>) -> Seq<char> {
    if s.len() > 0 && s.last() == '\r' {
        s.drop_last()
    } else {
        s
    }
}

/// The lines of a text from index `i` on, without their terminators: a line
/// ends at a line feed, or a carriage return and a line feed; the last
/// terminator is optional.
pub open spec fn lines_from(s: Seq<char>, i: int) -> Seq<Seq<char>>
    decreases s.len() - i,
{
    if i < 0 || i >= s.len() {
        Seq::empty()
    } else {
        match find_char_from(s, i, '\n') {
            Some(k) => if k < i || k >= s.len() {
                Seq::empty()
            } else {
                seq![strip_cr(s.subrange(i, k))] + lines_from(s, k + 1)
            },
            None => seq![s.skip(i)],
        }
    }
}

pub open spec fn lines(s: Seq<char>) -> Seq<Seq<char>> {
    lines_from(s, 0)
}

/// There are no more lines than characters.
pub proof fn lemma_lines_len(s: Seq<char>, i: int)
    requires
        0 <= i <= s.len(),
    ensures
        lines_from(s, i).len() <= s.len() - i,
    decreases s.len() - i,
{
    if i < s.len() {
        lemma_find_char_from(s, i, '\n');
        match find_char_from(s, i, '\n') {
            Some(k) => lemma_lines_len(s, k + 1),
            None => {},
        }
    }
}

/// The lines of a suffix are those of the text from there on.
pub proof fn lemma_lines_shift(a: Seq<char>, b: Seq<char>, j: int)
    requires
        0 <= j <= b.len(),
    ensures
        lines_from(a + b, a.len() + j) == lines_from(b, j),
    decreases b.len() - j,
{
    let w = a + b;
    let n = a.len() as int;
    if j < b.len() {
        lemma_find_char_from(w, n + j, '\n');
        lemma_find_char_from(b, j, '\n');
        match find_char_from(b, j, '\n') {
            Some(k) => {
                assert(w[n + k] == b[k]);
                let kw = find_char_from(w, n + j, '\n')->0;
                if kw < n + k {
                    assert(w[kw] == b[kw - n]);
                }
                if kw > n + k {
                    assert(w[n + k] != '\n');
                }
                assert(w.subrange(n + j, n + k) =~= b.subrange(j, k));
                lemma_lines_shift(a, b, k + 1);
            },
            None => {
                if find_char_from(w, n + j, '\n') is Some {
                    let kw = find_char_from(w, n + j, '\n')->0;
                    assert(w[kw] == b[kw - n]);
                }
                assert(w.skip(n + j) =~= b.skip(j));
            },
        }
    }
}

/// White space at the end does not count.
pub proof fn lemma_trim_both(s: Seq<char>, c: char)
    requires
        is_white(c),
    ensures
        trim(s.push(c)) == trim(s),
    decreases s.len(),
{
    if s.len() == 0 {
        assert(s.push(c).skip(1) =~= s);
        assert(s.push(c).drop_last() =~= s);
    } else if is_white(s[0]) {
        assert(s.push(c).skip(1) =~= s.skip(1).push(c));
        lemma_trim_both(s.skip(1), c);
    } else {
        assert(s.push(c).drop_last() =~= s);
    }
}

pub fn lines_of(v: &[char]) -> (r: Vec<Vec<char>>)
    ensures
        views(r@) == lines(v@),
{
    let mut out: Vec<Vec<char>> = Vec::new();
    let mut i: usize = 0;
    assert(views(out@) =~= Seq::<Seq<char>>::empty());
    assert(views(out@) + lines_from(v@, 0) =~= lines(v@));
    while i < v.len()
        invariant
            i <= v.len(),
            views(out@) + lines_from(v@, i as int) == lines(v@),
        decreases v.len() - i,
    {
        let ghost before = views(out@);
        let mut k: usize = i;
        while k < v.len() && v[k] != '\n'
            invariant
                i <= k <= v.len(),
                find_char_from(v@, i as int, '\n') == find_char_from(v@, k as int, '\n'),
            decreases v.len() - k,
        {
            k += 1;
        }
        let end: usize = if k < v.len() && k > i && v[k - 1] == '\r' {
            k - 1
        } else {
            k
        };
        let line = vstd::slice::slice_to_vec(part(v, i, end));
        proof {
            lemma_views_push(out@, line);
            if k < v.len() {
                let raw = v@.subrange(i as int, k as int);
                if k > i {
                    assert(raw.drop_last() =~= v@.subrange(i as int, k - 1));
                }
            }
        }
        out.push(line);
        if k == v.len() {
            assert(line@ =~= v@.skip(i as int));
            assert(before + seq![line@] =~= before.push(line@));
            return out;
        }
        proof {
            assert(line@ == strip_cr(v@.subrange(i as int, k as int)));
            assert(before + (seq![line@] + lines_from(v@, k + 1)) =~= before.push(line@)
                + lines_from(v@, k + 1));
        }
        i = k + 1;
    }
    assert(views(out@) + Seq::<Seq<char>>::empty() =~= views(out@));
    out
}

// ---------------------------------------------------------------------
// Parts
// ---------------------------------------------------------------------

/// The parts of a text, from index `i` on, between the characters `c`.
pub open spec fn split_from(s: Seq<char>, i: int, c: char) -> Seq<Seq<char>>
    decreases s.len() - i,
{
    match find_char_from(s, i, c) {
        Some(k) => if i <= k < s.len() {
            seq![s.subrange(i, k)] + split_from(s, k + 1, c)
        } else {
            Seq::empty()
        },
        None => seq![s.skip(i)],
    }
}

/// The parts of a text between the characters `c`; at least one.
pub open spec fn split(s: Seq<char>, c: char) -> Seq<Seq<char>> {
    split_from(s, 0, c)
}

pub fn split_of(v: &[char], c: char) -> (r: Vec<Vec<char>>)
    ensures
        views(r@) == split(v@, c),
        r@.len() > 0,
{
    let mut out: Vec<Vec<char>> = Vec::new();
    let mut i: usize = 0;
    let mut k: usize = 0;
    assert(views(out@) + split_from(v@, 0, c) =~= split(v@, c));
    while k < v.len()
        invariant
            i <= k <= v.len(),
            find_char_from(v@, i as int, c) == find_char_from(v@, k as int, c),
            views(out@) + split_from(v@, i as int, c) == split(v@, c),
        decreases v.len() - k,
    {
        if v[k] == c {
            let ghost before = views(out@);
            let part_now = vstd::slice::slice_to_vec(part(v, i, k));
            proof {
                lemma_views_push(out@, part_now);
                assert(before + (seq![part_now@] + split_from(v@, k + 1, c)) =~= before.push(
                    part_now@,
                ) + split_from(v@, k + 1, c));
            }
            out.push(part_now);
            i = k + 1;
        }
        k += 1;
    }
    let ghost before = views(out@);
    let last = vstd::slice::slice_to_vec(part_from(v, i));
    proof {
        lemma_views_push(out@, last);
        assert(before + seq![last@] =~= before.push(last@));
    }
    out.push(last);
    out
}

/// The first `n` parts with `sep` between them.
pub open spec fn joined(parts: Seq<Seq<char>>, n: int, sep: Seq<char>) -> Seq<char>
    decreases n,
{
    if n <= 0 {
        Seq::empty()
    } else if n == 1 {
        parts[0]
    } else {
        joined(parts, n - 1, sep) + sep + parts[n - 1]
    }
}

pub fn join_of(parts: &Vec<String>, sep: &str) -> (r: String)
    ensures
        r@ == joined(views(parts@), parts@.len() as int, sep@),
{
    let mut out = String::new();
    let mut i: usize = 0;
    while i < parts.len()
        invariant
            i <= parts.len(),
            out@ == joined(views(parts@), i as int, sep@),
        decreases parts.len() - i,
    {
        assert(views(parts@)[i as int] == parts@[i as int]@);
        if i > 0 {
            out.push_str(sep);
        }
        out.push_str(parts[i].as_str());
        i += 1;
        assert(out@ =~= joined(views(parts@), i as int, sep@));
    }
    out
}

/// The last index, below `n`, of the character `c`.
pub open spec fn rfind_to(s: Seq<char>, n: int, c: char) -> Option<int>
    decreases n,
{
    if n <= 0 {
        None
    } else if s[n - 1] == c {
        Some(n - 1)
    } else {
        rfind_to(s, n - 1, c)
    }
}

pub open spec fn rfind(s: Seq<char>, c: char) -> Option<int> {
    rfind_to(s, s.len() as int, c)
}

pub fn rfind_of(v: &[char], c: char) -> (r: Option<usize>)
    ensures
        match r {
            Some(k) => rfind(v@, c) == Some(k as int) && k < v@.len(),
            None => rfind(v@, c) is None,
        },
{
    let mut n: usize = v.len();
    while n > 0
        invariant
            n <= v.len(),
            rfind(v@, c) == rfind_to(v@, n as int, c),
        decreases n,
    {
        if v[n - 1] == c {
            return Some(n - 1);
        }
        n -= 1;
    }
    None
}

/// Without the character `c` at the end.
pub open spec fn trim_end_char(s: Seq<char>, c: char) -> Seq<char>
    decreases s.len(),
{
    if s.len() > 0 && s.last() == c {
        trim_end_char(s.drop_last(), c)
    } else {
        s
    }
}

/// Without the character `c` at the front.
pub open spec fn trim_start_char(s: Seq<char>, c: char) -> Seq<char>
    decreases s.len(),
{
    if s.len() > 0 && s[0] == c {
        trim_start_char(s.skip(1), c)
    } else {
        s
    }
}

pub fn trim_end_char_of(v: &[char], c: char) -> (r: &[char])
    ensures
        r@ == trim_end_char(v@, c),
{
    let mut n: usize = v.len();
    assert(v@.take(n as int) =~= v@);
    while n > 0 && v[n - 1] == c
        invariant
            n <= v.len(),
            trim_end_char(v@, c) == trim_end_char(v@.take(n as int), c),
        decreases n,
    {
        assert(v@.take(n as int).drop_last() =~= v@.take(n - 1));
        n -= 1;
    }
    part_to(v, n)
}

pub fn trim_start_char_of(v: &[char], c: char) -> (r: &[char])
    ensures
        r@ == trim_start_char(v@, c),
{
    let mut i: usize = 0;
    assert(v@.skip(0) =~= v@);
    while i < v.len() && v[i] == c
        invariant
            i <= v.len(),
            trim_start_char(v@, c) == trim_start_char(v@.skip(i as int), c),
        decreases v.len() - i,
    {
        assert(v@.skip(i as int).skip(1) =~= v@.skip(i + 1));
        i += 1;
    }
    part_from(v, i)
}

/// Without the character `c` at either end.
pub open spec fn trim_char(s: Seq<char>, c: char) -> Seq<char> {
    trim_end_char(trim_start_char(s, c), c)
}

pub fn trim_char_of(v: &[char], c: char) -> (r: &[char])
    ensures
        r@ == trim_char(v@, c),
{
    trim_end_char_of(trim_start_char_of(v, c), c)
}

/// What follows the last slash, slashes at the end aside.
pub open spec fn last_segment(path: Seq<char>) -> Seq<char> {
    let p = trim_end_char(path, '/');
    match rfind(p, '/') {
        Some(k) => p.skip(k + 1),
        None => p,
    }
}

pub fn last_segment_of(path: &[char]) -> (r: &[char])
    ensures
        r@ == last_segment(path@),
{
    let p = trim_end_char_of(path, '/');
    let n = p.len();
    match rfind_of(p, '/') {
        Some(k) => part_from(p, k + 1),
        None => p,
    }
}

} // verus!
