//! Reading JSON text. Errors carry the byte at which they were found.

use vstd::prelude::*;
use vstd::utf8::encode_utf8;
use crate::json::{empty_object, Fields, JsonFields, JsonModel, Value};
use crate::model::hex_value;
use crate::number::{all_digits, canonical, digit_char, is_digit, rounded, Number, NumberModel};
use crate::table::put;
use crate::text::{
    at, at_of, bytes_of, chars_of, debug_char, dec, lemma_utf8_len_at_least, lemma_utf8_len_take,
    lemma_views_push, part, part_from, part_to, push_dec, quoted_char, res_view, utf8_len, views,
};

verus! {

/// Deepest nesting that is read.
pub const MAX_DEPTH: usize = 64;

/// What is wrong with a text, and where.
#[derive(Debug, PartialEq, Eq)]
pub struct ParseError {
    /// Byte at which the problem was found.
    pub offset: usize,
    pub message: String,
}

/// Mathematical counterpart of [`ParseError`].
pub struct ParseErrorModel {
    pub offset: nat,
    pub message: Seq<char>,
}

impl View for ParseError {
    type V = ParseErrorModel;

    open spec fn view(&self) -> ParseErrorModel {
        ParseErrorModel { offset: self.offset as nat, message: self.message@ }
    }
}

impl ParseErrorModel {
    /// The text shown to a person.
    pub open spec fn text(self) -> Seq<char> {
        "JSON inválido en el byte "@ + dec(self.offset) + ": "@ + self.message
    }
}

impl ParseError {
    /// The text shown to a person.
    pub fn text(&self) -> (r: String)
        ensures
            r@ == self@.text(),
    {
        let mut out = "JSON inválido en el byte ".to_owned();
        push_dec(&mut out, self.offset as u64);
        out.push_str(": ");
        out.push_str(self.message.as_str());
        out
    }
}

/// What was read and the index after it, or what is wrong.
pub type Read<T> = Result<(T, int), ParseErrorModel>;

pub open spec fn wrong(s: Seq<char>, i: int, message: Seq<char>) -> ParseErrorModel {
    ParseErrorModel { offset: utf8_len(s.take(i)), message }
}

fn fail(s: &[char], i: usize, message: &str) -> (r: ParseError)
    requires
        i <= s@.len(),
        utf8_len(s@) <= usize::MAX,
    ensures
        r@ == wrong(s@, i as int, message@),
{
    proof {
        lemma_utf8_len_take(s@, i as int, s@.len() as int);
        assert(s@.take(s@.len() as int) =~= s@);
    }
    ParseError { offset: bytes_of(part_to(s, i)), message: message.to_owned() }
}

/// Index after the white space at `i`.
pub open spec fn past_space(s: Seq<char>, i: int) -> int
    decreases s.len() - i,
{
    if 0 <= i < s.len() && (s[i] == ' ' || s[i] == '\t' || s[i] == '\n' || s[i] == '\r') {
        past_space(s, i + 1)
    } else {
        i
    }
}

fn skip_ws(s: &[char], i: usize) -> (r: usize)
    requires
        i <= s@.len(),
    ensures
        r == past_space(s@, i as int),
        i <= r <= s@.len(),
{
    let mut k: usize = i;
    while k < s.len() && (s[k] == ' ' || s[k] == '\t' || s[k] == '\n' || s[k] == '\r')
        invariant
            i <= k <= s.len(),
            past_space(s@, i as int) == past_space(s@, k as int),
        decreases s.len() - k,
    {
        k += 1;
    }
    k
}

// ---------------------------------------------------------------------
// Strings
// ---------------------------------------------------------------------

pub open spec fn hex_at(s: Seq<char>, i: int) -> bool {
    0 <= i < s.len() && hex_value(s[i]) is Some
}

/// Four hexadecimal digits at `i`.
pub open spec fn hex4(s: Seq<char>, i: int) -> Read<u32> {
    if utf8_len(s.skip(i)) < 4 {
        Err(wrong(s, i, "\\u incompleto"@))
    } else if hex_at(s, i) && hex_at(s, i + 1) && hex_at(s, i + 2) && hex_at(s, i + 3) {
        Ok(
            (
                (4096 * hex_value(s[i])->0 + 256 * hex_value(s[i + 1])->0 + 16 * hex_value(
                    s[i + 2],
                )->0 + hex_value(s[i + 3])->0) as u32,
                i + 4,
            ),
        )
    } else {
        Err(wrong(s, i, "dígito hex inválido en \\u"@))
    }
}

/// The character of a simple escape.
pub open spec fn simple_escape(c: char) -> Option<char> {
    if c == '"' {
        Some('"')
    } else if c == '\\' {
        Some('\\')
    } else if c == '/' {
        Some('/')
    } else if c == 'b' {
        Some('\u{8}')
    } else if c == 'f' {
        Some('\u{c}')
    } else if c == 'n' {
        Some('\n')
    } else if c == 'r' {
        Some('\r')
    } else if c == 't' {
        Some('\t')
    } else {
        None
    }
}

/// The character of a Unicode escape whose digits start at `i`, and the index
/// after it. Characters past the first plane come as two escapes.
pub open spec fn unicode_escape(s: Seq<char>, i: int) -> Read<char> {
    match hex4(s, i) {
        Err(e) => Err(e),
        Ok((cp, j)) => if 0xd800 <= cp < 0xdc00 {
            if !at(s, j, "\\u"@) {
                Err(wrong(s, j, "subrogado alto sin pareja"@))
            } else {
                match hex4(s, j + 2) {
                    Err(e) => Err(e),
                    Ok((low, k)) => if !(0xdc00 <= low < 0xe000) {
                        Err(wrong(s, k, "subrogado bajo inválido"@))
                    } else {
                        Ok(
                            (
                                (0x10000 + (cp - 0xd800) * 0x400 + (low - 0xdc00)) as u32 as char,
                                k,
                            ),
                        )
                    },
                }
            }
        } else if 0xdc00 <= cp < 0xe000 {
            Err(wrong(s, j, "subrogado bajo sin pareja"@))
        } else {
            Ok((cp as char, j))
        },
    }
}

/// The rest of a string from `i` on, after what was read of it.
pub open spec fn string_from(s: Seq<char>, i: int, out: Seq<char>) -> Read<Seq<char>>
    decreases s.len() - i,
{
    if i < 0 || i >= s.len() {
        Err(wrong(s, i, "string sin cerrar"@))
    } else if s[i] == '"' {
        Ok((out, i + 1))
    } else if s[i] == '\\' {
        if i + 1 >= s.len() {
            Err(wrong(s, i + 1, "escape inválido"@))
        } else if s[i + 1] == 'u' {
            match unicode_escape(s, i + 2) {
                Err(e) => Err(e),
                Ok((c, j)) => if i < j <= s.len() {
                    string_from(s, j, out.push(c))
                } else {
                    Err(wrong(s, i, "string sin cerrar"@))
                },
            }
        } else {
            match simple_escape(s[i + 1]) {
                Some(c) => string_from(s, i + 2, out.push(c)),
                None => Err(wrong(s, i + 1, "escape inválido"@)),
            }
        }
    } else if (s[i] as u32) < 0x20 {
        Err(wrong(s, i, "carácter de control sin escapar en string"@))
    } else {
        string_from(s, i + 1, out.push(s[i]))
    }
}

/// A string at `i`.
pub open spec fn string_at(s: Seq<char>, i: int) -> Read<Seq<char>> {
    if 0 <= i < s.len() && s[i] == '"' {
        string_from(s, i + 1, Seq::empty())
    } else {
        Err(wrong(s, i, "se esperaba '\"'"@))
    }
}

fn parse_hex4(s: &[char], i: usize) -> (r: Result<(u32, usize), ParseError>)
    requires
        i <= s@.len(),
        utf8_len(s@) <= usize::MAX,
    ensures
        match r {
            Ok((x, j)) => hex4(s@, i as int) == Ok::<_, ParseErrorModel>((x, j as int)) && j == i
                + 4 && j <= s@.len() && x < 0x10000,
            Err(e) => hex4(s@, i as int) == Err::<(u32, int), _>(e@),
        },
{
    proof {
        lemma_utf8_len_take(s@, i as int, i as int);
        lemma_utf8_len_at_least(s@.skip(i as int));
    }
    if bytes_of(part_from(s, i)) < 4 {
        return Err(fail(s, i, "\\u incompleto"));
    }
    if s.len() - i < 4 {
        return Err(fail(s, i, "dígito hex inválido en \\u"));
    }
    match (
        crate::model::hex_val(s[i]),
        crate::model::hex_val(s[i + 1]),
        crate::model::hex_val(s[i + 2]),
        crate::model::hex_val(s[i + 3]),
    ) {
        (Some(a), Some(b), Some(c), Some(d)) => Ok(
            (4096 * a as u32 + 256 * b as u32 + 16 * c as u32 + d as u32, i + 4),
        ),
        _ => Err(fail(s, i, "dígito hex inválido en \\u")),
    }
}

fn parse_unicode(s: &[char], i: usize) -> (r: Result<(char, usize), ParseError>)
    requires
        i <= s@.len(),
        utf8_len(s@) <= usize::MAX,
    ensures
        match r {
            Ok((c, j)) => unicode_escape(s@, i as int) == Ok::<_, ParseErrorModel>((c, j as int))
                && i < j <= s@.len(),
            Err(e) => unicode_escape(s@, i as int) == Err::<(char, int), _>(e@),
        },
{
    let (cp, j) = match parse_hex4(s, i) {
        Err(e) => {
            return Err(e);
        },
        Ok(x) => x,
    };
    if 0xd800 <= cp && cp < 0xdc00 {
        proof {
            reveal_strlit("\\u");
            assert("\\u"@.len() == 2);
        }
        let mark = chars_of("\\u");
        if !at_of(s, j, mark.as_slice()) {
            return Err(fail(s, j, "subrogado alto sin pareja"));
        }
        let n = s.len();
        let (low, k) = match parse_hex4(s, j + 2) {
            Err(e) => {
                return Err(e);
            },
            Ok(x) => x,
        };
        if !(0xdc00 <= low && low < 0xe000) {
            return Err(fail(s, k, "subrogado bajo inválido"));
        }
        let c: u32 = 0x10000 + (cp - 0xd800) * 0x400 + (low - 0xdc00);
        match char::from_u32(c) {
            Some(ch) => Ok((ch, k)),
            None => {
                assert(false);
                Err(fail(s, k, "codepoint inválido"))
            },
        }
    } else if 0xdc00 <= cp && cp < 0xe000 {
        Err(fail(s, j, "subrogado bajo sin pareja"))
    } else {
        match char::from_u32(cp) {
            Some(ch) => Ok((ch, j)),
            None => {
                assert(false);
                Err(fail(s, j, "codepoint inválido"))
            },
        }
    }
}

fn simple_escape_of(c: char) -> (r: Option<char>)
    ensures
        r == simple_escape(c),
{
    if c == '"' {
        Some('"')
    } else if c == '\\' {
        Some('\\')
    } else if c == '/' {
        Some('/')
    } else if c == 'b' {
        Some('\u{8}')
    } else if c == 'f' {
        Some('\u{c}')
    } else if c == 'n' {
        Some('\n')
    } else if c == 'r' {
        Some('\r')
    } else if c == 't' {
        Some('\t')
    } else {
        None
    }
}

fn parse_string(s: &[char], i: usize) -> (r: Result<(String, usize), ParseError>)
    requires
        i <= s@.len(),
        utf8_len(s@) <= usize::MAX,
    ensures
        match r {
            Ok((t, j)) => string_at(s@, i as int) == Ok::<_, ParseErrorModel>((t@, j as int)) && i
                < j <= s@.len(),
            Err(e) => string_at(s@, i as int) == Err::<(Seq<char>, int), _>(e@),
        },
{
    if !(i < s.len() && s[i] == '"') {
        return Err(fail(s, i, "se esperaba '\"'"));
    }
    let mut out = String::new();
    let mut k: usize = i + 1;
    assert(out@ =~= Seq::<char>::empty());
    while k < s.len()
        invariant
            i < k <= s.len(),
            utf8_len(s@) <= usize::MAX,
            string_at(s@, i as int) == string_from(s@, k as int, out@),
        decreases s.len() - k,
    {
        let c = s[k];
        if c == '"' {
            return Ok((out, k + 1));
        }
        if c == '\\' {
            if k + 1 >= s.len() {
                return Err(fail(s, k + 1, "escape inválido"));
            }
            if s[k + 1] == 'u' {
                match parse_unicode(s, k + 2) {
                    Err(e) => {
                        return Err(e);
                    },
                    Ok((ch, j)) => {
                        out.push(ch);
                        k = j;
                    },
                }
            } else {
                match simple_escape_of(s[k + 1]) {
                    Some(ch) => {
                        out.push(ch);
                        k = k + 2;
                    },
                    None => {
                        return Err(fail(s, k + 1, "escape inválido"));
                    },
                }
            }
        } else if (c as u32) < 0x20 {
            return Err(fail(s, k, "carácter de control sin escapar en string"));
        } else {
            out.push(c);
            k += 1;
        }
    }
    Err(fail(s, k, "string sin cerrar"))
}

// ---------------------------------------------------------------------
// Numbers
// ---------------------------------------------------------------------

/// Index after the digits at `i`.
pub open spec fn past_digits(s: Seq<char>, i: int) -> int
    decreases s.len() - i,
{
    if 0 <= i < s.len() && is_digit(s[i]) {
        past_digits(s, i + 1)
    } else {
        i
    }
}

pub open spec fn digit_at(s: Seq<char>, i: int) -> bool {
    0 <= i < s.len() && is_digit(s[i])
}

/// Largest exponent that is told apart; any larger one is out of range too.
pub const EXPONENT_CAP: u64 = 1_000_000_000_000_000_000;

/// The number that the digits from `i` up to `j` write, up to the cap.
pub open spec fn exponent_value(s: Seq<char>, i: int, j: int) -> nat
    decreases j - i,
{
    if j <= i {
        0
    } else {
        let v = 10 * exponent_value(s, i, j - 1) + (s[j - 1] as int - 48);
        if v > EXPONENT_CAP {
            EXPONENT_CAP as nat
        } else {
            v as nat
        }
    }
}

/// Where the whole part of a number that starts at `i` lies.
pub open spec fn whole_part(s: Seq<char>, i: int) -> Read<int> {
    let j = if 0 <= i < s.len() && s[i] == '-' {
        i + 1
    } else {
        i
    };
    if !digit_at(s, j) {
        Err(wrong(s, j, "dígito esperado"@))
    } else if s[j] == '0' {
        Ok((j, j + 1))
    } else {
        Ok((j, past_digits(s, j)))
    }
}

/// Where the fraction that may start at `k` lies.
pub open spec fn fraction_part(s: Seq<char>, k: int) -> Read<int> {
    if 0 <= k < s.len() && s[k] == '.' {
        if !digit_at(s, k + 1) {
            Err(wrong(s, k + 1, "dígito esperado tras '.'"@))
        } else {
            Ok((k + 1, past_digits(s, k + 1)))
        }
    } else {
        Ok((k, k))
    }
}

/// The exponent that may start at `f`.
pub open spec fn exponent_part(s: Seq<char>, f: int) -> Read<int> {
    if 0 <= f < s.len() && (s[f] == 'e' || s[f] == 'E') {
        let signed = f + 1 < s.len() && (s[f + 1] == '+' || s[f + 1] == '-');
        let g = if signed {
            f + 2
        } else {
            f + 1
        };
        if !digit_at(s, g) {
            Err(wrong(s, g, "dígito esperado en el exponente"@))
        } else {
            let h = past_digits(s, g);
            let v = exponent_value(s, g, h) as int;
            Ok(
                (
                    if signed && s[f + 1] == '-' {
                        -v
                    } else {
                        v
                    },
                    h,
                ),
            )
        }
    } else {
        Ok((0, f))
    }
}

/// A number at `i`.
pub open spec fn number_at(s: Seq<char>, i: int) -> Read<NumberModel> {
    match whole_part(s, i) {
        Err(e) => Err(e),
        Ok((a, b)) => match fraction_part(s, b) {
            Err(e) => Err(e),
            Ok((c, d)) => match exponent_part(s, d) {
                Err(e) => Err(e),
                Ok((x, end)) => {
                    let negative = s[i] == '-';
                    let digits = s.subrange(a, b) + s.subrange(c, d);
                    match rounded(canonical(negative, digits, (b - a) + x)) {
                        None => Err(wrong(s, end, "número fuera de rango"@)),
                        Some(m) => Ok((m, end)),
                    }
                },
            },
        },
    }
}

fn skip_digits(s: &[char], i: usize) -> (r: usize)
    requires
        i <= s@.len(),
    ensures
        r == past_digits(s@, i as int),
        i <= r <= s@.len(),
        digit_at(s@, i as int) ==> i < r,
        all_digits(s@.subrange(i as int, r as int)),
{
    let mut k: usize = i;
    while k < s.len() && digit_char(s[k])
        invariant
            i <= k <= s.len(),
            past_digits(s@, i as int) == past_digits(s@, k as int),
            forall|j: int| i <= j < k ==> is_digit(#[trigger] s@[j]),
        decreases s.len() - k,
    {
        k += 1;
    }
    k
}

fn exponent_of(s: &[char], i: usize, j: usize) -> (r: u64)
    requires
        i <= j <= s@.len(),
        all_digits(s@.subrange(i as int, j as int)),
    ensures
        r == exponent_value(s@, i as int, j as int),
        r <= EXPONENT_CAP,
{
    let mut v: u64 = 0;
    let mut k: usize = i;
    while k < j
        invariant
            i <= k <= j <= s@.len(),
            all_digits(s@.subrange(i as int, j as int)),
            v == exponent_value(s@, i as int, k as int),
            v <= EXPONENT_CAP,
        decreases j - k,
    {
        assert(is_digit(s@.subrange(i as int, j as int)[k - i]));
        let d: u64 = s[k] as u64 - 48;
        let w: u64 = 10 * v + d;
        v = if w > EXPONENT_CAP {
            EXPONENT_CAP
        } else {
            w
        };
        k += 1;
    }
    v
}

fn parse_whole(s: &[char], i: usize) -> (r: Result<(usize, usize), ParseError>)
    requires
        i < s@.len(),
        utf8_len(s@) <= usize::MAX,
    ensures
        match r {
            Ok((a, b)) => whole_part(s@, i as int) == Ok::<_, ParseErrorModel>((a as int, b as int))
                && i <= a < b <= s@.len() && all_digits(s@.subrange(a as int, b as int)),
            Err(e) => whole_part(s@, i as int) == Err::<(int, int), _>(e@),
        },
{
    let j: usize = if s[i] == '-' {
        i + 1
    } else {
        i
    };
    if !(j < s.len() && digit_char(s[j])) {
        return Err(fail(s, j, "dígito esperado"));
    }
    if s[j] == '0' {
        return Ok((j, j + 1));
    }
    let b = skip_digits(s, j);
    Ok((j, b))
}

fn parse_fraction(s: &[char], k: usize) -> (r: Result<(usize, usize), ParseError>)
    requires
        k <= s@.len(),
        utf8_len(s@) <= usize::MAX,
    ensures
        match r {
            Ok((a, b)) => fraction_part(s@, k as int) == Ok::<_, ParseErrorModel>(
                (a as int, b as int),
            ) && k <= a <= b <= s@.len() && all_digits(s@.subrange(a as int, b as int)),
            Err(e) => fraction_part(s@, k as int) == Err::<(int, int), _>(e@),
        },
{
    if !(k < s.len() && s[k] == '.') {
        return Ok((k, k));
    }
    if !(k + 1 < s.len() && digit_char(s[k + 1])) {
        return Err(fail(s, k + 1, "dígito esperado tras '.'"));
    }
    Ok((k + 1, skip_digits(s, k + 1)))
}

fn parse_exponent(s: &[char], f: usize) -> (r: Result<(i64, usize), ParseError>)
    requires
        f <= s@.len(),
        utf8_len(s@) <= usize::MAX,
    ensures
        match r {
            Ok((x, h)) => exponent_part(s@, f as int) == Ok::<_, ParseErrorModel>(
                (x as int, h as int),
            ) && f <= h <= s@.len() && -EXPONENT_CAP <= x <= EXPONENT_CAP,
            Err(e) => exponent_part(s@, f as int) == Err::<(int, int), _>(e@),
        },
{
    if !(f < s.len() && (s[f] == 'e' || s[f] == 'E')) {
        return Ok((0, f));
    }
    let signed = f + 1 < s.len() && (s[f + 1] == '+' || s[f + 1] == '-');
    let g: usize = if signed {
        f + 2
    } else {
        f + 1
    };
    if !(g < s.len() && digit_char(s[g])) {
        return Err(fail(s, g, "dígito esperado en el exponente"));
    }
    let h = skip_digits(s, g);
    let v: i64 = exponent_of(s, g, h) as i64;
    if signed && s[f + 1] == '-' {
        Ok((-v, h))
    } else {
        Ok((v, h))
    }
}

fn parse_number(s: &[char], i: usize) -> (r: Result<(Number, usize), ParseError>)
    requires
        i < s@.len(),
        utf8_len(s@) <= usize::MAX,
    ensures
        match r {
            Ok((x, j)) => number_at(s@, i as int) == Ok::<_, ParseErrorModel>((x@, j as int)) && i
                < j <= s@.len(),
            Err(e) => number_at(s@, i as int) == Err::<(NumberModel, int), _>(e@),
        },
{
    let (a, b) = match parse_whole(s, i) {
        Err(e) => {
            return Err(e);
        },
        Ok(x) => x,
    };
    let (c, d) = match parse_fraction(s, b) {
        Err(e) => {
            return Err(e);
        },
        Ok(x) => x,
    };
    let (x, end) = match parse_exponent(s, d) {
        Err(e) => {
            return Err(e);
        },
        Ok(x) => x,
    };
    let mut digits = vstd::slice::slice_to_vec(part(s, a, b));
    let mut k: usize = c;
    let ghost head = digits@;
    assert(head + s@.subrange(c as int, c as int) =~= head);
    while k < d
        invariant
            c <= k <= d <= s@.len(),
            digits@ == head + s@.subrange(c as int, k as int),
        decreases d - k,
    {
        digits.push(s[k]);
        k += 1;
        assert(digits@ =~= head + s@.subrange(c as int, k as int));
    }
    proof {
        assert forall|q: int| 0 <= q < digits@.len() implies is_digit(#[trigger] digits@[q]) by {
            if q < head.len() {
                assert(digits@[q] == s@.subrange(a as int, b as int)[q]);
            } else {
                assert(digits@[q] == s@.subrange(c as int, d as int)[q - head.len()]);
            }
        }
    }
    let negative = s[i] == '-';
    let point: i128 = (b - a) as i128 + x as i128;
    match Number::from_decimal(negative, digits.as_slice(), point) {
        None => Err(fail(s, end, "número fuera de rango")),
        Some(m) => Ok((m, end)),
    }
}

// ---------------------------------------------------------------------
// Values
// ---------------------------------------------------------------------

/// A literal at `i`.
pub open spec fn literal_at(s: Seq<char>, i: int, lit: Seq<char>, v: JsonModel) -> Read<JsonModel> {
    if at(s, i, lit) {
        Ok((v, i + lit.len()))
    } else {
        Err(wrong(s, i, "se esperaba el literal "@ + lit))
    }
}

/// The first byte of the character at `i`, read as a character.
pub open spec fn lead_byte(s: Seq<char>, i: int) -> char {
    encode_utf8(s)[utf8_len(s.take(i)) as int] as char
}

/// A value at `i`, `depth` levels down.
#[verifier::opaque]
pub open spec fn value_at(s: Seq<char>, i: int, depth: nat) -> Read<JsonModel>
    decreases MAX_DEPTH + 1 - depth, 1int, 0int,
{
    if depth > MAX_DEPTH {
        Err(wrong(s, i, "anidamiento demasiado profundo"@))
    } else if i < 0 || i >= s.len() {
        Err(wrong(s, i, "fin inesperado de la entrada"@))
    } else if s[i] == '{' {
        let j = past_space(s, i + 1);
        if j < s.len() && s[j] == '}' {
            Ok((empty_object(), j + 1))
        } else {
            fields_at(s, j, depth, Seq::empty())
        }
    } else if s[i] == '[' {
        let j = past_space(s, i + 1);
        if j < s.len() && s[j] == ']' {
            Ok((JsonModel::Array(Seq::empty()), j + 1))
        } else {
            items_at(s, j, depth, Seq::empty())
        }
    } else if s[i] == '"' {
        match string_at(s, i) {
            Err(e) => Err(e),
            Ok((t, j)) => Ok((JsonModel::String(t), j)),
        }
    } else if s[i] == 't' {
        literal_at(s, i, "true"@, JsonModel::Bool(true))
    } else if s[i] == 'f' {
        literal_at(s, i, "false"@, JsonModel::Bool(false))
    } else if s[i] == 'n' {
        literal_at(s, i, "null"@, JsonModel::Null)
    } else if s[i] == '-' || is_digit(s[i]) {
        match number_at(s, i) {
            Err(e) => Err(e),
            Ok((m, j)) => Ok((JsonModel::Number(m), j)),
        }
    } else {
        Err(wrong(s, i, "carácter inesperado "@ + debug_char(lead_byte(s, i))))
    }
}

/// The items of an array from `i` on, after those already read.
#[verifier::opaque]
pub open spec fn items_at(s: Seq<char>, i: int, depth: nat, items: Seq<JsonModel>) -> Read<
    JsonModel,
>
    decreases MAX_DEPTH + 1 - depth, 0int, s.len() - i,
{
    if depth > MAX_DEPTH {
        Err(wrong(s, i, "anidamiento demasiado profundo"@))
    } else {
        match value_at(s, past_space(s, i), depth + 1) {
            Err(e) => Err(e),
            Ok((v, k)) => {
                let j = past_space(s, k);
                if i <= j < s.len() && s[j] == ',' {
                    items_at(s, j + 1, depth, items.push(v))
                } else if i <= j < s.len() && s[j] == ']' {
                    Ok((JsonModel::Array(items.push(v)), j + 1))
                } else {
                    Err(wrong(s, j, "se esperaba ',' o ']'"@))
                }
            },
        }
    }
}

/// The fields of an object from `i` on, after those already read. Of two
/// fields with one key the last counts.
#[verifier::opaque]
pub open spec fn fields_at(s: Seq<char>, i: int, depth: nat, fields: JsonFields) -> Read<JsonModel>
    decreases MAX_DEPTH + 1 - depth, 0int, s.len() - i,
{
    if depth > MAX_DEPTH {
        Err(wrong(s, i, "anidamiento demasiado profundo"@))
    } else {
        match string_at(s, past_space(s, i)) {
            Err(e) => Err(e),
            Ok((key, a)) => {
                let b = past_space(s, a);
                if !(0 <= b < s.len() && s[b] == ':') {
                    Err(wrong(s, b, "se esperaba ':'"@))
                } else {
                    match value_at(s, past_space(s, b + 1), depth + 1) {
                        Err(e) => Err(e),
                        Ok((v, k)) => {
                            let j = past_space(s, k);
                            if i <= j < s.len() && s[j] == ',' {
                                fields_at(s, j + 1, depth, put(fields, key, v))
                            } else if i <= j < s.len() && s[j] == '}' {
                                Ok((JsonModel::Object(put(fields, key, v)), j + 1))
                            } else {
                                Err(wrong(s, j, "se esperaba ',' o '}'"@))
                            }
                        },
                    }
                }
            },
        }
    }
}

/// The value that a whole text writes.
pub open spec fn read_json(s: Seq<char>) -> Result<JsonModel, ParseErrorModel> {
    match value_at(s, past_space(s, 0), 0) {
        Err(e) => Err(e),
        Ok((v, i)) => {
            let j = past_space(s, i);
            if j != s.len() {
                Err(wrong(s, j, "contenido extra tras el valor raíz"@))
            } else {
                Ok(v)
            }
        },
    }
}

/// One more item.
pub(crate) proof fn lemma_items_step(s: Seq<char>, i: int, depth: nat, items: Seq<JsonModel>)
    requires
        depth <= MAX_DEPTH,
    ensures
        items_at(s, i, depth, items) == match value_at(s, past_space(s, i), depth + 1) {
            Err(e) => Err(e),
            Ok((v, k)) => {
                let j = past_space(s, k);
                if i <= j < s.len() && s[j] == ',' {
                    items_at(s, j + 1, depth, items.push(v))
                } else if i <= j < s.len() && s[j] == ']' {
                    Ok((JsonModel::Array(items.push(v)), j + 1))
                } else {
                    Err(wrong(s, j, "se esperaba ',' o ']'"@))
                }
            },
        },
{
    reveal(value_at);
    reveal(items_at);
    reveal(fields_at);
}

/// One more field.
pub(crate) proof fn lemma_fields_step(s: Seq<char>, i: int, depth: nat, fields: JsonFields)
    requires
        depth <= MAX_DEPTH,
    ensures
        fields_at(s, i, depth, fields) == match string_at(s, past_space(s, i)) {
            Err(e) => Err(e),
            Ok((key, a)) => {
                let b = past_space(s, a);
                if !(0 <= b < s.len() && s[b] == ':') {
                    Err(wrong(s, b, "se esperaba ':'"@))
                } else {
                    match value_at(s, past_space(s, b + 1), depth + 1) {
                        Err(e) => Err(e),
                        Ok((v, k)) => {
                            let j = past_space(s, k);
                            if i <= j < s.len() && s[j] == ',' {
                                fields_at(s, j + 1, depth, put(fields, key, v))
                            } else if i <= j < s.len() && s[j] == '}' {
                                Ok((JsonModel::Object(put(fields, key, v)), j + 1))
                            } else {
                                Err(wrong(s, j, "se esperaba ',' o '}'"@))
                            }
                        },
                    }
                }
            },
        },
{
    reveal(value_at);
    reveal(items_at);
    reveal(fields_at);
}

fn parse_literal(s: &[char], i: usize, lit: &str, v: Value) -> (r: Result<
    (Value, usize),
    ParseError,
>)
    requires
        i < s@.len(),
        utf8_len(s@) <= usize::MAX,
        lit@.len() > 0,
    ensures
        match r {
            Ok((x, j)) => literal_at(s@, i as int, lit@, v@) == Ok::<_, ParseErrorModel>(
                (x@, j as int),
            ) && i < j <= s@.len(),
            Err(e) => literal_at(s@, i as int, lit@, v@) == Err::<(JsonModel, int), _>(e@),
        },
{
    let l = chars_of(lit);
    let n = s.len();
    if at_of(s, i, l.as_slice()) {
        Ok((v, i + l.len()))
    } else {
        let mut m = "se esperaba el literal ".to_owned();
        m.push_str(lit);
        Err(fail(s, i, m.as_str()))
    }
}

fn unexpected(s: &[char], bytes: &[u8], i: usize) -> (r: ParseError)
    requires
        i < s@.len(),
        bytes@ == encode_utf8(s@),
        utf8_len(s@) <= usize::MAX,
    ensures
        r@ == wrong(s@, i as int, "carácter inesperado "@ + debug_char(lead_byte(s@, i as int))),
{
    proof {
        lemma_utf8_len_take(s@, i as int, i as int);
        lemma_utf8_len_at_least(s@.skip(i as int));
    }
    let off = bytes_of(part_to(s, i));
    let mut m = "carácter inesperado ".to_owned();
    m.push_str(quoted_char(bytes[off] as char).as_str());
    fail(s, i, m.as_str())
}

fn parse_value(s: &[char], bytes: &[u8], i: usize, depth: usize) -> (r: Result<
    (Value, usize),
    ParseError,
>)
    requires
        i <= s@.len(),
        bytes@ == encode_utf8(s@),
        utf8_len(s@) <= usize::MAX,
        depth <= MAX_DEPTH + 1,
    ensures
        match r {
            Ok((v, j)) => value_at(s@, i as int, depth as nat) == Ok::<_, ParseErrorModel>(
                (v@, j as int),
            ) && i < j <= s@.len(),
            Err(e) => value_at(s@, i as int, depth as nat) == Err::<(JsonModel, int), _>(e@),
        },
    decreases MAX_DEPTH + 1 - depth, 1int,
{
    broadcast use crate::json::lemma_array_view;

    reveal(value_at);
    reveal(items_at);
    reveal(fields_at);
    if depth > MAX_DEPTH {
        return Err(fail(s, i, "anidamiento demasiado profundo"));
    }
    if i >= s.len() {
        return Err(fail(s, i, "fin inesperado de la entrada"));
    }
    let c = s[i];
    if c == '{' {
        let j = skip_ws(s, i + 1);
        if j < s.len() && s[j] == '}' {
            return Ok((Fields::new().done(), j + 1));
        }
        return parse_fields(s, bytes, j, depth);
    }
    if c == '[' {
        let j = skip_ws(s, i + 1);
        if j < s.len() && s[j] == ']' {
            let none: Vec<Value> = Vec::new();
            assert(views(none@) =~= Seq::empty());
            return Ok((Value::Array(none), j + 1));
        }
        return parse_items(s, bytes, j, depth);
    }
    if c == '"' {
        return match parse_string(s, i) {
            Err(e) => Err(e),
            Ok((t, j)) => Ok((Value::String(t), j)),
        };
    }
    proof {
        reveal_strlit("true");
        reveal_strlit("false");
        reveal_strlit("null");
    }
    if c == 't' {
        return parse_literal(s, i, "true", Value::Bool(true));
    }
    if c == 'f' {
        return parse_literal(s, i, "false", Value::Bool(false));
    }
    if c == 'n' {
        return parse_literal(s, i, "null", Value::Null);
    }
    if c == '-' || digit_char(c) {
        return match parse_number(s, i) {
            Err(e) => Err(e),
            Ok((x, j)) => Ok((Value::Number(x), j)),
        };
    }
    Err(unexpected(s, bytes, i))
}

fn parse_items(s: &[char], bytes: &[u8], i: usize, depth: usize) -> (r: Result<
    (Value, usize),
    ParseError,
>)
    requires
        i <= s@.len(),
        bytes@ == encode_utf8(s@),
        utf8_len(s@) <= usize::MAX,
        depth <= MAX_DEPTH,
    ensures
        match r {
            Ok((v, j)) => items_at(s@, i as int, depth as nat, Seq::empty()) == Ok::<
                _,
                ParseErrorModel,
            >((v@, j as int)) && i < j <= s@.len(),
            Err(e) => items_at(s@, i as int, depth as nat, Seq::empty()) == Err::<
                (JsonModel, int),
                _,
            >(e@),
        },
    decreases MAX_DEPTH + 1 - depth, 0int,
{
    let mut items: Vec<Value> = Vec::new();
    let mut at_now: usize = i;
    assert(views(items@) =~= Seq::empty());
    loop
        invariant
            i <= at_now <= s@.len(),
            bytes@ == encode_utf8(s@),
            utf8_len(s@) <= usize::MAX,
            depth <= MAX_DEPTH,
            items_at(s@, i as int, depth as nat, Seq::empty()) == items_at(
                s@,
                at_now as int,
                depth as nat,
                views(items@),
            ),
        decreases s@.len() - at_now,
    {
        proof {
            lemma_items_step(s@, at_now as int, depth as nat, views(items@));
        }
        let n = s.len();
        let start = skip_ws(s, at_now);
        let (v, k) = match parse_value(s, bytes, start, depth + 1) {
            Err(e) => {
                return Err(e);
            },
            Ok(x) => x,
        };
        let j = skip_ws(s, k);
        proof {
            lemma_views_push(items@, v);
        }
        items.push(v);
        if j < n && s[j] == ',' {
            at_now = j + 1;
        } else if j < n && s[j] == ']' {
            proof {
                crate::json::lemma_array_view(items);
            }
            return Ok((Value::Array(items), j + 1));
        } else {
            return Err(fail(s, j, "se esperaba ',' o ']'"));
        }
    }
}

fn parse_fields(s: &[char], bytes: &[u8], i: usize, depth: usize) -> (r: Result<
    (Value, usize),
    ParseError,
>)
    requires
        i <= s@.len(),
        bytes@ == encode_utf8(s@),
        utf8_len(s@) <= usize::MAX,
        depth <= MAX_DEPTH,
    ensures
        match r {
            Ok((v, j)) => fields_at(s@, i as int, depth as nat, Seq::empty()) == Ok::<
                _,
                ParseErrorModel,
            >((v@, j as int)) && i < j <= s@.len(),
            Err(e) => fields_at(s@, i as int, depth as nat, Seq::empty()) == Err::<
                (JsonModel, int),
                _,
            >(e@),
        },
    decreases MAX_DEPTH + 1 - depth, 0int,
{
    let mut fields = Fields::new();
    let mut at_now: usize = i;
    loop
        invariant
            i <= at_now <= s@.len(),
            bytes@ == encode_utf8(s@),
            utf8_len(s@) <= usize::MAX,
            depth <= MAX_DEPTH,
            fields_at(s@, i as int, depth as nat, Seq::empty()) == fields_at(
                s@,
                at_now as int,
                depth as nat,
                fields@->Object_0,
            ),
            fields@ is Object,
        decreases s@.len() - at_now,
    {
        proof {
            lemma_fields_step(s@, at_now as int, depth as nat, fields@->Object_0);
        }
        let n = s.len();
        let start = skip_ws(s, at_now);
        let (key, a) = match parse_string(s, start) {
            Err(e) => {
                return Err(e);
            },
            Ok(x) => x,
        };
        let b = skip_ws(s, a);
        if !(b < n && s[b] == ':') {
            return Err(fail(s, b, "se esperaba ':'"));
        }
        let (v, k) = match parse_value(s, bytes, skip_ws(s, b + 1), depth + 1) {
            Err(e) => {
                return Err(e);
            },
            Ok(x) => x,
        };
        let j = skip_ws(s, k);
        fields.set(key.as_str(), v);
        if j < n && s[j] == ',' {
            at_now = j + 1;
        } else if j < n && s[j] == '}' {
            return Ok((fields.done(), j + 1));
        } else {
            return Err(fail(s, j, "se esperaba ',' o '}'"));
        }
    }
}

/// Reads a whole JSON text; nothing may follow the value.
pub fn parse(input: &str) -> (r: Result<Value, ParseError>)
    ensures
        res_view(r) == read_json(input@),
{
    let bytes = input.as_bytes();
    let n = bytes.len();
    let chars = chars_of(input);
    let s = chars.as_slice();
    let (v, i) = match parse_value(s, bytes, skip_ws(s, 0), 0) {
        Err(e) => {
            return Err(e);
        },
        Ok(x) => x,
    };
    let j = skip_ws(s, i);
    if j != s.len() {
        return Err(fail(s, j, "contenido extra tras el valor raíz"));
    }
    Ok(v)
}

} // verus!
