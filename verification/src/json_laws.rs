//! What is written is read back, and what is read can be written.

use vstd::prelude::*;
use crate::json::{
    escaped, escaped_to, fields_text, items_text, json_text, sound, string_text, JsonFields,
    JsonModel,
};
use crate::json_parse::{
    digit_at, exponent_part, fields_at, fraction_part, hex4, items_at, lemma_fields_step,
    lemma_items_step, number_at, past_digits, past_space, read_json, string_at, string_from,
    unicode_escape, value_at, whole_part, ParseErrorModel, MAX_DEPTH,
};
use crate::model::hex_value;
use crate::number::{
    all_digits, canonical, is_digit, lemma_canonical, number_ok, number_text, zero, zero_run,
    NumberModel,
};
use crate::table::{ascending, before, lemma_put_ascending, lemma_put_entries, put, rank};
use crate::text::{at, hex_digit, lemma_utf8_len_at_least, trim_end_char, trim_start_char};

verus! {

// ---------------------------------------------------------------------
// Where a text stands
// ---------------------------------------------------------------------

proof fn lemma_at_concat(s: Seq<char>, i: int, a: Seq<char>, b: Seq<char>)
    requires
        at(s, i, a + b),
    ensures
        at(s, i, a),
        at(s, i + a.len(), b),
{
    let ab = s.subrange(i, i + a.len() + b.len());
    assert(ab == a + b);
    assert(s.subrange(i, i + a.len()) =~= a) by {
        assert forall|k: int| 0 <= k < a.len() implies s[i + k] == a[k] by {
            assert(ab[k] == (a + b)[k]);
        }
    }
    assert(s.subrange(i + a.len(), i + a.len() + b.len()) =~= b) by {
        assert forall|k: int| 0 <= k < b.len() implies s[i + a.len() + k] == b[k] by {
            assert(ab[a.len() + k] == (a + b)[a.len() + k]);
        }
    }
}

proof fn lemma_at_index(s: Seq<char>, i: int, p: Seq<char>, k: int)
    requires
        at(s, i, p),
        0 <= k < p.len(),
    ensures
        s[i + k] == p[k],
        0 <= i + k < s.len(),
{
    assert(s.subrange(i, i + p.len())[k] == p[k]);
}

// ---------------------------------------------------------------------
// Strings
// ---------------------------------------------------------------------

proof fn lemma_hex_values(c: char)
    requires
        (c as u32) < 0x20,
    ensures
        hex_value(hex_digit((c as u8) as int / 16)) == Some((c as u32) as int / 16),
        hex_value(hex_digit((c as u8) as int % 16)) == Some((c as u32) as int % 16),
        ((c as u32) as int) == 16 * ((c as u32) as int / 16) + (c as u32) as int % 16,
{
}

/// One character of a string is read back.
proof fn lemma_escaped(s: Seq<char>, i: int, c: char, out: Seq<char>)
    requires
        at(s, i, escaped(c)),
        0 <= i,
    ensures
        string_from(s, i, out) == string_from(s, i + escaped(c).len(), out.push(c)),
{
    reveal_strlit("\\\"");
    reveal_strlit("\\\\");
    reveal_strlit("\\n");
    reveal_strlit("\\r");
    reveal_strlit("\\t");
    reveal_strlit("\\u00");
    let e = escaped(c);
    lemma_at_index(s, i, e, 0);
    if c == '"' || c == '\\' || c == '\n' || c == '\r' || c == '\t' {
        lemma_at_index(s, i, e, 1);
    } else if (c as u32) < 0x20 {
        lemma_at_index(s, i, e, 1);
        lemma_at_index(s, i, e, 2);
        lemma_at_index(s, i, e, 3);
        lemma_at_index(s, i, e, 4);
        lemma_at_index(s, i, e, 5);
        lemma_hex_values(c);
        let rest = s.skip(i + 2);
        lemma_utf8_len_at_least(rest);
        let h = c as u32;
        assert(hex_value('0') == Some(0int));
        assert(hex4(s, i + 2) == Ok::<_, ParseErrorModel>((h, i + 6)));
        assert(h as char == c);
        assert(unicode_escape(s, i + 2) == Ok::<_, ParseErrorModel>((c, i + 6)));
    }
}

proof fn lemma_escaped_prefix(t: Seq<char>, k: int, n: int)
    requires
        0 <= k <= n <= t.len(),
    ensures
        escaped_to(t, k).len() <= escaped_to(t, n).len(),
        escaped_to(t, n).take(escaped_to(t, k).len() as int) == escaped_to(t, k),
    decreases n,
{
    let e = escaped_to(t, n);
    if k < n {
        lemma_escaped_prefix(t, k, n - 1);
        let p = escaped_to(t, n - 1);
        let m = escaped_to(t, k).len() as int;
        assert(e.take(m) =~= p.take(m));
    } else {
        assert(e.take(e.len() as int) =~= e);
    }
}

proof fn lemma_string_upto(s: Seq<char>, i: int, t: Seq<char>, k: int)
    requires
        0 <= i,
        0 <= k <= t.len(),
        at(s, i, escaped_to(t, t.len() as int)),
    ensures
        string_from(s, i, Seq::empty()) == string_from(s, i + escaped_to(t, k).len(), t.take(k)),
    decreases k,
{
    if k > 0 {
        lemma_string_upto(s, i, t, k - 1);
        lemma_escaped_prefix(t, k, t.len() as int);
        let all = escaped_to(t, t.len() as int);
        let here = escaped_to(t, k);
        assert(all =~= here + all.skip(here.len() as int));
        lemma_at_concat(s, i, here, all.skip(here.len() as int));
        lemma_at_concat(s, i, escaped_to(t, k - 1), escaped(t[k - 1]));
        lemma_escaped(s, i + escaped_to(t, k - 1).len(), t[k - 1], t.take(k - 1));
        assert(t.take(k - 1).push(t[k - 1]) =~= t.take(k));
    } else {
        assert(t.take(0) =~= Seq::empty());
    }
}

/// A string is read back.
proof fn lemma_string(s: Seq<char>, i: int, t: Seq<char>)
    requires
        at(s, i, string_text(t)),
    ensures
        string_at(s, i) == Ok::<_, ParseErrorModel>((t, i + string_text(t).len())),
        0 <= i < s.len() && s[i] == '"',
{
    reveal_strlit("\"");
    let e = escaped_to(t, t.len() as int);
    assert(string_text(t) =~= "\""@ + (e + "\""@));
    lemma_at_concat(s, i, "\""@, e + "\""@);
    lemma_at_concat(s, i + 1, e, "\""@);
    lemma_at_index(s, i, "\""@, 0);
    lemma_at_index(s, i + 1 + e.len(), "\""@, 0);
    lemma_string_upto(s, i + 1, t, t.len() as int);
    assert(t.take(t.len() as int) =~= t);
}

// ---------------------------------------------------------------------
// Numbers
// ---------------------------------------------------------------------

/// What may follow a value inside another one, or nothing.
pub open spec fn value_ends(s: Seq<char>, k: int) -> bool {
    k == s.len() || (0 <= k < s.len() && (s[k] == ',' || s[k] == ']' || s[k] == '}'))
}

proof fn lemma_past_digits(s: Seq<char>, i: int, e: int)
    requires
        0 <= i <= e <= s.len(),
        forall|k: int| i <= k < e ==> is_digit(#[trigger] s[k]),
        e == s.len() || !is_digit(s[e]),
    ensures
        past_digits(s, i) == e,
    decreases e - i,
{
    if i < e {
        lemma_past_digits(s, i + 1, e);
    }
}

proof fn lemma_leading_zeros(k: nat, d: Seq<char>)
    requires
        d.len() > 0,
        d[0] != '0',
    ensures
        trim_start_char(zero_run(k) + d, '0') == d,
    decreases k,
{
    let s = zero_run(k) + d;
    if k > 0 {
        assert(s[0] == '0');
        assert(s.skip(1) =~= zero_run((k - 1) as nat) + d);
        lemma_leading_zeros((k - 1) as nat, d);
    } else {
        assert(s =~= d);
    }
}

proof fn lemma_trailing_zeros(k: nat, d: Seq<char>)
    requires
        d.len() > 0,
        d.last() != '0',
    ensures
        trim_end_char(d + zero_run(k), '0') == d,
    decreases k,
{
    let s = d + zero_run(k);
    if k > 0 {
        assert(s.last() == '0');
        assert(s.drop_last() =~= d + zero_run((k - 1) as nat));
        lemma_trailing_zeros((k - 1) as nat, d);
    } else {
        assert(s =~= d);
    }
}

/// Idle zeros at either end of the digits of a number change nothing.
proof fn lemma_idle_zeros(m: NumberModel, front: nat, back: nat)
    requires
        number_ok(m),
        m.digits.len() > 0,
    ensures
        canonical(m.negative, zero_run(front) + m.digits + zero_run(back), m.point + front) == m,
{
    let d = m.digits;
    let tail = d + zero_run(back);
    let all = zero_run(front) + d + zero_run(back);
    assert(all =~= zero_run(front) + tail);
    assert(tail[0] == d[0]);
    lemma_leading_zeros(front, tail);
    lemma_trailing_zeros(back, d);
}

/// What follows is no part of a number.
proof fn lemma_ends(s: Seq<char>, k: int)
    requires
        0 <= k,
        value_ends(s, k),
    ensures
        k == s.len() || !is_digit(s[k]),
        fraction_part(s, k) == Ok::<_, ParseErrorModel>((k, k)),
        exponent_part(s, k) == Ok::<_, ParseErrorModel>((0int, k)),
{
}

/// The digits of a text that stands at `i`.
proof fn lemma_digits_at(s: Seq<char>, i: int, d: Seq<char>)
    requires
        at(s, i, d),
        all_digits(d),
    ensures
        forall|k: int| i <= k < i + d.len() ==> is_digit(#[trigger] s[k]),
        s.subrange(i, i + d.len()) == d,
{
    assert forall|k: int| i <= k < i + d.len() implies is_digit(#[trigger] s[k]) by {
        lemma_at_index(s, i, d, k - i);
        assert(is_digit(d[k - i]));
    }
}

/// A number without a sign is read back.
proof fn lemma_unsigned(s: Seq<char>, i: int, j: int, m: NumberModel, text: Seq<char>)
    requires
        number_ok(m),
        m.digits.len() > 0,
        0 <= i <= j,
        text == (if m.point <= 0 {
            "0."@ + zero_run((-m.point) as nat) + m.digits
        } else if m.digits.len() <= m.point {
            m.digits + zero_run((m.point - m.digits.len()) as nat)
        } else {
            m.digits.take(m.point) + "."@ + m.digits.skip(m.point)
        }),
        at(s, j, text),
        value_ends(s, j + text.len()),
        m.negative ==> j == i + 1 && s[i] == '-',
        !m.negative ==> j == i,
    ensures
        number_at(s, i) == Ok::<_, ParseErrorModel>((m, j + text.len())),
        digit_at(s, j),
{
    let d = m.digits;
    let end = j + text.len();
    lemma_ends(s, end);
    reveal_strlit("0.");
    reveal_strlit(".");
    if m.point <= 0 {
        let z = zero_run((-m.point) as nat);
        let f = z + d;
        assert(text =~= "0."@ + f);
        lemma_at_concat(s, j, "0."@, f);
        lemma_at_index(s, j, "0."@, 0);
        lemma_at_index(s, j, "0."@, 1);
        assert(all_digits(f)) by {
            assert forall|k: int| 0 <= k < f.len() implies is_digit(#[trigger] f[k]) by {
                if k >= z.len() {
                    assert(is_digit(d[k - z.len()]));
                }
            }
        }
        lemma_digits_at(s, j + 2, f);
        lemma_past_digits(s, j + 2, end);
        assert(is_digit(s[j + 2]));
        assert(whole_part(s, i) == Ok::<_, ParseErrorModel>((j, j + 1)));
        assert(fraction_part(s, j + 1) == Ok::<_, ParseErrorModel>((j + 2, end)));
        let digits = s.subrange(j, j + 1) + s.subrange(j + 2, end);
        lemma_idle_zeros(m, (1 - m.point) as nat, 0);
        assert(digits =~= zero_run((1 - m.point) as nat) + d + zero_run(0));
    } else if d.len() <= m.point {
        let z = zero_run((m.point - d.len()) as nat);
        assert(all_digits(text)) by {
            assert forall|k: int| 0 <= k < text.len() implies is_digit(#[trigger] text[k]) by {
                if k < d.len() {
                    assert(is_digit(d[k]));
                }
            }
        }
        lemma_digits_at(s, j, text);
        lemma_at_index(s, j, text, 0);
        assert(is_digit(s[j]));
        lemma_past_digits(s, j, end);
        assert(whole_part(s, i) == Ok::<_, ParseErrorModel>((j, end)));
        let digits = s.subrange(j, end) + s.subrange(end, end);
        lemma_idle_zeros(m, 0, (m.point - d.len()) as nat);
        assert(digits =~= zero_run(0) + d + z);
    } else {
        let w = d.take(m.point);
        let f = d.skip(m.point);
        assert(text =~= w + ("."@ + f));
        lemma_at_concat(s, j, w, "."@ + f);
        lemma_at_concat(s, j + w.len(), "."@, f);
        assert(all_digits(w)) by {
            assert forall|k: int| 0 <= k < w.len() implies is_digit(#[trigger] w[k]) by {
                assert(w[k] == d[k]);
            }
        }
        assert(all_digits(f)) by {
            assert forall|k: int| 0 <= k < f.len() implies is_digit(#[trigger] f[k]) by {
                assert(f[k] == d[m.point + k]);
            }
        }
        lemma_digits_at(s, j, w);
        lemma_digits_at(s, j + w.len() + 1, f);
        lemma_at_index(s, j, w, 0);
        lemma_at_index(s, j + w.len(), "."@, 0);
        assert(is_digit(s[j]));
        lemma_past_digits(s, j, j + w.len());
        lemma_past_digits(s, j + w.len() + 1, end);
        assert(is_digit(s[j + w.len() + 1]));
        assert(whole_part(s, i) == Ok::<_, ParseErrorModel>((j, j + w.len())));
        assert(fraction_part(s, j + w.len()) == Ok::<_, ParseErrorModel>((j + w.len() + 1, end)));
        let digits = s.subrange(j, j + w.len()) + s.subrange(j + w.len() + 1, end);
        lemma_idle_zeros(m, 0, 0);
        assert(digits =~= d);
        assert(zero_run(0) + d + zero_run(0) =~= d);
    }
}

/// The number without the sign of zero, which is not written.
pub open spec fn plain_number(m: NumberModel) -> NumberModel {
    if m.digits.len() == 0 {
        zero(false)
    } else {
        m
    }
}

/// A number is read back.
proof fn lemma_number(s: Seq<char>, i: int, m: NumberModel)
    requires
        number_ok(m),
        at(s, i, number_text(m)),
        value_ends(s, i + number_text(m).len()),
    ensures
        number_at(s, i) == Ok::<_, ParseErrorModel>(
            (plain_number(m), i + number_text(m).len()),
        ),
        0 <= i < s.len() && (s[i] == '-' || is_digit(s[i])),
{
    let text = number_text(m);
    if m.digits.len() == 0 {
        reveal_strlit("0");
        lemma_at_index(s, i, "0"@, 0);
        lemma_ends(s, i + 1);
        let digits = s.subrange(i, i + 1) + s.subrange(i + 1, i + 1);
        assert(digits.skip(1) =~= Seq::empty());
        assert(digits[0] == '0');
        assert(trim_start_char(digits, '0') == trim_start_char(digits.skip(1), '0'));
        assert(trim_start_char(digits, '0').len() == 0);
    } else {
        reveal_strlit("-");
        let sign = if m.negative {
            "-"@
        } else {
            Seq::empty()
        };
        let body = if m.point <= 0 {
            "0."@ + zero_run((-m.point) as nat) + m.digits
        } else if m.digits.len() <= m.point {
            m.digits + zero_run((m.point - m.digits.len()) as nat)
        } else {
            m.digits.take(m.point) + "."@ + m.digits.skip(m.point)
        };
        assert(text =~= sign + body);
        lemma_at_concat(s, i, sign, body);
        if m.negative {
            lemma_at_index(s, i, sign, 0);
        }
        lemma_unsigned(s, i, i + sign.len(), m, body);
    }
}

// ---------------------------------------------------------------------
// Values
// ---------------------------------------------------------------------

/// A value as it should be, `depth` levels down: numbers in range, the fields
/// of objects in ascending order, and nothing too deep.
pub open spec fn well_formed(v: JsonModel, depth: nat) -> bool
    decreases v,
{
    depth <= MAX_DEPTH && match v {
        JsonModel::Number(m) => number_ok(m),
        JsonModel::Array(a) => forall|i: int|
            0 <= i < a.len() ==> well_formed(#[trigger] a[i], depth + 1),
        JsonModel::Object(f) => ascending(f) && forall|i: int|
            0 <= i < f.len() ==> well_formed((#[trigger] f[i]).1, depth + 1),
        _ => true,
    }
}

/// A value without the signs of its zeros, which are not written. Zero equals
/// zero whatever its sign.
pub open spec fn plain(v: JsonModel) -> JsonModel
    decreases v,
{
    match v {
        JsonModel::Number(m) => JsonModel::Number(plain_number(m)),
        JsonModel::Array(a) => JsonModel::Array(
            Seq::new(
                a.len(),
                |i: int|
                    if 0 <= i < a.len() {
                        plain(a[i])
                    } else {
                        JsonModel::Null
                    },
            ),
        ),
        JsonModel::Object(f) => JsonModel::Object(
            Seq::new(
                f.len(),
                |i: int|
                    if 0 <= i < f.len() {
                        (f[i].0, plain(f[i].1))
                    } else {
                        (Seq::empty(), JsonModel::Null)
                    },
            ),
        ),
        _ => v,
    }
}

/// A value that is nested no deeper than may be, `depth` levels down.
pub open spec fn within(v: JsonModel, depth: nat) -> bool
    decreases v,
{
    depth <= MAX_DEPTH && match v {
        JsonModel::Array(a) => forall|i: int|
            0 <= i < a.len() ==> within(#[trigger] a[i], depth + 1),
        JsonModel::Object(f) => forall|i: int|
            0 <= i < f.len() ==> within((#[trigger] f[i]).1, depth + 1),
        _ => true,
    }
}

proof fn lemma_well_formed(v: JsonModel, depth: nat)
    requires
        sound(v),
        within(v, depth),
    ensures
        well_formed(v, depth),
    decreases v,
{
    match v {
        JsonModel::Array(a) => {
            assert forall|i: int| 0 <= i < a.len() implies well_formed(
                #[trigger] a[i],
                depth + 1,
            ) by {
                lemma_well_formed(a[i], depth + 1);
            }
        },
        JsonModel::Object(f) => {
            assert forall|i: int| 0 <= i < f.len() implies well_formed(
                (#[trigger] f[i]).1,
                depth + 1,
            ) by {
                lemma_well_formed(f[i].1, depth + 1);
            }
        },
        _ => {},
    }
}

/// What a value may start with.
pub open spec fn value_starts(c: char) -> bool {
    c == 'n' || c == 't' || c == 'f' || c == '"' || c == '[' || c == '{' || c == '-' || is_digit(c)
}

proof fn lemma_first(v: JsonModel, depth: nat)
    requires
        well_formed(v, depth),
    ensures
        json_text(v).len() > 0,
        value_starts(json_text(v)[0]),
{
    reveal_strlit("null");
    reveal_strlit("true");
    reveal_strlit("false");
    reveal_strlit("\"");
    reveal_strlit("[");
    reveal_strlit("{");
    match v {
        JsonModel::Number(m) => {
            reveal_strlit("-");
            reveal_strlit("0");
            reveal_strlit("0.");
            if m.digits.len() > 0 {
                assert(is_digit(m.digits[0]));
                if m.point > 0 && m.digits.len() > m.point {
                    assert(m.digits.take(m.point)[0] == m.digits[0]);
                }
            }
        },
        _ => {},
    }
}

proof fn lemma_no_space(s: Seq<char>, i: int)
    requires
        0 <= i <= s.len(),
        i == s.len() || value_starts(s[i]) || s[i] == ',' || s[i] == ']' || s[i] == '}' || s[i]
            == ':',
    ensures
        past_space(s, i) == i,
{
}

/// The comma before item `k`.
spec fn comma(k: int) -> Seq<char> {
    if k > 0 {
        ","@
    } else {
        Seq::empty()
    }
}

proof fn lemma_items_prefix(v: JsonModel, k: int, n: int)
    requires
        v is Array,
        0 <= k <= n <= v->Array_0.len(),
    ensures
        items_text(v, k).len() <= items_text(v, n).len(),
        items_text(v, n).take(items_text(v, k).len() as int) == items_text(v, k),
    decreases n,
{
    let e = items_text(v, n);
    if k < n {
        lemma_items_prefix(v, k, n - 1);
        let p = items_text(v, n - 1);
        let m = items_text(v, k).len() as int;
        assert(e.take(m) =~= p.take(m));
    } else {
        assert(e.take(e.len() as int) =~= e);
    }
}

proof fn lemma_fields_prefix(v: JsonModel, k: int, n: int)
    requires
        v is Object,
        0 <= k <= n <= v->Object_0.len(),
    ensures
        fields_text(v, k).len() <= fields_text(v, n).len(),
        fields_text(v, n).take(fields_text(v, k).len() as int) == fields_text(v, k),
    decreases n,
{
    let e = fields_text(v, n);
    if k < n {
        lemma_fields_prefix(v, k, n - 1);
        let p = fields_text(v, n - 1);
        let m = fields_text(v, k).len() as int;
        assert(e.take(m) =~= p.take(m));
    } else {
        assert(e.take(e.len() as int) =~= e);
    }
}

/// Where item `k` of an array that starts at `i` stands.
spec fn item_place(v: JsonModel, i: int, k: int) -> int {
    i + 1 + items_text(v, k).len() + comma(k).len()
}

/// Item `k` stands at its place, and a comma or the end of the array follows.
proof fn lemma_item_at(s: Seq<char>, i: int, v: JsonModel, k: int)
    requires
        v is Array,
        at(s, i, json_text(v)),
        0 <= k < v->Array_0.len(),
    ensures
        ({
            let p = item_place(v, i, k);
            let e = p + json_text(v->Array_0[k]).len();
            &&& at(s, p, json_text(v->Array_0[k]))
            &&& 0 <= e < s.len()
            &&& (k + 1 < v->Array_0.len() ==> s[e] == ',' && e + 1 == item_place(v, i, k + 1))
            &&& (k + 1 == v->Array_0.len() ==> s[e] == ']' && e + 1 == i + json_text(v).len())
        }),
{
    reveal_strlit("[");
    reveal_strlit("]");
    reveal_strlit(",");
    let a = v->Array_0;
    let n = a.len() as int;
    let all = items_text(v, n);
    assert(json_text(v) =~= "["@ + (all + "]"@));
    lemma_at_concat(s, i, "["@, all + "]"@);
    lemma_at_concat(s, i + 1, all, "]"@);
    lemma_at_index(s, i + 1 + all.len(), "]"@, 0);
    lemma_items_prefix(v, k + 1, n);
    let here = items_text(v, k + 1);
    assert(all =~= here + all.skip(here.len() as int));
    lemma_at_concat(s, i + 1, here, all.skip(here.len() as int));
    assert(here =~= items_text(v, k) + comma(k) + json_text(a[k]));
    lemma_at_concat(s, i + 1, items_text(v, k) + comma(k), json_text(a[k]));
    if k + 1 < n {
        lemma_items_prefix(v, k + 2, n);
        let more = items_text(v, k + 2);
        assert(all =~= more + all.skip(more.len() as int));
        lemma_at_concat(s, i + 1, more, all.skip(more.len() as int));
        assert(more =~= here + (","@ + json_text(a[k + 1])));
        lemma_at_concat(s, i + 1, here, ","@ + json_text(a[k + 1]));
        lemma_at_concat(s, i + 1 + here.len(), ","@, json_text(a[k + 1]));
        lemma_at_index(s, i + 1 + here.len(), ","@, 0);
    }
}

/// Reading an array up to item `k`.
proof fn lemma_items_upto(s: Seq<char>, i: int, v: JsonModel, k: int, depth: nat)
    requires
        v is Array,
        at(s, i, json_text(v)),
        well_formed(v, depth),
        0 <= k < v->Array_0.len(),
    ensures
        items_at(s, i + 1, depth, Seq::empty()) == items_at(
            s,
            item_place(v, i, k),
            depth,
            plain(v)->Array_0.take(k),
        ),
    decreases v, 0int, k,
{
    let a = v->Array_0;
    let b = plain(v)->Array_0;
    if k > 0 {
        lemma_items_upto(s, i, v, k - 1, depth);
        let p = item_place(v, i, k - 1);
        lemma_item_at(s, i, v, k - 1);
        lemma_first(a[k - 1], depth + 1);
        lemma_at_index(s, p, json_text(a[k - 1]), 0);
        lemma_no_space(s, p);
        let e = p + json_text(a[k - 1]).len();
        lemma_value(s, p, a[k - 1], depth + 1);
        lemma_no_space(s, e);
        lemma_items_step(s, p, depth, b.take(k - 1));
        assert(b.take(k - 1).push(b[k - 1]) =~= b.take(k));
    } else {
        assert(b.take(0) =~= Seq::empty());
        assert(items_text(v, 0).len() == 0);
    }
}

/// Where field `k` of an object that starts at `i` stands.
spec fn field_place(v: JsonModel, i: int, k: int) -> int {
    i + 1 + fields_text(v, k).len() + comma(k).len()
}

/// The text of a field.
spec fn field_piece(f: (Seq<char>, JsonModel)) -> Seq<char> {
    string_text(f.0) + ":"@ + json_text(f.1)
}

/// Field `k` stands at its place, and a comma or the end of the object
/// follows.
#[verifier::spinoff_prover]
#[verifier::rlimit(60)]
proof fn lemma_field_at(s: Seq<char>, i: int, v: JsonModel, k: int)
    requires
        v is Object,
        at(s, i, json_text(v)),
        0 <= k < v->Object_0.len(),
    ensures
        ({
            let f = v->Object_0[k];
            let p = field_place(v, i, k);
            let c = p + string_text(f.0).len();
            let e = c + 1 + json_text(f.1).len();
            &&& at(s, p, string_text(f.0))
            &&& 0 <= c < s.len() && s[c] == ':'
            &&& at(s, c + 1, json_text(f.1))
            &&& 0 <= e < s.len()
            &&& (k + 1 < v->Object_0.len() ==> s[e] == ',' && e + 1 == field_place(v, i, k + 1))
            &&& (k + 1 == v->Object_0.len() ==> s[e] == '}' && e + 1 == i + json_text(v).len())
        }),
{
    reveal_strlit("{");
    reveal_strlit("}");
    reveal_strlit(",");
    reveal_strlit(":");
    let f = v->Object_0;
    let n = f.len() as int;
    let all = fields_text(v, n);
    assert(json_text(v) =~= "{"@ + (all + "}"@));
    lemma_at_concat(s, i, "{"@, all + "}"@);
    lemma_at_concat(s, i + 1, all, "}"@);
    lemma_at_index(s, i + 1 + all.len(), "}"@, 0);
    lemma_fields_prefix(v, k + 1, n);
    let here = fields_text(v, k + 1);
    assert(all =~= here + all.skip(here.len() as int));
    lemma_at_concat(s, i + 1, here, all.skip(here.len() as int));
    let piece = field_piece(f[k]);
    assert(here =~= fields_text(v, k) + comma(k) + piece);
    lemma_at_concat(s, i + 1, fields_text(v, k) + comma(k), piece);
    let p = field_place(v, i, k);
    assert(piece =~= string_text(f[k].0) + (":"@ + json_text(f[k].1)));
    lemma_at_concat(s, p, string_text(f[k].0), ":"@ + json_text(f[k].1));
    let c = p + string_text(f[k].0).len();
    lemma_at_concat(s, c, ":"@, json_text(f[k].1));
    lemma_at_index(s, c, ":"@, 0);
    if k + 1 < n {
        lemma_fields_prefix(v, k + 2, n);
        let more = fields_text(v, k + 2);
        let next = field_piece(f[k + 1]);
        assert(all =~= more + all.skip(more.len() as int));
        lemma_at_concat(s, i + 1, more, all.skip(more.len() as int));
        assert(more =~= here + (","@ + next));
        lemma_at_concat(s, i + 1, here, ","@ + next);
        lemma_at_concat(s, i + 1 + here.len(), ","@, next);
        lemma_at_index(s, i + 1 + here.len(), ","@, 0);
    }
}

proof fn lemma_rank_of_last(s: JsonFields, k: Seq<char>)
    requires
        forall|i: int| 0 <= i < s.len() ==> before((#[trigger] s[i]).0, k),
    ensures
        rank(s, k) == s.len(),
    decreases s.len(),
{
    if s.len() > 0 {
        let rest = s.skip(1);
        assert forall|i: int| 0 <= i < rest.len() implies before((#[trigger] rest[i]).0, k) by {
            assert(rest[i] == s[i + 1]);
        }
        lemma_rank_of_last(rest, k);
    }
}

/// A field with a greater key goes to the end.
proof fn lemma_put_last(f: JsonFields, k: int)
    requires
        ascending(f),
        0 <= k < f.len(),
    ensures
        put(f.take(k), f[k].0, f[k].1) == f.take(k + 1),
{
    let s = f.take(k);
    assert forall|i: int| 0 <= i < s.len() implies before((#[trigger] s[i]).0, f[k].0) by {
        assert(s[i] == f[i]);
        assert(before(f[i].0, f[k].0));
    }
    lemma_rank_of_last(s, f[k].0);
    assert(put(s, f[k].0, f[k].1) =~= f.take(k + 1));
}

/// Reading an object up to field `k`.
proof fn lemma_fields_upto(s: Seq<char>, i: int, v: JsonModel, k: int, depth: nat)
    requires
        v is Object,
        at(s, i, json_text(v)),
        well_formed(v, depth),
        0 <= k < v->Object_0.len(),
    ensures
        fields_at(s, i + 1, depth, Seq::empty()) == fields_at(
            s,
            field_place(v, i, k),
            depth,
            plain(v)->Object_0.take(k),
        ),
    decreases v, 0int, k,
{
    let f = plain(v)->Object_0;
    if k > 0 {
        lemma_fields_upto(s, i, v, k - 1, depth);
        lemma_field_read(s, i, v, k - 1, depth);
    } else {
        assert(f.take(0) =~= Seq::empty());
        assert(fields_text(v, 0).len() == 0);
    }
}

/// Reading field `k` of an object.
proof fn lemma_field_read(s: Seq<char>, i: int, v: JsonModel, k: int, depth: nat)
    requires
        v is Object,
        at(s, i, json_text(v)),
        well_formed(v, depth),
        0 <= k < v->Object_0.len(),
    ensures
        ({
            let f = plain(v)->Object_0;
            let p = field_place(v, i, k);
            if k + 1 < f.len() {
                fields_at(s, p, depth, f.take(k)) == fields_at(
                    s,
                    field_place(v, i, k + 1),
                    depth,
                    f.take(k + 1),
                )
            } else {
                fields_at(s, p, depth, f.take(k)) == Ok::<_, ParseErrorModel>(
                    (plain(v), i + json_text(v).len()),
                )
            }
        }),
    decreases v, 0int, 0int,
{
    let f = v->Object_0;
    let p = field_place(v, i, k);
    lemma_field_at(s, i, v, k);
    lemma_string(s, p, f[k].0);
    lemma_no_space(s, p);
    let c = p + string_text(f[k].0).len();
    lemma_no_space(s, c);
    lemma_first(f[k].1, depth + 1);
    lemma_at_index(s, c + 1, json_text(f[k].1), 0);
    lemma_no_space(s, c + 1);
    let e = c + 1 + json_text(f[k].1).len();
    lemma_value(s, c + 1, f[k].1, depth + 1);
    lemma_no_space(s, e);
    let g = plain(v)->Object_0;
    lemma_fields_step(s, p, depth, g.take(k));
    assert(ascending(g)) by {
        assert forall|a: int, b: int| 0 <= a < b < g.len() implies before(
            (#[trigger] g[a]).0,
            (#[trigger] g[b]).0,
        ) by {
            assert(before(f[a].0, f[b].0));
        }
    }
    lemma_put_last(g, k);
    if k + 1 == g.len() {
        assert(g.take(k + 1) =~= g);
    }
}

/// A value that stands in a text is read back.
proof fn lemma_value(s: Seq<char>, i: int, v: JsonModel, depth: nat)
    requires
        at(s, i, json_text(v)),
        well_formed(v, depth),
        value_ends(s, i + json_text(v).len()),
    ensures
        value_at(s, i, depth) == Ok::<_, ParseErrorModel>((plain(v), i + json_text(v).len())),
    decreases v, 1int, 0int,
{
    reveal(value_at);
    lemma_first(v, depth);
    lemma_at_index(s, i, json_text(v), 0);
    reveal_strlit("null");
    reveal_strlit("true");
    reveal_strlit("false");
    match v {
        JsonModel::Null => {},
        JsonModel::Bool(b) => {},
        JsonModel::Number(m) => {
            lemma_number(s, i, m);
        },
        JsonModel::String(t) => {
            lemma_string(s, i, t);
        },
        JsonModel::Array(a) => {
            reveal_strlit("[");
            reveal_strlit("]");
            let n = a.len() as int;
            assert(json_text(v) =~= "["@ + (items_text(v, n) + "]"@));
            lemma_at_concat(s, i, "["@, items_text(v, n) + "]"@);
            lemma_at_index(s, i, "["@, 0);
            if n == 0 {
                assert(items_text(v, 0).len() == 0);
                lemma_at_concat(s, i + 1, items_text(v, n), "]"@);
                lemma_at_index(s, i + 1, "]"@, 0);
                lemma_no_space(s, i + 1);
                assert(plain(v)->Array_0 =~= Seq::empty());
            } else {
                lemma_array(s, i, v, depth);
                lemma_item_at(s, i, v, 0);
                lemma_first(a[0], depth + 1);
                lemma_at_index(s, i + 1, json_text(a[0]), 0);
                lemma_no_space(s, i + 1);
            }
        },
        JsonModel::Object(f) => {
            reveal_strlit("{");
            reveal_strlit("}");
            let n = f.len() as int;
            assert(json_text(v) =~= "{"@ + (fields_text(v, n) + "}"@));
            lemma_at_concat(s, i, "{"@, fields_text(v, n) + "}"@);
            lemma_at_index(s, i, "{"@, 0);
            if n == 0 {
                assert(fields_text(v, 0).len() == 0);
                lemma_at_concat(s, i + 1, fields_text(v, n), "}"@);
                lemma_at_index(s, i + 1, "}"@, 0);
                lemma_no_space(s, i + 1);
                assert(plain(v)->Object_0 =~= Seq::empty());
            } else {
                lemma_fields_upto(s, i, v, n - 1, depth);
                lemma_field_read(s, i, v, n - 1, depth);
                lemma_field_at(s, i, v, 0);
                lemma_string(s, i + 1, f[0].0);
                lemma_no_space(s, i + 1);
            }
        },
    }
}

/// Reading an array that holds something.
proof fn lemma_array(s: Seq<char>, i: int, v: JsonModel, depth: nat)
    requires
        v is Array,
        v->Array_0.len() > 0,
        at(s, i, json_text(v)),
        well_formed(v, depth),
    ensures
        items_at(s, i + 1, depth, Seq::empty()) == Ok::<_, ParseErrorModel>(
            (plain(v), i + json_text(v).len()),
        ),
    decreases v, 0int, v->Array_0.len(),
{
    let a = v->Array_0;
    let n = a.len() as int;
    lemma_items_upto(s, i, v, n - 1, depth);
    let p = item_place(v, i, n - 1);
    lemma_item_at(s, i, v, n - 1);
    lemma_first(a[n - 1], depth + 1);
    lemma_at_index(s, p, json_text(a[n - 1]), 0);
    lemma_no_space(s, p);
    let e = p + json_text(a[n - 1]).len();
    lemma_value(s, p, a[n - 1], depth + 1);
    lemma_no_space(s, e);
    let b = plain(v)->Array_0;
    lemma_items_step(s, p, depth, b.take(n - 1));
    assert(b.take(n - 1).push(b[n - 1]) =~= b);
}

/// What is written is read back, but for the sign of zero.
pub proof fn law_written_values_are_read_back(v: JsonModel)
    requires
        well_formed(v, 0),
    ensures
        read_json(json_text(v)) == Ok::<JsonModel, ParseErrorModel>(plain(v)),
{
    let s = json_text(v);
    assert(s.subrange(0, s.len() as int) =~= s);
    lemma_first(v, 0);
    lemma_no_space(s, 0);
    lemma_value(s, 0, v, 0);
    lemma_no_space(s, s.len() as int);
}

/// Every value that is not nested too deep is read back as it was written, but
/// for the sign of zero.
pub proof fn law_sound_values_are_read_back(v: JsonModel)
    requires
        sound(v),
        within(v, 0),
    ensures
        read_json(json_text(v)) == Ok::<JsonModel, ParseErrorModel>(plain(v)),
{
    lemma_well_formed(v, 0);
    law_written_values_are_read_back(v);
}

proof fn lemma_past_digits_are_digits(s: Seq<char>, i: int)
    requires
        0 <= i <= s.len(),
    ensures
        i <= past_digits(s, i) <= s.len(),
        forall|k: int| i <= k < past_digits(s, i) ==> is_digit(#[trigger] s[k]),
    decreases s.len() - i,
{
    if i < s.len() && is_digit(s[i]) {
        lemma_past_digits_are_digits(s, i + 1);
    }
}

/// A number that was read is in range and without idle zeros.
proof fn lemma_read_number(s: Seq<char>, i: int)
    requires
        0 <= i < s.len(),
    ensures
        number_at(s, i) is Ok ==> number_ok(number_at(s, i)->Ok_0.0),
{
    if number_at(s, i) is Ok {
        let (a, b) = whole_part(s, i)->Ok_0;
        let (c, d) = fraction_part(s, b)->Ok_0;
        let x = exponent_part(s, d)->Ok_0.0;
        lemma_past_digits_are_digits(s, a);
        if s[b] == '.' && b < s.len() {
            lemma_past_digits_are_digits(s, b + 1);
        }
        let digits = s.subrange(a, b) + s.subrange(c, d);
        assert(all_digits(digits)) by {
            assert forall|k: int| 0 <= k < digits.len() implies is_digit(#[trigger] digits[k]) by {
                if k < b - a {
                    assert(digits[k] == s[a + k]);
                } else {
                    assert(digits[k] == s[c + k - (b - a)]);
                }
            }
        }
        lemma_canonical(s[i] == '-', digits, (b - a) + x);
    }
}

proof fn lemma_read_value(s: Seq<char>, i: int, depth: nat)
    ensures
        value_at(s, i, depth) is Ok ==> well_formed(value_at(s, i, depth)->Ok_0.0, depth),
    decreases MAX_DEPTH + 1 - depth, 1int, 0int,
{
    reveal(value_at);
    if depth <= MAX_DEPTH && 0 <= i < s.len() {
        let j = past_space(s, i + 1);
        if s[i] == '{' {
            lemma_read_fields(s, j, depth, Seq::empty());
        } else if s[i] == '[' {
            lemma_read_items(s, j, depth, Seq::empty());
        } else {
            lemma_read_number(s, i);
        }
    }
}

proof fn lemma_read_items(s: Seq<char>, i: int, depth: nat, items: Seq<JsonModel>)
    requires
        depth <= MAX_DEPTH,
        forall|k: int| 0 <= k < items.len() ==> well_formed(#[trigger] items[k], depth + 1),
    ensures
        items_at(s, i, depth, items) is Ok ==> well_formed(
            items_at(s, i, depth, items)->Ok_0.0,
            depth,
        ),
    decreases MAX_DEPTH + 1 - depth, 0int, s.len() - i,
{
    lemma_items_step(s, i, depth, items);
    lemma_read_value(s, past_space(s, i), depth + 1);
    match value_at(s, past_space(s, i), depth + 1) {
        Ok((v, k)) => {
            let j = past_space(s, k);
            let more = items.push(v);
            assert forall|m: int| 0 <= m < more.len() implies well_formed(
                #[trigger] more[m],
                depth + 1,
            ) by {
                if m < items.len() {
                    assert(more[m] == items[m]);
                }
            }
            if i <= j < s.len() && s[j] == ',' {
                lemma_read_items(s, j + 1, depth, more);
            }
        },
        Err(_) => {},
    }
}

proof fn lemma_read_fields(s: Seq<char>, i: int, depth: nat, fields: JsonFields)
    requires
        depth <= MAX_DEPTH,
        ascending(fields),
        forall|k: int| 0 <= k < fields.len() ==> well_formed((#[trigger] fields[k]).1, depth + 1),
    ensures
        fields_at(s, i, depth, fields) is Ok ==> well_formed(
            fields_at(s, i, depth, fields)->Ok_0.0,
            depth,
        ),
    decreases MAX_DEPTH + 1 - depth, 0int, s.len() - i,
{
    lemma_fields_step(s, i, depth, fields);
    match string_at(s, past_space(s, i)) {
        Ok((key, a)) => {
            let b = past_space(s, a);
            lemma_read_value(s, past_space(s, b + 1), depth + 1);
            match value_at(s, past_space(s, b + 1), depth + 1) {
                Ok((v, k)) => {
                    let j = past_space(s, k);
                    let more = put(fields, key, v);
                    lemma_put_ascending(fields, key, v);
                    assert forall|m: int| 0 <= m < more.len() implies well_formed(
                        (#[trigger] more[m]).1,
                        depth + 1,
                    ) by {
                        lemma_put_entries(fields, key, v, m);
                        if more[m] != (key, v) {
                            let q = choose|q: int| 0 <= q < fields.len() && fields[q] == more[m];
                            assert(well_formed(fields[q].1, depth + 1));
                        }
                    }
                    if i <= j < s.len() && s[j] == ',' {
                        lemma_read_fields(s, j + 1, depth, more);
                    }
                },
                Err(_) => {},
            }
        },
        Err(_) => {},
    }
}

/// What is read is well formed, so that writing it and reading it again gives
/// the same value, but for the sign of zero.
pub proof fn law_read_values_are_stable(s: Seq<char>)
    requires
        read_json(s) is Ok,
    ensures
        well_formed(read_json(s)->Ok_0, 0),
        read_json(json_text(read_json(s)->Ok_0)) == Ok::<JsonModel, ParseErrorModel>(
            plain(read_json(s)->Ok_0),
        ),
{
    lemma_read_value(s, past_space(s, 0), 0);
    law_written_values_are_read_back(read_json(s)->Ok_0);
}

} // verus!
