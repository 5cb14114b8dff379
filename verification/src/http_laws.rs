//! What the lines of a request mean, and which requests get through.

use vstd::prelude::*;
use vstd::utf8::valid_utf8;
use crate::axiom_laws::{is_tight, is_word, lemma_keyed};
use crate::http::{
    ascii_lower_to, delivered, empty_head, response_head, turned_away, with_header,
    with_request_line, HeadModel, HttpRequestModel, ProgressModel,
};
use crate::model::Budget;
use crate::names::ascii_lower;
use crate::number::{lemma_dec_digits, lemma_dec_value};
use crate::text::{dec, lemma_find_char_from, split, split_from, utf8_len};

verus! {

/// `w` spells `name`, whatever the case of its letters.
pub open spec fn spells(w: Seq<char>, name: Seq<char>) -> bool {
    w.len() == name.len() && forall|i: int|
        0 <= i < w.len() ==> ascii_lower(#[trigger] w[i]) == name[i]
}

proof fn lemma_lower(s: Seq<char>, n: int)
    requires
        0 <= n <= s.len(),
    ensures
        ascii_lower_to(s, n).len() == n,
        forall|i: int| 0 <= i < n ==> #[trigger] ascii_lower_to(s, n)[i] == ascii_lower(s[i]),
    decreases n,
{
    if n > 0 {
        lemma_lower(s, n - 1);
    }
}

proof fn lemma_spells(w: Seq<char>, name: Seq<char>)
    ensures
        spells(w, name) <==> ascii_lower_to(w, w.len() as int) == name,
{
    lemma_lower(w, w.len() as int);
    let l = ascii_lower_to(w, w.len() as int);
    if spells(w, name) {
        assert forall|i: int| 0 <= i < l.len() implies l[i] == name[i] by {
            assert(l[i] == ascii_lower(w[i]));
        }
        assert(l =~= name);
    }
    if l == name {
        assert forall|i: int| 0 <= i < w.len() implies ascii_lower(#[trigger] w[i]) == name[i] by {
            assert(l[i] == ascii_lower(w[i]));
        }
    }
}

/// A header fills the field of its name, and no other; its name may be written
/// in either case. A header of another name changes nothing.
pub proof fn law_headers_fill_their_fields(h: HeadModel, w: Seq<char>, v: Seq<char>)
    requires
        is_word(w),
        is_tight(v),
    ensures
        ({
            let r = with_header(h, w + ": "@ + v);
            &&& spells(w, "content-type"@) ==> r is Ok && r->Ok_0 == (HeadModel {
                content_type: Some(v),
                ..h
            })
            &&& spells(w, "origin"@) ==> r is Ok && r->Ok_0 == (HeadModel { origin: Some(v), ..h })
            &&& !spells(w, "content-type"@) && !spells(w, "origin"@) && !spells(
                w,
                "content-length"@,
            ) ==> r is Ok && r->Ok_0 == h
        }),
{
    lemma_keyed(w, v);
    lemma_spells(w, "content-type"@);
    lemma_spells(w, "origin"@);
    lemma_spells(w, "content-length"@);
    reveal_strlit("content-type");
    reveal_strlit("origin");
    reveal_strlit("content-length");
    assert("content-type"@.len() != "origin"@.len());
}

/// The length that a request declares is the number that it wrote.
pub proof fn law_lengths_are_read(h: HeadModel, w: Seq<char>, n: nat)
    requires
        is_word(w),
        spells(w, "content-length"@),
        n <= usize::MAX,
    ensures
        with_header(h, w + ": "@ + dec(n)) matches Ok(r) && r == (HeadModel {
            content_length: n,
            ..h
        }),
{
    lemma_dec_digits(n);
    lemma_dec_value(n);
    let v = dec(n);
    assert(is_tight(v)) by {
        assert('0' <= v[0] <= '9');
        assert('0' <= v.last() <= '9');
    }
    lemma_keyed(w, v);
    lemma_spells(w, "content-type"@);
    lemma_spells(w, "origin"@);
    lemma_spells(w, "content-length"@);
    reveal_strlit("content-type");
    reveal_strlit("origin");
    reveal_strlit("content-length");
    assert("content-type"@.len() != "content-length"@.len());
    assert("origin"@.len() != "content-length"@.len());
    assert(v[0] != '+');
}

/// A request line names the method and the path; what follows a question mark
/// is no part of the path.
pub proof fn law_request_lines_name_method_and_path(
    method: Seq<char>,
    path: Seq<char>,
    query: Seq<char>,
    version: Seq<char>,
)
    requires
        !method.contains(' '),
        !path.contains(' '),
        !path.contains('?'),
        !query.contains(' '),
    ensures
        with_request_line(method + " "@ + path + " "@ + version) matches ProgressModel::More(m)
            && m.started && m.head == (HeadModel { method, path, ..empty_head() }),
        with_request_line(method + " "@ + path + "?"@ + query + " "@ + version) matches
            ProgressModel::More(m) && m.started && m.head == (HeadModel {
            method,
            path,
            ..empty_head()
        }),
{
    reveal_strlit(" ");
    reveal_strlit("?");
    lemma_first_two(method, path, version);
    let long = path + "?"@ + query;
    assert(!long.contains(' ')) by {
        assert forall|i: int| 0 <= i < long.len() implies long[i] != ' ' by {
            if i < path.len() {
                assert(long[i] == path[i]);
                assert(path.contains(path[i]));
            } else if i > path.len() {
                assert(long[i] == query[i - path.len() - 1]);
                assert(query.contains(query[i - path.len() - 1]));
            }
        }
    }
    lemma_first_two(method, long, version);
    assert(method + " "@ + path + "?"@ + query + " "@ + version =~= method + " "@ + long + " "@
        + version);
    lemma_find_char_from(path, 0, '?');
    lemma_find_char_from(long, 0, '?');
    assert(long[path.len() as int] == '?');
    assert forall|j: int| 0 <= j < path.len() implies #[trigger] long[j] != '?' by {
        assert(long[j] == path[j]);
        assert(path.contains(path[j]));
    }
    assert(long.take(path.len() as int) =~= path);
}

proof fn lemma_first_two(a: Seq<char>, b: Seq<char>, rest: Seq<char>)
    requires
        !a.contains(' '),
        !b.contains(' '),
    ensures
        ({
            let parts = split(a + " "@ + b + " "@ + rest, ' ');
            parts.len() >= 2 && parts[0] == a && parts[1] == b
        }),
{
    reveal_strlit(" ");
    let s = a + " "@ + b + " "@ + rest;
    let n = a.len() as int;
    let k = n + 1 + b.len();
    lemma_find_char_from(s, 0, ' ');
    assert(s[n] == ' ');
    assert forall|j: int| 0 <= j < n implies #[trigger] s[j] != ' ' by {
        assert(s[j] == a[j]);
        assert(a.contains(a[j]));
    }
    lemma_find_char_from(s, n + 1, ' ');
    assert(s[k] == ' ');
    assert forall|j: int| n + 1 <= j < k implies #[trigger] s[j] != ' ' by {
        assert(s[j] == b[j - n - 1]);
        assert(b.contains(b[j - n - 1]));
    }
    assert(s.subrange(0, n) =~= a);
    assert(s.subrange(n + 1, k) =~= b);
    let tail = split_from(s, k + 1, ' ');
    assert(split_from(s, n + 1, ' ') == seq![b] + tail);
    assert(split(s, ' ') == seq![a] + (seq![b] + tail));
}

/// What gets through is posted to the one address, is small enough, is JSON by
/// its type and comes from where it may; each refusal says what was wrong.
pub proof fn law_only_fit_requests_get_through(
    req: HttpRequestModel,
    budget: Budget,
    allowed: Seq<Seq<char>>,
)
    ensures
        turned_away(req, budget, allowed) is None ==> {
            &&& req.path == "/mcp"@
            &&& req.method == "POST"@
            &&& req.body.len() <= budget.max_request_bytes
            &&& req.content_type is Some
            &&& valid_utf8(req.body)
            &&& req.origin is Some && allowed.len() > 0 ==> allowed.contains(req.origin->0)
        },
        req.path == "/mcp"@ && req.method == "POST"@ && req.body.len() <= budget.max_request_bytes
            && req.content_type == Some("application/json"@) && valid_utf8(req.body) && (
        req.origin is None || allowed.len() == 0 || allowed.contains(req.origin->0))
            ==> turned_away(req, budget, allowed) is None,
        turned_away(req, budget, allowed) matches Some(r) ==> {
            &&& r.status == 404 <==> req.path != "/mcp"@
            &&& r.status == 403 ==> req.origin is Some && !allowed.contains(req.origin->0)
            &&& r.status == 405 ==> req.method != "POST"@
            &&& r.status == 413 ==> req.body.len() > budget.max_request_bytes
            &&& r.status == 415 ==> req.content_type != Some("application/json"@)
            &&& r.status == 400 ==> !valid_utf8(req.body)
            &&& r.content_type == "text/plain"@
        },
{
    reveal_strlit("GET");
    reveal_strlit("POST");
    reveal_strlit("DELETE");
    assert("POST"@.len() != "GET"@.len());
    assert("POST"@.len() != "DELETE"@.len());
    let t = "application/json"@;
    reveal_strlit("application/json");
    assert(is_tight(t));
    crate::axiom_laws::lemma_tight(t);
    lemma_find_char_from(t, 0, ';');
}

/// What the protocol said goes out as JSON, with its length in bytes; where it
/// said nothing, the answer is empty.
pub proof fn law_answers_go_out_as_json(t: Seq<char>)
    ensures
        delivered(Some(t)).body == t,
        delivered(None).body == Seq::<char>::empty(),
        response_head(delivered(Some(t))) == "HTTP/1.1 "@ + dec(200) + " "@ + "OK"@
            + "\r\nContent-Type: "@ + "application/json"@ + "\r\nContent-Length: "@ + dec(
            utf8_len(t),
        ) + "\r\nConnection: close\r\n\r\n"@,
        response_head(delivered(None)) == "HTTP/1.1 "@ + dec(202) + " "@ + "Accepted"@
            + "\r\nContent-Type: "@ + "text/plain"@ + "\r\nContent-Length: "@ + dec(
            utf8_len(Seq::<char>::empty()),
        ) + "\r\nConnection: close\r\n\r\n"@,
{
}

} // verus!
