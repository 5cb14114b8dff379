//! Revisions as lines of commit messages.

use vstd::prelude::*;
use crate::model::{
    hex, id_error, lemma_hex_round_trip, lemma_valid_id, unhex, valid_id, ConceptId, ContentId,
    Principal, PrincipalModel, Revision, RevisionModel,
};
use crate::number::{is_digit, law_whole_round_trip, lemma_dec_digits, parse_whole, read_whole};
use crate::text::{
    chars_are, chars_of, dec, find_char, find_char_of, lemma_find_char_from, lemma_views_push,
    lines, lines_of, opt_view, part_from, part_to, push_dec, string_of, strip_prefix,
    strip_prefix_of, views,
};

verus! {

/// What starts the line of a revision.
pub const REV_TRAILER: &'static str = "Memory-Rev: ";

/// What a revision did.
#[derive(Debug, Clone, Copy, PartialEq, Eq, Structural)]
pub enum RevOp {
    Commit,
    Delete,
}

/// A revision with what it did and the version it led to.
#[derive(Debug, PartialEq, Eq)]
pub struct Trailer {
    pub op: RevOp,
    pub revision: Revision,
    pub version: u64,
}

/// Mathematical counterpart of [`Trailer`].
pub struct TrailerModel {
    pub op: RevOp,
    pub revision: RevisionModel,
    pub version: u64,
}

impl View for Trailer {
    type V = TrailerModel;

    open spec fn view(&self) -> TrailerModel {
        TrailerModel { op: self.op, revision: self.revision@, version: self.version }
    }
}

/// Line ends turned into spaces, in the first `n` characters.
pub open spec fn flattened_to(s: Seq<char>, n: int) -> Seq<char>
    decreases n,
{
    if n <= 0 {
        Seq::empty()
    } else if s[n - 1] == '\n' || s[n - 1] == '\r' {
        flattened_to(s, n - 1).push(' ')
    } else {
        flattened_to(s, n - 1).push(s[n - 1])
    }
}

/// A text on one line.
pub open spec fn flattened(s: Seq<char>) -> Seq<char> {
    flattened_to(s, s.len() as int)
}

pub fn flatten(s: &str) -> (r: String)
    ensures
        r@ == flattened(s@),
{
    let chars = chars_of(s);
    let mut out: Vec<char> = Vec::new();
    let mut i: usize = 0;
    while i < chars.len()
        invariant
            i <= chars.len(),
            chars@ == s@,
            out@ == flattened_to(s@, i as int),
        decreases chars.len() - i,
    {
        if chars[i] == '\n' || chars[i] == '\r' {
            out.push(' ');
        } else {
            out.push(chars[i]);
        }
        i += 1;
    }
    string_of(out.as_slice())
}

pub open spec fn op_name(op: RevOp) -> Seq<char> {
    match op {
        RevOp::Commit => "commit"@,
        RevOp::Delete => "delete"@,
    }
}

pub open spec fn base_text(base: Option<Seq<u8>>) -> Seq<char> {
    match base {
        Some(b) => hex(b),
        None => "-"@,
    }
}

/// The line of a revision: its parts between bars.
pub open spec fn trailer_text(op: RevOp, rev: RevisionModel, version: u64) -> Seq<char> {
    REV_TRAILER@ + dec(rev.seq) + "|"@ + op_name(op) + "|"@ + rev.concept_id + "|"@ + dec(
        version as nat,
    ) + "|"@ + base_text(rev.base) + "|"@ + hex(rev.result) + "|"@ + rev.actor.subject + "|"@
        + rev.actor.client_id + "|"@ + flattened(rev.reason)
}

/// Writes a revision on one line.
pub fn encode_rev(op: &RevOp, rev: &Revision, version: u64) -> (r: String)
    ensures
        r@ == trailer_text(*op, rev@, version),
{
    let mut out = REV_TRAILER.to_owned();
    push_dec(&mut out, rev.seq);
    out.push_str("|");
    match op {
        RevOp::Commit => out.push_str("commit"),
        RevOp::Delete => out.push_str("delete"),
    }
    out.push_str("|");
    out.push_str(rev.concept_id.as_str());
    out.push_str("|");
    push_dec(&mut out, version);
    out.push_str("|");
    match &rev.base {
        Some(b) => out.push_str(b.to_hex().as_str()),
        None => out.push_str("-"),
    }
    out.push_str("|");
    out.push_str(rev.result.to_hex().as_str());
    out.push_str("|");
    out.push_str(rev.actor.subject.as_str());
    out.push_str("|");
    out.push_str(rev.actor.client_id.as_str());
    out.push_str("|");
    out.push_str(flatten(rev.reason.as_str()).as_str());
    out
}

/// What stands before each of the first `n` bars, and what follows them.
pub open spec fn cut_to(s: Seq<char>, n: int) -> Option<(Seq<Seq<char>>, Seq<char>)>
    decreases n,
{
    if n <= 0 {
        Some((Seq::empty(), s))
    } else {
        match cut_to(s, n - 1) {
            None => None,
            Some((parts, rest)) => match find_char(rest, '|') {
                None => None,
                Some(k) => Some((parts.push(rest.take(k)), rest.skip(k + 1))),
            },
        }
    }
}

pub open spec fn op_named(s: Seq<char>) -> Option<RevOp> {
    if s == "commit"@ {
        Some(RevOp::Commit)
    } else if s == "delete"@ {
        Some(RevOp::Delete)
    } else {
        None
    }
}

/// The base that a text stands for; `None` if it stands for nothing.
pub open spec fn base_read(s: Seq<char>) -> Option<Option<Seq<u8>>> {
    if s == "-"@ {
        Some(None)
    } else {
        match unhex(s) {
            Some(b) => Some(Some(b)),
            None => None,
        }
    }
}

/// The revision that eight parts and a reason stand for.
pub open spec fn trailer_of(p: Seq<Seq<char>>, reason: Seq<char>) -> Option<TrailerModel> {
    match (
        read_whole(p[0]),
        op_named(p[1]),
        id_error(p[2]),
        read_whole(p[3]),
        base_read(p[4]),
        unhex(p[5]),
    ) {
        (Some(seq), Some(op), None, Some(version), Some(base), Some(result)) => Some(
            TrailerModel {
                op,
                revision: RevisionModel {
                    seq: seq as nat,
                    concept_id: p[2],
                    base,
                    result,
                    actor: PrincipalModel { subject: p[6], client_id: p[7] },
                    reason,
                },
                version,
            },
        ),
        _ => None,
    }
}

/// The revision on a line, if there is one.
pub open spec fn trailer_in(line: Seq<char>) -> Option<TrailerModel> {
    match strip_prefix(line, REV_TRAILER@) {
        None => None,
        Some(raw) => match cut_to(raw, 8) {
            None => None,
            Some((parts, reason)) => trailer_of(parts, reason),
        },
    }
}

proof fn lemma_cut_none(s: Seq<char>, i: int, n: int)
    requires
        0 <= i <= n,
        cut_to(s, i) is None,
    ensures
        cut_to(s, n) is None,
    decreases n,
{
    if i < n {
        lemma_cut_none(s, i, n - 1);
    }
}

/// Reads the revision on a line.
pub fn decode_rev(line: &str) -> (r: Option<Trailer>)
    ensures
        opt_view(r) == trailer_in(line@),
{
    let chars = chars_of(line);
    let raw = match strip_prefix_of(chars.as_slice(), REV_TRAILER) {
        Some(x) => x,
        None => {
            return None;
        },
    };
    let mut parts: Vec<String> = Vec::new();
    let mut rest = raw;
    assert(views(parts@) =~= Seq::empty());
    while parts.len() < 8
        invariant
            parts@.len() <= 8,
            strip_prefix(line@, REV_TRAILER@) == Some(raw@),
            cut_to(raw@, parts@.len() as int) == Some((views(parts@), rest@)),
        decreases 8 - parts.len(),
    {
        let count = rest.len();
        match find_char_of(rest, '|') {
            None => {
                proof {
                    lemma_cut_none(raw@, parts@.len() as int + 1, 8);
                }
                return None;
            },
            Some(k) => {
                let part = string_of(part_to(rest, k));
                proof {
                    lemma_views_push(parts@, part);
                }
                parts.push(part);
                rest = part_from(rest, k + 1);
            },
        }
    }
    let ghost p = views(parts@);
    assert(p.len() == 8);
    assert(forall|i: int| 0 <= i < 8 ==> p[i] == (#[trigger] parts@[i])@);
    let seq = match parse_whole(chars_of(parts[0].as_str()).as_slice()) {
        Some(x) => x,
        None => {
            return None;
        },
    };
    let op_text = chars_of(parts[1].as_str());
    let op = if chars_are(op_text.as_slice(), "commit") {
        RevOp::Commit
    } else if chars_are(op_text.as_slice(), "delete") {
        RevOp::Delete
    } else {
        return None;
    };
    proof {
        lemma_valid_id(p[2]);
    }
    let concept_id = match ConceptId::parse(parts[2].as_str()) {
        Ok(id) => id,
        Err(_) => {
            return None;
        },
    };
    let version = match parse_whole(chars_of(parts[3].as_str()).as_slice()) {
        Some(x) => x,
        None => {
            return None;
        },
    };
    let base_chars = chars_of(parts[4].as_str());
    let base = if chars_are(base_chars.as_slice(), "-") {
        None
    } else {
        match ContentId::from_hex(parts[4].as_str()) {
            Some(h) => Some(h),
            None => {
                return None;
            },
        }
    };
    let result = match ContentId::from_hex(parts[5].as_str()) {
        Some(h) => h,
        None => {
            return None;
        },
    };
    let revision = Revision {
        seq,
        concept_id,
        base,
        result,
        actor: Principal { subject: parts[6].clone(), client_id: parts[7].clone() },
        reason: string_of(rest),
    };
    Some(Trailer { op, revision, version })
}

/// The revisions on the first `n` of some lines.
pub open spec fn trailers_to(ls: Seq<Seq<char>>, n: int) -> Seq<TrailerModel>
    decreases n,
{
    if n <= 0 {
        Seq::empty()
    } else {
        match trailer_in(ls[n - 1]) {
            Some(t) => trailers_to(ls, n - 1).push(t),
            None => trailers_to(ls, n - 1),
        }
    }
}

/// The revisions in a message.
pub open spec fn trailers(message: Seq<char>) -> Seq<TrailerModel> {
    trailers_to(lines(message), lines(message).len() as int)
}

/// Reads the revisions in a message.
pub fn read_trailers(message: &str) -> (r: Vec<Trailer>)
    ensures
        views(r@) == trailers(message@),
{
    let chars = chars_of(message);
    let ls = lines_of(chars.as_slice());
    let ghost all = views(ls@);
    let mut out: Vec<Trailer> = Vec::new();
    assert(views(out@) =~= Seq::empty());
    let mut i: usize = 0;
    while i < ls.len()
        invariant
            i <= ls.len(),
            all == views(ls@),
            all == lines(message@),
            views(out@) == trailers_to(all, i as int),
        decreases ls.len() - i,
    {
        assert(all[i as int] == ls@[i as int]@);
        let line = string_of(ls[i].as_slice());
        match decode_rev(line.as_str()) {
            Some(t) => {
                proof {
                    lemma_views_push(out@, t);
                }
                out.push(t);
            },
            None => {},
        }
        i += 1;
    }
    out
}

/// The message of a commit: the reason, and the revision on a line of its own.
pub open spec fn message_text(op: RevOp, rev: RevisionModel, version: u64) -> Seq<char> {
    flattened(rev.reason) + "\n\n"@ + trailer_text(op, rev, version)
}

pub fn commit_message(op: &RevOp, rev: &Revision, version: u64) -> (r: String)
    ensures
        r@ == message_text(*op, rev@, version),
{
    let mut out = flatten(rev.reason.as_str());
    out.push_str("\n\n");
    out.push_str(encode_rev(op, rev, version).as_str());
    out
}

// ---------------------------------------------------------------------
// What a line gives back
// ---------------------------------------------------------------------

/// Parts from index `i` on, with bars between them.
spec fn glued(f: Seq<Seq<char>>, i: int) -> Seq<char>
    decreases f.len() - i,
{
    if i < 0 || i >= f.len() - 1 {
        f.last()
    } else {
        f[i] + "|"@ + glued(f, i + 1)
    }
}

proof fn lemma_cut_glued(f: Seq<Seq<char>>, n: int)
    requires
        0 <= n < f.len(),
        forall|i: int| 0 <= i < f.len() - 1 ==> !(#[trigger] f[i]).contains('|'),
    ensures
        cut_to(glued(f, 0), n) == Some((f.take(n), glued(f, n))),
    decreases n,
{
    if n > 0 {
        lemma_cut_glued(f, n - 1);
        let rest = glued(f, n - 1);
        let part = f[n - 1];
        reveal_strlit("|");
        assert(rest == part + "|"@ + glued(f, n));
        lemma_find_char_from(rest, 0, '|');
        assert(rest[part.len() as int] == '|');
        let k = find_char(rest, '|')->0;
        if k < part.len() {
            assert(part[k] == '|');
            assert(part.contains('|'));
        }
        assert(k == part.len());
        assert(rest.take(k) =~= part);
        assert(rest.skip(k + 1) =~= glued(f, n));
        assert(f.take(n - 1).push(part) =~= f.take(n));
    } else {
        assert(f.take(0) =~= Seq::empty());
    }
}

proof fn lemma_hex_has_no_bar(b: Seq<u8>)
    ensures
        !hex(b).contains('|'),
{
    assert forall|i: int| 0 <= i < hex(b).len() implies hex(b)[i] != '|' by {
        assert(0 <= b[i / 2] as int / 16 < 16);
    }
}

/// The parts of the line of a revision.
spec fn parts_of(op: RevOp, rev: RevisionModel, version: u64) -> Seq<Seq<char>> {
    seq![
        dec(rev.seq),
        op_name(op),
        rev.concept_id,
        dec(version as nat),
        base_text(rev.base),
        hex(rev.result),
        rev.actor.subject,
        rev.actor.client_id,
        flattened(rev.reason),
    ]
}

proof fn lemma_parts_have_no_bar(op: RevOp, rev: RevisionModel, version: u64)
    requires
        valid_id(rev.concept_id),
        !rev.actor.subject.contains('|'),
        !rev.actor.client_id.contains('|'),
    ensures
        forall|i: int| 0 <= i < 8 ==> !(#[trigger] parts_of(op, rev, version)[i]).contains('|'),
{
    let f = parts_of(op, rev, version);
    lemma_dec_digits(rev.seq);
    lemma_dec_digits(version as nat);
    lemma_hex_has_no_bar(rev.result);
    if rev.base is Some {
        lemma_hex_has_no_bar(rev.base->0);
    }
    reveal_strlit("commit");
    reveal_strlit("delete");
    reveal_strlit("-");
    assert forall|i: int| 0 <= i < 8 implies !(#[trigger] f[i]).contains('|') by {
        if f[i].contains('|') {
            let k = choose|k: int| 0 <= k < f[i].len() && f[i][k] == '|';
            if i == 0 || i == 3 {
                assert(is_digit(f[i][k]));
            } else if i == 2 {
                assert(crate::model::is_id_char(f[i][k]));
            }
        }
    }
}

/// The first `n` parts after a beginning, with bars between them.
spec fn chained(start: Seq<char>, f: Seq<Seq<char>>, n: int) -> Seq<char>
    decreases n,
{
    if n <= 0 {
        start
    } else if n == 1 {
        start + f[0]
    } else {
        chained(start, f, n - 1) + "|"@ + f[n - 1]
    }
}

proof fn lemma_chain(start: Seq<char>, f: Seq<Seq<char>>, n: int)
    requires
        1 <= n < f.len(),
    ensures
        chained(start, f, n) + "|"@ + glued(f, n) == start + glued(f, 0),
    decreases n,
{
    if n == 1 {
        assert(glued(f, 0) == f[0] + "|"@ + glued(f, 1));
        assert(start + f[0] + "|"@ + glued(f, 1) =~= start + glued(f, 0));
    } else {
        lemma_chain(start, f, n - 1);
        assert(glued(f, n - 1) == f[n - 1] + "|"@ + glued(f, n));
        let c = chained(start, f, n - 1);
        assert((c + "|"@ + f[n - 1]) + "|"@ + glued(f, n) =~= c + "|"@ + glued(f, n - 1));
    }
}

proof fn lemma_glue(start: Seq<char>, f: Seq<Seq<char>>)
    requires
        f.len() == 9,
    ensures
        start + f[0] + "|"@ + f[1] + "|"@ + f[2] + "|"@ + f[3] + "|"@ + f[4] + "|"@ + f[5] + "|"@
            + f[6] + "|"@ + f[7] + "|"@ + f[8] == start + glued(f, 0),
{
    lemma_chain(start, f, 8);
    reveal_with_fuel(chained, 10);
    assert(glued(f, 8) == f[8]);
}

/// Reading the line of a revision gives the revision back, with its reason on
/// one line, whenever the names of the actor hold no bar.
pub proof fn law_trailer_round_trip(op: RevOp, rev: RevisionModel, version: u64)
    requires
        rev.seq <= u64::MAX,
        valid_id(rev.concept_id),
        rev.base is Some ==> rev.base->0.len() == 32,
        rev.result.len() == 32,
        !rev.actor.subject.contains('|'),
        !rev.actor.client_id.contains('|'),
    ensures
        trailer_in(trailer_text(op, rev, version)) == Some(
            TrailerModel {
                op,
                revision: RevisionModel { reason: flattened(rev.reason), ..rev },
                version,
            },
        ),
{
    let f = parts_of(op, rev, version);
    lemma_valid_id(rev.concept_id);
    law_whole_round_trip(rev.seq as u64);
    law_whole_round_trip(version);
    lemma_hex_round_trip(rev.result);
    if rev.base is Some {
        lemma_hex_round_trip(rev.base->0);
    }
    reveal_strlit("commit");
    reveal_strlit("delete");
    reveal_strlit("-");
    lemma_parts_have_no_bar(op, rev, version);
    lemma_cut_glued(f, 8);
    let raw = glued(f, 0);
    assert(glued(f, 8) == f[8]);
    let text = trailer_text(op, rev, version);
    lemma_glue(REV_TRAILER@, f);
    assert(text.skip(REV_TRAILER@.len() as int) =~= raw);
    assert(text.take(REV_TRAILER@.len() as int) =~= REV_TRAILER@);
    assert(crate::text::starts_with(text, REV_TRAILER@));
    let p = f.take(8);
    assert(op_named(p[1]) == Some(op)) by {
        if op is Delete {
            assert("delete"@[0] == 'd');
            assert("commit"@[0] == 'c');
        }
    }
    assert(base_read(p[4]) == Some(rev.base)) by {
        if rev.base is Some {
            assert(hex(rev.base->0).len() == 64);
        }
    }
}

} // verus!
