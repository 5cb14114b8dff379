//! Domain types: concept ids, content hashes, principals, revisions and
//! resource budgets.

use vstd::prelude::*;
use vstd::utf8::encode_utf8;
use crate::text::{
    chars_of, dec, hex_byte, hex_digit, hex_digit_of, opt_view, push_dec, push_hex_byte, str_eq,
    utf8_len,
};

verus! {

/// Longest concept id, in bytes.
pub const MAX_CONCEPT_ID_LEN: usize = 200;

/// Characters a concept id is made of.
pub open spec fn is_id_char(c: char) -> bool {
    ('a' <= c && c <= 'z') || ('0' <= c && c <= '9') || c == '-' || c == '_' || c == '/'
}

pub fn id_char(c: char) -> (r: bool)
    ensures
        r == is_id_char(c),
{
    ('a' <= c && c <= 'z') || ('0' <= c && c <= '9') || c == '-' || c == '_' || c == '/'
}

/// Two slashes in a row somewhere in `s`.
pub open spec fn has_empty_segment(s: Seq<char>) -> bool {
    exists|i: int| 0 <= i < s.len() - 1 && s[i] == '/' && #[trigger] s[i + 1] == '/'
}

/// Index of the first character at or after `i` that a concept id may not
/// hold, or the length of `s`.
pub open spec fn first_foreign(s: Seq<char>, i: int) -> int
    decreases s.len() - i,
{
    if i < 0 || i >= s.len() {
        s.len() as int
    } else if !is_id_char(s[i]) {
        i
    } else {
        first_foreign(s, i + 1)
    }
}

/// What a text must be to name a concept.
pub open spec fn valid_id(s: Seq<char>) -> bool {
    &&& 0 < s.len() <= MAX_CONCEPT_ID_LEN
    &&& s[0] != '/'
    &&& s.last() != '/'
    &&& forall|i: int| 0 <= i < s.len() ==> is_id_char(#[trigger] s[i])
    &&& !has_empty_segment(s)
}

/// Why a text is not a concept id.
#[derive(Debug, PartialEq, Eq)]
pub enum ConceptIdError {
    /// The empty text.
    Empty,
    /// More than [`MAX_CONCEPT_ID_LEN`] bytes.
    TooLong { len: usize, max: usize },
    /// A byte outside the allowed alphabet, with its position.
    InvalidByte { byte: u8, offset: usize },
    /// An empty segment.
    InvalidSegment { segment: String },
    /// A slash at either end.
    LeadingOrTrailingSlash,
}

/// Mathematical counterpart of [`ConceptIdError`].
pub enum ConceptIdErrorModel {
    Empty,
    TooLong { len: nat, max: nat },
    InvalidByte { byte: u8, offset: nat },
    InvalidSegment { segment: Seq<char> },
    LeadingOrTrailingSlash,
}

impl View for ConceptIdError {
    type V = ConceptIdErrorModel;

    open spec fn view(&self) -> ConceptIdErrorModel {
        match *self {
            ConceptIdError::Empty => ConceptIdErrorModel::Empty,
            ConceptIdError::TooLong { len, max } => ConceptIdErrorModel::TooLong {
                len: len as nat,
                max: max as nat,
            },
            ConceptIdError::InvalidByte { byte, offset } => ConceptIdErrorModel::InvalidByte {
                byte,
                offset: offset as nat,
            },
            ConceptIdError::InvalidSegment { segment } => ConceptIdErrorModel::InvalidSegment {
                segment: segment@,
            },
            ConceptIdError::LeadingOrTrailingSlash => ConceptIdErrorModel::LeadingOrTrailingSlash,
        }
    }
}

impl ConceptIdErrorModel {
    /// The text shown to a person. Every segment between slashes is made of
    /// allowed characters, so an offending one is empty.
    pub open spec fn message(self) -> Seq<char> {
        match self {
            ConceptIdErrorModel::Empty => "el identificador está vacío"@,
            ConceptIdErrorModel::TooLong { len, max } => "identificador de "@ + dec(len)
                + " bytes; el máximo es "@ + dec(max),
            ConceptIdErrorModel::InvalidByte { byte, offset } => "byte no permitido 0x"@
                + hex_byte(byte) + " en la posición "@ + dec(offset),
            ConceptIdErrorModel::InvalidSegment { segment } => "segmento no permitido: \""@
                + segment + "\""@,
            ConceptIdErrorModel::LeadingOrTrailingSlash =>
                "no puede empezar ni terminar con '/'"@,
        }
    }
}

impl ConceptIdError {
    /// The text shown to a person.
    pub fn message(&self) -> (r: String)
        ensures
            r@ == self@.message(),
    {
        let mut out = String::new();
        match self {
            ConceptIdError::Empty => {
                out.push_str("el identificador está vacío");
            },
            ConceptIdError::TooLong { len, max } => {
                out.push_str("identificador de ");
                push_dec(&mut out, *len as u64);
                out.push_str(" bytes; el máximo es ");
                push_dec(&mut out, *max as u64);
            },
            ConceptIdError::InvalidByte { byte, offset } => {
                out.push_str("byte no permitido 0x");
                push_hex_byte(&mut out, *byte);
                out.push_str(" en la posición ");
                push_dec(&mut out, *offset as u64);
            },
            ConceptIdError::InvalidSegment { segment } => {
                out.push_str("segmento no permitido: \"");
                out.push_str(segment.as_str());
                out.push_str("\"");
            },
            ConceptIdError::LeadingOrTrailingSlash => {
                out.push_str("no puede empezar ni terminar con '/'");
            },
        }
        assert(out@ =~= self@.message());
        out
    }
}

/// The verdict on a text offered as a concept id: `None` when it is one.
///
/// Everything before the first foreign character is ASCII, so its index is
/// also its byte offset.
pub open spec fn id_error(s: Seq<char>) -> Option<ConceptIdErrorModel> {
    if s.len() == 0 {
        Some(ConceptIdErrorModel::Empty)
    } else if utf8_len(s) > MAX_CONCEPT_ID_LEN {
        Some(ConceptIdErrorModel::TooLong { len: utf8_len(s), max: MAX_CONCEPT_ID_LEN as nat })
    } else if s[0] == '/' || s.last() == '/' {
        Some(ConceptIdErrorModel::LeadingOrTrailingSlash)
    } else if first_foreign(s, 0) < s.len() {
        Some(
            ConceptIdErrorModel::InvalidByte {
                byte: encode_utf8(s)[first_foreign(s, 0)],
                offset: first_foreign(s, 0) as nat,
            },
        )
    } else if has_empty_segment(s) {
        Some(ConceptIdErrorModel::InvalidSegment { segment: Seq::empty() })
    } else {
        None
    }
}

pub proof fn lemma_first_foreign(s: Seq<char>, i: int)
    requires
        0 <= i <= s.len(),
    ensures
        i <= first_foreign(s, i) <= s.len(),
        forall|k: int| i <= k < first_foreign(s, i) ==> is_id_char(#[trigger] s[k]),
        first_foreign(s, i) < s.len() ==> !is_id_char(s[first_foreign(s, i)]),
    decreases s.len() - i,
{
    if i < s.len() && is_id_char(s[i]) {
        lemma_first_foreign(s, i + 1);
    }
}

/// Concept-id characters take one byte each.
pub proof fn lemma_id_chars_len(s: Seq<char>)
    requires
        forall|i: int| 0 <= i < s.len() ==> is_id_char(#[trigger] s[i]),
    ensures
        utf8_len(s) == s.len(),
    decreases s.len(),
{
    if s.len() > 0 {
        lemma_id_chars_len(s.drop_last());
        crate::text::lemma_utf8_len_push(s.drop_last(), s.last());
        assert(s.drop_last().push(s.last()) =~= s);
        assert(is_id_char(s[s.len() - 1]));
    }
}

/// A text is a concept id exactly when parsing finds nothing wrong with it.
pub proof fn lemma_valid_id(s: Seq<char>)
    ensures
        valid_id(s) <==> id_error(s) is None,
{
    lemma_first_foreign(s, 0);
    if valid_id(s) {
        lemma_id_chars_len(s);
        if first_foreign(s, 0) < s.len() {
            assert(is_id_char(s[first_foreign(s, 0)]));
        }
    }
    if id_error(s) is None {
        assert forall|i: int| 0 <= i < s.len() implies is_id_char(#[trigger] s[i]) by {
            assert(first_foreign(s, 0) >= s.len());
        }
        lemma_id_chars_len(s);
    }
}

/// Logical identifier of a concept, such as `people/alice`.
#[derive(Debug, PartialEq, Eq, PartialOrd, Ord, Hash)]
pub struct ConceptId(String);

impl View for ConceptId {
    type V = Seq<char>;

    closed spec fn view(&self) -> Seq<char> {
        self.0@
    }
}

impl Clone for ConceptId {
    fn clone(&self) -> (r: Self)
        ensures
            r@ == self@,
    {
        proof {
            use_type_invariant(self);
        }
        ConceptId(self.0.clone())
    }
}

impl ConceptId {
    /// Every concept id in existence is well formed.
    #[verifier::type_invariant]
    spec fn wf(self) -> bool {
        valid_id(self.0@)
    }

    /// Accepts exactly the texts that [`valid_id`] describes.
    pub fn parse(s: &str) -> (r: Result<ConceptId, ConceptIdError>)
        ensures
            r is Ok <==> valid_id(s@),
            r is Ok ==> r->Ok_0@ == s@,
            r is Err ==> id_error(s@) == Some(r->Err_0@),
    {
        proof {
            lemma_valid_id(s@);
            lemma_first_foreign(s@, 0);
            crate::text::lemma_utf8_len_at_least(s@);
        }
        if s.is_empty() {
            return Err(ConceptIdError::Empty);
        }
        let bytes = s.as_bytes();
        if bytes.len() > MAX_CONCEPT_ID_LEN {
            return Err(ConceptIdError::TooLong { len: bytes.len(), max: MAX_CONCEPT_ID_LEN });
        }
        let chars = chars_of(s);
        if chars[0] == '/' || chars[chars.len() - 1] == '/' {
            return Err(ConceptIdError::LeadingOrTrailingSlash);
        }
        let mut i: usize = 0;
        while i < chars.len()
            invariant
                i <= chars.len(),
                chars@ == s@,
                bytes@ == encode_utf8(s@),
                chars.len() <= bytes.len() <= MAX_CONCEPT_ID_LEN,
                chars@[0] != '/',
                chars@.last() != '/',
                0 < chars.len(),
                first_foreign(s@, 0) == first_foreign(s@, i as int),
                valid_id(s@) <==> id_error(s@) is None,
            decreases chars.len() - i,
        {
            if !id_char(chars[i]) {
                return Err(ConceptIdError::InvalidByte { byte: bytes[i], offset: i });
            }
            i += 1;
        }
        let mut j: usize = 1;
        while j < chars.len()
            invariant
                1 <= j <= chars.len(),
                chars@ == s@,
                utf8_len(s@) <= MAX_CONCEPT_ID_LEN,
                chars@[0] != '/',
                chars@.last() != '/',
                0 < chars.len(),
                first_foreign(s@, 0) == s@.len(),
                valid_id(s@) <==> id_error(s@) is None,
                forall|k: int| 0 <= k < j - 1 ==> !(s@[k] == '/' && #[trigger] s@[k + 1] == '/'),
            decreases chars.len() - j,
        {
            if chars[j - 1] == '/' && chars[j] == '/' {
                assert(s@[j - 1] == '/' && s@[j - 1 + 1] == '/');
                return Err(ConceptIdError::InvalidSegment { segment: String::new() });
            }
            j += 1;
        }
        Ok(ConceptId(s.to_owned()))
    }

    /// The id as text.
    pub fn as_str(&self) -> (r: &str)
        ensures
            r@ == self@,
            valid_id(self@),
    {
        proof {
            use_type_invariant(self);
        }
        self.0.as_str()
    }

    /// Whether two ids are the same.
    pub fn same(&self, other: &ConceptId) -> (r: bool)
        ensures
            r == (self@ == other@),
    {
        str_eq(self.as_str(), other.as_str())
    }
}

// ---------------------------------------------------------------------
// Content hashes
// ---------------------------------------------------------------------

/// Identity of a content: the SHA-256 of its exact UTF-8 bytes.
#[derive(Debug, Clone, Copy, PartialEq, Eq, PartialOrd, Ord, Hash)]
pub struct ContentId(pub [u8; 32]);

impl View for ContentId {
    type V = Seq<u8>;

    open spec fn view(&self) -> Seq<u8> {
        self.0@
    }
}

/// Lower-case hexadecimal text of a run of bytes.
pub open spec fn hex(b: Seq<u8>) -> Seq<char> {
    Seq::new(
        2 * b.len(),
        |i: int|
            if i % 2 == 0 {
                hex_digit(b[i / 2] as int / 16)
            } else {
                hex_digit(b[i / 2] as int % 16)
            },
    )
}

/// Value of a hexadecimal digit in either case.
pub open spec fn hex_value(c: char) -> Option<int> {
    if '0' <= c && c <= '9' {
        Some(c as int - 48)
    } else if 'a' <= c && c <= 'f' {
        Some(c as int - 87)
    } else if 'A' <= c && c <= 'F' {
        Some(c as int - 55)
    } else {
        None
    }
}

/// The 32 bytes that 64 hexadecimal digits stand for; `None` for any other
/// text.
pub open spec fn unhex(s: Seq<char>) -> Option<Seq<u8>> {
    if s.len() == 64 && (forall|i: int| 0 <= i < 64 ==> hex_value(#[trigger] s[i]) is Some) {
        Some(
            Seq::new(
                32,
                |i: int| (16 * hex_value(s[2 * i])->0 + hex_value(s[2 * i + 1])->0) as u8,
            ),
        )
    } else {
        None
    }
}

pub fn hex_val(c: char) -> (r: Option<u8>)
    ensures
        r is Some <==> hex_value(c) is Some,
        r is Some ==> r->0 as int == hex_value(c)->0 && r->0 < 16,
{
    if '0' <= c && c <= '9' {
        Some((c as u32 - 48) as u8)
    } else if 'a' <= c && c <= 'f' {
        Some((c as u32 - 87) as u8)
    } else if 'A' <= c && c <= 'F' {
        Some((c as u32 - 55) as u8)
    } else {
        None
    }
}

impl ContentId {
    /// Lower-case hexadecimal, 64 characters.
    pub fn to_hex(&self) -> (r: String)
        ensures
            r@ == hex(self@),
            r@.len() == 64,
    {
        let mut out = String::new();
        let mut i: usize = 0;
        while i < 32
            invariant
                i <= 32,
                out@ == hex(self.0@.take(i as int)),
            decreases 32 - i,
        {
            let b: u8 = self.0[i];
            out.push(hex_digit_of(b / 16));
            out.push(hex_digit_of(b % 16));
            i += 1;
            assert(out@ =~= hex(self.0@.take(i as int)));
        }
        assert(self.0@.take(32) =~= self.0@);
        out
    }

    /// Reads 64 hexadecimal digits of either case; any other text is `None`.
    pub fn from_hex(s: &str) -> (r: Option<ContentId>)
        ensures
            opt_view(r) == unhex(s@),
    {
        let chars = chars_of(s);
        if chars.len() != 64 {
            return None;
        }
        let mut out: [u8; 32] = [0u8; 32];
        let mut i: usize = 0;
        while i < 32
            invariant
                i <= 32,
                chars@ == s@,
                chars.len() == 64,
                forall|k: int| 0 <= k < 2 * i ==> hex_value(#[trigger] s@[k]) is Some,
                forall|k: int|
                    0 <= k < i ==> #[trigger] out@[k] == (16 * hex_value(s@[2 * k])->0
                        + hex_value(s@[2 * k + 1])->0) as u8,
            decreases 32 - i,
        {
            match (hex_val(chars[2 * i]), hex_val(chars[2 * i + 1])) {
                (Some(hi), Some(lo)) => {
                    out[i] = hi * 16 + lo;
                },
                _ => {
                    assert(hex_value(s@[2 * i as int]) is None || hex_value(
                        s@[2 * i as int + 1],
                    ) is None);
                    return None;
                },
            }
            i += 1;
        }
        assert(out@ =~= unhex(s@)->0);
        Some(ContentId(out))
    }

    /// Whether two hashes are the same.
    pub fn same(&self, other: &ContentId) -> (r: bool)
        ensures
            r == (self@ == other@),
    {
        let mut i: usize = 0;
        while i < 32
            invariant
                i <= 32,
                forall|k: int| 0 <= k < i ==> self.0@[k] == other.0@[k],
            decreases 32 - i,
        {
            if self.0[i] != other.0[i] {
                assert(self@[i as int] != other@[i as int]);
                return false;
            }
            i += 1;
        }
        assert(self@ =~= other@);
        true
    }
}

/// Writing a hash in hexadecimal and reading it back gives the hash.
pub proof fn lemma_hex_round_trip(b: Seq<u8>)
    requires
        b.len() == 32,
    ensures
        unhex(hex(b)) == Some(b),
{
    let s = hex(b);
    assert forall|i: int| 0 <= i < 64 implies hex_value(#[trigger] s[i]) is Some by {
        assert(0 <= b[i / 2] as int / 16 < 16);
    }
    assert(unhex(s)->0 =~= b) by {
        assert forall|i: int| 0 <= i < 32 implies unhex(s)->0[i] == b[i] by {
            assert((2 * i) % 2 == 0 && (2 * i) / 2 == i);
            assert((2 * i + 1) % 2 == 1 && (2 * i + 1) / 2 == i);
            assert(s[2 * i] == hex_digit(b[i] as int / 16));
            assert(s[2 * i + 1] == hex_digit(b[i] as int % 16));
            assert(hex_value(s[2 * i])->0 == b[i] as int / 16);
            assert(hex_value(s[2 * i + 1])->0 == b[i] as int % 16);
        }
    }
}

// ---------------------------------------------------------------------
// Principals, revisions and budgets
// ---------------------------------------------------------------------

/// Who performs an operation.
#[derive(Debug, PartialEq, Eq)]
pub struct Principal {
    /// Subject of the access token.
    pub subject: String,
    /// OAuth client the token was issued to.
    pub client_id: String,
}

/// Mathematical counterpart of [`Principal`].
pub struct PrincipalModel {
    pub subject: Seq<char>,
    pub client_id: Seq<char>,
}

impl View for Principal {
    type V = PrincipalModel;

    open spec fn view(&self) -> PrincipalModel {
        PrincipalModel { subject: self.subject@, client_id: self.client_id@ }
    }
}

impl Clone for Principal {
    fn clone(&self) -> (r: Self)
        ensures
            r@ == self@,
    {
        Principal { subject: self.subject.clone(), client_id: self.client_id.clone() }
    }
}

impl Principal {
    /// The single principal of a local development server.
    pub fn local_dev() -> (r: Principal)
        ensures
            r@ == (PrincipalModel { subject: "local"@, client_id: "dev"@ }),
    {
        Principal { subject: "local".to_owned(), client_id: "dev".to_owned() }
    }
}

/// Metadata of a confirmed revision.
#[derive(Debug, PartialEq, Eq)]
pub struct Revision {
    /// Global, strictly increasing sequence number, from one.
    pub seq: u64,
    pub concept_id: ConceptId,
    /// Hash the edit was based on; `None` when this revision created the
    /// document.
    pub base: Option<ContentId>,
    /// Hash that resulted.
    pub result: ContentId,
    pub actor: Principal,
    /// Reason the author gave.
    pub reason: String,
}

/// Mathematical counterpart of [`Revision`].
pub struct RevisionModel {
    pub seq: nat,
    pub concept_id: Seq<char>,
    pub base: Option<Seq<u8>>,
    pub result: Seq<u8>,
    pub actor: PrincipalModel,
    pub reason: Seq<char>,
}

impl View for Revision {
    type V = RevisionModel;

    open spec fn view(&self) -> RevisionModel {
        RevisionModel {
            seq: self.seq as nat,
            concept_id: self.concept_id@,
            base: opt_view(self.base),
            result: self.result@,
            actor: self.actor@,
            reason: self.reason@,
        }
    }
}

impl Clone for Revision {
    fn clone(&self) -> (r: Self)
        ensures
            r@ == self@,
    {
        Revision {
            seq: self.seq,
            concept_id: self.concept_id.clone(),
            base: self.base,
            result: self.result,
            actor: self.actor.clone(),
            reason: self.reason.clone(),
        }
    }
}

/// Explicit resource limits of one request.
#[derive(Debug, Clone, Copy, PartialEq, Eq)]
pub struct Budget {
    pub max_request_bytes: usize,
    pub max_response_bytes: usize,
    pub max_document_bytes: usize,
    pub max_frontmatter_bytes: usize,
    pub max_graph_nodes: usize,
    pub max_graph_depth: u8,
    pub max_links_per_document: usize,
    pub max_search_results: usize,
    pub max_bulk_commits: usize,
}

impl Default for Budget {
    fn default() -> (r: Budget)
        ensures
            r == (Budget {
                max_request_bytes: 1048576,
                max_response_bytes: 2097152,
                max_document_bytes: 262144,
                max_frontmatter_bytes: 16384,
                max_graph_nodes: 128,
                max_graph_depth: 4,
                max_links_per_document: 512,
                max_search_results: 50,
                max_bulk_commits: 50,
            }),
    {
        Budget {
            max_request_bytes: 1048576,
            max_response_bytes: 2097152,
            max_document_bytes: 262144,
            max_frontmatter_bytes: 16384,
            max_graph_nodes: 128,
            max_graph_depth: 4,
            max_links_per_document: 512,
            max_search_results: 50,
            max_bulk_commits: 50,
        }
    }
}

} // verus!
