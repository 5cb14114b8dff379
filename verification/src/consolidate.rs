//! Session digests: what an agent did in a session, rendered as a document.

use vstd::prelude::*;
use crate::model::{Budget, ConceptId};
use crate::okf::{parse_document, parsed, OkfError, OkfErrorModel};
use crate::text::{
    chars_of, control, is_control, is_white, opt_view, part_from, push_chars, string_of, trim,
    trim_of, trim_start, trim_start_of, views,
};

verus! {

/// A concept touched during the session.
#[derive(Debug, PartialEq, Eq)]
pub struct DigestEntity {
    pub concept_id: ConceptId,
    /// How it was touched, in prose.
    pub relation: Option<String>,
}

/// Mathematical counterpart of [`DigestEntity`].
pub struct EntityModel {
    pub concept_id: Seq<char>,
    pub relation: Option<Seq<char>>,
}

impl View for DigestEntity {
    type V = EntityModel;

    open spec fn view(&self) -> EntityModel {
        EntityModel { concept_id: self.concept_id@, relation: opt_view(self.relation) }
    }
}

/// A decision taken during the session.
#[derive(Debug, PartialEq, Eq)]
pub struct DigestDecision {
    pub text: String,
    pub concept_id: Option<ConceptId>,
}

/// Mathematical counterpart of [`DigestDecision`].
pub struct DigestDecisionModel {
    pub text: Seq<char>,
    pub concept_id: Option<Seq<char>>,
}

impl View for DigestDecision {
    type V = DigestDecisionModel;

    open spec fn view(&self) -> DigestDecisionModel {
        DigestDecisionModel { text: self.text@, concept_id: opt_view(self.concept_id) }
    }
}

/// What an agent hands over to consolidate a session.
#[derive(Debug, PartialEq, Eq)]
pub struct SessionDigest {
    pub title: String,
    /// Prose; it may hold links.
    pub summary: String,
    pub entities: Vec<DigestEntity>,
    pub decisions: Vec<DigestDecision>,
}

/// Mathematical counterpart of [`SessionDigest`].
pub struct DigestModel {
    pub title: Seq<char>,
    pub summary: Seq<char>,
    pub entities: Seq<EntityModel>,
    pub decisions: Seq<DigestDecisionModel>,
}

impl View for SessionDigest {
    type V = DigestModel;

    open spec fn view(&self) -> DigestModel {
        DigestModel {
            title: self.title@,
            summary: self.summary@,
            entities: views(self.entities@),
            decisions: views(self.decisions@),
        }
    }
}

/// Why a digest was rejected.
#[derive(Debug, PartialEq, Eq)]
pub enum ConsolidateError {
    EmptyTitle,
    EmptySummary,
    /// The rendered document is not valid.
    Okf(OkfError),
}

/// Mathematical counterpart of [`ConsolidateError`].
pub enum ConsolidateErrorModel {
    EmptyTitle,
    EmptySummary,
    Okf(OkfErrorModel),
}

impl View for ConsolidateError {
    type V = ConsolidateErrorModel;

    open spec fn view(&self) -> ConsolidateErrorModel {
        match *self {
            ConsolidateError::EmptyTitle => ConsolidateErrorModel::EmptyTitle,
            ConsolidateError::EmptySummary => ConsolidateErrorModel::EmptySummary,
            ConsolidateError::Okf(e) => ConsolidateErrorModel::Okf(e@),
        }
    }
}

impl ConsolidateErrorModel {
    /// The text shown to a person.
    pub open spec fn message(self) -> Seq<char> {
        match self {
            ConsolidateErrorModel::EmptyTitle => "el título está vacío"@,
            ConsolidateErrorModel::EmptySummary => "el resumen está vacío"@,
            ConsolidateErrorModel::Okf(e) => "documento OKF inválido: "@ + e.message(),
        }
    }
}

impl ConsolidateError {
    /// The text shown to a person.
    pub fn message(&self) -> (r: String)
        ensures
            r@ == self@.message(),
    {
        match self {
            ConsolidateError::EmptyTitle => "el título está vacío".to_owned(),
            ConsolidateError::EmptySummary => "el resumen está vacío".to_owned(),
            ConsolidateError::Okf(e) => {
                let mut out = "documento OKF inválido: ".to_owned();
                out.push_str(e.message().as_str());
                out
            },
        }
    }
}

// ---------------------------------------------------------------------
// One-line texts
// ---------------------------------------------------------------------

/// A space, or a control character that stands for one.
pub open spec fn is_gap(c: char) -> bool {
    c == ' ' || is_control(c)
}

/// The first `n` characters with every run of gaps as one space.
pub open spec fn squeezed(s: Seq<char>, n: int) -> Seq<char>
    decreases n,
{
    if n <= 0 {
        Seq::empty()
    } else if !is_gap(s[n - 1]) {
        squeezed(s, n - 1).push(s[n - 1])
    } else if n >= 2 && is_gap(s[n - 2]) {
        squeezed(s, n - 1)
    } else {
        squeezed(s, n - 1).push(' ')
    }
}

/// On one line: runs of spaces and control characters become one space, and
/// the ends are trimmed.
pub open spec fn collapsed(s: Seq<char>) -> Seq<char> {
    trim(squeezed(s, s.len() as int))
}

/// The first `n` characters without double quotes and hashes.
pub open spec fn unmarked(s: Seq<char>, n: int) -> Seq<char>
    decreases n,
{
    if n <= 0 {
        Seq::empty()
    } else if s[n - 1] == '"' || s[n - 1] == '#' {
        unmarked(s, n - 1)
    } else {
        unmarked(s, n - 1).push(s[n - 1])
    }
}

/// First characters that YAML gives a meaning of its own.
pub open spec fn is_marker(c: char) -> bool {
    c == '|' || c == '>' || c == '&' || c == '*' || c == '{' || c == '['
}

/// Without markers at the front, nor white space after them.
pub open spec fn unprefixed(s: Seq<char>) -> Seq<char>
    decreases s.len(),
{
    if s.len() > 0 && is_marker(s[0]) && trim_start(s.skip(1)).len() < s.len() {
        unprefixed(trim_start(s.skip(1)))
    } else {
        s
    }
}

/// A text made safe as a frontmatter scalar.
pub open spec fn scalar_safe(s: Seq<char>) -> Seq<char> {
    let c = collapsed(s);
    unprefixed(trim_start(unmarked(c, c.len() as int)))
}

/// Begins with neither a marker nor white space.
pub open spec fn starts_plainly(s: Seq<char>) -> bool {
    s.len() > 0 ==> !is_marker(s[0]) && !is_white(s[0])
}

pub proof fn lemma_trim_start_plain(s: Seq<char>)
    ensures
        trim_start(s).len() > 0 ==> !is_white(trim_start(s)[0]),
    decreases s.len(),
{
    if s.len() > 0 && is_white(s[0]) {
        lemma_trim_start_plain(s.skip(1));
    }
}

pub proof fn lemma_unprefixed(s: Seq<char>)
    requires
        s.len() > 0 ==> !is_white(s[0]),
    ensures
        starts_plainly(unprefixed(s)),
    decreases s.len(),
{
    if s.len() > 0 && is_marker(s[0]) {
        lemma_trim_start_len(s.skip(1));
        lemma_trim_start_plain(s.skip(1));
        lemma_unprefixed(trim_start(s.skip(1)));
    }
}

/// A text made safe begins with neither a marker nor white space.
pub proof fn law_safe_scalars_start_plainly(s: Seq<char>)
    ensures
        starts_plainly(scalar_safe(s)),
{
    let c = collapsed(s);
    let u = unmarked(c, c.len() as int);
    lemma_trim_start_plain(u);
    lemma_unprefixed(trim_start(u));
}

pub proof fn lemma_trim_start_len(s: Seq<char>)
    ensures
        trim_start(s).len() <= s.len(),
    decreases s.len(),
{
    if s.len() > 0 && is_white(s[0]) {
        lemma_trim_start_len(s.skip(1));
    }
}

fn collapse(raw: &[char]) -> (r: Vec<char>)
    ensures
        r@ == collapsed(raw@),
{
    let mut out: Vec<char> = Vec::new();
    let mut i: usize = 0;
    while i < raw.len()
        invariant
            i <= raw.len(),
            out@ == squeezed(raw@, i as int),
        decreases raw.len() - i,
    {
        let c = raw[i];
        if !(c == ' ' || control(c)) {
            out.push(c);
        } else if !(i >= 1 && (raw[i - 1] == ' ' || control(raw[i - 1]))) {
            out.push(' ');
        }
        i += 1;
    }
    vstd::slice::slice_to_vec(trim_of(out.as_slice()))
}

/// On one line, with the ends trimmed.
fn collapse_line(raw: &str) -> (r: String)
    ensures
        r@ == collapsed(raw@),
{
    let chars = chars_of(raw);
    let c = collapse(chars.as_slice());
    string_of(c.as_slice())
}

/// Drops markers at the front, and white space after them.
pub(crate) fn unprefix(s: &[char]) -> (r: &[char])
    ensures
        r@ == unprefixed(s@),
{
    let mut rest: &[char] = s;
    while rest.len() > 0 && (rest[0] == '|' || rest[0] == '>' || rest[0] == '&' || rest[0] == '*'
        || rest[0] == '{' || rest[0] == '[')
        invariant
            unprefixed(s@) == unprefixed(rest@),
        decreases rest.len(),
    {
        proof {
            lemma_trim_start_len(rest@.skip(1));
        }
        rest = trim_start_of(part_from(rest, 1));
    }
    rest
}

fn sanitize_scalar(raw: &str) -> (r: String)
    ensures
        r@ == scalar_safe(raw@),
        starts_plainly(r@),
{
    let chars = chars_of(raw);
    let c = collapse(chars.as_slice());
    let mut out: Vec<char> = Vec::new();
    let mut i: usize = 0;
    while i < c.len()
        invariant
            i <= c.len(),
            out@ == unmarked(c@, i as int),
        decreases c.len() - i,
    {
        if !(c[i] == '"' || c[i] == '#') {
            out.push(c[i]);
        }
        i += 1;
    }
    proof {
        law_safe_scalars_start_plainly(raw@);
    }
    string_of(unprefix(trim_start_of(out.as_slice())))
}

// ---------------------------------------------------------------------
// Rendering
// ---------------------------------------------------------------------

pub open spec fn decision_line(d: DigestDecisionModel) -> Seq<char> {
    match d.concept_id {
        Some(id) => "- "@ + collapsed(d.text) + " → [["@ + id + "]]\n"@,
        None => "- "@ + collapsed(d.text) + "\n"@,
    }
}

pub open spec fn decision_lines(d: Seq<DigestDecisionModel>, n: int) -> Seq<char>
    decreases n,
{
    if n <= 0 {
        Seq::empty()
    } else {
        decision_lines(d, n - 1) + decision_line(d[n - 1])
    }
}

pub open spec fn entity_line(e: EntityModel) -> Seq<char> {
    match e.relation {
        Some(r) => "- [["@ + e.concept_id + "]] ("@ + collapsed(r) + ")\n"@,
        None => "- [["@ + e.concept_id + "]]\n"@,
    }
}

pub open spec fn entity_lines(e: Seq<EntityModel>, n: int) -> Seq<char>
    decreases n,
{
    if n <= 0 {
        Seq::empty()
    } else {
        entity_lines(e, n - 1) + entity_line(e[n - 1])
    }
}

/// The document of a digest.
pub open spec fn digest_text(d: DigestModel) -> Seq<char> {
    "---\ntype: session-summary\ntitle: "@ + scalar_safe(d.title)
        + "\ntags:\n  - consolidation\n---\n"@ + trim(d.summary) + "\n"@ + (if d.decisions.len()
        == 0 {
        Seq::empty()
    } else {
        "\n## Decisiones\n"@ + decision_lines(d.decisions, d.decisions.len() as int)
    }) + (if d.entities.len() == 0 {
        Seq::empty()
    } else {
        "\n## Entidades relacionadas\n"@ + entity_lines(d.entities, d.entities.len() as int)
    })
}

/// The document of a digest, which must be valid; a digest needs a title and a
/// summary.
pub open spec fn rendered(d: DigestModel, budget: Budget) -> Result<
    Seq<char>,
    ConsolidateErrorModel,
> {
    if trim(d.title).len() == 0 {
        Err(ConsolidateErrorModel::EmptyTitle)
    } else if trim(d.summary).len() == 0 {
        Err(ConsolidateErrorModel::EmptySummary)
    } else {
        match parsed(digest_text(d), budget) {
            Err(e) => Err(ConsolidateErrorModel::Okf(e)),
            Ok(_) => Ok(digest_text(d)),
        }
    }
}

fn push_decisions(out: &mut String, d: &Vec<DigestDecision>)
    ensures
        final(out)@ == old(out)@ + decision_lines(views(d@), d@.len() as int),
{
    let mut i: usize = 0;
    assert(out@ =~= old(out)@ + Seq::<char>::empty());
    while i < d.len()
        invariant
            i <= d.len(),
            out@ == old(out)@ + decision_lines(views(d@), i as int),
        decreases d.len() - i,
    {
        let ghost before = out@;
        assert(views(d@)[i as int] == d@[i as int]@);
        out.push_str("- ");
        out.push_str(collapse_line(d[i].text.as_str()).as_str());
        match &d[i].concept_id {
            Some(id) => {
                out.push_str(" → [[");
                out.push_str(id.as_str());
                out.push_str("]]\n");
            },
            None => {
                out.push_str("\n");
            },
        }
        assert(out@ =~= before + decision_line(d@[i as int]@));
        i += 1;
        assert(out@ =~= old(out)@ + decision_lines(views(d@), i as int));
    }
}

fn push_entities(out: &mut String, e: &Vec<DigestEntity>)
    ensures
        final(out)@ == old(out)@ + entity_lines(views(e@), e@.len() as int),
{
    let mut i: usize = 0;
    assert(out@ =~= old(out)@ + Seq::<char>::empty());
    while i < e.len()
        invariant
            i <= e.len(),
            out@ == old(out)@ + entity_lines(views(e@), i as int),
        decreases e.len() - i,
    {
        let ghost before = out@;
        assert(views(e@)[i as int] == e@[i as int]@);
        out.push_str("- [[");
        out.push_str(e[i].concept_id.as_str());
        match &e[i].relation {
            Some(r) => {
                out.push_str("]] (");
                out.push_str(collapse_line(r.as_str()).as_str());
                out.push_str(")\n");
            },
            None => {
                out.push_str("]]\n");
            },
        }
        assert(out@ =~= before + entity_line(e@[i as int]@));
        i += 1;
        assert(out@ =~= old(out)@ + entity_lines(views(e@), i as int));
    }
}

/// Renders a digest as a whole document of type `session-summary`; what comes
/// out is always valid.
pub fn render_digest(digest: &SessionDigest, budget: &Budget) -> (r: Result<
    String,
    ConsolidateError,
>)
    ensures
        match r {
            Ok(s) => rendered(digest@, *budget) == Ok::<_, ConsolidateErrorModel>(s@) && parsed(
                s@,
                *budget,
            ) is Ok,
            Err(e) => rendered(digest@, *budget) == Err::<Seq<char>, _>(e@),
        },
{
    let title = chars_of(digest.title.as_str());
    if trim_of(title.as_slice()).len() == 0 {
        return Err(ConsolidateError::EmptyTitle);
    }
    let summary = chars_of(digest.summary.as_str());
    let summary_trimmed = trim_of(summary.as_slice());
    if summary_trimmed.len() == 0 {
        return Err(ConsolidateError::EmptySummary);
    }
    let mut out = String::new();
    out.push_str("---\ntype: session-summary\ntitle: ");
    out.push_str(sanitize_scalar(digest.title.as_str()).as_str());
    out.push_str("\ntags:\n  - consolidation\n---\n");
    push_chars(&mut out, summary_trimmed);
    out.push_str("\n");
    let ghost head = out@;
    if digest.decisions.len() > 0 {
        out.push_str("\n## Decisiones\n");
        push_decisions(&mut out, &digest.decisions);
    }
    if digest.entities.len() > 0 {
        out.push_str("\n## Entidades relacionadas\n");
        push_entities(&mut out, &digest.entities);
    }
    assert(out@ =~= digest_text(digest@));
    match parse_document(out.as_str(), budget) {
        Err(e) => Err(ConsolidateError::Okf(e)),
        Ok(_) => Ok(out),
    }
}

} // verus!
