//! Ontologies written as documents: one axiom per line of the body.

use vstd::prelude::*;
use crate::ontology::{
    no_axioms, AxiomModel, Ontology, OntologyModel, PropertyAxiom, SubClassModel, SubClassOf,
};
use crate::text::{
    chars_are, chars_of, debug_text, dec, find, find_char, find_char_of, find_of, lemma_views_push,
    find_char_from, lemma_find_char_from, lemma_lines_shift, lemma_trim_both, lines, lines_from,
    lines_of, part_from, part_to, push_dec, quoted, starts_with, starts_with_of, string_of,
    strip_cr, trim, trim_of, views,
};

verus! {

/// Why a line is no axiom.
#[derive(Debug, PartialEq, Eq)]
pub enum OntologyDocError {
    /// Not of the form `keyword: rest`.
    Malformed { line: usize },
    /// The rest does not suit the keyword.
    InvalidAxiom { line: usize, reason: String },
    UnknownKeyword { line: usize, keyword: String },
}

/// Mathematical counterpart of [`OntologyDocError`].
pub enum AxiomErrorModel {
    Malformed { line: nat },
    InvalidAxiom { line: nat, reason: Seq<char> },
    UnknownKeyword { line: nat, keyword: Seq<char> },
}

impl View for OntologyDocError {
    type V = AxiomErrorModel;

    open spec fn view(&self) -> AxiomErrorModel {
        match *self {
            OntologyDocError::Malformed { line } => AxiomErrorModel::Malformed {
                line: line as nat,
            },
            OntologyDocError::InvalidAxiom { line, reason } => AxiomErrorModel::InvalidAxiom {
                line: line as nat,
                reason: reason@,
            },
            OntologyDocError::UnknownKeyword { line, keyword } => AxiomErrorModel::UnknownKeyword {
                line: line as nat,
                keyword: keyword@,
            },
        }
    }
}

impl AxiomErrorModel {
    /// The text shown to a person.
    pub open spec fn message(self) -> Seq<char> {
        match self {
            AxiomErrorModel::Malformed { line } => "línea "@ + dec(line)
                + ": se esperaba 'palabra_clave: resto'"@,
            AxiomErrorModel::InvalidAxiom { line, reason } => "línea "@ + dec(line) + ": "@
                + reason,
            AxiomErrorModel::UnknownKeyword { line, keyword } => "línea "@ + dec(line)
                + ": palabra clave desconocida "@ + debug_text(keyword)
                + " (usa subclass_of | transitive | symmetric | sub_property_of | inverse_of)"@,
        }
    }
}

impl OntologyDocError {
    /// The text shown to a person.
    pub fn message(&self) -> (r: String)
        ensures
            r@ == self@.message(),
    {
        let mut out = "línea ".to_owned();
        match self {
            OntologyDocError::Malformed { line } => {
                push_dec(&mut out, *line as u64);
                out.push_str(": se esperaba 'palabra_clave: resto'");
            },
            OntologyDocError::InvalidAxiom { line, reason } => {
                push_dec(&mut out, *line as u64);
                out.push_str(": ");
                out.push_str(reason.as_str());
            },
            OntologyDocError::UnknownKeyword { line, keyword } => {
                push_dec(&mut out, *line as u64);
                out.push_str(": palabra clave desconocida ");
                out.push_str(quoted(keyword.as_str()).as_str());
                out.push_str(
                    " (usa subclass_of | transitive | symmetric | sub_property_of | inverse_of)",
                );
            },
        }
        out
    }
}

/// The two sides of an arrow, neither empty.
pub open spec fn arrow(rest: Seq<char>, line: nat) -> Result<
    (Seq<char>, Seq<char>),
    AxiomErrorModel,
> {
    match find(rest, "->"@) {
        None => Err(
            AxiomErrorModel::InvalidAxiom { line, reason: "se esperaba 'origen -> destino'"@ },
        ),
        Some(i) => {
            let a = trim(rest.take(i));
            let b = trim(rest.skip(i + "->"@.len()));
            if a.len() == 0 || b.len() == 0 {
                Err(
                    AxiomErrorModel::InvalidAxiom {
                        line,
                        reason: "'origen -> destino': ningún lado puede quedar vacío"@,
                    },
                )
            } else {
                Ok((a, b))
            }
        },
    }
}

/// A name, not empty.
pub open spec fn named(rest: Seq<char>, line: nat) -> Result<Seq<char>, AxiomErrorModel> {
    if rest.len() == 0 {
        Err(AxiomErrorModel::InvalidAxiom { line, reason: "falta el nombre de la propiedad"@ })
    } else {
        Ok(rest)
    }
}

pub open spec fn with_class(o: OntologyModel, c: SubClassModel) -> OntologyModel {
    OntologyModel { classes: o.classes.push(c), ..o }
}

pub open spec fn with_axiom(o: OntologyModel, a: AxiomModel) -> OntologyModel {
    OntologyModel { properties: o.properties.push(a), ..o }
}

/// The ontology after one more line. Blank lines and comments add nothing.
pub open spec fn with_line(o: OntologyModel, raw_line: Seq<char>, no: nat) -> Result<
    OntologyModel,
    AxiomErrorModel,
> {
    let line = trim(raw_line);
    if line.len() == 0 || starts_with(line, "#"@) {
        Ok(o)
    } else {
        match find_char(line, ':') {
            None => Err(AxiomErrorModel::Malformed { line: no }),
            Some(c) => {
                let keyword = trim(line.take(c));
                let rest = trim(line.skip(c + 1));
                if keyword == "subclass_of"@ {
                    match arrow(rest, no) {
                        Err(e) => Err(e),
                        Ok((subclass, superclass)) => Ok(
                            with_class(o, SubClassModel { subclass, superclass }),
                        ),
                    }
                } else if keyword == "transitive"@ {
                    match named(rest, no) {
                        Err(e) => Err(e),
                        Ok(p) => Ok(with_axiom(o, AxiomModel::Transitive(p))),
                    }
                } else if keyword == "symmetric"@ {
                    match named(rest, no) {
                        Err(e) => Err(e),
                        Ok(p) => Ok(with_axiom(o, AxiomModel::Symmetric(p))),
                    }
                } else if keyword == "sub_property_of"@ {
                    match arrow(rest, no) {
                        Err(e) => Err(e),
                        Ok((sub, sup)) => Ok(
                            with_axiom(o, AxiomModel::SubPropertyOf { sub, sup }),
                        ),
                    }
                } else if keyword == "inverse_of"@ {
                    match arrow(rest, no) {
                        Err(e) => Err(e),
                        Ok((property, inverse)) => Ok(
                            with_axiom(o, AxiomModel::InverseOf { property, inverse }),
                        ),
                    }
                } else {
                    Err(AxiomErrorModel::UnknownKeyword { line: no, keyword })
                }
            },
        }
    }
}

pub open spec fn with_lines(o: OntologyModel, ls: Seq<Seq<char>>, i: int) -> Result<
    OntologyModel,
    AxiomErrorModel,
>
    decreases ls.len() - i,
{
    if i < 0 || i >= ls.len() {
        Ok(o)
    } else {
        match with_line(o, ls[i], (i + 1) as nat) {
            Err(e) => Err(e),
            Ok(next) => with_lines(next, ls, i + 1),
        }
    }
}

/// The ontology that a body declares, or the first line that is no axiom.
pub open spec fn declared(body: Seq<char>) -> Result<OntologyModel, AxiomErrorModel> {
    with_lines(no_axioms(), lines(body), 0)
}

fn non_empty(rest: &[char], line: usize) -> (r: Result<String, OntologyDocError>)
    ensures
        crate::text::res_view(r) == named(rest@, line as nat),
{
    if rest.len() == 0 {
        return Err(
            OntologyDocError::InvalidAxiom {
                line,
                reason: "falta el nombre de la propiedad".to_owned(),
            },
        );
    }
    Ok(string_of(rest))
}

fn split_arrow(rest: &[char], line: usize) -> (r: Result<(String, String), OntologyDocError>)
    ensures
        crate::text::res_view(r) == arrow(rest@, line as nat),
{
    proof {
        reveal_strlit("->");
        assert("->"@.len() == 2);
    }
    let n = rest.len();
    match find_of(rest, "->") {
        None => Err(
            OntologyDocError::InvalidAxiom {
                line,
                reason: "se esperaba 'origen -> destino'".to_owned(),
            },
        ),
        Some(i) => {
            let a = trim_of(part_to(rest, i));
            let b = trim_of(part_from(rest, i + 2));
            if a.len() == 0 || b.len() == 0 {
                return Err(
                    OntologyDocError::InvalidAxiom {
                        line,
                        reason: "'origen -> destino': ningún lado puede quedar vacío".to_owned(),
                    },
                );
            }
            Ok((string_of(a), string_of(b)))
        },
    }
}

fn add_axiom(o: &mut Ontology, a: PropertyAxiom)
    ensures
        final(o)@ == with_axiom(old(o)@, a@),
{
    proof {
        lemma_views_push(o.properties@, a);
    }
    o.properties.push(a);
}

fn add_line(o: &mut Ontology, raw_line: &[char], no: usize) -> (r: Result<(), OntologyDocError>)
    ensures
        match r {
            Ok(_) => with_line(old(o)@, raw_line@, no as nat) == Ok::<_, AxiomErrorModel>(
                final(o)@,
            ),
            Err(e) => with_line(old(o)@, raw_line@, no as nat) == Err::<OntologyModel, _>(e@),
        },
{
    let line = trim_of(raw_line);
    if line.len() == 0 || starts_with_of(line, "#") {
        return Ok(());
    }
    let c = match find_char_of(line, ':') {
        None => {
            return Err(OntologyDocError::Malformed { line: no });
        },
        Some(c) => c,
    };
    let keyword = trim_of(part_to(line, c));
    let rest = trim_of(part_from(line, c + 1));
    if chars_are(keyword, "subclass_of") {
        match split_arrow(rest, no) {
            Err(e) => {
                return Err(e);
            },
            Ok((subclass, superclass)) => {
                let class = SubClassOf { subclass, superclass };
                proof {
                    lemma_views_push(o.classes@, class);
                }
                o.classes.push(class);
            },
        }
    } else if chars_are(keyword, "transitive") {
        match non_empty(rest, no) {
            Err(e) => {
                return Err(e);
            },
            Ok(p) => add_axiom(o, PropertyAxiom::Transitive(p)),
        }
    } else if chars_are(keyword, "symmetric") {
        match non_empty(rest, no) {
            Err(e) => {
                return Err(e);
            },
            Ok(p) => add_axiom(o, PropertyAxiom::Symmetric(p)),
        }
    } else if chars_are(keyword, "sub_property_of") {
        match split_arrow(rest, no) {
            Err(e) => {
                return Err(e);
            },
            Ok((sub, sup)) => add_axiom(o, PropertyAxiom::SubPropertyOf { sub, sup }),
        }
    } else if chars_are(keyword, "inverse_of") {
        match split_arrow(rest, no) {
            Err(e) => {
                return Err(e);
            },
            Ok((property, inverse)) => add_axiom(
                o,
                PropertyAxiom::InverseOf { property, inverse },
            ),
        }
    } else {
        return Err(
            OntologyDocError::UnknownKeyword { line: no, keyword: string_of(keyword) },
        );
    }
    Ok(())
}

/// Reads the body of an ontology document.
pub fn parse_ontology_document(body: &str) -> (r: Result<Ontology, OntologyDocError>)
    ensures
        crate::text::res_view(r) == declared(body@),
{
    let chars = chars_of(body);
    let ls = lines_of(chars.as_slice());
    let mut o = Ontology::default();
    let mut i: usize = 0;
    while i < ls.len()
        invariant
            i <= ls.len(),
            views(ls@) == lines(body@),
            declared(body@) == with_lines(o@, lines(body@), i as int),
        decreases ls.len() - i,
    {
        assert(views(ls@)[i as int] == ls@[i as int]@);
        match add_line(&mut o, ls[i].as_slice(), i + 1) {
            Err(e) => {
                return Err(e);
            },
            Ok(_) => {},
        }
        i += 1;
    }
    Ok(o)
}

// ---------------------------------------------------------------------
// Laws of reading
// ---------------------------------------------------------------------

impl AxiomErrorModel {
    /// The line that an error speaks of.
    pub open spec fn line(self) -> nat {
        match self {
            AxiomErrorModel::Malformed { line } => line,
            AxiomErrorModel::InvalidAxiom { line, reason } => line,
            AxiomErrorModel::UnknownKeyword { line, keyword } => line,
        }
    }
}

/// A blank line, a comment or a well-formed axiom.
pub open spec fn is_sound(raw_line: Seq<char>) -> bool {
    with_line(no_axioms(), raw_line, 0) is Ok
}

/// The axioms of one ontology, then those of another.
pub open spec fn both(a: OntologyModel, b: OntologyModel) -> OntologyModel {
    OntologyModel { classes: a.classes + b.classes, properties: a.properties + b.properties }
}

/// What a line adds depends on the line alone.
proof fn lemma_line(o: OntologyModel, raw_line: Seq<char>, no: nat)
    ensures
        with_line(o, raw_line, no) is Ok <==> is_sound(raw_line),
        is_sound(raw_line) ==> with_line(o, raw_line, no)->Ok_0 == both(
            o,
            with_line(no_axioms(), raw_line, 0)->Ok_0,
        ),
        with_line(o, raw_line, no) is Err ==> with_line(o, raw_line, no)->Err_0.line() == no,
{
    let x = with_line(no_axioms(), raw_line, 0);
    if x is Ok {
        let y = with_line(o, raw_line, no)->Ok_0;
        let z = both(o, x->Ok_0);
        assert(y.classes =~= z.classes);
        assert(y.properties =~= z.properties);
    }
}

/// Lines that read the same from some index on add the same.
proof fn lemma_same_lines(
    o: OntologyModel,
    p: OntologyModel,
    ls: Seq<Seq<char>>,
    i: int,
    ms: Seq<Seq<char>>,
    j: int,
    n: int,
)
    requires
        0 <= i,
        0 <= j,
        0 <= n,
        i + n == ls.len(),
        j + n <= ms.len(),
        forall|k: int| 0 <= k < n ==> trim(#[trigger] ls[i + k]) == trim(ms[j + k]),
        with_lines(p, ls, i) is Ok,
    ensures
        ({
            let more = OntologyModel {
                classes: with_lines(p, ls, i)->Ok_0.classes.skip(p.classes.len() as int),
                properties: with_lines(p, ls, i)->Ok_0.properties.skip(p.properties.len() as int),
            };
            &&& with_lines(o, ms, j) == with_lines(both(o, more), ms, j + n)
            &&& with_lines(p, ls, i)->Ok_0 == both(p, more)
        }),
    decreases n,
{
    let end = with_lines(p, ls, i)->Ok_0;
    if n == 0 {
        assert(both(o, OntologyModel {
            classes: end.classes.skip(p.classes.len() as int),
            properties: end.properties.skip(p.properties.len() as int),
        }).classes =~= o.classes);
        assert(both(o, OntologyModel {
            classes: end.classes.skip(p.classes.len() as int),
            properties: end.properties.skip(p.properties.len() as int),
        }).properties =~= o.properties);
        assert(end.classes + end.classes.skip(end.classes.len() as int) =~= end.classes);
        assert(end.properties + end.properties.skip(end.properties.len() as int)
            =~= end.properties);
    } else {
        assert(trim(ls[i + 0]) == trim(ms[j + 0]));
        lemma_line(p, ls[i], (i + 1) as nat);
        lemma_line(o, ms[j], (j + 1) as nat);
        assert(is_sound(ls[i]) == is_sound(ms[j]));
        let step = with_line(no_axioms(), ls[i], 0)->Ok_0;
        let p2 = with_line(p, ls[i], (i + 1) as nat)->Ok_0;
        let o2 = with_line(o, ms[j], (j + 1) as nat)->Ok_0;
        assert(p2 == both(p, step) && o2 == both(o, step));
        assert forall|k: int| 0 <= k < n - 1 implies trim(#[trigger] ls[i + 1 + k]) == trim(
            ms[j + 1 + k],
        ) by {
            assert(trim(ls[i + (k + 1)]) == trim(ms[j + (k + 1)]));
        }
        lemma_same_lines(o2, p2, ls, i + 1, ms, j + 1, n - 1);
        let rest = OntologyModel {
            classes: end.classes.skip(p2.classes.len() as int),
            properties: end.properties.skip(p2.properties.len() as int),
        };
        let more = OntologyModel {
            classes: end.classes.skip(p.classes.len() as int),
            properties: end.properties.skip(p.properties.len() as int),
        };
        assert(end.classes =~= p.classes + (step.classes + rest.classes));
        assert(end.properties =~= p.properties + (step.properties + rest.properties));
        assert(more.classes =~= step.classes + rest.classes);
        assert(more.properties =~= step.properties + rest.properties);
        assert(both(o2, rest).classes =~= both(o, more).classes);
        assert(both(o2, rest).properties =~= both(o, more).properties);
    }
}

/// The lines of two texts joined by a line feed: those of the first, with at
/// most an empty one more, then those of the second.
proof fn lemma_joined_lines(a: Seq<char>, b: Seq<char>, p: int) -> (l: Seq<Seq<char>>)
    requires
        0 <= p <= a.len(),
        p == a.len() ==> p == 0 || a[p - 1] == '\n',
    ensures
        lines_from(a + seq!['\n'] + b, p) == l + lines(b),
        lines_from(a, p).len() <= l.len() <= lines_from(a, p).len() + 1,
        forall|k: int|
            0 <= k < lines_from(a, p).len() ==> trim(#[trigger] lines_from(a, p)[k]) == trim(l[k]),
        l.len() > lines_from(a, p).len() ==> trim(l.last()).len() == 0,
    decreases a.len() - p,
{
    let w = a + seq!['\n'] + b;
    let n = a.len() as int;
    assert(w[n] == '\n');
    lemma_find_char_from(a, p, '\n');
    lemma_find_char_from(w, p, '\n');
    lemma_lines_shift(a + seq!['\n'], b, 0);
    if p < n {
        match find_char_from(a, p, '\n') {
            Some(k) => {
                assert(w[k] == a[k]);
                let kw = find_char_from(w, p, '\n')->0;
                if kw < k {
                    assert(w[kw] == a[kw]);
                }
                assert(w.subrange(p, k) =~= a.subrange(p, k));
                let rest = lemma_joined_lines(a, b, k + 1);
                let first = seq![strip_cr(a.subrange(p, k))];
                let l = first + rest;
                assert(lines_from(w, p) =~= l + lines(b));
                assert forall|j: int| 0 <= j < lines_from(a, p).len() implies trim(
                    #[trigger] lines_from(a, p)[j],
                ) == trim(l[j]) by {
                    if j > 0 {
                        assert(lines_from(a, p)[j] == lines_from(a, k + 1)[j - 1]);
                    }
                }
                l
            },
            None => {
                let kw = find_char_from(w, p, '\n')->0;
                if kw < n {
                    assert(w[kw] == a[kw]);
                }
                assert(w.subrange(p, n) =~= a.skip(p));
                let l = seq![strip_cr(a.skip(p))];
                assert(lines_from(w, p) =~= l + lines(b));
                lemma_trim_cr(a.skip(p));
                l
            },
        }
    } else {
        assert(find_char_from(w, p, '\n') == Some(n));
        assert(w.subrange(p, n) =~= Seq::<char>::empty());
        let l = seq![Seq::<char>::empty()];
        assert(lines_from(w, p) =~= l + lines(b));
        l
    }
}

/// A carriage return at the end is white space.
proof fn lemma_trim_cr(s: Seq<char>)
    ensures
        trim(strip_cr(s)) == trim(s),
{
    if s.len() > 0 && s.last() == '\r' {
        let r = s.drop_last();
        lemma_trim_both(r, '\r');
        assert(r.push('\r') =~= s);
    }
}

/// Two texts that declare axioms, joined by a line feed, declare the axioms of
/// both in order.
pub proof fn law_joined_texts_declare_both(a: Seq<char>, b: Seq<char>)
    requires
        declared(a) is Ok,
        declared(b) is Ok,
    ensures
        declared(a + seq!['\n'] + b) == Ok::<_, AxiomErrorModel>(
            both(declared(a)->Ok_0, declared(b)->Ok_0),
        ),
{
    let w = a + seq!['\n'] + b;
    let l = lemma_joined_lines(a, b, 0);
    let la = lines(a);
    let lb = lines(b);
    let lw = lines(w);
    let n = la.len() as int;
    let none = no_axioms();
    assert forall|k: int| 0 <= k < n implies trim(#[trigger] la[0 + k]) == trim(lw[0 + k]) by {
        assert(lw[k] == l[k]);
    }
    lemma_same_lines(none, none, la, 0, lw, 0, n);
    let first = declared(a)->Ok_0;
    assert(with_lines(none, lw, 0) == with_lines(first, lw, n));
    let m = l.len() as int;
    if m > n {
        assert(lw[n] == l.last());
        assert(with_line(first, lw[n], (n + 1) as nat) == Ok::<_, AxiomErrorModel>(first));
    }
    assert(with_lines(none, lw, 0) == with_lines(first, lw, m));
    assert forall|k: int| 0 <= k < lb.len() implies trim(#[trigger] lb[0 + k]) == trim(lw[m + k]) by {
        assert(lw[m + k] == lb[k]);
    }
    lemma_same_lines(first, none, lb, 0, lw, m, lb.len() as int);
    let second = declared(b)->Ok_0;
    let more = OntologyModel {
        classes: second.classes.skip(0),
        properties: second.properties.skip(0),
    };
    assert(more.classes =~= second.classes);
    assert(more.properties =~= second.properties);
}

proof fn lemma_first_bad(o: OntologyModel, ls: Seq<Seq<char>>, i: int)
    requires
        0 <= i <= ls.len(),
    ensures
        match with_lines(o, ls, i) {
            Ok(_) => forall|k: int| i <= k < ls.len() ==> is_sound(#[trigger] ls[k]),
            Err(e) => i < e.line() <= ls.len() && !is_sound(ls[e.line() - 1]) && forall|k: int|
                i <= k < e.line() - 1 ==> is_sound(#[trigger] ls[k]),
        },
    decreases ls.len() - i,
{
    if i < ls.len() {
        lemma_line(o, ls[i], (i + 1) as nat);
        match with_line(o, ls[i], (i + 1) as nat) {
            Ok(next) => lemma_first_bad(next, ls, i + 1),
            Err(_) => {},
        }
    }
}

/// A text is refused exactly where some line is neither blank, nor a comment,
/// nor a well-formed axiom; the error names the first such line, from one.
pub proof fn law_first_bad_line_is_named(body: Seq<char>)
    ensures
        match declared(body) {
            Ok(_) => forall|k: int|
                0 <= k < lines(body).len() ==> is_sound(#[trigger] lines(body)[k]),
            Err(e) => 1 <= e.line() <= lines(body).len() && !is_sound(lines(body)[e.line() - 1])
                && forall|k: int| 0 <= k < e.line() - 1 ==> is_sound(#[trigger] lines(body)[k]),
        },
{
    lemma_first_bad(no_axioms(), lines(body), 0);
}

} // verus!
