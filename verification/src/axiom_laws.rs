//! What each line of an ontology declares.

use vstd::prelude::*;
use crate::axioms::{arrow, declared, with_line, with_lines};
use crate::ontology::{no_axioms, AxiomModel, OntologyModel, SubClassModel};
use crate::text::{
    at, find, find_char, is_white, lemma_find_char_from, lemma_find_from, lemma_trim_both, lines,
    starts_with, trim,
};

verus! {

/// A text that neither starts nor ends with white space.
pub open spec fn is_tight(s: Seq<char>) -> bool {
    s.len() > 0 && !is_white(s[0]) && !is_white(s.last())
}

/// A name without an arrow in it.
pub open spec fn is_plain(s: Seq<char>) -> bool {
    is_tight(s) && forall|i: int| 0 <= i < s.len() - 1 ==> !(#[trigger] s[i] == '-' && s[i + 1] == '>')
}

pub proof fn lemma_tight(s: Seq<char>)
    requires
        is_tight(s),
    ensures
        trim(s) == s,
        trim(s.push(' ')) == s,
        trim(" "@ + s) == s,
{
    lemma_trim_both(s, ' ');
    reveal_strlit(" ");
    assert((" "@ + s).skip(1) =~= s);
    assert((" "@ + s)[0] == ' ');
}

/// A keyword: no colon, no mark of a comment, no white space at its ends.
pub open spec fn is_word(w: Seq<char>) -> bool {
    is_tight(w) && w[0] != '#' && forall|i: int| 0 <= i < w.len() ==> #[trigger] w[i] != ':'
}

pub proof fn lemma_keyed(w: Seq<char>, rest: Seq<char>)
    requires
        is_word(w),
        is_tight(rest),
    ensures
        ({
            let line = w + ": "@ + rest;
            &&& trim(line) == line
            &&& line.len() > 0
            &&& !starts_with(line, "#"@)
            &&& find_char(line, ':') == Some(w.len() as int)
            &&& trim(line.take(w.len() as int)) == w
            &&& trim(line.skip(w.len() as int + 1)) == rest
        }),
{
    reveal_strlit(": ");
    reveal_strlit(" ");
    reveal_strlit("#");
    let line = w + ": "@ + rest;
    let n = w.len() as int;
    assert(line[0] == w[0]);
    assert(line.last() == rest.last());
    lemma_tight(line);
    if starts_with(line, "#"@) {
        assert(line.subrange(0, 1)[0] == '#');
    }
    assert(line[n] == ':');
    lemma_find_char_from(line, 0, ':');
    assert forall|j: int| 0 <= j < n implies #[trigger] line[j] != ':' by {
        assert(line[j] == w[j]);
    }
    assert(line.take(n) =~= w);
    assert(line.skip(n + 1) =~= " "@ + rest);
    lemma_tight(w);
    lemma_tight(rest);
}

proof fn lemma_arrow(p: Seq<char>, q: Seq<char>, no: nat)
    requires
        is_plain(p),
        is_tight(q),
    ensures
        is_tight(p + " -> "@ + q),
        arrow(p + " -> "@ + q, no) == Ok::<_, crate::axioms::AxiomErrorModel>((p, q)),
{
    reveal_strlit(" -> ");
    reveal_strlit("->");
    reveal_strlit(" ");
    let rest = p + " -> "@ + q;
    let n = p.len() as int;
    assert(rest[0] == p[0]);
    assert(rest.last() == q.last());
    lemma_find_from(rest, 0, "->"@);
    assert(rest.subrange(n + 1, n + 3) =~= "->"@);
    assert(at(rest, n + 1, "->"@));
    assert forall|j: int| 0 <= j < n + 1 implies !#[trigger] at(rest, j, "->"@) by {
        if at(rest, j, "->"@) {
            let s = rest.subrange(j, j + 2);
            assert(s[0] == '-' && s[1] == '>');
            assert(rest[j] == '-' && rest[j + 1] == '>');
            if j < n - 1 {
                assert(p[j] == '-' && p[j + 1] == '>');
            } else if j == n - 1 {
                assert(rest[n] == ' ');
            } else {
                assert(rest[n] == ' ');
            }
        }
    }
    assert(find(rest, "->"@) == Some(n + 1));
    assert(rest.take(n + 1) =~= p.push(' '));
    assert(rest.skip(n + 3) =~= " "@ + q);
    lemma_tight(p);
    lemma_tight(q);
}

pub proof fn lemma_words()
    ensures
        is_word("subclass_of"@),
        is_word("transitive"@),
        is_word("symmetric"@),
        is_word("sub_property_of"@),
        is_word("inverse_of"@),
        "subclass_of"@ != "sub_property_of"@,
        "subclass_of"@ != "inverse_of"@,
        "subclass_of"@ != "transitive"@,
        "subclass_of"@ != "symmetric"@,
        "transitive"@ != "symmetric"@,
        "transitive"@ != "sub_property_of"@,
        "transitive"@ != "inverse_of"@,
        "symmetric"@ != "sub_property_of"@,
        "symmetric"@ != "inverse_of"@,
        "sub_property_of"@ != "inverse_of"@,
{
    reveal_strlit("subclass_of");
    reveal_strlit("transitive");
    reveal_strlit("symmetric");
    reveal_strlit("sub_property_of");
    reveal_strlit("inverse_of");
    assert("transitive"@[0] != "inverse_of"@[0]);
    assert("symmetric"@.len() != "sub_property_of"@.len());
    assert("subclass_of"@.len() != "sub_property_of"@.len());
}

/// An ontology has all the axioms of another.
spec fn extends(o: OntologyModel, p: OntologyModel) -> bool {
    &&& forall|c: SubClassModel| #[trigger] o.classes.contains(c) ==> p.classes.contains(c)
    &&& forall|a: AxiomModel| #[trigger] o.properties.contains(a) ==> p.properties.contains(a)
}

proof fn lemma_with_line(o: OntologyModel, line: Seq<char>, no: nat)
    ensures
        with_line(o, line, no) is Ok ==> extends(o, with_line(o, line, no)->Ok_0),
{
    if with_line(o, line, no) is Ok {
        let p = with_line(o, line, no)->Ok_0;
        assert forall|c: SubClassModel| #[trigger] o.classes.contains(c) implies p.classes.contains(
            c,
        ) by {
            let i = choose|i: int| 0 <= i < o.classes.len() && o.classes[i] == c;
            assert(p.classes[i] == c);
        }
        assert forall|a: AxiomModel| #[trigger]
            o.properties.contains(a) implies p.properties.contains(a) by {
            let i = choose|i: int| 0 <= i < o.properties.len() && o.properties[i] == a;
            assert(p.properties[i] == a);
        }
    }
}

/// What line `k` adds is there in the end.
proof fn lemma_with_lines(o: OntologyModel, ls: Seq<Seq<char>>, i: int, k: int) -> (p: OntologyModel)
    requires
        0 <= i <= k < ls.len(),
        with_lines(o, ls, i) is Ok,
    ensures
        with_line(p, ls[k], (k + 1) as nat) is Ok,
        extends(with_line(p, ls[k], (k + 1) as nat)->Ok_0, with_lines(o, ls, i)->Ok_0),
    decreases ls.len() - i,
{
    let next = with_line(o, ls[i], (i + 1) as nat)->Ok_0;
    if i < k {
        lemma_with_lines(next, ls, i + 1, k)
    } else {
        lemma_rest_extends(next, ls, i + 1);
        o
    }
}

proof fn lemma_rest_extends(o: OntologyModel, ls: Seq<Seq<char>>, i: int)
    requires
        0 <= i <= ls.len(),
        with_lines(o, ls, i) is Ok,
    ensures
        extends(o, with_lines(o, ls, i)->Ok_0),
    decreases ls.len() - i,
{
    if i < ls.len() {
        lemma_with_line(o, ls[i], (i + 1) as nat);
        lemma_rest_extends(with_line(o, ls[i], (i + 1) as nat)->Ok_0, ls, i + 1);
    }
}

/// A line `keyword: p -> q` of a text declares what its keyword says of `p` and
/// `q`, in that order.
pub proof fn law_arrow_lines_declare(
    body: Seq<char>,
    k: int,
    keyword: Seq<char>,
    p: Seq<char>,
    q: Seq<char>,
)
    requires
        declared(body) is Ok,
        0 <= k < lines(body).len(),
        lines(body)[k] == keyword + ": "@ + (p + " -> "@ + q),
        is_plain(p),
        is_tight(q),
    ensures
        keyword == "subclass_of"@ ==> declared(body)->Ok_0.classes.contains(
            SubClassModel { subclass: p, superclass: q },
        ),
        keyword == "sub_property_of"@ ==> declared(body)->Ok_0.properties.contains(
            AxiomModel::SubPropertyOf { sub: p, sup: q },
        ),
        keyword == "inverse_of"@ ==> declared(body)->Ok_0.properties.contains(
            AxiomModel::InverseOf { property: p, inverse: q },
        ),
{
    if keyword == "subclass_of"@ || keyword == "sub_property_of"@ || keyword == "inverse_of"@ {
        lemma_words();
        let ls = lines(body);
        let rest = p + " -> "@ + q;
        lemma_arrow(p, q, (k + 1) as nat);
        lemma_keyed(keyword, rest);
        let o = lemma_with_lines(no_axioms(), ls, 0, k);
        let next = with_line(o, ls[k], (k + 1) as nat)->Ok_0;
        if keyword == "subclass_of"@ {
            assert(next.classes.last() == (SubClassModel { subclass: p, superclass: q }));
            assert(next.classes.contains(next.classes.last()));
        } else {
            assert(next.properties.contains(next.properties.last()));
        }
    }
}

/// A line `keyword: p` of a text declares what its keyword says of `p`.
pub proof fn law_name_lines_declare(body: Seq<char>, k: int, keyword: Seq<char>, p: Seq<char>)
    requires
        declared(body) is Ok,
        0 <= k < lines(body).len(),
        lines(body)[k] == keyword + ": "@ + p,
        is_tight(p),
    ensures
        keyword == "transitive"@ ==> declared(body)->Ok_0.properties.contains(
            AxiomModel::Transitive(p),
        ),
        keyword == "symmetric"@ ==> declared(body)->Ok_0.properties.contains(
            AxiomModel::Symmetric(p),
        ),
{
    if keyword == "transitive"@ || keyword == "symmetric"@ {
        lemma_words();
        let ls = lines(body);
        lemma_keyed(keyword, p);
        let o = lemma_with_lines(no_axioms(), ls, 0, k);
        let next = with_line(o, ls[k], (k + 1) as nat)->Ok_0;
        assert(next.properties.contains(next.properties.last()));
    }
}

} // verus!
