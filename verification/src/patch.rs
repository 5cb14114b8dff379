//! Changes to the frontmatter of a document, line by line.

use vstd::prelude::*;
use crate::model::Budget;
use crate::okf::{
    field, field_of, frontmatter, is_filler, key_ok, key_ok_of, lemma_split_parts, lemma_split_room,
    line_end, line_end_of, line_key, open_len, parse_document, parsed, place, place_of, read_lines,
    scalar, split, split_frontmatter, step, unsupported, with_item, Fields, FmModel, FmValue,
    OkfError, OkfErrorModel, Reading,
};
use crate::text::{
    chars_of, clone_strings, debug_text, find_char, find_char_from, find_char_of, find_from,
    has_char, has_string, holds, holds_of, is_alnum, is_white, lemma_views_push, lines, lines_from,
    part, part_from, part_to, push_chars, quoted, starts_with, starts_with_of, str_eq, string_of,
    strip_prefix, trim, trim_end, trim_end_of, trim_of, trim_start, trim_start_of, views, white,
};

verus! {

/// Changes to apply to the frontmatter of a document.
#[derive(Debug)]
pub struct FrontmatterPatch {
    /// Fields to write, in this order.
    pub set: Vec<(String, FmValue)>,
    /// Fields to remove. `type` cannot be removed.
    pub remove: Vec<String>,
    /// Tags to add, unless already there.
    pub add_tags: Vec<String>,
    /// Tags to take away, if there.
    pub remove_tags: Vec<String>,
}

/// Mathematical counterpart of [`FrontmatterPatch`].
pub struct PatchModel {
    pub set: Fields,
    pub remove: Seq<Seq<char>>,
    pub add_tags: Seq<Seq<char>>,
    pub remove_tags: Seq<Seq<char>>,
}

impl View for FrontmatterPatch {
    type V = PatchModel;

    open spec fn view(&self) -> PatchModel {
        PatchModel {
            set: views(self.set@),
            remove: views(self.remove@),
            add_tags: views(self.add_tags@),
            remove_tags: views(self.remove_tags@),
        }
    }
}

impl Default for FrontmatterPatch {
    fn default() -> (r: FrontmatterPatch)
        ensures
            r@ == (PatchModel {
                set: Seq::empty(),
                remove: Seq::empty(),
                add_tags: Seq::empty(),
                remove_tags: Seq::empty(),
            }),
    {
        let r = FrontmatterPatch {
            set: Vec::new(),
            remove: Vec::new(),
            add_tags: Vec::new(),
            remove_tags: Vec::new(),
        };
        assert(r@.set =~= Seq::empty());
        assert(r@.remove =~= Seq::empty());
        assert(r@.add_tags =~= Seq::empty());
        assert(r@.remove_tags =~= Seq::empty());
        r
    }
}

// ---------------------------------------------------------------------
// Writing fields
// ---------------------------------------------------------------------

/// Whether plain text would not be read back as it is.
pub open spec fn needs_quotes(v: Seq<char>) -> bool {
    ||| v.len() == 0
    ||| v[0] == '|'
    ||| v[0] == '>'
    ||| v[0] == '&'
    ||| v[0] == '*'
    ||| v[0] == '{'
    ||| v[0] == '['
    ||| v[0] == '#'
    ||| is_white(v[0])
    ||| is_white(v.last())
    ||| holds(v, " #"@)
}

/// Whether the subset can hold the value at all.
pub open spec fn representable(v: Seq<char>) -> bool {
    !v.contains('\n') && !v.contains('"') && !v.contains('\\')
}

/// A scalar as it is written: plain where that is safe, else quoted; or why it
/// cannot be written.
pub open spec fn scalar_text(v: Seq<char>) -> Result<Seq<char>, Seq<char>> {
    if !representable(v) {
        Err("el subconjunto YAML no puede representar el valor "@ + debug_text(v))
    } else if needs_quotes(v) {
        Ok("\""@ + v + "\""@)
    } else {
        Ok(v)
    }
}

/// The first `n` items of a list, one line each.
pub open spec fn items_text(items: Seq<Seq<char>>, n: int) -> Result<Seq<char>, Seq<char>>
    decreases n,
{
    if n <= 0 {
        Ok(Seq::empty())
    } else {
        match items_text(items, n - 1) {
            Err(e) => Err(e),
            Ok(t) => match scalar_text(items[n - 1]) {
                Err(e) => Err(e),
                Ok(s) => Ok(t + "  - "@ + s + "\n"@),
            },
        }
    }
}

/// A field as it is written.
pub open spec fn field_text(key: Seq<char>, value: FmModel) -> Result<Seq<char>, Seq<char>> {
    if !key_ok(key) {
        Err("clave inválida "@ + debug_text(key))
    } else {
        match value {
            FmModel::Scalar(v) => match scalar_text(v) {
                Err(e) => Err(e),
                Ok(s) => Ok(key + ": "@ + s + "\n"@),
            },
            FmModel::List(items) => match items_text(items, items.len() as int) {
                Err(e) => Err(e),
                Ok(t) => Ok(key + ":\n"@ + t),
            },
        }
    }
}

fn needs_quotes_of(v: &[char]) -> (r: bool)
    ensures
        r == needs_quotes(v@),
{
    if v.len() == 0 {
        return true;
    }
    let c = v[0];
    c == '|' || c == '>' || c == '&' || c == '*' || c == '{' || c == '[' || c == '#' || white(c)
        || white(v[v.len() - 1]) || holds_of(v, " #")
}

fn serialize_scalar(v: &str) -> (r: Result<String, String>)
    ensures
        crate::text::res_view(r) == scalar_text(v@),
{
    let chars = chars_of(v);
    if has_char(chars.as_slice(), '\n') || has_char(chars.as_slice(), '"') || has_char(
        chars.as_slice(),
        '\\',
    ) {
        let mut reason = "el subconjunto YAML no puede representar el valor ".to_owned();
        reason.push_str(quoted(v).as_str());
        return Err(reason);
    }
    let mut out = String::new();
    if needs_quotes_of(chars.as_slice()) {
        out.push_str("\"");
        out.push_str(v);
        out.push_str("\"");
        assert(out@ =~= "\""@ + v@ + "\""@);
    } else {
        out.push_str(v);
        assert(out@ =~= v@);
    }
    Ok(out)
}

/// Appends a field, written so that it reads back as it was.
pub fn serialize_field(out: &mut String, key: &str, value: &FmValue) -> (r: Result<(), String>)
    ensures
        match r {
            Ok(_) => match field_text(key@, value@) {
                Ok(t) => final(out)@ == old(out)@ + t && frontmatter(t) == Ok::<
                    Fields,
                    OkfErrorModel,
                >(seq![(key@, value@)]),
                Err(_) => false,
            },
            Err(e) => field_text(key@, value@) == Err::<Seq<char>, _>(e@),
        },
{
    proof {
        if field_text(key@, value@) is Ok {
            law_field_round_trip(key@, value@);
        }
    }
    let key_chars = chars_of(key);
    if !key_ok_of(key_chars.as_slice()) {
        let mut reason = "clave inválida ".to_owned();
        reason.push_str(quoted(key).as_str());
        return Err(reason);
    }
    match value {
        FmValue::Scalar(v) => {
            let s = match serialize_scalar(v.as_str()) {
                Err(e) => {
                    return Err(e);
                },
                Ok(s) => s,
            };
            out.push_str(key);
            out.push_str(": ");
            out.push_str(s.as_str());
            out.push_str("\n");
            assert(out@ =~= old(out)@ + (key@ + ": "@ + s@ + "\n"@));
        },
        FmValue::List(items) => {
            out.push_str(key);
            out.push_str(":\n");
            let ghost head = out@;
            let mut i: usize = 0;
            assert(out@ =~= head + Seq::empty());
            while i < items.len()
                invariant
                    i <= items.len(),
                    match items_text(views(items@), i as int) {
                        Ok(t) => out@ == head + t,
                        Err(_) => false,
                    },
                    key_ok(key@),
                    value@ == FmModel::List(views(items@)),
                decreases items.len() - i,
            {
                assert(views(items@)[i as int] == items@[i as int]@);
                let ghost before = out@;
                let s = match serialize_scalar(items[i].as_str()) {
                    Err(e) => {
                        proof {
                            lemma_items_error(views(items@), i as int, items@.len() as int);
                        }
                        return Err(e);
                    },
                    Ok(s) => s,
                };
                out.push_str("  - ");
                out.push_str(s.as_str());
                out.push_str("\n");
                proof {
                    let t = items_text(views(items@), i as int)->Ok_0;
                    assert(out@ =~= head + (t + "  - "@ + s@ + "\n"@));
                }
                i += 1;
            }
            proof {
                let t = items_text(views(items@), items@.len() as int)->Ok_0;
                assert(head + t =~= old(out)@ + (key@ + ":\n"@ + t));
            }
        },
    }
    Ok(())
}

/// The first item that cannot be written decides the error.
proof fn lemma_items_error(items: Seq<Seq<char>>, i: int, n: int)
    requires
        0 <= i < n,
        items_text(items, i) is Ok,
        scalar_text(items[i]) is Err,
    ensures
        items_text(items, n) == Err::<Seq<char>, _>(scalar_text(items[i])->Err_0),
    decreases n - i,
{
    if n > i + 1 {
        lemma_items_error(items, i, n - 1);
    }
}

// ---------------------------------------------------------------------
// What a patch asks for
// ---------------------------------------------------------------------

/// The first key, from index `i` on, that is both set and removed.
pub open spec fn clash(set: Fields, i: int, remove: Seq<Seq<char>>) -> Option<Seq<char>>
    decreases set.len() - i,
{
    if i < 0 || i >= set.len() {
        None
    } else if remove.contains(set[i].0) {
        Some(set[i].0)
    } else {
        clash(set, i + 1, remove)
    }
}

/// The first `n` texts, without those in `out`.
pub open spec fn without(s: Seq<Seq<char>>, out: Seq<Seq<char>>, n: int) -> Seq<Seq<char>>
    decreases n,
{
    if n <= 0 {
        Seq::empty()
    } else if out.contains(s[n - 1]) {
        without(s, out, n - 1)
    } else {
        without(s, out, n - 1).push(s[n - 1])
    }
}

/// `s`, then those of the first `n` texts of `more` that are not there yet.
pub open spec fn with_new(s: Seq<Seq<char>>, more: Seq<Seq<char>>, n: int) -> Seq<Seq<char>>
    decreases n,
{
    if n <= 0 {
        s
    } else {
        let t = with_new(s, more, n - 1);
        if t.contains(more[n - 1]) {
            t
        } else {
            t.push(more[n - 1])
        }
    }
}

/// Tags after taking some away and adding others.
pub open spec fn changed_tags(
    tags: Seq<Seq<char>>,
    remove: Seq<Seq<char>>,
    more: Seq<Seq<char>>,
) -> Seq<Seq<char>> {
    with_new(without(tags, remove, tags.len() as int), more, more.len() as int)
}

/// The fields among the first `n` other than `tags`.
pub open spec fn untagged(set: Fields, n: int) -> Fields
    decreases n,
{
    if n <= 0 {
        Seq::empty()
    } else if set[n - 1].0 == "tags"@ {
        untagged(set, n - 1)
    } else {
        untagged(set, n - 1).push(set[n - 1])
    }
}

/// What a patch does to the lines of a frontmatter.
pub struct Plan {
    /// Fields to write over.
    pub fields: Fields,
    /// Fields to leave out.
    pub remove: Seq<Seq<char>>,
    /// The tags end up empty, so their block goes.
    pub drop_tags: bool,
}

pub open spec fn touches_tags(p: PatchModel) -> bool {
    field(p.set, "tags"@) is Some || p.add_tags.len() > 0 || p.remove_tags.len() > 0
}

/// A field that a patch cannot change, and why.
pub type Refusal = (Seq<char>, Seq<char>);

/// The tags that a patch leaves of `tags`: those it sets, or else those at hand,
/// without the ones it takes away and with the ones it adds.
pub open spec fn final_tags(p: PatchModel, tags: Seq<Seq<char>>) -> Seq<Seq<char>> {
    if touches_tags(p) {
        let base = match field(p.set, "tags"@) {
            Some(FmModel::List(l)) => l,
            _ => tags,
        };
        changed_tags(base, p.remove_tags, p.add_tags)
    } else if p.remove.contains("tags"@) {
        Seq::empty()
    } else {
        tags
    }
}

/// The plan for a document whose tags are `tags`.
pub open spec fn plan(p: PatchModel, tags: Seq<Seq<char>>) -> Result<Plan, Refusal> {
    if p.remove.contains("type"@) {
        Err(("type"@, "'type' es obligatorio: no se puede eliminar"@))
    } else if clash(p.set, 0, p.remove) is Some {
        let key = clash(p.set, 0, p.remove)->0;
        Err((key, "la clave "@ + debug_text(key) + " está en 'set' y en 'remove' a la vez"@))
    } else {
        match field(p.set, "tags"@) {
            Some(FmModel::Scalar(_)) => Err(("tags"@, "'tags' debe ser una lista"@)),
            _ => {
                let result = final_tags(p, tags);
                let others = untagged(p.set, p.set.len() as int);
                if touches_tags(p) {
                    Ok(
                        Plan {
                            fields: others.push(("tags"@, FmModel::List(result))),
                            remove: p.remove,
                            drop_tags: result.len() == 0,
                        },
                    )
                } else {
                    Ok(Plan { fields: others, remove: p.remove, drop_tags: false })
                }
            },
        }
    }
}

/// Exec counterpart of [`Plan`].
struct PlanData {
    fields: Vec<(String, FmValue)>,
    drop_tags: bool,
}

fn clash_of(set: &Vec<(String, FmValue)>, remove: &Vec<String>) -> (r: Option<String>)
    ensures
        crate::text::opt_view(r) == clash(views(set@), 0, views(remove@)),
{
    let mut i: usize = 0;
    while i < set.len()
        invariant
            i <= set.len(),
            clash(views(set@), 0, views(remove@)) == clash(views(set@), i as int, views(remove@)),
        decreases set.len() - i,
    {
        assert(views(set@)[i as int] == set@[i as int]@);
        if has_string(remove, set[i].0.as_str()) {
            return Some(set[i].0.clone());
        }
        i += 1;
    }
    None
}

/// Tags after taking some away and adding others.
fn change_tags(tags: &Vec<String>, remove: &Vec<String>, more: &Vec<String>) -> (r: Vec<String>)
    ensures
        views(r@) == changed_tags(views(tags@), views(remove@), views(more@)),
{
    let mut out: Vec<String> = Vec::new();
    let mut i: usize = 0;
    assert(views(out@) =~= Seq::<Seq<char>>::empty());
    while i < tags.len()
        invariant
            i <= tags.len(),
            views(out@) == without(views(tags@), views(remove@), i as int),
        decreases tags.len() - i,
    {
        assert(views(tags@)[i as int] == tags@[i as int]@);
        if !has_string(remove, tags[i].as_str()) {
            let t = tags[i].clone();
            proof {
                lemma_views_push(out@, t);
            }
            out.push(t);
        }
        i += 1;
    }
    let ghost kept = views(out@);
    let mut j: usize = 0;
    while j < more.len()
        invariant
            j <= more.len(),
            kept == without(views(tags@), views(remove@), tags@.len() as int),
            views(out@) == with_new(kept, views(more@), j as int),
        decreases more.len() - j,
    {
        assert(views(more@)[j as int] == more@[j as int]@);
        if !has_string(&out, more[j].as_str()) {
            let t = more[j].clone();
            proof {
                lemma_views_push(out@, t);
            }
            out.push(t);
        }
        j += 1;
    }
    out
}

/// The tags that a patch leaves of `tags`.
pub fn tags_after(patch: &FrontmatterPatch, tags: &Vec<String>) -> (r: Vec<String>)
    ensures
        views(r@) == final_tags(patch@, views(tags@)),
{
    let explicit = field_of(&patch.set, "tags");
    match explicit {
        Some(FmValue::List(l)) => change_tags(l, &patch.remove_tags, &patch.add_tags),
        _ => {
            if explicit.is_some() || patch.add_tags.len() > 0 || patch.remove_tags.len() > 0 {
                change_tags(tags, &patch.remove_tags, &patch.add_tags)
            } else if has_string(&patch.remove, "tags") {
                let none: Vec<String> = Vec::new();
                assert(views(none@) =~= Seq::empty());
                none
            } else {
                clone_strings(tags)
            }
        },
    }
}

fn make_plan(patch: &FrontmatterPatch, tags: &Vec<String>) -> (r: Result<
    PlanData,
    (String, String),
>)
    ensures
        match r {
            Ok(d) => plan(patch@, views(tags@)) == Ok::<_, Refusal>(
                Plan { fields: views(d.fields@), remove: patch@.remove, drop_tags: d.drop_tags },
            ),
            Err(e) => plan(patch@, views(tags@)) == Err::<Plan, _>(e@),
        },
{
    if has_string(&patch.remove, "type") {
        return Err(
            ("type".to_owned(), "'type' es obligatorio: no se puede eliminar".to_owned()),
        );
    }
    match clash_of(&patch.set, &patch.remove) {
        Some(k) => {
            let mut reason = "la clave ".to_owned();
            reason.push_str(quoted(k.as_str()).as_str());
            reason.push_str(" está en 'set' y en 'remove' a la vez");
            return Err((k, reason));
        },
        None => {},
    }
    let explicit = field_of(&patch.set, "tags");
    match explicit {
        Some(FmValue::Scalar(_)) => {
            return Err(("tags".to_owned(), "'tags' debe ser una lista".to_owned()));
        },
        _ => {},
    }
    let result = tags_after(patch, tags);
    let touch = explicit.is_some() || patch.add_tags.len() > 0 || patch.remove_tags.len() > 0;
    let mut fields: Vec<(String, FmValue)> = Vec::new();
    let mut i: usize = 0;
    assert(views(fields@) =~= Seq::empty());
    while i < patch.set.len()
        invariant
            i <= patch.set.len(),
            views(fields@) == untagged(patch@.set, i as int),
        decreases patch.set.len() - i,
    {
        assert(views(patch.set@)[i as int] == patch.set@[i as int]@);
        if !str_eq(patch.set[i].0.as_str(), "tags") {
            let entry = (patch.set[i].0.clone(), patch.set[i].1.clone());
            proof {
                lemma_views_push(fields@, entry);
            }
            fields.push(entry);
        }
        i += 1;
    }
    let empty = result.len() == 0;
    if touch {
        let entry = ("tags".to_owned(), FmValue::List(result));
        proof {
            lemma_views_push(fields@, entry);
        }
        fields.push(entry);
        Ok(PlanData { fields, drop_tags: empty })
    } else {
        Ok(PlanData { fields, drop_tags: false })
    }
}

// ---------------------------------------------------------------------
// Rewriting the lines
// ---------------------------------------------------------------------

/// Whether a line that starts a key leaves a list open.
pub open spec fn opens_list(line: Seq<char>) -> bool {
    match find_char(line, ':') {
        Some(c) => trim(line.skip(c + 1)).len() == 0,
        None => false,
    }
}

/// Progress through the lines: the text so far, the keys already written
/// over, and the key whose list is open.
pub struct Cutting {
    pub out: Seq<char>,
    pub emitted: Seq<Seq<char>>,
    pub open: Option<Seq<char>>,
}

/// The key a line belongs to: none for blank lines and comments, the open
/// list for items.
pub open spec fn owner(line: Seq<char>, open: Option<Seq<char>>) -> Option<Seq<char>> {
    if is_filler(line) {
        None
    } else if starts_with(trim_start(line), "- "@) {
        open
    } else {
        Some(line_key(line))
    }
}

/// The list open after a line.
pub open spec fn open_after(line: Seq<char>, open: Option<Seq<char>>) -> Option<Seq<char>> {
    if is_filler(line) || starts_with(trim_start(line), "- "@) {
        open
    } else if opens_list(line) {
        Some(line_key(line))
    } else {
        None
    }
}

/// One line under a plan: copied with its terminator, left out, or written
/// over.
pub open spec fn cut(raw_line: Seq<char>, st: Cutting, p: Plan) -> Result<Cutting, Refusal> {
    let line = trim_end(raw_line);
    let open = open_after(line, st.open);
    let copied = Cutting { out: st.out + raw_line, emitted: st.emitted, open };
    let skipped = Cutting { out: st.out, emitted: st.emitted, open };
    match owner(line, st.open) {
        None => Ok(copied),
        Some(key) => if p.remove.contains(key) || (key == "tags"@ && p.drop_tags) {
            Ok(skipped)
        } else {
            match field(p.fields, key) {
                None => Ok(copied),
                Some(v) => if st.emitted.contains(key) {
                    Ok(skipped)
                } else {
                    match field_text(key, v) {
                        Err(e) => Err((key, e)),
                        Ok(t) => Ok(
                            Cutting { out: st.out + t, emitted: st.emitted.push(key), open },
                        ),
                    }
                },
            }
        },
    }
}

/// The lines of a frontmatter from index `i` on, under a plan.
pub open spec fn cut_from(fm: Seq<char>, i: int, st: Cutting, p: Plan) -> Result<Cutting, Refusal>
    decreases fm.len() - i,
{
    let e = line_end(fm, i);
    if i < 0 || !(i < e <= fm.len()) {
        Ok(st)
    } else {
        match cut(fm.subrange(i, e), st, p) {
            Err(x) => Err(x),
            Ok(next) => cut_from(fm, e, next, p),
        }
    }
}

/// The fields, from index `i` on, that no line carried: added at the end.
pub open spec fn add_fields(
    fields: Fields,
    i: int,
    out: Seq<char>,
    emitted: Seq<Seq<char>>,
    drop_tags: bool,
) -> Result<Seq<char>, Refusal>
    decreases fields.len() - i,
{
    if i < 0 || i >= fields.len() {
        Ok(out)
    } else if (fields[i].0 == "tags"@ && drop_tags) || emitted.contains(fields[i].0) {
        add_fields(fields, i + 1, out, emitted, drop_tags)
    } else {
        match field_text(fields[i].0, fields[i].1) {
            Err(e) => Err((fields[i].0, e)),
            Ok(t) => add_fields(fields, i + 1, out + t, emitted, drop_tags),
        }
    }
}

/// Nothing cut yet.
pub open spec fn uncut() -> Cutting {
    Cutting { out: Seq::empty(), emitted: Seq::empty(), open: None }
}

/// The frontmatter text that a plan makes of `fm`.
pub open spec fn rewritten(fm: Seq<char>, p: Plan) -> Result<Seq<char>, Refusal> {
    match cut_from(fm, 0, uncut(), p) {
        Err(e) => Err(e),
        Ok(st) => add_fields(p.fields, 0, st.out, st.emitted, p.drop_tags),
    }
}

/// A refusal, with the line on which the field stands or would be added.
pub open spec fn refused_at(fm: Seq<char>, e: Refusal) -> OkfErrorModel {
    unsupported(place(fm, e.0), e.1)
}

/// `raw` with another frontmatter text in place of `fm`, which starts after
/// the opening delimiter. The delimiters and the body stay as they are.
pub open spec fn with_frontmatter(raw: Seq<char>, fm: Seq<char>, text: Seq<char>) -> Seq<char> {
    let o = open_len(raw)->0 as int;
    raw.take(o) + text + raw.skip(o + fm.len())
}

/// The document that a patch makes of `raw`: the rewritten frontmatter between
/// its delimiters and the body as it was. The document must be valid before
/// and after.
pub open spec fn patched(raw: Seq<char>, patch: PatchModel, budget: Budget) -> Result<
    Seq<char>,
    OkfErrorModel,
> {
    match parsed(raw, budget) {
        Err(e) => Err(e),
        Ok(doc) => {
            let fm = split(raw, budget.max_frontmatter_bytes as nat)->Ok_0.0;
            match plan(patch, doc.tags) {
                Err(e) => Err(refused_at(fm, e)),
                Ok(p) => match rewritten(fm, p) {
                    Err(e) => Err(refused_at(fm, e)),
                    Ok(t) => {
                        let out = with_frontmatter(raw, fm, t);
                        match parsed(out, budget) {
                            Err(e) => Err(e),
                            Ok(_) => Ok(out),
                        }
                    },
                },
            }
        },
    }
}

fn rewrite(fm: &[char], patch: &FrontmatterPatch, data: &PlanData) -> (r: Result<
    String,
    (String, String),
>)
    ensures
        ({
            let p = Plan {
                fields: views(data.fields@),
                remove: patch@.remove,
                drop_tags: data.drop_tags,
            };
            match r {
                Ok(s) => rewritten(fm@, p) == Ok::<_, Refusal>(s@),
                Err(e) => rewritten(fm@, p) == Err::<Seq<char>, _>(e@),
            }
        }),
{
    let ghost p = Plan {
        fields: views(data.fields@),
        remove: patch@.remove,
        drop_tags: data.drop_tags,
    };
    let mut out = String::new();
    let mut emitted: Vec<String> = Vec::new();
    let mut open: Option<String> = None;
    let mut i: usize = 0;
    assert(views(emitted@) =~= Seq::<Seq<char>>::empty());
    assert(out@ =~= Seq::<char>::empty());
    while i < fm.len()
        invariant
            i <= fm.len(),
            p == (Plan {
                fields: views(data.fields@),
                remove: patch@.remove,
                drop_tags: data.drop_tags,
            }),
            cut_from(fm@, 0, uncut(), p) == cut_from(
                fm@,
                i as int,
                Cutting {
                    out: out@,
                    emitted: views(emitted@),
                    open: crate::text::opt_view(open),
                },
                p,
            ),
        decreases fm.len() - i,
    {
        let ghost st = Cutting {
            out: out@,
            emitted: views(emitted@),
            open: crate::text::opt_view(open),
        };
        let e = line_end_of(fm, i);
        let raw_line = part(fm, i, e);
        let line = trim_end_of(raw_line);
        let lead = trim_start_of(line);
        i = e;
        let who: Option<String> = if line.len() == 0 || starts_with_of(lead, "#") {
            None
        } else if starts_with_of(lead, "- ") {
            crate::text::clone_opt(&open)
        } else {
            match find_char_of(line, ':') {
                Some(c) => {
                    let key = string_of(trim_of(part_to(line, c)));
                    open = if trim_of(part_from(line, c + 1)).len() == 0 {
                        Some(key.clone())
                    } else {
                        None
                    };
                    Some(key)
                },
                None => {
                    open = None;
                    Some(string_of(trim_of(line)))
                },
            }
        };
        assert(crate::text::opt_view(who) == owner(line@, st.open));
        assert(crate::text::opt_view(open) == open_after(line@, st.open));
        let replacement: Option<&FmValue> = match &who {
            None => None,
            Some(key) => {
                if has_string(&patch.remove, key.as_str()) || (data.drop_tags && str_eq(
                    key.as_str(),
                    "tags",
                )) {
                    continue;
                }
                field_of(&data.fields, key.as_str())
            },
        };
        match (who, replacement) {
            (Some(key), Some(value)) => {
                if !has_string(&emitted, key.as_str()) {
                    match serialize_field(&mut out, key.as_str(), value) {
                        Err(reason) => {
                            return Err((key, reason));
                        },
                        Ok(_) => {},
                    }
                    proof {
                        lemma_views_push(emitted@, key);
                    }
                    emitted.push(key);
                }
            },
            _ => {
                push_chars(&mut out, raw_line);
            },
        }
    }
    let mut j: usize = 0;
    while j < data.fields.len()
        invariant
            j <= data.fields.len(),
            p == (Plan {
                fields: views(data.fields@),
                remove: patch@.remove,
                drop_tags: data.drop_tags,
            }),
            rewritten(fm@, p) == add_fields(
                views(data.fields@),
                j as int,
                out@,
                views(emitted@),
                data.drop_tags,
            ),
        decreases data.fields.len() - j,
    {
        assert(views(data.fields@)[j as int] == data.fields@[j as int]@);
        let key = data.fields[j].0.as_str();
        let skip = (data.drop_tags && str_eq(key, "tags")) || has_string(&emitted, key);
        if !skip {
            match serialize_field(&mut out, key, &data.fields[j].1) {
                Err(reason) => {
                    return Err((key.to_owned(), reason));
                },
                Ok(_) => {},
            }
        }
        j += 1;
    }
    Ok(out)
}

/// Applies a patch to a document and gives the whole new document. The body is
/// copied as it is, and so is every frontmatter line of a field that the patch
/// does not name.
pub fn patch_frontmatter(raw: &str, patch: &FrontmatterPatch, budget: &Budget) -> (r: Result<
    String,
    OkfError,
>)
    ensures
        match r {
            Ok(s) => patched(raw@, patch@, *budget) == Ok::<_, OkfErrorModel>(s@),
            Err(e) => patched(raw@, patch@, *budget) == Err::<Seq<char>, _>(e@),
        },
{
    let doc = match parse_document(raw, budget) {
        Err(e) => {
            return Err(e);
        },
        Ok(d) => d,
    };
    let bytes = raw.as_bytes().len();
    let chars = chars_of(raw);
    match split_frontmatter(chars.as_slice(), budget.max_frontmatter_bytes) {
        Err(e) => {
            assert(false);
            Err(e)
        },
        Ok((a, z, b)) => {
            let fm = part(chars.as_slice(), a, z);
            proof {
                lemma_split_room(raw@, budget.max_frontmatter_bytes as nat);
                crate::text::lemma_utf8_len_at_least(raw@);
            }
            let data = match make_plan(patch, &doc.tags) {
                Err((key, reason)) => {
                    return Err(
                        OkfError::Unsupported { line: place_of(fm, key.as_str()), reason },
                    );
                },
                Ok(d) => d,
            };
            let t = match rewrite(fm, patch, &data) {
                Err((key, reason)) => {
                    return Err(
                        OkfError::Unsupported { line: place_of(fm, key.as_str()), reason },
                    );
                },
                Ok(t) => t,
            };
            let mut out = String::new();
            push_chars(&mut out, part_to(chars.as_slice(), a));
            out.push_str(t.as_str());
            push_chars(&mut out, part_from(chars.as_slice(), z));
            assert(out@ =~= with_frontmatter(raw@, fm@, t@));
            match parse_document(out.as_str(), budget) {
                Err(e) => Err(e),
                Ok(_) => Ok(out),
            }
        },
    }
}

/// A patched document is a valid document with the delimiters and the body of
/// the old one, character for character.
pub proof fn law_patch_keeps_the_body(raw: Seq<char>, patch: PatchModel, budget: Budget)
    requires
        patched(raw, patch, budget) is Ok,
    ensures
        parsed(patched(raw, patch, budget)->Ok_0, budget) is Ok,
        parsed(raw, budget) is Ok,
        ({
            let out = patched(raw, patch, budget)->Ok_0;
            let (fm, b) = split(raw, budget.max_frontmatter_bytes as nat)->Ok_0;
            &&& crate::text::ends_with(out, raw.skip(b))
            &&& crate::text::ends_with(out, raw.skip(open_len(raw)->0 as int + fm.len()))
            &&& starts_with(out, raw.take(open_len(raw)->0 as int))
        }),
{
    let out = patched(raw, patch, budget)->Ok_0;
    let (fm, b) = split(raw, budget.max_frontmatter_bytes as nat)->Ok_0;
    lemma_split_parts(raw, budget.max_frontmatter_bytes as nat);
    let o = open_len(raw)->0 as int;
    let rest = raw.skip(o + fm.len());
    let body = raw.skip(b);
    assert(out.subrange(out.len() - rest.len(), out.len() as int) =~= rest);
    assert(out.subrange(out.len() - body.len(), out.len() as int) =~= body);
    assert(out.subrange(0, o) =~= raw.take(o));
}

/// No plan at all copies every line.
proof fn lemma_copy(fm: Seq<char>, i: int, st: Cutting, p: Plan)
    requires
        0 <= i <= fm.len(),
        st.out == fm.take(i),
        p.fields.len() == 0,
        p.remove.len() == 0,
        !p.drop_tags,
    ensures
        cut_from(fm, i, st, p) is Ok,
        cut_from(fm, i, st, p)->Ok_0.out == fm,
    decreases fm.len() - i,
{
    if i < fm.len() {
        crate::text::lemma_find_char_from(fm, i, '\n');
        let e = line_end(fm, i);
        let next = cut(fm.subrange(i, e), st, p)->Ok_0;
        assert(fm.take(i) + fm.subrange(i, e) =~= fm.take(e));
        lemma_copy(fm, e, next, p);
    } else {
        assert(fm.take(i) =~= fm);
    }
}

/// A patch that asks for nothing gives back a valid document as it was.
pub proof fn law_empty_patch_changes_nothing(raw: Seq<char>, patch: PatchModel, budget: Budget)
    requires
        parsed(raw, budget) is Ok,
        patch.set.len() == 0,
        patch.remove.len() == 0,
        patch.add_tags.len() == 0,
        patch.remove_tags.len() == 0,
    ensures
        patched(raw, patch, budget) == Ok::<_, OkfErrorModel>(raw),
{
    let fm = split(raw, budget.max_frontmatter_bytes as nat)->Ok_0.0;
    lemma_split_parts(raw, budget.max_frontmatter_bytes as nat);
    let p = plan(patch, parsed(raw, budget)->Ok_0.tags)->Ok_0;
    assert(fm.take(0) =~= uncut().out);
    lemma_copy(fm, 0, uncut(), p);
    assert(with_frontmatter(raw, fm, fm) =~= raw);
}

// ---------------------------------------------------------------------
// What is written is read back
// ---------------------------------------------------------------------

pub(crate) proof fn lemma_trim_start_keeps(s: Seq<char>)
    requires
        s.len() == 0 || !is_white(s[0]),
    ensures
        trim_start(s) == s,
{
}

pub(crate) proof fn lemma_trim_end_keeps(s: Seq<char>)
    requires
        s.len() == 0 || !is_white(s.last()),
    ensures
        trim_end(s) == s,
{
}

/// What a written scalar looks like: one line that white space does not touch
/// and that reads as the value.
pub(crate) proof fn lemma_scalar_round_trip(v: Seq<char>, line: nat)
    requires
        scalar_text(v) is Ok,
    ensures
        ({
            let s = scalar_text(v)->Ok_0;
            &&& s.len() > 0
            &&& !is_white(s[0])
            &&& !is_white(s.last())
            &&& !s.contains('\n')
            &&& scalar(s, line) == Ok::<_, OkfErrorModel>(v)
        }),
{
    reveal_strlit("\"");
    let s = scalar_text(v)->Ok_0;
    if needs_quotes(v) {
        assert(s[0] == '"' && s.last() == '"');
        assert(s.subrange(1, s.len() - 1) =~= v);
        assert forall|i: int| 0 <= i < s.len() implies s[i] != '\n' by {
            if 0 < i < s.len() - 1 {
                assert(s[i] == v[i - 1]);
                assert(v.contains(v[i - 1]));
            }
        }
    } else {
        assert(v.contains(v[0]));
        crate::text::lemma_find_from(v, 0, " #"@);
        assert(find_from(v, 0, " #"@) is None);
    }
}

pub(crate) proof fn lemma_key_line(key: Seq<char>, tail: Seq<char>)
    requires
        key_ok(key),
        tail.len() > 0,
        tail[0] == ':',
        !is_white(tail.last()),
    ensures
        ({
            let l = key + tail;
            &&& trim_end(l) == l
            &&& trim_start(l) == l
            &&& !is_filler(l)
            &&& strip_prefix(l, "- "@) is None
            &&& l[0] != ' '
            &&& l[0] != '\t'
            &&& find_char(l, ':') == Some(key.len() as int)
            &&& trim(l.take(key.len() as int)) == key
            &&& l.skip(key.len() as int + 1) == tail.skip(1)
        }),
{
    reveal_strlit("- ");
    reveal_strlit("#");
    let l = key + tail;
    let n = key.len() as int;
    assert(l[0] == key[0] && l.last() == tail.last());
    assert(is_alnum(key[0]) || key[0] == '_' || key[0] == '-');
    lemma_trim_end_keeps(l);
    lemma_trim_start_keeps(l);
    if starts_with(l, "#"@) {
        assert(l.subrange(0, 1)[0] == '#');
    }
    if starts_with(l, "- "@) {
        assert(l.subrange(0, 2)[1] == ' ');
        assert(l[1] == ' ');
        if n > 1 {
            assert(l[1] == key[1]);
            assert(is_alnum(key[1]) || key[1] == '_' || key[1] == '-');
        }
    }
    crate::text::lemma_find_char_from(l, 0, ':');
    assert(l[n] == ':');
    if find_char(l, ':')->0 < n {
        let c = find_char(l, ':')->0;
        assert(l[c] == key[c]);
        assert(is_alnum(key[c]) || key[c] == '_' || key[c] == '-');
    }
    assert(l.take(n) =~= key);
    assert(is_alnum(key[n - 1]) || key[n - 1] == '_' || key[n - 1] == '-');
    lemma_trim_start_keeps(key);
    lemma_trim_end_keeps(key);
    assert(l.skip(n + 1) =~= tail.skip(1));
}

/// A text that ends in a line feed, and one more line.
proof fn lemma_lines_append(t: Seq<char>, x: Seq<char>, i: int)
    requires
        t.len() == 0 || t.last() == '\n',
        !x.contains('\n'),
        x.len() == 0 || x.last() != '\r',
        0 <= i <= t.len(),
    ensures
        lines_from(t + x + seq!['\n'], i) == lines_from(t, i).push(x),
    decreases t.len() - i,
{
    let w = t + x + seq!['\n'];
    crate::text::lemma_find_char_from(w, i, '\n');
    crate::text::lemma_find_char_from(t, i, '\n');
    let e = (t.len() + x.len()) as int;
    assert(w[e] == '\n');
    if i == t.len() {
        let k = find_char_from(w, i, '\n')->0;
        if k < e {
            assert(w[k] == x[k - t.len()]);
        }
        assert(w.subrange(i, e) =~= x);
        assert(lines_from(w, e + 1) =~= Seq::<Seq<char>>::empty());
        assert(lines_from(w, i) =~= lines_from(t, i).push(x));
    } else {
        assert(t[t.len() - 1] == '\n');
        let k = find_char_from(t, i, '\n')->0;
        assert(w[k] == t[k]);
        let kw = find_char_from(w, i, '\n')->0;
        if kw < k {
            assert(w[kw] == t[kw]);
        }
        assert(w.subrange(i, k) =~= t.subrange(i, k));
        lemma_lines_append(t, x, k + 1);
        assert(seq![crate::text::strip_cr(t.subrange(i, k))] + lines_from(t, k + 1).push(x)
            =~= (seq![crate::text::strip_cr(t.subrange(i, k))] + lines_from(t, k + 1)).push(x));
    }
}

/// The line of a list item.
pub open spec fn item_line(v: Seq<char>) -> Seq<char> {
    "  - "@ + scalar_text(v)->Ok_0
}

proof fn lemma_items_lines(head: Seq<char>, items: Seq<Seq<char>>, n: int)
    requires
        0 <= n <= items.len(),
        items_text(items, n) is Ok,
        head.len() > 0,
        head.last() == '\n',
    ensures
        forall|k: int| 0 <= k < n ==> scalar_text(#[trigger] items[k]) is Ok,
        lines(head + items_text(items, n)->Ok_0) == lines(head) + Seq::new(
            n as nat,
            |k: int| item_line(items[k]),
        ),
        ({
            let t = head + items_text(items, n)->Ok_0;
            t.len() > 0 && t.last() == '\n'
        }),
    decreases n,
{
    reveal_strlit("\n");
    if n <= 0 {
        assert(head + Seq::<char>::empty() =~= head);
        assert(lines(head) + Seq::new(0, |k: int| item_line(items[k])) =~= lines(head));
    } else {
        lemma_items_lines(head, items, n - 1);
        let t = head + items_text(items, n - 1)->Ok_0;
        let x = item_line(items[n - 1]);
        lemma_scalar_round_trip(items[n - 1], 0);
        reveal_strlit("  - ");
        let sc = scalar_text(items[n - 1])->Ok_0;
        assert(x.last() == sc.last());
        assert forall|j: int| 0 <= j < x.len() implies x[j] != '\n' by {
            if j >= 4 {
                assert(x[j] == sc[j - 4]);
                assert(sc.contains(sc[j - 4]));
            }
        }
        lemma_lines_append(t, x, 0);
        assert(head + items_text(items, n)->Ok_0 =~= t + x + seq!['\n']);
        assert(lines(head) + Seq::new(n as nat, |k: int| item_line(items[k])) =~= (lines(head)
            + Seq::new((n - 1) as nat, |k: int| item_line(items[k]))).push(x));
    }
}

/// The line of a list item, read as one.
pub(crate) proof fn lemma_item_line(v: Seq<char>)
    requires
        scalar_text(v) is Ok,
    ensures
        ({
            let l = item_line(v);
            &&& trim_end(l) == l
            &&& !is_filler(l)
            &&& starts_with(trim_start(l), "- "@)
            &&& strip_prefix(trim_start(l), "- "@) == Some(scalar_text(v)->Ok_0)
            &&& scalar(scalar_text(v)->Ok_0, 0) == Ok::<_, OkfErrorModel>(v)
            &&& !l.contains('\n')
            &&& l.len() > 0
            &&& l[0] == ' '
        }),
{
    reveal_strlit("  - ");
    reveal_strlit("- ");
    reveal_strlit("#");
    let sc = scalar_text(v)->Ok_0;
    lemma_scalar_round_trip(v, 0);
    let l = item_line(v);
    assert(l.last() == sc.last());
    lemma_trim_end_keeps(l);
    let lead = "- "@ + sc;
    assert(l.skip(1).skip(1) =~= lead);
    assert(trim_start(l) == trim_start(l.skip(1)));
    assert(trim_start(l.skip(1)) == trim_start(l.skip(1).skip(1)));
    lemma_trim_start_keeps(lead);
    assert(lead[0] == '-');
    if starts_with(lead, "#"@) {
        assert(lead.subrange(0, 1)[0] == '#');
    }
    assert(lead.subrange(0, 2) =~= "- "@);
    assert(lead.skip(2) =~= sc);
    assert forall|j: int| 0 <= j < l.len() implies l[j] != '\n' by {
        if j >= 4 {
            assert(l[j] == sc[j - 4]);
            assert(sc.contains(sc[j - 4]));
        }
    }
}

proof fn lemma_item_step(key: Seq<char>, items: Seq<Seq<char>>, k: int, no: nat)
    requires
        0 <= k < items.len(),
        scalar_text(items[k]) is Ok,
    ensures
        step(
            item_line(items[k]),
            no,
            Reading { fields: seq![(key, FmModel::List(items.take(k)))], open: true },
        ) == Ok::<_, OkfErrorModel>(
            Reading { fields: seq![(key, FmModel::List(items.take(k + 1)))], open: true },
        ),
{
    reveal_strlit("  - ");
    reveal_strlit("- ");
    reveal_strlit("#");
    let sc = scalar_text(items[k])->Ok_0;
    lemma_scalar_round_trip(items[k], no);
    let l = item_line(items[k]);
    assert(l.last() == sc.last());
    lemma_trim_end_keeps(l);
    let lead = "- "@ + sc;
    assert(l.skip(1).skip(1) =~= lead);
    assert(trim_start(l) == trim_start(l.skip(1)));
    assert(trim_start(l.skip(1)) == trim_start(l.skip(1).skip(1)));
    lemma_trim_start_keeps(lead);
    assert(lead[0] == '-');
    if starts_with(lead, "#"@) {
        assert(lead.subrange(0, 1)[0] == '#');
    }
    assert(lead.subrange(0, 2) =~= "- "@);
    assert(lead.skip(2) =~= sc);
    let f = seq![(key, FmModel::List(items.take(k)))];
    assert(items.take(k).push(items[k]) =~= items.take(k + 1));
    assert(with_item(f, items[k]) =~= seq![(key, FmModel::List(items.take(k + 1)))]);
}

proof fn lemma_read_items(
    ls: Seq<Seq<char>>,
    key: Seq<char>,
    items: Seq<Seq<char>>,
    k: int,
)
    requires
        0 <= k <= items.len(),
        ls.len() == items.len() + 1,
        forall|j: int| 0 <= j < items.len() ==> #[trigger] ls[j + 1] == item_line(items[j]),
        forall|j: int| 0 <= j < items.len() ==> scalar_text(#[trigger] items[j]) is Ok,
    ensures
        read_lines(
            ls,
            k + 1,
            Reading { fields: seq![(key, FmModel::List(items.take(k)))], open: true },
        ) == Ok::<Fields, OkfErrorModel>(seq![(key, FmModel::List(items))]),
    decreases items.len() - k,
{
    if k < items.len() {
        assert(ls[k + 1] == item_line(items[k]));
        lemma_item_step(key, items, k, (k + 3) as nat);
        lemma_read_items(ls, key, items, k + 1);
    } else {
        assert(items.take(k) =~= items);
    }
}

proof fn lemma_scalar_field(key: Seq<char>, value: FmModel)
    requires
        field_text(key, value) is Ok,
        value is Scalar,
    ensures
        frontmatter(field_text(key, value)->Ok_0) == Ok::<Fields, OkfErrorModel>(
            seq![(key, value)],
        ),
{
    reveal_strlit("\n");
    reveal_strlit(": ");
    reveal_strlit(":\n");
    let text = field_text(key, value)->Ok_0;
    let start = Reading { fields: Seq::empty(), open: false };
    assert forall|j: int| 0 <= j < key.len() implies key[j] != '\n' by {
        assert(is_alnum(key[j]) || key[j] == '_' || key[j] == '-');
    }
    let none = Seq::<char>::empty();
    assert(lines(none) =~= Seq::<Seq<char>>::empty());
    let v = value->Scalar_0;
    let sc = scalar_text(v)->Ok_0;
    lemma_scalar_round_trip(v, 2);
    let tail = ": "@ + sc;
    let l = key + tail;
    assert(tail.last() == sc.last());
    lemma_key_line(key, tail);
    assert forall|j: int| 0 <= j < l.len() implies l[j] != '\n' by {
        if j < key.len() {
            assert(l[j] == key[j]);
        } else if j >= key.len() + 2 {
            assert(l[j] == sc[j - key.len() - 2]);
            assert(sc.contains(sc[j - key.len() - 2]));
        }
    }
    assert(l.last() == sc.last());
    lemma_lines_append(none, l, 0);
    assert(text =~= none + l + seq!['\n']);
    let ls = lines(text);
    assert(ls =~= seq![l]);
    let rest = tail.skip(1);
    assert(rest.skip(1) =~= sc);
    assert(rest[0] == ' ');
    assert(trim_start(rest) == trim_start(rest.skip(1)));
    lemma_trim_start_keeps(sc);
    lemma_trim_end_keeps(sc);
    assert(trim(rest) == sc);
    let next = Reading { fields: start.fields.push((key, value)), open: false };
    assert(step(l, 2, start) == Ok::<_, OkfErrorModel>(next));
    assert(read_lines(ls, 1, next) == Ok::<Fields, OkfErrorModel>(next.fields));
    assert(next.fields =~= seq![(key, value)]);
}

proof fn lemma_list_field(key: Seq<char>, value: FmModel)
    requires
        field_text(key, value) is Ok,
        value is List,
    ensures
        frontmatter(field_text(key, value)->Ok_0) == Ok::<Fields, OkfErrorModel>(
            seq![(key, value)],
        ),
{
    reveal_strlit("\n");
    reveal_strlit(": ");
    reveal_strlit(":\n");
    let text = field_text(key, value)->Ok_0;
    let start = Reading { fields: Seq::empty(), open: false };
    assert forall|j: int| 0 <= j < key.len() implies key[j] != '\n' by {
        assert(is_alnum(key[j]) || key[j] == '_' || key[j] == '-');
    }
    let none = Seq::<char>::empty();
    assert(lines(none) =~= Seq::<Seq<char>>::empty());
    let items = value->List_0;
    let tail = seq![':'];
    let l = key + tail;
    lemma_key_line(key, tail);
    assert forall|j: int| 0 <= j < l.len() implies l[j] != '\n' by {
        if j < key.len() {
            assert(l[j] == key[j]);
        }
    }
    assert(l.last() == ':');
    lemma_lines_append(none, l, 0);
    let head = key + ":\n"@;
    assert(head =~= none + l + seq!['\n']);
    assert(lines(head) =~= seq![l]);
    lemma_items_lines(head, items, items.len() as int);
    let ls = lines(text);
    assert(text == head + items_text(items, items.len() as int)->Ok_0);
    assert(ls.len() == items.len() + 1);
    assert(ls[0] == l);
    let rest = tail.skip(1);
    assert(rest.len() == 0);
    assert(trim(rest).len() == 0) by {
        lemma_trim_start_keeps(rest);
        lemma_trim_end_keeps(rest);
    }
    let next = Reading {
        fields: start.fields.push((key, FmModel::List(Seq::empty()))),
        open: true,
    };
    assert(step(l, 2, start) == Ok::<_, OkfErrorModel>(next));
    assert(items.take(0) =~= Seq::<Seq<char>>::empty());
    assert(next.fields =~= seq![(key, FmModel::List(items.take(0)))]);
    lemma_read_items(ls, key, items, 0);
}

/// A field that can be written is read back exactly as it was.
pub proof fn law_field_round_trip(key: Seq<char>, value: FmModel)
    requires
        field_text(key, value) is Ok,
    ensures
        frontmatter(field_text(key, value)->Ok_0) == Ok::<Fields, OkfErrorModel>(
            seq![(key, value)],
        ),
{
    match value {
        FmModel::Scalar(_) => lemma_scalar_field(key, value),
        FmModel::List(_) => lemma_list_field(key, value),
    }
}

} // verus!
