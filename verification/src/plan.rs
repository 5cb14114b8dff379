//! What becomes of each file of a source.

use vstd::prelude::*;
use crate::importing::unit_text;
use crate::ingest::{
    in_components, is_markdown, is_skill_md, markdown_path, finish_document, resolve_format,
    resolved, scan_suspicious_patterns, skill_md, some_markdown, suspicions, wrapped,
    ActionModel, FileModel, IngestError, IngestErrorModel, IngestPlan, PlanModel, PlannedAction,
    PlannedUnit, ResolvedFormat, SkillFormat, SourceFile, UnitModel,
};
use crate::model::{id_error, Budget, ConceptId};
use crate::names::{file_stem, path_slug, slug, slug_of, slug_path, slugify, stem};
use crate::okf::{line_end, line_end_of, parse_document, parsed, trim_eol, trim_eol_of};
use crate::table::{
    before, lemma_before_irreflexive, lemma_before_total, lemma_before_transitive, str_before,
};
use crate::text::{
    chars_are, chars_of, dec, ends_with, ends_with_of, holds_of, last_segment, last_segment_of,
    lemma_views_push, lines, lines_of, opt_view, part, part_from, push_chars, push_dec, res_view,
    starts_with, starts_with_of, str_eq, string_of, strip_prefix, strip_prefix_of, strip_suffix,
    strip_suffix_of, trim, trim_char, trim_char_of, trim_end, trim_end_char, trim_end_char_of,
    trim_end_of, trim_of, trim_start_char, trim_start_char_of, utf8_len, views,
};

verus! {

// ---------------------------------------------------------------------
// Sorting
// ---------------------------------------------------------------------

/// Things with an order.
pub trait Ranked: View + Sized {
    spec fn goes_before(a: Self::V, b: Self::V) -> bool;

    fn is_before(&self, other: &Self) -> (r: bool)
        ensures
            r == Self::goes_before(self@, other@),
    ;
}

/// `e` put before the first element that it goes before.
pub open spec fn sorted_in<T: Ranked>(s: Seq<T::V>, e: T::V) -> Seq<T::V>
    decreases s.len(),
{
    if s.len() == 0 || T::goes_before(e, s[0]) {
        seq![e] + s
    } else {
        seq![s[0]] + sorted_in::<T>(s.skip(1), e)
    }
}

/// The first `n` elements in order; equal ones as they came.
pub open spec fn sorted_to<T: Ranked>(s: Seq<T::V>, n: int) -> Seq<T::V>
    decreases n,
{
    if n <= 0 {
        Seq::empty()
    } else {
        sorted_in::<T>(sorted_to::<T>(s, n - 1), s[n - 1])
    }
}

pub open spec fn in_order<T: Ranked>(s: Seq<T::V>) -> Seq<T::V> {
    sorted_to::<T>(s, s.len() as int)
}

pub fn insert_sorted<T: Ranked>(v: &mut Vec<T>, e: T)
    ensures
        views(final(v)@) == sorted_in::<T>(views(old(v)@), e@),
{
    let mut i: usize = 0;
    let ghost all = views(v@);
    assert(all.skip(0) =~= all);
    assert(all.take(0) + sorted_in::<T>(all.skip(0), e@) =~= sorted_in::<T>(all, e@));
    while i < v.len() && !e.is_before(&v[i])
        invariant
            i <= v.len(),
            *v == *old(v),
            all == views(v@),
            all.take(i as int) + sorted_in::<T>(all.skip(i as int), e@) == sorted_in::<T>(all, e@),
        decreases v.len() - i,
    {
        proof {
            let rest = all.skip(i as int);
            assert(rest[0] == v@[i as int]@);
            assert(rest.skip(1) =~= all.skip(i + 1));
            assert(all.take(i as int) + (seq![rest[0]] + sorted_in::<T>(rest.skip(1), e@))
                =~= all.take(i + 1) + sorted_in::<T>(all.skip(i + 1), e@));
        }
        i += 1;
    }
    proof {
        let rest = all.skip(i as int);
        if i < v.len() {
            assert(rest[0] == v@[i as int]@);
        }
        assert(sorted_in::<T>(rest, e@) == seq![e@] + rest);
        assert(all.insert(i as int, e@) =~= all.take(i as int) + (seq![e@] + rest));
    }
    let ghost ev = e@;
    v.insert(i, e);
    assert(views(v@) =~= all.insert(i as int, ev));
}

// ---------------------------------------------------------------------
// Loose Markdown
// ---------------------------------------------------------------------

/// What follows an opening `---` line.
pub open spec fn after_open(content: Seq<char>) -> Option<Seq<char>> {
    match strip_prefix(content, "---"@) {
        None => None,
        Some(rest) => match strip_prefix(rest, "\r\n"@) {
            Some(t) => Some(t),
            None => strip_prefix(rest, "\n"@),
        },
    }
}

fn after_open_of(content: &[char]) -> (r: Option<&[char]>)
    ensures
        match r {
            Some(t) => after_open(content@) == Some(t@),
            None => after_open(content@) is None,
        },
{
    match strip_prefix_of(content, "---") {
        None => None,
        Some(rest) => match strip_prefix_of(rest, "\r\n") {
            Some(t) => Some(t),
            None => strip_prefix_of(rest, "\n"),
        },
    }
}

/// The value that a line gives to `key`, stripped of quotes.
pub open spec fn line_value(line: Seq<char>, key: Seq<char>) -> Option<Seq<char>> {
    match strip_prefix(line, key) {
        None => None,
        Some(r) => match strip_prefix(r, ":"@) {
            None => None,
            Some(v) => Some(trim(trim_char(trim_char(trim(v), '"'), '\''))),
        },
    }
}

/// The first value, from line `i` up to a closing `---`, given to `key`.
pub open spec fn value_from(ls: Seq<Seq<char>>, i: int, key: Seq<char>) -> Option<Seq<char>>
    decreases ls.len() - i,
{
    if i < 0 || i >= ls.len() || trim_end(ls[i]) == "---"@ {
        None
    } else {
        match line_value(ls[i], key) {
            Some(v) => if v.len() > 0 {
                Some(v)
            } else {
                value_from(ls, i + 1, key)
            },
            None => value_from(ls, i + 1, key),
        }
    }
}

/// The value of a frontmatter field in any Markdown, valid or not.
pub open spec fn loose_field(content: Seq<char>, key: Seq<char>) -> Option<Seq<char>> {
    match after_open(content) {
        None => None,
        Some(rest) => value_from(lines(rest), 0, key),
    }
}

fn loose_fm_field(content: &[char], key: &str) -> (r: Option<String>)
    ensures
        opt_view(r) == loose_field(content@, key@),
{
    let rest = match after_open_of(content) {
        None => {
            return None;
        },
        Some(t) => t,
    };
    let ls = lines_of(rest);
    let mut i: usize = 0;
    while i < ls.len()
        invariant
            i <= ls.len(),
            views(ls@) == lines(rest@),
            after_open(content@) == Some(rest@),
            loose_field(content@, key@) == value_from(lines(rest@), i as int, key@),
        decreases ls.len() - i,
    {
        assert(views(ls@)[i as int] == ls@[i as int]@);
        let line = ls[i].as_slice();
        if chars_are(trim_end_of(line), "---") {
            return None;
        }
        match strip_prefix_of(line, key) {
            Some(r) => match strip_prefix_of(r, ":") {
                Some(v) => {
                    let t = trim_of(trim_char_of(trim_char_of(trim_of(v), '"'), '\''));
                    if t.len() > 0 {
                        return Some(string_of(t));
                    }
                },
                None => {},
            },
            None => {},
        }
        i += 1;
    }
    None
}

/// Where the first line from `i` on that reads `---` ends.
pub open spec fn close_end(t: Seq<char>, i: int) -> Option<int>
    decreases t.len() - i,
{
    let e = line_end(t, i);
    if i < 0 || !(i < e <= t.len()) {
        None
    } else if trim_eol(t.subrange(i, e)) == "---"@ {
        Some(e)
    } else {
        close_end(t, e)
    }
}

/// A Markdown text without its frontmatter, if it has one.
pub open spec fn bare_body(content: Seq<char>) -> Seq<char> {
    match after_open(content) {
        None => content,
        Some(rest) => match close_end(rest, 0) {
            Some(e) => rest.skip(e),
            None => content,
        },
    }
}

fn body_without_frontmatter(content: &[char]) -> (r: &[char])
    ensures
        r@ == bare_body(content@),
{
    let rest = match after_open_of(content) {
        None => {
            return content;
        },
        Some(t) => t,
    };
    let mut i: usize = 0;
    while i < rest.len()
        invariant
            i <= rest.len(),
            after_open(content@) == Some(rest@),
            close_end(rest@, 0) == close_end(rest@, i as int),
        decreases rest.len() - i,
    {
        let e = line_end_of(rest, i);
        if chars_are(trim_eol_of(part(rest, i, e)), "---") {
            return part_from(rest, e);
        }
        i = e;
    }
    content
}

/// The text of the first heading from line `i` on, unless it is empty.
pub open spec fn heading_from(ls: Seq<Seq<char>>, i: int) -> Option<Seq<char>>
    decreases ls.len() - i,
{
    if i < 0 || i >= ls.len() {
        None
    } else if starts_with(trim(ls[i]), "#"@) {
        let t = trim(trim_start_char(trim(ls[i]), '#'));
        if t.len() > 0 {
            Some(t)
        } else {
            None
        }
    } else {
        heading_from(ls, i + 1)
    }
}

fn first_heading(body: &[char]) -> (r: Option<String>)
    ensures
        opt_view(r) == heading_from(lines(body@), 0),
{
    let ls = lines_of(body);
    let mut i: usize = 0;
    while i < ls.len()
        invariant
            i <= ls.len(),
            views(ls@) == lines(body@),
            heading_from(lines(body@), 0) == heading_from(lines(body@), i as int),
        decreases ls.len() - i,
    {
        assert(views(ls@)[i as int] == ls@[i as int]@);
        let line = trim_of(ls[i].as_slice());
        if starts_with_of(line, "#") {
            let t = trim_of(trim_start_char_of(line, '#'));
            if t.len() > 0 {
                return Some(string_of(t));
            }
            return None;
        }
        i += 1;
    }
    None
}

// ---------------------------------------------------------------------
// Units
// ---------------------------------------------------------------------

/// What all the units of a plan share.
pub struct Setting {
    pub source: Seq<char>,
    pub prefix: Seq<char>,
    pub budget: Budget,
    pub license: Option<Seq<char>>,
}

struct SettingData<'a> {
    source: &'a str,
    prefix: &'a str,
    budget: &'a Budget,
    license: Option<&'a str>,
}

impl<'a> View for SettingData<'a> {
    type V = Setting;

    closed spec fn view(&self) -> Setting {
        Setting {
            source: self.source@,
            prefix: self.prefix@,
            budget: *self.budget,
            license: opt_view(self.license),
        }
    }
}

/// A plan under way.
pub struct Draft {
    pub units: Seq<UnitModel>,
    pub skipped: Seq<(Seq<char>, Seq<char>)>,
}

struct DraftData {
    units: Vec<PlannedUnit>,
    skipped: Vec<(String, String)>,
}

impl View for DraftData {
    type V = Draft;

    closed spec fn view(&self) -> Draft {
        Draft { units: views(self.units@), skipped: views(self.skipped@) }
    }
}

pub open spec fn full_id(s: Setting, name: Seq<char>) -> Seq<char> {
    s.prefix + "/"@ + name
}

pub open spec fn skip(d: Draft, what: Seq<char>, why: Seq<char>) -> Draft {
    Draft { units: d.units, skipped: d.skipped.push((what, why)) }
}

pub open spec fn add_unit(
    d: Draft,
    id: Seq<char>,
    title: Seq<char>,
    action: ActionModel,
    text: Seq<char>,
) -> Draft {
    Draft {
        units: d.units.push(
            UnitModel { concept_id: id, title, action, warnings: suspicions(text) },
        ),
        skipped: d.skipped,
    }
}

/// A unit whose document is the content as it is.
pub open spec fn with_verbatim(
    d: Draft,
    s: Setting,
    name: Seq<char>,
    title: Seq<char>,
    content: Seq<char>,
) -> Draft {
    let id = full_id(s, name);
    match id_error(id) {
        Some(e) => skip(d, id, "id inválido: "@ + e.message()),
        None => add_unit(d, id, title, ActionModel::Commit { markdown: content }, content),
    }
}

/// A unit whose document wraps a body.
pub open spec fn with_wrapped(
    d: Draft,
    s: Setting,
    name: Seq<char>,
    title: Seq<char>,
    body: Seq<char>,
    label: Seq<char>,
    commit: bool,
) -> Draft {
    let id = full_id(s, name);
    match id_error(id) {
        Some(e) => skip(d, id, "id inválido: "@ + e.message()),
        None => match wrapped(title, s.source, "verbatim-import"@, body, s.budget, s.license) {
            Err(e) => skip(d, label, e),
            Ok(doc) => add_unit(
                d,
                id,
                title,
                if commit {
                    ActionModel::Commit { markdown: doc }
                } else {
                    ActionModel::Convert { deterministic: doc }
                },
                doc,
            ),
        },
    }
}

impl DraftData {
    fn note(&mut self, what: String, why: String)
        ensures
            final(self)@ == skip(old(self)@, what@, why@),
    {
        let e = (what, why);
        proof {
            lemma_views_push(self.skipped@, e);
        }
        self.skipped.push(e);
    }

    fn make_concept_id(&mut self, s: &SettingData, name: &str) -> (r: Option<ConceptId>)
        ensures
            match r {
                Some(id) => id@ == full_id(s@, name@) && id_error(full_id(s@, name@)) is None
                    && final(self)@ == old(self)@,
                None => id_error(full_id(s@, name@)) is Some && final(self)@ == skip(
                    old(self)@,
                    full_id(s@, name@),
                    "id inválido: "@ + id_error(full_id(s@, name@))->0.message(),
                ),
            },
    {
        let mut full = s.prefix.to_owned();
        full.push_str("/");
        full.push_str(name);
        proof {
            crate::model::lemma_valid_id(full@);
        }
        match ConceptId::parse(full.as_str()) {
            Ok(id) => Some(id),
            Err(e) => {
                let mut why = "id inválido: ".to_owned();
                why.push_str(e.message().as_str());
                self.note(full, why);
                None
            },
        }
    }

    fn add_verbatim(&mut self, s: &SettingData, name: &str, title: String, content: &str)
        ensures
            final(self)@ == with_verbatim(old(self)@, s@, name@, title@, content@),
    {
        let concept_id = match self.make_concept_id(s, name) {
            None => {
                return;
            },
            Some(id) => id,
        };
        let u = PlannedUnit {
            concept_id,
            title,
            action: PlannedAction::Commit { markdown: content.to_owned() },
            warnings: scan_suspicious_patterns(content),
        };
        proof {
            lemma_views_push(self.units@, u);
        }
        self.units.push(u);
    }

    fn add_wrapped(
        &mut self,
        s: &SettingData,
        name: &str,
        title: String,
        body: &str,
        label: &str,
        commit: bool,
    )
        ensures
            final(self)@ == with_wrapped(
                old(self)@,
                s@,
                name@,
                title@,
                body@,
                label@,
                commit,
            ),
    {
        let concept_id = match self.make_concept_id(s, name) {
            None => {
                return;
            },
            Some(id) => id,
        };
        match finish_document(
            title.as_str(),
            s.source,
            "verbatim-import",
            body,
            s.budget,
            s.license,
        ) {
            Err(e) => {
                self.note(label.to_owned(), e);
            },
            Ok(doc) => {
                let warnings = scan_suspicious_patterns(doc.as_str());
                let action = if commit {
                    PlannedAction::Commit { markdown: doc }
                } else {
                    PlannedAction::Convert { deterministic: doc }
                };
                let u = PlannedUnit { concept_id, title, action, warnings };
                proof {
                    lemma_views_push(self.units@, u);
                }
                self.units.push(u);
            },
        }
    }
}

/// A component file of a registry.
pub open spec fn is_component(path: Seq<char>) -> bool {
    in_components(path) && (ends_with(path, ".tsx"@) || ends_with(path, ".ts"@) || ends_with(
        path,
        ".jsx"@,
    ) || ends_with(path, ".js"@))
}

pub open spec fn code_block(path: Seq<char>, content: Seq<char>) -> Seq<char> {
    (if ends_with(path, ".tsx"@) || ends_with(path, ".ts"@) {
        "```tsx\n"@
    } else {
        "```jsx\n"@
    }) + trim_end(content) + "\n```"@
}

/// The components among the first `n` files.
pub open spec fn shadcn_to(d: Draft, s: Setting, files: Seq<FileModel>, n: int) -> Draft
    decreases n,
{
    if n <= 0 {
        d
    } else {
        let rest = shadcn_to(d, s, files, n - 1);
        let f = files[n - 1];
        if is_component(f.path) {
            with_wrapped(
                rest,
                s,
                slug(stem(f.path)),
                "Componente "@ + stem(f.path),
                code_block(f.path, f.content),
                f.path,
                false,
            )
        } else {
            rest
        }
    }
}

fn shadcn_units(d: &mut DraftData, s: &SettingData, files: &[SourceFile])
    ensures
        final(d)@ == shadcn_to(old(d)@, s@, views(files@), files@.len() as int),
{
    let mut i: usize = 0;
    while i < files.len()
        invariant
            i <= files.len(),
            d@ == shadcn_to(old(d)@, s@, views(files@), i as int),
        decreases files.len() - i,
    {
        let f = &files[i];
        assert(views(files@)[i as int] == f@);
        let path = chars_of(f.path.as_str());
        let p = path.as_slice();
        let typed = ends_with_of(p, ".tsx") || ends_with_of(p, ".ts");
        if holds_of(p, "components/ui/") && (typed || ends_with_of(p, ".jsx") || ends_with_of(
            p,
            ".js",
        )) {
            let name = file_stem(f.path.as_str());
            let mut title = "Componente ".to_owned();
            title.push_str(name.as_str());
            let content = chars_of(f.content.as_str());
            let mut body = String::new();
            if typed {
                body.push_str("```tsx\n");
            } else {
                body.push_str("```jsx\n");
            }
            push_chars(&mut body, trim_end_of(content.as_slice()));
            body.push_str("\n```");
            assert(body@ =~= code_block(f.path@, f.content@));
            d.add_wrapped(
                s,
                slugify(name.as_str()).as_str(),
                title,
                body.as_str(),
                f.path.as_str(),
                false,
            );
        }
        i += 1;
    }
}

/// The Markdown among the first `n` files, which must be documents.
pub open spec fn okf_to(d: Draft, s: Setting, files: Seq<FileModel>, n: int) -> Draft
    decreases n,
{
    if n <= 0 {
        d
    } else {
        let rest = okf_to(d, s, files, n - 1);
        let f = files[n - 1];
        if !is_markdown(f.path) {
            rest
        } else {
            match parsed(f.content, s.budget) {
                Err(e) => skip(rest, f.path, "no es OKF válido: "@ + e.message()),
                Ok(doc) => with_verbatim(
                    rest,
                    s,
                    path_slug(f.path),
                    match doc.title {
                        Some(t) => t,
                        None => stem(f.path),
                    },
                    f.content,
                ),
            }
        }
    }
}

fn okf_units(d: &mut DraftData, s: &SettingData, files: &[SourceFile])
    ensures
        final(d)@ == okf_to(old(d)@, s@, views(files@), files@.len() as int),
{
    let mut i: usize = 0;
    while i < files.len()
        invariant
            i <= files.len(),
            d@ == okf_to(old(d)@, s@, views(files@), i as int),
        decreases files.len() - i,
    {
        let f = &files[i];
        assert(views(files@)[i as int] == f@);
        if markdown_path(f.path.as_str()) {
            match parse_document(f.content.as_str(), s.budget) {
                Err(e) => {
                    let mut why = "no es OKF válido: ".to_owned();
                    why.push_str(e.message().as_str());
                    d.note(f.path.clone(), why);
                },
                Ok(doc) => {
                    let title = match doc.title {
                        Some(t) => t,
                        None => file_stem(f.path.as_str()),
                    };
                    d.add_verbatim(
                        s,
                        slug_path(f.path.as_str()).as_str(),
                        title,
                        f.content.as_str(),
                    );
                },
            }
        }
        i += 1;
    }
}

/// The first of two values that is there, else a third.
pub open spec fn first_of(
    a: Option<Seq<char>>,
    b: Option<Seq<char>>,
    c: Option<Seq<char>>,
    other: Seq<char>,
) -> Seq<char> {
    match a {
        Some(x) => x,
        None => match b {
            Some(x) => x,
            None => match c {
                Some(x) => x,
                None => other,
            },
        },
    }
}

/// The title of a loose Markdown file.
pub open spec fn raw_title(f: FileModel) -> Seq<char> {
    first_of(
        loose_field(f.content, "title"@),
        loose_field(f.content, "name"@),
        heading_from(lines(bare_body(f.content)), 0),
        stem(f.path),
    )
}

/// The Markdown among the first `n` files: documents as they are, the rest
/// wrapped.
pub open spec fn raw_to(d: Draft, s: Setting, files: Seq<FileModel>, n: int) -> Draft
    decreases n,
{
    if n <= 0 {
        d
    } else {
        let rest = raw_to(d, s, files, n - 1);
        let f = files[n - 1];
        if !is_markdown(f.path) {
            rest
        } else if parsed(f.content, s.budget) is Ok {
            with_verbatim(rest, s, path_slug(f.path), stem(f.path), f.content)
        } else {
            with_wrapped(
                rest,
                s,
                path_slug(f.path),
                raw_title(f),
                bare_body(f.content),
                f.path,
                true,
            )
        }
    }
}

fn raw_units(d: &mut DraftData, s: &SettingData, files: &[SourceFile])
    ensures
        final(d)@ == raw_to(old(d)@, s@, views(files@), files@.len() as int),
{
    let mut i: usize = 0;
    while i < files.len()
        invariant
            i <= files.len(),
            d@ == raw_to(old(d)@, s@, views(files@), i as int),
        decreases files.len() - i,
    {
        let f = &files[i];
        assert(views(files@)[i as int] == f@);
        i += 1;
        if !markdown_path(f.path.as_str()) {
            continue;
        }
        let name = slug_path(f.path.as_str());
        if parse_document(f.content.as_str(), s.budget).is_ok() {
            d.add_verbatim(s, name.as_str(), file_stem(f.path.as_str()), f.content.as_str());
            continue;
        }
        let content = chars_of(f.content.as_str());
        let body = body_without_frontmatter(content.as_slice());
        let title = match loose_fm_field(content.as_slice(), "title") {
            Some(t) => t,
            None => match loose_fm_field(content.as_slice(), "name") {
                Some(t) => t,
                None => match first_heading(body) {
                    Some(t) => t,
                    None => file_stem(f.path.as_str()),
                },
            },
        };
        d.add_wrapped(
            s,
            name.as_str(),
            title,
            string_of(body).as_str(),
            f.path.as_str(),
            true,
        );
    }
}

/// The title of a loose file that follows no convention.
pub open spec fn generic_title(f: FileModel) -> Seq<char> {
    first_of(
        loose_field(f.content, "title"@),
        None,
        heading_from(lines(bare_body(f.content)), 0),
        stem(f.path),
    )
}

/// The Markdown among the first `n` files, each wrapped.
pub open spec fn generic_to(d: Draft, s: Setting, files: Seq<FileModel>, n: int) -> Draft
    decreases n,
{
    if n <= 0 {
        d
    } else {
        let rest = generic_to(d, s, files, n - 1);
        let f = files[n - 1];
        if !is_markdown(f.path) {
            rest
        } else {
            with_wrapped(
                rest,
                s,
                path_slug(f.path),
                generic_title(f),
                bare_body(f.content),
                f.path,
                false,
            )
        }
    }
}

/// The first `n` files one after the other, in code blocks.
pub open spec fn dump_to(files: Seq<FileModel>, n: int) -> Seq<char>
    decreases n,
{
    if n <= 0 {
        Seq::empty()
    } else {
        dump_to(files, n - 1) + "### Archivo: "@ + files[n - 1].path + "\n\n````\n"@ + trim_end(
            files[n - 1].content,
        ) + "\n````\n\n"@
    }
}

/// One unit per Markdown file; without any, the whole source as one unit.
pub open spec fn generic(d: Draft, s: Setting, files: Seq<FileModel>) -> Draft {
    let n = files.len() as int;
    if some_markdown(files) {
        generic_to(d, s, files, n)
    } else {
        with_wrapped(
            d,
            s,
            slug(last_segment(s.source)),
            last_segment(s.source),
            dump_to(files, n),
            s.source,
            false,
        )
    }
}

fn generic_units(d: &mut DraftData, s: &SettingData, files: &[SourceFile])
    ensures
        final(d)@ == generic(old(d)@, s@, views(files@)),
{
    let ghost all = views(files@);
    let mut some = false;
    let mut i: usize = 0;
    while i < files.len()
        invariant
            i <= files.len(),
            all == views(files@),
            some == exists|k: int| 0 <= k < i && is_markdown((#[trigger] all[k]).path),
        decreases files.len() - i,
    {
        assert(all[i as int] == files@[i as int]@);
        if markdown_path(files[i].path.as_str()) {
            some = true;
        }
        i += 1;
    }
    if !some {
        let source = chars_of(s.source);
        let last = last_segment_of(source.as_slice());
        let mut body = String::new();
        let mut j: usize = 0;
        while j < files.len()
            invariant
                j <= files.len(),
                all == views(files@),
                body@ == dump_to(all, j as int),
            decreases files.len() - j,
        {
            let f = &files[j];
            assert(all[j as int] == f@);
            let content = chars_of(f.content.as_str());
            let ghost so_far = body@;
            body.push_str("### Archivo: ");
            body.push_str(f.path.as_str());
            body.push_str("\n\n````\n");
            push_chars(&mut body, trim_end_of(content.as_slice()));
            body.push_str("\n````\n\n");
            j += 1;
            assert(body@ =~= dump_to(all, j as int));
        }
        d.add_wrapped(
            s,
            slug_of(last).as_str(),
            string_of(last),
            body.as_str(),
            s.source,
            false,
        );
        return;
    }
    let mut k: usize = 0;
    while k < files.len()
        invariant
            k <= files.len(),
            all == views(files@),
            d@ == generic_to(old(d)@, s@, all, k as int),
        decreases files.len() - k,
    {
        let f = &files[k];
        assert(all[k as int] == f@);
        if markdown_path(f.path.as_str()) {
            let content = chars_of(f.content.as_str());
            let body = body_without_frontmatter(content.as_slice());
            let title = match loose_fm_field(content.as_slice(), "title") {
                Some(t) => t,
                None => match first_heading(body) {
                    Some(t) => t,
                    None => file_stem(f.path.as_str()),
                },
            };
            d.add_wrapped(
                s,
                slug_path(f.path.as_str()).as_str(),
                title,
                string_of(body).as_str(),
                f.path.as_str(),
                false,
            );
        }
        k += 1;
    }
}

// ---------------------------------------------------------------------
// Directories with a skill
// ---------------------------------------------------------------------

/// A directory that holds a `SKILL.md`; the root is empty.
pub struct Dir {
    path: String,
}

impl View for Dir {
    type V = Seq<char>;

    closed spec fn view(&self) -> Seq<char> {
        self.path@
    }
}

/// Longer paths first, then by path.
pub open spec fn deeper(a: Seq<char>, b: Seq<char>) -> bool {
    utf8_len(a) > utf8_len(b) || (utf8_len(a) == utf8_len(b) && before(a, b))
}

impl Ranked for Dir {
    open spec fn goes_before(a: Seq<char>, b: Seq<char>) -> bool {
        deeper(a, b)
    }

    fn is_before(&self, other: &Dir) -> (r: bool) {
        let x = self.path.as_str().as_bytes().len();
        let y = other.path.as_str().as_bytes().len();
        x > y || (x == y && str_before(self.path.as_str(), other.path.as_str()))
    }
}

/// A file of a unit.
pub struct Member<'a> {
    file: &'a SourceFile,
}

impl<'a> View for Member<'a> {
    type V = FileModel;

    closed spec fn view(&self) -> FileModel {
        self.file@
    }
}

/// The `SKILL.md` first, then by path.
pub open spec fn file_before(a: FileModel, b: FileModel) -> bool {
    if is_skill_md(a.path) != is_skill_md(b.path) {
        is_skill_md(a.path)
    } else {
        before(a.path, b.path)
    }
}

impl<'a> Ranked for Member<'a> {
    open spec fn goes_before(a: FileModel, b: FileModel) -> bool {
        file_before(a, b)
    }

    fn is_before(&self, other: &Member<'a>) -> (r: bool) {
        let x = skill_md(self.file.path.as_str());
        let y = skill_md(other.file.path.as_str());
        if x != y {
            x
        } else {
            str_before(self.file.path.as_str(), other.file.path.as_str())
        }
    }
}

/// The directory of a `SKILL.md`.
pub open spec fn skill_dir(path: Seq<char>) -> Seq<char> {
    trim_end_char(
        match strip_suffix(path, "SKILL.md"@) {
            Some(p) => p,
            None => Seq::empty(),
        },
        '/',
    )
}

/// The directories of the skills among the first `n` files.
pub open spec fn skill_dirs(files: Seq<FileModel>, n: int) -> Seq<Seq<char>>
    decreases n,
{
    if n <= 0 {
        Seq::empty()
    } else if is_skill_md(files[n - 1].path) {
        skill_dirs(files, n - 1).push(skill_dir(files[n - 1].path))
    } else {
        skill_dirs(files, n - 1)
    }
}

/// Texts with the deepest path first.
pub open spec fn deepest_first(dirs: Seq<Seq<char>>) -> Seq<Seq<char>> {
    in_order::<Dir>(dirs)
}

/// Files with the `SKILL.md` first.
pub open spec fn skill_first(files: Seq<FileModel>) -> Seq<FileModel> {
    in_order::<Member>(files)
}

/// The first directory, from index `i` on, that a path lies in.
pub open spec fn home(dirs: Seq<Seq<char>>, i: int, path: Seq<char>) -> Option<Seq<char>>
    decreases dirs.len() - i,
{
    if i < 0 || i >= dirs.len() {
        None
    } else if dirs[i].len() == 0 || starts_with(path, dirs[i] + "/"@) {
        Some(dirs[i])
    } else {
        home(dirs, i + 1, path)
    }
}

/// Those of the first `n` files whose nearest skill is in `dir`.
pub open spec fn members(
    files: Seq<FileModel>,
    n: int,
    dirs: Seq<Seq<char>>,
    dir: Seq<char>,
) -> Seq<FileModel>
    decreases n,
{
    if n <= 0 {
        Seq::empty()
    } else if home(dirs, 0, files[n - 1].path) == Some(dir) {
        members(files, n - 1, dirs, dir).push(files[n - 1])
    } else {
        members(files, n - 1, dirs, dir)
    }
}

/// The first `SKILL.md` from index `i` on.
pub open spec fn skill_from(files: Seq<FileModel>, i: int) -> Option<FileModel>
    decreases files.len() - i,
{
    if i < 0 || i >= files.len() {
        None
    } else if is_skill_md(files[i].path) {
        Some(files[i])
    } else {
        skill_from(files, i + 1)
    }
}

/// The auxiliary files among the first `n`, in code blocks.
pub open spec fn aux_to(files: Seq<FileModel>, n: int) -> Seq<char>
    decreases n,
{
    if n <= 0 {
        Seq::empty()
    } else if is_skill_md(files[n - 1].path) {
        aux_to(files, n - 1)
    } else {
        aux_to(files, n - 1) + "\n### `"@ + files[n - 1].path + "`\n\n````\n"@ + trim_end(
            files[n - 1].content,
        ) + "\n````\n"@
    }
}

pub open spec fn some_aux(files: Seq<FileModel>) -> bool {
    exists|i: int| 0 <= i < files.len() && !is_skill_md((#[trigger] files[i]).path)
}

/// The body of a skill: its own text, then its auxiliary files.
pub open spec fn skill_body(skill: FileModel, files: Seq<FileModel>) -> Seq<char> {
    trim(bare_body(skill.content)) + if some_aux(files) {
        "\n\n## Archivos auxiliares de la skill\n"@ + aux_to(files, files.len() as int)
    } else {
        Seq::empty()
    }
}

/// The name a skill gives itself.
pub open spec fn skill_name(skill: FileModel) -> Option<Seq<char>> {
    match loose_field(skill.content, "name"@) {
        Some(n) => Some(n),
        None => loose_field(skill.content, "title"@),
    }
}

/// The unit of the skill in one directory.
pub open spec fn with_skill(
    d: Draft,
    s: Setting,
    files: Seq<FileModel>,
    dirs: Seq<Seq<char>>,
    dir: Seq<char>,
) -> Draft {
    let own = skill_first(members(files, files.len() as int, dirs, dir));
    match skill_from(own, 0) {
        None => d,
        Some(skill) => {
            let name = skill_name(skill);
            let id = if dir.len() > 0 {
                slug(last_segment(dir))
            } else {
                slug(
                    match name {
                        Some(n) => n,
                        None => last_segment(s.source),
                    },
                )
            };
            let title = match name {
                Some(n) => n,
                None => id,
            };
            with_wrapped(d, s, id, title, skill_body(skill, own), skill.path, false)
        },
    }
}

pub open spec fn skills_to(
    d: Draft,
    s: Setting,
    files: Seq<FileModel>,
    dirs: Seq<Seq<char>>,
    n: int,
) -> Draft
    decreases n,
{
    if n <= 0 {
        d
    } else {
        with_skill(skills_to(d, s, files, dirs, n - 1), s, files, dirs, dirs[n - 1])
    }
}

/// One unit per skill; a file belongs to the nearest one above it.
pub open spec fn agentic(d: Draft, s: Setting, files: Seq<FileModel>) -> Draft {
    let dirs = deepest_first(skill_dirs(files, files.len() as int));
    skills_to(d, s, files, dirs, dirs.len() as int)
}

fn dirs_of(files: &[SourceFile]) -> (r: Vec<Dir>)
    ensures
        views(r@) == deepest_first(skill_dirs(views(files@), files@.len() as int)),
{
    let ghost all = views(files@);
    let mut out: Vec<Dir> = Vec::new();
    let mut i: usize = 0;
    assert(views(out@) =~= Seq::<Seq<char>>::empty());
    while i < files.len()
        invariant
            i <= files.len(),
            all == views(files@),
            views(out@) == deepest_first(skill_dirs(all, i as int)),
        decreases files.len() - i,
    {
        let f = &files[i];
        assert(all[i as int] == f@);
        if skill_md(f.path.as_str()) {
            let path = chars_of(f.path.as_str());
            let d = match strip_suffix_of(path.as_slice(), "SKILL.md") {
                Some(p) => string_of(trim_end_char_of(p, '/')),
                None => String::new(),
            };
            assert(d@ == skill_dir(f.path@));
            proof {
                lemma_sorted_push::<Dir>(skill_dirs(all, i as int), d@);
            }
            insert_sorted(&mut out, Dir { path: d });
        }
        i += 1;
    }
    out
}

proof fn lemma_sorted_push<T: Ranked>(s: Seq<T::V>, e: T::V)
    ensures
        in_order::<T>(s.push(e)) == sorted_in::<T>(in_order::<T>(s), e),
{
    lemma_sorted_prefix::<T>(s.push(e), s, s.len() as int);
}

proof fn lemma_sorted_prefix<T: Ranked>(a: Seq<T::V>, b: Seq<T::V>, n: int)
    requires
        n <= a.len(),
        n <= b.len(),
        forall|i: int| 0 <= i < n ==> a[i] == b[i],
    ensures
        sorted_to::<T>(a, n) == sorted_to::<T>(b, n),
    decreases n,
{
    if n > 0 {
        lemma_sorted_prefix::<T>(a, b, n - 1);
    }
}

fn is_home(dirs: &Vec<Dir>, dir: &Dir, path: &str) -> (r: bool)
    ensures
        r == (home(views(dirs@), 0, path@) == Some(dir@)),
{
    let chars = chars_of(path);
    let mut i: usize = 0;
    while i < dirs.len()
        invariant
            i <= dirs.len(),
            chars@ == path@,
            home(views(dirs@), 0, path@) == home(views(dirs@), i as int, path@),
        decreases dirs.len() - i,
    {
        let d = &dirs[i];
        assert(views(dirs@)[i as int] == d@);
        let mut prefix = d.path.clone();
        prefix.push_str("/");
        if d.path.as_str().is_empty() || starts_with_of(chars.as_slice(), prefix.as_str()) {
            return str_eq(d.path.as_str(), dir.path.as_str());
        }
        i += 1;
    }
    false
}

fn members_of<'a>(files: &'a [SourceFile], dirs: &Vec<Dir>, dir: &Dir) -> (r: Vec<Member<'a>>)
    ensures
        views(r@) == skill_first(
            members(views(files@), files@.len() as int, views(dirs@), dir@),
        ),
{
    let ghost all = views(files@);
    let mut out: Vec<Member<'a>> = Vec::new();
    let mut i: usize = 0;
    assert(views(out@) =~= Seq::<FileModel>::empty());
    while i < files.len()
        invariant
            i <= files.len(),
            all == views(files@),
            views(out@) == skill_first(members(all, i as int, views(dirs@), dir@)),
        decreases files.len() - i,
    {
        assert(all[i as int] == files@[i as int]@);
        if is_home(dirs, dir, files[i].path.as_str()) {
            proof {
                lemma_sorted_push::<Member>(
                    members(all, i as int, views(dirs@), dir@),
                    all[i as int],
                );
            }
            insert_sorted(&mut out, Member { file: &files[i] });
        }
        i += 1;
    }
    out
}

fn add_skill(d: &mut DraftData, s: &SettingData, files: &[SourceFile], dirs: &Vec<Dir>, dir: &Dir)
    ensures
        final(d)@ == with_skill(old(d)@, s@, views(files@), views(dirs@), dir@),
{
    let own = members_of(files, dirs, dir);
    let ghost o = views(own@);
    let mut i: usize = 0;
    while i < own.len() && !skill_md(own[i].file.path.as_str())
        invariant
            i <= own.len(),
            o == views(own@),
            skill_from(o, 0) == skill_from(o, i as int),
        decreases own.len() - i,
    {
        assert(o[i as int] == own@[i as int]@);
        i += 1;
    }
    if i == own.len() {
        return;
    }
    let skill = own[i].file;
    assert(o[i as int] == skill@);
    let content = chars_of(skill.content.as_str());
    let name = match loose_fm_field(content.as_slice(), "name") {
        Some(n) => Some(n),
        None => loose_fm_field(content.as_slice(), "title"),
    };
    assert(opt_view(name) == skill_name(skill@));
    let source = chars_of(s.source);
    let dir_chars = chars_of(dir.path.as_str());
    let id = if dir_chars.len() > 0 {
        slug_of(last_segment_of(dir_chars.as_slice()))
    } else {
        match &name {
            Some(n) => slugify(n.as_str()),
            None => slug_of(last_segment_of(source.as_slice())),
        }
    };
    let title = match name {
        Some(n) => n,
        None => id.clone(),
    };
    let mut body = String::new();
    push_chars(&mut body, trim_of(body_without_frontmatter(content.as_slice())));
    let mut aux = String::new();
    let mut any = false;
    let mut j: usize = 0;
    while j < own.len()
        invariant
            j <= own.len(),
            o == views(own@),
            aux@ == aux_to(o, j as int),
            any == exists|k: int| 0 <= k < j && !is_skill_md((#[trigger] o[k]).path),
        decreases own.len() - j,
    {
        let f = own[j].file;
        assert(o[j as int] == f@);
        if !skill_md(f.path.as_str()) {
            any = true;
            let text = chars_of(f.content.as_str());
            aux.push_str("\n### `");
            aux.push_str(f.path.as_str());
            aux.push_str("`\n\n````\n");
            push_chars(&mut aux, trim_end_of(text.as_slice()));
            aux.push_str("\n````\n");
        }
        j += 1;
        assert(aux@ =~= aux_to(o, j as int));
    }
    if any {
        body.push_str("\n\n## Archivos auxiliares de la skill\n");
        body.push_str(aux.as_str());
    }
    assert(body@ =~= skill_body(skill@, o));
    d.add_wrapped(s, id.as_str(), title, body.as_str(), skill.path.as_str(), false);
}

fn agentic_units(d: &mut DraftData, s: &SettingData, files: &[SourceFile])
    ensures
        final(d)@ == agentic(old(d)@, s@, views(files@)),
{
    let dirs = dirs_of(files);
    let mut i: usize = 0;
    while i < dirs.len()
        invariant
            i <= dirs.len(),
            views(dirs@) == deepest_first(skill_dirs(views(files@), files@.len() as int)),
            d@ == skills_to(old(d)@, s@, views(files@), views(dirs@), i as int),
        decreases dirs.len() - i,
    {
        assert(views(dirs@)[i as int] == dirs@[i as int]@);
        add_skill(d, s, files, &dirs, &dirs[i]);
        i += 1;
    }
}

// ---------------------------------------------------------------------
// The plan
// ---------------------------------------------------------------------

impl Ranked for PlannedUnit {
    open spec fn goes_before(a: UnitModel, b: UnitModel) -> bool {
        before(a.concept_id, b.concept_id)
    }

    fn is_before(&self, other: &PlannedUnit) -> (r: bool) {
        str_before(self.concept_id.as_str(), other.concept_id.as_str())
    }
}

/// The units and what was skipped, before order and limits.
pub open spec fn drafted(
    format: ResolvedFormat,
    s: Setting,
    files: Seq<FileModel>,
) -> Draft {
    let none = Draft { units: Seq::empty(), skipped: Seq::empty() };
    let n = files.len() as int;
    match format {
        ResolvedFormat::AgenticSkills => agentic(none, s, files),
        ResolvedFormat::Shadcn => shadcn_to(none, s, files, n),
        ResolvedFormat::Okf => okf_to(none, s, files, n),
        ResolvedFormat::Raw => raw_to(none, s, files, n),
        ResolvedFormat::Generic => generic(none, s, files),
    }
}

pub open spec fn has_unit(units: Seq<UnitModel>, id: Seq<char>) -> bool {
    exists|i: int| 0 <= i < units.len() && (#[trigger] units[i]).concept_id == id
}

/// The first unit of each id among the first `n`.
pub open spec fn unique_to(units: Seq<UnitModel>, n: int) -> Seq<UnitModel>
    decreases n,
{
    if n <= 0 {
        Seq::empty()
    } else if has_unit(unique_to(units, n - 1), units[n - 1].concept_id) {
        unique_to(units, n - 1)
    } else {
        unique_to(units, n - 1).push(units[n - 1])
    }
}

/// The units among the first `n` whose id came before.
pub open spec fn repeated_to(units: Seq<UnitModel>, n: int) -> Seq<(Seq<char>, Seq<char>)>
    decreases n,
{
    if n <= 0 {
        Seq::empty()
    } else if has_unit(unique_to(units, n - 1), units[n - 1].concept_id) {
        repeated_to(units, n - 1).push(
            (units[n - 1].concept_id, "slug duplicado: se conserva la primera unidad"@),
        )
    } else {
        repeated_to(units, n - 1)
    }
}

/// The units past the limit.
pub open spec fn over_limit(units: Seq<UnitModel>, max: nat) -> Seq<(Seq<char>, Seq<char>)> {
    Seq::new(
        if units.len() > max {
            (units.len() - max) as nat
        } else {
            0
        },
        |i: int|
            (
                units[max + i].concept_id,
                "presupuesto de lote agotado (máx. "@ + dec(max) + ")"@,
            ),
    )
}

/// The plan for some files: units by id, each id once, within the limit.
pub open spec fn planned(
    files: Seq<FileModel>,
    requested: SkillFormat,
    s: Setting,
) -> Result<PlanModel, IngestErrorModel> {
    if files.len() == 0 {
        Err(IngestErrorModel::EmptySource)
    } else {
        let format = resolved(requested, files, s.budget);
        let d = drafted(format, s, files);
        let sorted = in_order::<PlannedUnit>(d.units);
        let n = sorted.len() as int;
        let unique = unique_to(sorted, n);
        let max = s.budget.max_bulk_commits as nat;
        let units = if unique.len() > max {
            unique.take(max as int)
        } else {
            unique
        };
        let skipped = d.skipped + repeated_to(sorted, n) + over_limit(unique, max);
        if units.len() == 0 && skipped.len() == 0 {
            Err(IngestErrorModel::EmptySource)
        } else {
            Ok(PlanModel { format, units, skipped })
        }
    }
}

fn sort_units(units: Vec<PlannedUnit>) -> (r: Vec<PlannedUnit>)
    ensures
        views(r@) == in_order::<PlannedUnit>(views(units@)),
{
    let mut units = units;
    let mut out: Vec<PlannedUnit> = Vec::new();
    let mut back: Vec<PlannedUnit> = Vec::new();
    let ghost all = units@;
    // Turned round, so that they leave in the order they came.
    while units.len() > 0
        invariant
            units@.len() + back@.len() == all.len(),
            units@ == all.take(units@.len() as int),
            forall|k: int| 0 <= k < back@.len() ==> back@[k] == all[all.len() - 1 - k],
        decreases units.len(),
    {
        match units.pop() {
            Some(u) => {
                back.push(u);
                assert(units@ =~= all.take(units@.len() as int));
            },
            None => {},
        }
    }
    assert(views(out@) =~= Seq::<UnitModel>::empty());
    while back.len() > 0
        invariant
            out@.len() + back@.len() == all.len(),
            forall|k: int| 0 <= k < back@.len() ==> back@[k] == all[all.len() - 1 - k],
            views(out@) == sorted_to::<PlannedUnit>(views(all), all.len() - back@.len()),
        decreases back.len(),
    {
        let ghost n = (all.len() - back@.len()) as int;
        match back.pop() {
            Some(u) => {
                assert(u == all[n]);
                assert(views(all)[n] == u@);
                insert_sorted(&mut out, u);
                proof {
                    lemma_sorted_len::<PlannedUnit>(views(all), n + 1);
                }
            },
            None => {},
        }
    }
    out
}

proof fn lemma_sorted_in_len<T: Ranked>(s: Seq<T::V>, e: T::V)
    ensures
        sorted_in::<T>(s, e).len() == s.len() + 1,
    decreases s.len(),
{
    if s.len() > 0 && !T::goes_before(e, s[0]) {
        lemma_sorted_in_len::<T>(s.skip(1), e);
    }
}

pub proof fn lemma_sorted_len<T: Ranked>(s: Seq<T::V>, n: int)
    requires
        0 <= n <= s.len(),
    ensures
        sorted_to::<T>(s, n).len() == n,
    decreases n,
{
    if n > 0 {
        lemma_sorted_len::<T>(s, n - 1);
        lemma_sorted_in_len::<T>(sorted_to::<T>(s, n - 1), s[n - 1]);
    }
}

fn holds_unit(units: &Vec<PlannedUnit>, id: &ConceptId) -> (r: bool)
    ensures
        r == has_unit(views(units@), id@),
{
    let mut i: usize = 0;
    while i < units.len()
        invariant
            i <= units.len(),
            forall|k: int| 0 <= k < i ==> (#[trigger] views(units@)[k]).concept_id != id@,
        decreases units.len() - i,
    {
        if units[i].concept_id.same(id) {
            assert(views(units@)[i as int].concept_id == id@);
            return true;
        }
        i += 1;
    }
    false
}

/// Keeps the first unit of each id and notes the others.
fn drop_repeated(units: Vec<PlannedUnit>, skipped: &mut Vec<(String, String)>) -> (r: Vec<
    PlannedUnit,
>)
    ensures
        views(r@) == unique_to(views(units@), units@.len() as int),
        views(final(skipped)@) == views(old(skipped)@) + repeated_to(
            views(units@),
            units@.len() as int,
        ),
{
    let ghost all = units@;
    let mut units = units;
    let mut back: Vec<PlannedUnit> = Vec::new();
    while units.len() > 0
        invariant
            units@.len() + back@.len() == all.len(),
            units@ == all.take(units@.len() as int),
            forall|k: int| 0 <= k < back@.len() ==> back@[k] == all[all.len() - 1 - k],
        decreases units.len(),
    {
        match units.pop() {
            Some(u) => {
                back.push(u);
                assert(units@ =~= all.take(units@.len() as int));
            },
            None => {},
        }
    }
    let mut out: Vec<PlannedUnit> = Vec::new();
    assert(views(out@) =~= Seq::<UnitModel>::empty());
    assert(views(skipped@) =~= views(old(skipped)@) + repeated_to(views(all), 0));
    while back.len() > 0
        invariant
            back@.len() <= all.len(),
            forall|k: int| 0 <= k < back@.len() ==> back@[k] == all[all.len() - 1 - k],
            views(out@) == unique_to(views(all), all.len() - back@.len()),
            views(skipped@) == views(old(skipped)@) + repeated_to(
                views(all),
                all.len() - back@.len(),
            ),
        decreases back.len(),
    {
        let ghost n = (all.len() - back@.len()) as int;
        match back.pop() {
            Some(u) => {
                assert(views(all)[n] == u@);
                if holds_unit(&out, &u.concept_id) {
                    let e = (
                        u.concept_id.as_str().to_owned(),
                        "slug duplicado: se conserva la primera unidad".to_owned(),
                    );
                    proof {
                        lemma_views_push(skipped@, e);
                    }
                    skipped.push(e);
                    assert(views(skipped@) =~= views(old(skipped)@) + repeated_to(
                        views(all),
                        n + 1,
                    ));
                } else {
                    proof {
                        lemma_views_push(out@, u);
                    }
                    out.push(u);
                }
            },
            None => {},
        }
    }
    out
}

/// Builds the plan for the files of a source: units by id, no id twice, and no
/// more than the budget allows; the rest is skipped with a reason.
pub fn plan_ingest(
    source_url: &str,
    files: &[SourceFile],
    requested: SkillFormat,
    path_prefix: &str,
    budget: &Budget,
    license: Option<&str>,
) -> (r: Result<IngestPlan, IngestError>)
    ensures
        res_view(r) == planned(
            views(files@),
            requested,
            Setting {
                source: source_url@,
                prefix: path_prefix@,
                budget: *budget,
                license: opt_view(license),
            },
        ),
        r is Ok ==> plan_ok(
            r->Ok_0@,
            views(files@),
            Setting {
                source: source_url@,
                prefix: path_prefix@,
                budget: *budget,
                license: opt_view(license),
            },
        ),
{
    if files.len() == 0 {
        return Err(IngestError::EmptySource);
    }
    let s = SettingData { source: source_url, prefix: path_prefix, budget, license };
    proof {
        law_plans_are_sound(views(files@), requested, s@);
    }
    let format = resolve_format(requested, files, budget);
    let mut d = DraftData { units: Vec::new(), skipped: Vec::new() };
    assert(d@.units =~= Seq::empty());
    assert(d@.skipped =~= Seq::empty());
    match format {
        ResolvedFormat::AgenticSkills => agentic_units(&mut d, &s, files),
        ResolvedFormat::Shadcn => shadcn_units(&mut d, &s, files),
        ResolvedFormat::Okf => okf_units(&mut d, &s, files),
        ResolvedFormat::Raw => raw_units(&mut d, &s, files),
        ResolvedFormat::Generic => generic_units(&mut d, &s, files),
    }
    let ghost draft = d@;
    let DraftData { units, skipped } = d;
    let mut skipped = skipped;
    let sorted = sort_units(units);
    let ghost sv = views(sorted@);
    proof {
        lemma_sorted_len::<PlannedUnit>(draft.units, draft.units.len() as int);
    }
    let mut unique = drop_repeated(sorted, &mut skipped);
    let ghost uv = views(unique@);
    let ghost base = views(skipped@);
    let max = budget.max_bulk_commits;
    let ghost over = over_limit(uv, max as nat);
    let mut i: usize = max;
    assert(base + over.take(0) =~= base);
    while i < unique.len()
        invariant
            max <= i,
            i <= unique.len() || i == max,
            uv == views(unique@),
            over == over_limit(uv, max as nat),
            unique.len() > max ==> views(skipped@) == base + over.take(i - max),
            unique.len() <= max ==> views(skipped@) == base,
        decreases unique.len() - i,
    {
        let mut why = "presupuesto de lote agotado (máx. ".to_owned();
        push_dec(&mut why, max as u64);
        why.push_str(")");
        let e = (unique[i].concept_id.as_str().to_owned(), why);
        assert(uv[i as int] == unique@[i as int]@);
        proof {
            lemma_views_push(skipped@, e);
            assert(over[i - max] == e@);
        }
        skipped.push(e);
        i += 1;
        assert(base + over.take(i - max) =~= (base + over.take(i - 1 - max)).push(over[i - 1
            - max]));
    }
    assert(views(skipped@) =~= base + over);
    if unique.len() > max {
        unique.truncate(max);
        assert(views(unique@) =~= uv.take(max as int));
    }
    if unique.len() == 0 && skipped.len() == 0 {
        return Err(IngestError::EmptySource);
    }
    Ok(IngestPlan { format, units: unique, skipped })
}

// ---------------------------------------------------------------------
// Laws
// ---------------------------------------------------------------------

/// A unit under the prefix, with a valid id and a valid document.
pub open spec fn unit_ok(u: UnitModel, s: Setting) -> bool {
    &&& starts_with(u.concept_id, s.prefix + "/"@)
    &&& id_error(u.concept_id) is None
    &&& parsed(unit_text(u), s.budget) is Ok
}

/// How many of the first `n` files are Markdown.
pub open spec fn markdown_count(files: Seq<FileModel>, n: int) -> nat
    decreases n,
{
    if n <= 0 {
        0
    } else {
        markdown_count(files, n - 1) + if is_markdown(files[n - 1].path) {
            1nat
        } else {
            0
        }
    }
}

/// Each Markdown file of the source becomes one unit or one thing skipped.
pub open spec fn file_by_file(format: ResolvedFormat, files: Seq<FileModel>) -> bool {
    match format {
        ResolvedFormat::Okf | ResolvedFormat::Raw => true,
        ResolvedFormat::Generic => some_markdown(files),
        _ => false,
    }
}

/// Valid units by id, no id twice, and no more than the budget allows. Where
/// the format goes file by file, no Markdown file is lost.
pub open spec fn plan_ok(p: PlanModel, files: Seq<FileModel>, s: Setting) -> bool {
    &&& p.units.len() <= s.budget.max_bulk_commits
    &&& forall|i: int, j: int|
        0 <= i < j < p.units.len() ==> before(
            (#[trigger] p.units[i]).concept_id,
            (#[trigger] p.units[j]).concept_id,
        )
    &&& forall|i: int| 0 <= i < p.units.len() ==> unit_ok(#[trigger] p.units[i], s)
    &&& file_by_file(p.format, files) ==> p.units.len() + p.skipped.len() == markdown_count(
        files,
        files.len() as int,
    )
}

/// Every unit drafted is a good one.
spec fn draft_ok(d: Draft, s: Setting) -> bool {
    forall|i: int| 0 <= i < d.units.len() ==> unit_ok(#[trigger] d.units[i], s)
}

/// How much a draft has dealt with.
spec fn dealt(d: Draft) -> nat {
    d.units.len() + d.skipped.len()
}

proof fn lemma_full_id(s: Setting, name: Seq<char>)
    ensures
        starts_with(full_id(s, name), s.prefix + "/"@),
{
    let p = s.prefix + "/"@;
    assert(full_id(s, name).take(p.len() as int) =~= p);
}

proof fn lemma_verbatim(
    d: Draft,
    s: Setting,
    name: Seq<char>,
    title: Seq<char>,
    content: Seq<char>,
)
    requires
        draft_ok(d, s),
        parsed(content, s.budget) is Ok,
    ensures
        draft_ok(with_verbatim(d, s, name, title, content), s),
        dealt(with_verbatim(d, s, name, title, content)) == dealt(d) + 1,
{
    lemma_full_id(s, name);
}

proof fn lemma_wrapped(
    d: Draft,
    s: Setting,
    name: Seq<char>,
    title: Seq<char>,
    body: Seq<char>,
    label: Seq<char>,
    commit: bool,
)
    requires
        draft_ok(d, s),
    ensures
        draft_ok(with_wrapped(d, s, name, title, body, label, commit), s),
        dealt(with_wrapped(d, s, name, title, body, label, commit)) == dealt(d) + 1,
{
    lemma_full_id(s, name);
}

proof fn lemma_shadcn_to(d: Draft, s: Setting, files: Seq<FileModel>, n: int)
    requires
        draft_ok(d, s),
    ensures
        draft_ok(shadcn_to(d, s, files, n), s),
    decreases n,
{
    if n > 0 {
        lemma_shadcn_to(d, s, files, n - 1);
        let f = files[n - 1];
        lemma_wrapped(
            shadcn_to(d, s, files, n - 1),
            s,
            slug(stem(f.path)),
            "Componente "@ + stem(f.path),
            code_block(f.path, f.content),
            f.path,
            false,
        );
    }
}

proof fn lemma_okf_to(d: Draft, s: Setting, files: Seq<FileModel>, n: int)
    requires
        draft_ok(d, s),
    ensures
        draft_ok(okf_to(d, s, files, n), s),
        dealt(okf_to(d, s, files, n)) == dealt(d) + markdown_count(files, n),
    decreases n,
{
    if n > 0 {
        lemma_okf_to(d, s, files, n - 1);
        let f = files[n - 1];
        match parsed(f.content, s.budget) {
            Err(_) => {},
            Ok(doc) => {
                lemma_verbatim(
                    okf_to(d, s, files, n - 1),
                    s,
                    path_slug(f.path),
                    match doc.title {
                        Some(t) => t,
                        None => stem(f.path),
                    },
                    f.content,
                );
            },
        }
    }
}

proof fn lemma_raw_to(d: Draft, s: Setting, files: Seq<FileModel>, n: int)
    requires
        draft_ok(d, s),
    ensures
        draft_ok(raw_to(d, s, files, n), s),
        dealt(raw_to(d, s, files, n)) == dealt(d) + markdown_count(files, n),
    decreases n,
{
    if n > 0 {
        lemma_raw_to(d, s, files, n - 1);
        let f = files[n - 1];
        let rest = raw_to(d, s, files, n - 1);
        if parsed(f.content, s.budget) is Ok {
            lemma_verbatim(rest, s, path_slug(f.path), stem(f.path), f.content);
        } else {
            lemma_wrapped(
                rest,
                s,
                path_slug(f.path),
                raw_title(f),
                bare_body(f.content),
                f.path,
                true,
            );
        }
    }
}

proof fn lemma_generic_to(d: Draft, s: Setting, files: Seq<FileModel>, n: int)
    requires
        draft_ok(d, s),
    ensures
        draft_ok(generic_to(d, s, files, n), s),
        dealt(generic_to(d, s, files, n)) == dealt(d) + markdown_count(files, n),
    decreases n,
{
    if n > 0 {
        lemma_generic_to(d, s, files, n - 1);
        let f = files[n - 1];
        lemma_wrapped(
            generic_to(d, s, files, n - 1),
            s,
            path_slug(f.path),
            generic_title(f),
            bare_body(f.content),
            f.path,
            false,
        );
    }
}

proof fn lemma_skills_to(
    d: Draft,
    s: Setting,
    files: Seq<FileModel>,
    dirs: Seq<Seq<char>>,
    n: int,
)
    requires
        draft_ok(d, s),
    ensures
        draft_ok(skills_to(d, s, files, dirs, n), s),
    decreases n,
{
    if n > 0 {
        lemma_skills_to(d, s, files, dirs, n - 1);
        let rest = skills_to(d, s, files, dirs, n - 1);
        let dir = dirs[n - 1];
        let own = skill_first(members(files, files.len() as int, dirs, dir));
        match skill_from(own, 0) {
            None => {},
            Some(skill) => {
                let name = skill_name(skill);
                let id = if dir.len() > 0 {
                    slug(last_segment(dir))
                } else {
                    slug(
                        match name {
                            Some(n) => n,
                            None => last_segment(s.source),
                        },
                    )
                };
                let title = match name {
                    Some(n) => n,
                    None => id,
                };
                lemma_wrapped(rest, s, id, title, skill_body(skill, own), skill.path, false);
            },
        }
    }
}

proof fn lemma_drafted(format: ResolvedFormat, s: Setting, files: Seq<FileModel>)
    ensures
        draft_ok(drafted(format, s, files), s),
        file_by_file(format, files) ==> dealt(drafted(format, s, files)) == markdown_count(
            files,
            files.len() as int,
        ),
{
    let none = Draft { units: Seq::empty(), skipped: Seq::empty() };
    let n = files.len() as int;
    match format {
        ResolvedFormat::AgenticSkills => {
            let dirs = deepest_first(skill_dirs(files, n));
            lemma_skills_to(none, s, files, dirs, dirs.len() as int);
        },
        ResolvedFormat::Shadcn => lemma_shadcn_to(none, s, files, n),
        ResolvedFormat::Okf => lemma_okf_to(none, s, files, n),
        ResolvedFormat::Raw => lemma_raw_to(none, s, files, n),
        ResolvedFormat::Generic => {
            lemma_generic_to(none, s, files, n);
            lemma_wrapped(
                none,
                s,
                slug(last_segment(s.source)),
                last_segment(s.source),
                dump_to(files, n),
                s.source,
                false,
            );
        },
    }
}

/// No unit comes after one with a later id.
spec fn weakly(s: Seq<UnitModel>) -> bool {
    forall|i: int, j: int|
        0 <= i < j < s.len() ==> !before(
            (#[trigger] s[j]).concept_id,
            (#[trigger] s[i]).concept_id,
        )
}

proof fn lemma_sorted_in(s: Seq<UnitModel>, e: UnitModel)
    requires
        weakly(s),
    ensures
        weakly(sorted_in::<PlannedUnit>(s, e)),
        forall|x: UnitModel| #[trigger]
            sorted_in::<PlannedUnit>(s, e).contains(x) ==> s.contains(x) || x == e,
    decreases s.len(),
{
    let t = sorted_in::<PlannedUnit>(s, e);
    if s.len() == 0 || before(e.concept_id, s[0].concept_id) {
        assert forall|i: int, j: int| 0 <= i < j < t.len() implies !before(
            (#[trigger] t[j]).concept_id,
            (#[trigger] t[i]).concept_id,
        ) by {
            assert(t[j] == s[j - 1]);
            if i > 0 {
                assert(t[i] == s[i - 1]);
            } else {
                if before(s[j - 1].concept_id, e.concept_id) {
                    lemma_before_transitive(
                        s[j - 1].concept_id,
                        e.concept_id,
                        s[0].concept_id,
                    );
                    if j == 1 {
                        lemma_before_irreflexive(s[0].concept_id);
                    }
                }
            }
        }
        assert forall|x: UnitModel| #[trigger] t.contains(x) implies s.contains(x) || x == e by {
            let k = choose|k: int| 0 <= k < t.len() && t[k] == x;
            if k > 0 {
                assert(s[k - 1] == x);
            }
        }
    } else {
        let rest = s.skip(1);
        assert(weakly(rest)) by {
            assert forall|i: int, j: int| 0 <= i < j < rest.len() implies !before(
                (#[trigger] rest[j]).concept_id,
                (#[trigger] rest[i]).concept_id,
            ) by {
                assert(rest[i] == s[i + 1] && rest[j] == s[j + 1]);
            }
        }
        lemma_sorted_in(rest, e);
        let u = sorted_in::<PlannedUnit>(rest, e);
        assert forall|i: int, j: int| 0 <= i < j < t.len() implies !before(
            (#[trigger] t[j]).concept_id,
            (#[trigger] t[i]).concept_id,
        ) by {
            assert(t[j] == u[j - 1]);
            if i > 0 {
                assert(t[i] == u[i - 1]);
            } else {
                assert(u.contains(t[j]));
                if t[j] != e {
                    assert(rest.contains(t[j]));
                    let m = choose|m: int| 0 <= m < rest.len() && rest[m] == t[j];
                    assert(s[m + 1] == t[j]);
                }
            }
        }
        assert forall|x: UnitModel| #[trigger] t.contains(x) implies s.contains(x) || x == e by {
            let k = choose|k: int| 0 <= k < t.len() && t[k] == x;
            if k > 0 {
                assert(u[k - 1] == x);
                assert(u.contains(x));
                if x != e {
                    let m = choose|m: int| 0 <= m < rest.len() && rest[m] == x;
                    assert(s[m + 1] == x);
                }
            } else {
                assert(s[0] == x);
            }
        }
    }
}

proof fn lemma_sorted_to(s: Seq<UnitModel>, n: int)
    requires
        0 <= n <= s.len(),
    ensures
        weakly(sorted_to::<PlannedUnit>(s, n)),
        forall|x: UnitModel| #[trigger]
            sorted_to::<PlannedUnit>(s, n).contains(x) ==> s.contains(x),
    decreases n,
{
    if n > 0 {
        lemma_sorted_to(s, n - 1);
        lemma_sorted_in(sorted_to::<PlannedUnit>(s, n - 1), s[n - 1]);
    }
}

proof fn lemma_unique_len(s: Seq<UnitModel>, n: int)
    requires
        0 <= n,
    ensures
        unique_to(s, n).len() + repeated_to(s, n).len() == n,
    decreases n,
{
    if n > 0 {
        lemma_unique_len(s, n - 1);
    }
}

proof fn lemma_unique_to(s: Seq<UnitModel>, n: int)
    requires
        weakly(s),
        0 <= n <= s.len(),
    ensures
        ({
            let u = unique_to(s, n);
            &&& forall|i: int|
                0 <= i < u.len() ==> exists|k: int| 0 <= k < n && #[trigger] u[i] == #[trigger] s[k]
            &&& forall|i: int, j: int|
                0 <= i < j < u.len() ==> before(
                    (#[trigger] u[i]).concept_id,
                    (#[trigger] u[j]).concept_id,
                )
        }),
    decreases n,
{
    if n > 0 {
        lemma_unique_to(s, n - 1);
        let u = unique_to(s, n - 1);
        let t = unique_to(s, n);
        let e = s[n - 1];
        assert forall|i: int| 0 <= i < t.len() implies exists|k: int|
            0 <= k < n && #[trigger] t[i] == #[trigger] s[k] by {
            if i < u.len() {
                assert(t[i] == u[i]);
                let k = choose|k: int| 0 <= k < n - 1 && #[trigger] u[i] == #[trigger] s[k];
                assert(t[i] == s[k]);
            } else {
                assert(t[i] == s[n - 1]);
            }
        }
        if !has_unit(u, e.concept_id) {
            assert forall|i: int, j: int| 0 <= i < j < t.len() implies before(
                (#[trigger] t[i]).concept_id,
                (#[trigger] t[j]).concept_id,
            ) by {
                assert(t[i] == u[i]);
                if j < u.len() {
                    assert(t[j] == u[j]);
                } else {
                    let k = choose|k: int| 0 <= k < n - 1 && #[trigger] u[i] == #[trigger] s[k];
                    assert(!before(s[n - 1].concept_id, s[k].concept_id));
                    lemma_before_total(u[i].concept_id, e.concept_id);
                }
            }
        }
    }
}

/// Every plan lists its units by id, no id twice, and no more than the budget
/// allows. Every unit is under the prefix, with a valid id and a valid
/// document. Where the format goes file by file, each Markdown file is a unit
/// or is skipped with a reason.
pub proof fn law_plans_are_sound(
    files: Seq<FileModel>,
    requested: SkillFormat,
    s: Setting,
)
    ensures
        match planned(files, requested, s) {
            Ok(p) => plan_ok(p, files, s),
            Err(_) => true,
        },
{
    let format = resolved(requested, files, s.budget);
    let d = drafted(format, s, files);
    let sorted = in_order::<PlannedUnit>(d.units);
    let n = sorted.len() as int;
    lemma_drafted(format, s, files);
    lemma_sorted_to(d.units, d.units.len() as int);
    lemma_sorted_len::<PlannedUnit>(d.units, d.units.len() as int);
    lemma_unique_to(sorted, n);
    lemma_unique_len(sorted, n);
    let unique = unique_to(sorted, n);
    assert forall|i: int| 0 <= i < unique.len() implies unit_ok(#[trigger] unique[i], s) by {
        let k = choose|k: int| 0 <= k < n && #[trigger] unique[i] == #[trigger] sorted[k];
        assert(sorted.contains(sorted[k]));
        let m = choose|m: int| 0 <= m < d.units.len() && d.units[m] == sorted[k];
        assert(unit_ok(d.units[m], s));
    }
}

} // verus!
