//! The tool that brings skills in from outside.

use vstd::prelude::*;
use crate::args::{arg_flag, arg_str, flag_arg, invalid, need_text, require_str, text_arg, Parsed};
use crate::ingest::{
    files_result, format_named, is_trusted_owner, license_in, licenses, names_owner, ActionModel,
    FileModel, IngestError, IngestErrorModel, IngestPlan, PlanModel, PlannedAction, PlannedUnit,
    SkillFormat, SourceFetcher, UnitModel,
};
use crate::json::{
    arr, empty_object, n, number, opt_text, s, strings, texts, Fields, JsonModel, Value,
};
use crate::mcp::{ToolAnswer, ToolError, ToolErrorModel};
use crate::model::{hex, id_error, lemma_valid_id, Budget, ConceptId, Principal, PrincipalModel};
use crate::plan::{plan_ingest, planned, Setting};
use crate::replies::{
    domain, domain_error, fail_with, failed, flag, kind_json, kind_value, skip_json, skip_value,
    txt,
};
use crate::repo::{Answer, MemoryRepository};
use crate::store::{
    BulkItem, BulkItemModel, BulkModel, CommitRequest, RequestModel, StoreError, StoreErrorModel,
};
use crate::text::{debug_text, lemma_views_push, opt_view, quoted, res_view, views};

verus! {

// ---------------------------------------------------------------------
// Arguments
// ---------------------------------------------------------------------

/// What to bring, to where, and in which format.
pub struct IngestHead {
    pub source: String,
    pub prefix: String,
    pub format: SkillFormat,
}

/// Mathematical counterpart of [`IngestHead`].
pub struct IngestHeadModel {
    pub source: Seq<char>,
    pub prefix: Seq<char>,
    pub format: SkillFormat,
}

impl View for IngestHead {
    type V = IngestHeadModel;

    open spec fn view(&self) -> IngestHeadModel {
        IngestHeadModel { source: self.source@, prefix: self.prefix@, format: self.format }
    }
}

pub open spec fn unknown_format(f: Seq<char>) -> Seq<char> {
    "format desconocido "@ + debug_text(f)
        + " (usa auto | agentic-skills | shadcn | okf | raw)"@
}

pub open spec fn format_arg(a: JsonModel) -> Parsed<SkillFormat> {
    match text_arg(a, "format"@) {
        None => Ok(SkillFormat::Auto),
        Some(f) => match format_named(f) {
            Some(x) => Ok(x),
            None => invalid(unknown_format(f)),
        },
    }
}

pub open spec fn ingest_args(a: JsonModel) -> Parsed<IngestHeadModel> {
    match need_text(a, "source"@) {
        Err(e) => Err(e),
        Ok(source) => match need_text(a, "path_prefix"@) {
            Err(e) => Err(e),
            Ok(prefix) => match id_error(prefix) {
                Some(e) => invalid("path_prefix inválido: "@ + e.message()),
                None => match format_arg(a) {
                    Err(e) => Err(e),
                    Ok(format) => Ok(IngestHeadModel { source, prefix, format }),
                },
            },
        },
    }
}

fn read_format(args: &Value) -> (r: Result<SkillFormat, ToolError>)
    ensures
        match r {
            Ok(f) => format_arg(args@) == Ok::<_, ToolErrorModel>(f),
            Err(e) => format_arg(args@) == Err::<SkillFormat, _>(e@),
        },
{
    match arg_str(args, "format") {
        None => Ok(SkillFormat::Auto),
        Some(f) => match SkillFormat::parse(f.as_str()) {
            Some(x) => Ok(x),
            None => {
                let mut m = "format desconocido ".to_owned();
                m.push_str(quoted(f.as_str()).as_str());
                m.push_str(" (usa auto | agentic-skills | shadcn | okf | raw)");
                Err(ToolError::InvalidArguments(m))
            },
        },
    }
}

fn read_ingest(args: &Value) -> (r: Result<IngestHead, ToolError>)
    ensures
        res_view(r) == ingest_args(args@),
{
    let source = match require_str(args, "source") {
        Ok(x) => x,
        Err(e) => {
            return Err(e);
        },
    };
    let prefix = match require_str(args, "path_prefix") {
        Ok(x) => x,
        Err(e) => {
            return Err(e);
        },
    };
    proof {
        lemma_valid_id(prefix@);
    }
    match ConceptId::parse(prefix.as_str()) {
        Ok(_) => {},
        Err(e) => {
            let mut m = "path_prefix inválido: ".to_owned();
            m.push_str(e.message().as_str());
            return Err(ToolError::InvalidArguments(m));
        },
    }
    match read_format(args) {
        Ok(format) => Ok(IngestHead { source, prefix, format }),
        Err(e) => Err(e),
    }
}

/// The kind of a failed ingestion.
pub open spec fn ingest_kind(e: IngestErrorModel) -> Seq<char> {
    match e {
        IngestErrorModel::InvalidSource(_) => "invalid_source"@,
        IngestErrorModel::Fetch(_) => "fetch_failed"@,
        IngestErrorModel::EmptySource => "source_empty"@,
        IngestErrorModel::Synthesis(_) => "synthesis_failed"@,
    }
}

pub open spec fn ingest_failed(e: IngestErrorModel) -> ToolErrorModel {
    failed(kind_json(ingest_kind(e), e.message()))
}

fn ingest_error(err: IngestError) -> (r: ToolError)
    ensures
        r@ == ingest_failed(err@),
{
    let kind = match &err {
        IngestError::InvalidSource(_) => "invalid_source",
        IngestError::Fetch(_) => "fetch_failed",
        IngestError::EmptySource => "source_empty",
        IngestError::Synthesis(_) => "synthesis_failed",
    };
    fail_with(&kind_value(kind, err.message().as_str()))
}

pub open spec fn unavailable() -> ToolErrorModel {
    failed(
        kind_json(
            "ingest_unavailable"@,
            "este despliegue no tiene descargador de fuentes configurado"@,
        ),
    )
}

// ---------------------------------------------------------------------
// Replies
// ---------------------------------------------------------------------

/// The source belongs to an owner that is trusted.
pub open spec fn trusted(source: Seq<char>, owners: Seq<Seq<char>>) -> bool {
    exists|i: int| 0 <= i < owners.len() && names_owner(source, #[trigger] owners[i])
}

fn owner_trusted(source: &str, owners: &Vec<String>) -> (r: bool)
    ensures
        r == trusted(source@, views(owners@)),
{
    let r = is_trusted_owner(source, owners.as_slice());
    proof {
        if r {
            let i = choose|i: int|
                0 <= i < owners@.len() && names_owner(source@, (#[trigger] owners@[i])@);
            assert(views(owners@)[i] == owners@[i]@);
        }
        if trusted(source@, views(owners@)) {
            let i = choose|i: int|
                0 <= i < views(owners@).len() && names_owner(
                    source@,
                    #[trigger] views(owners@)[i],
                );
            assert(names_owner(source@, owners@[i]@));
        }
    }
    r
}

/// Warnings are noise where the source is trusted.
pub open spec fn warnings_json(w: Seq<Seq<char>>, quiet: bool) -> JsonModel {
    if quiet {
        JsonModel::Array(Seq::empty())
    } else {
        texts(w)
    }
}

fn warnings_value(w: &Vec<String>, quiet: bool) -> (r: Value)
    ensures
        r@ == warnings_json(views(w@), quiet),
{
    if quiet {
        let none: Vec<Value> = Vec::new();
        assert(views(none@) =~= Seq::empty());
        arr(none)
    } else {
        strings(w)
    }
}

pub open spec fn action_name(a: ActionModel) -> Seq<char> {
    match a {
        ActionModel::Commit { markdown } => "commit"@,
        ActionModel::Convert { deterministic } => "convert-verbatim"@,
    }
}

pub open spec fn unit_json(u: UnitModel, quiet: bool) -> JsonModel {
    empty_object().set("concept_id"@, txt(u.concept_id)).set("title"@, txt(u.title)).set(
        "action"@,
        txt(action_name(u.action)),
    ).set("warnings"@, warnings_json(u.warnings, quiet))
}

pub open spec fn units_json(l: Seq<UnitModel>, quiet: bool) -> JsonModel {
    JsonModel::Array(Seq::new(l.len(), |i: int| unit_json(l[i], quiet)))
}

pub open spec fn skips_json(l: Seq<(Seq<char>, Seq<char>)>) -> Seq<JsonModel> {
    Seq::new(l.len(), |i: int| skip_json(l[i].0, l[i].1))
}

/// A plan, without carrying it out.
pub open spec fn plan_json(
    source: Seq<char>,
    license: Option<Seq<char>>,
    p: PlanModel,
    quiet: bool,
) -> JsonModel {
    empty_object().set("source_url"@, txt(source)).set("format"@, txt(p.format.name())).set(
        "license"@,
        opt_text(license),
    ).set("dry_run"@, flag(true)).set("units"@, units_json(p.units, quiet)).set(
        "skipped"@,
        JsonModel::Array(skips_json(p.skipped)),
    )
}

/// The document of a unit.
pub open spec fn unit_text(u: UnitModel) -> Seq<char> {
    match u.action {
        ActionModel::Commit { markdown } => markdown,
        ActionModel::Convert { deterministic } => deterministic,
    }
}

/// Each unit is written as a new document.
pub open spec fn unit_requests(l: Seq<UnitModel>, source: Seq<char>) -> Seq<RequestModel> {
    Seq::new(
        l.len(),
        |i: int|
            RequestModel {
                concept_id: l[i].concept_id,
                expected: None,
                markdown: unit_text(l[i]),
                reason: "skill_ingest desde "@ + source,
            },
    )
}

/// The ids among the first `n` that were written.
pub open spec fn done_ids(l: Seq<UnitModel>, items: Seq<BulkItemModel>, n: int) -> Seq<JsonModel>
    decreases n,
{
    if n <= 0 {
        Seq::empty()
    } else if items[n - 1] is Done {
        done_ids(l, items, n - 1).push(txt(l[n - 1].concept_id))
    } else {
        done_ids(l, items, n - 1)
    }
}

pub open spec fn done_json(
    u: UnitModel,
    o: crate::store::OutcomeModel,
    quiet: bool,
) -> JsonModel {
    empty_object().set("concept_id"@, txt(u.concept_id)).set("mode"@, txt("verbatim"@)).set(
        "hash"@,
        txt(hex(o.content_id)),
    ).set("version"@, number(o.version)).set("created"@, flag(o.created)).set(
        "warnings"@,
        warnings_json(u.warnings, quiet),
    )
}

/// What was written among the first `n`.
pub open spec fn done_items(
    l: Seq<UnitModel>,
    items: Seq<BulkItemModel>,
    n: int,
    quiet: bool,
) -> Seq<JsonModel>
    decreases n,
{
    if n <= 0 {
        Seq::empty()
    } else {
        match items[n - 1] {
            BulkItemModel::Done(o) => done_items(l, items, n - 1, quiet).push(
                done_json(l[n - 1], o, quiet),
            ),
            _ => done_items(l, items, n - 1, quiet),
        }
    }
}

/// Why a unit was not written.
pub open spec fn left_out(i: BulkItemModel) -> Seq<char> {
    match i {
        BulkItemModel::Failed(StoreErrorModel::Conflict(_)) =>
            "ya existe con otro contenido: usa memory_commit con expected_hash para actualizarlo"@,
        BulkItemModel::Failed(e) => e.message(),
        _ => "omitido por el lote"@,
    }
}

/// What was not written among the first `n`, after what was left out before.
pub open spec fn skipped_items(
    first: Seq<JsonModel>,
    l: Seq<UnitModel>,
    items: Seq<BulkItemModel>,
    n: int,
) -> Seq<JsonModel>
    decreases n,
{
    if n <= 0 {
        first
    } else if items[n - 1] is Done {
        skipped_items(first, l, items, n - 1)
    } else {
        skipped_items(first, l, items, n - 1).push(
            skip_json(l[n - 1].concept_id, left_out(items[n - 1])),
        )
    }
}

pub open spec fn shorter(a: nat, b: nat) -> int {
    if a < b {
        a as int
    } else {
        b as int
    }
}

/// What was brought in.
pub open spec fn ingest_json(
    source: Seq<char>,
    license: Option<Seq<char>>,
    p: PlanModel,
    items: Seq<BulkItemModel>,
    quiet: bool,
) -> JsonModel {
    let n = shorter(p.units.len(), items.len());
    let ids = done_ids(p.units, items, n);
    empty_object().set("source_url"@, txt(source)).set("format"@, txt(p.format.name())).set(
        "license"@,
        opt_text(license),
    ).set("ingested"@, number(ids.len())).set("concept_ids"@, JsonModel::Array(ids)).set(
        "items"@,
        JsonModel::Array(done_items(p.units, items, n, quiet)),
    ).set(
        "skipped"@,
        JsonModel::Array(skipped_items(skips_json(p.skipped), p.units, items, n)),
    )
}

fn units_value(l: &Vec<PlannedUnit>, quiet: bool) -> (r: Value)
    ensures
        r@ == units_json(views(l@), quiet),
{
    let ghost all = views(l@);
    let mut out: Vec<Value> = Vec::new();
    let mut i: usize = 0;
    while i < l.len()
        invariant
            i <= l.len(),
            all == views(l@),
            out@.len() == i,
            forall|k: int| 0 <= k < i ==> (#[trigger] out@[k])@ == unit_json(all[k], quiet),
        decreases l.len() - i,
    {
        assert(all[i as int] == l@[i as int]@);
        let action = match &l[i].action {
            PlannedAction::Commit { markdown } => "commit",
            PlannedAction::Convert { deterministic } => "convert-verbatim",
        };
        let mut o = Fields::new();
        o.set("concept_id", s(l[i].concept_id.as_str()));
        o.set("title", s(l[i].title.as_str()));
        o.set("action", s(action));
        o.set("warnings", warnings_value(&l[i].warnings, quiet));
        out.push(o.done());
        i += 1;
    }
    assert(views(out@) =~= Seq::new(all.len(), |k: int| unit_json(all[k], quiet)));
    arr(out)
}

fn skip_values(l: &Vec<(String, String)>) -> (r: Vec<Value>)
    ensures
        views(r@) == skips_json(views(l@)),
{
    let ghost all = views(l@);
    let mut out: Vec<Value> = Vec::new();
    let mut i: usize = 0;
    while i < l.len()
        invariant
            i <= l.len(),
            all == views(l@),
            out@.len() == i,
            forall|k: int| 0 <= k < i ==> (#[trigger] out@[k])@ == skip_json(all[k].0, all[k].1),
        decreases l.len() - i,
    {
        assert(all[i as int] == l@[i as int]@);
        out.push(skip_value(l[i].0.as_str(), l[i].1.as_str()));
        i += 1;
    }
    assert(views(out@) =~= skips_json(all));
    out
}

fn opt_value(t: &Option<String>) -> (r: Value)
    ensures
        r@ == opt_text(opt_view(*t)),
{
    crate::json::opt_s(t)
}

fn plan_value(source: &str, license: &Option<String>, p: &IngestPlan, quiet: bool) -> (r: Value)
    ensures
        r@ == plan_json(source@, opt_view(*license), p@, quiet),
{
    let mut o = Fields::new();
    o.set("source_url", s(source));
    o.set("format", s(p.format.as_str()));
    o.set("license", opt_value(license));
    o.set("dry_run", Value::Bool(true));
    o.set("units", units_value(&p.units, quiet));
    o.set("skipped", arr(skip_values(&p.skipped)));
    o.done()
}

fn requests_of(l: &Vec<PlannedUnit>, source: &str) -> (r: Vec<CommitRequest>)
    ensures
        views(r@) == unit_requests(views(l@), source@),
{
    let ghost all = views(l@);
    let mut out: Vec<CommitRequest> = Vec::new();
    let mut i: usize = 0;
    while i < l.len()
        invariant
            i <= l.len(),
            all == views(l@),
            out@.len() == i,
            forall|k: int|
                0 <= k < i ==> (#[trigger] out@[k])@ == unit_requests(all, source@)[k],
        decreases l.len() - i,
    {
        assert(all[i as int] == l@[i as int]@);
        let markdown = match &l[i].action {
            PlannedAction::Commit { markdown } => markdown.clone(),
            PlannedAction::Convert { deterministic } => deterministic.clone(),
        };
        let mut reason = "skill_ingest desde ".to_owned();
        reason.push_str(source);
        out.push(
            CommitRequest { concept_id: l[i].concept_id.clone(), expected: None, markdown, reason },
        );
        i += 1;
    }
    assert(views(out@) =~= unit_requests(all, source@));
    out
}

fn why_left_out(i: &BulkItem) -> (r: String)
    ensures
        r@ == left_out(i@),
{
    match i {
        BulkItem::Failed(e) => match e {
            StoreError::Conflict(_) =>
                "ya existe con otro contenido: usa memory_commit con expected_hash para actualizarlo".to_owned(),
            _ => e.message(),
        },
        _ => "omitido por el lote".to_owned(),
    }
}

fn ingest_value(
    source: &str,
    license: &Option<String>,
    p: &IngestPlan,
    items: &Vec<BulkItem>,
    quiet: bool,
) -> (r: Value)
    ensures
        r@ == ingest_json(source@, opt_view(*license), p@, views(items@), quiet),
{
    let ghost l = p@.units;
    let ghost all = views(items@);
    let ghost first = skips_json(p@.skipped);
    let mut ids: Vec<Value> = Vec::new();
    let mut done: Vec<Value> = Vec::new();
    let mut skipped = skip_values(&p.skipped);
    assert(views(ids@) =~= Seq::empty());
    assert(views(done@) =~= Seq::empty());
    let mut i: usize = 0;
    while i < p.units.len() && i < items.len()
        invariant
            i <= p.units.len(),
            i <= items.len(),
            l == p@.units,
            all == views(items@),
            views(ids@) == done_ids(l, all, i as int),
            views(done@) == done_items(l, all, i as int, quiet),
            views(skipped@) == skipped_items(first, l, all, i as int),
        decreases p.units.len() - i,
    {
        assert(all[i as int] == items@[i as int]@);
        let u = &p.units[i];
        assert(l[i as int] == u@);
        match &items[i] {
            BulkItem::Done(out) => {
                let id = s(u.concept_id.as_str());
                let mut o = Fields::new();
                o.set("concept_id", s(u.concept_id.as_str()));
                o.set("mode", s("verbatim"));
                o.set("hash", s(out.content_id.to_hex().as_str()));
                o.set("version", n(out.version));
                o.set("created", Value::Bool(out.created));
                o.set("warnings", warnings_value(&u.warnings, quiet));
                let item = o.done();
                proof {
                    lemma_views_push(ids@, id);
                    lemma_views_push(done@, item);
                }
                ids.push(id);
                done.push(item);
            },
            other => {
                let why = why_left_out(other);
                let skip = skip_value(u.concept_id.as_str(), why.as_str());
                proof {
                    lemma_views_push(skipped@, skip);
                }
                skipped.push(skip);
            },
        }
        i += 1;
    }
    let mut o = Fields::new();
    o.set("source_url", s(source));
    o.set("format", s(p.format.as_str()));
    o.set("license", opt_value(license));
    o.set("ingested", n(ids.len() as u64));
    o.set("concept_ids", arr(ids));
    o.set("items", arr(done));
    o.set("skipped", arr(skipped));
    o.done()
}

// ---------------------------------------------------------------------
// The tool
// ---------------------------------------------------------------------

pub open spec fn brought_answer(
    source: Seq<char>,
    license: Option<Seq<char>>,
    p: PlanModel,
    quiet: bool,
    a: Answer<BulkModel>,
) -> ToolAnswer {
    match a {
        Err(e) => Err(domain(e)),
        Ok(x) => Ok(ingest_json(source, license, p, x.items, quiet)),
    }
}

/// The units of a plan are written, each on its own.
pub open spec fn brought<R: MemoryRepository>(
    pre: R,
    actor: PrincipalModel,
    b: Budget,
    source: Seq<char>,
    license: Option<Seq<char>>,
    p: PlanModel,
    quiet: bool,
    post: R,
    r: ToolAnswer,
) -> bool {
    exists|a: Answer<BulkModel>| #[trigger]
        R::bulk_rel(pre, unit_requests(p.units, source), false, actor, b, post, a) && r
            == brought_answer(source, license, p, quiet, a)
}

/// The files of a source with a license are planned, and the plan is answered
/// or carried out.
#[verifier::opaque]
pub open spec fn ingested<R: MemoryRepository>(
    pre: R,
    owners: Seq<Seq<char>>,
    actor: PrincipalModel,
    b: Budget,
    h: IngestHeadModel,
    dry_run: bool,
    files: Seq<FileModel>,
    license: Option<Seq<char>>,
    post: R,
    r: ToolAnswer,
) -> bool {
    let setting = Setting { source: h.source, prefix: h.prefix, budget: b, license };
    let quiet = trusted(h.source, owners);
    match planned(files, h.format, setting) {
        Err(e) => r == ToolAnswer::Err(ingest_failed(e)) && post == pre,
        Ok(p) => if dry_run {
            post == pre && r == ToolAnswer::Ok(plan_json(h.source, license, p, quiet))
        } else {
            brought(pre, actor, b, h.source, license, p, quiet, post, r)
        },
    }
}

/// The files of a source, with the license that is told of it.
pub open spec fn ingested_any<R: MemoryRepository, F: SourceFetcher>(
    pre: R,
    fetcher: F,
    owners: Seq<Seq<char>>,
    actor: PrincipalModel,
    b: Budget,
    h: IngestHeadModel,
    dry_run: bool,
    files: Result<Seq<FileModel>, IngestErrorModel>,
    post: R,
    r: ToolAnswer,
) -> bool {
    match files {
        Err(e) => r == ToolAnswer::Err(ingest_failed(e)) && post == pre,
        Ok(f) => ingested_licensed(pre, fetcher, owners, actor, b, h, dry_run, f, post, r),
    }
}

pub open spec fn ingested_licensed<R: MemoryRepository, F: SourceFetcher>(
    pre: R,
    fetcher: F,
    owners: Seq<Seq<char>>,
    actor: PrincipalModel,
    b: Budget,
    h: IngestHeadModel,
    dry_run: bool,
    files: Seq<FileModel>,
    post: R,
    r: ToolAnswer,
) -> bool {
    exists|license: Option<Seq<char>>| #[trigger]
        licenses(fetcher, h.source, license) && ingested(
            pre,
            owners,
            actor,
            b,
            h,
            dry_run,
            files,
            license,
            post,
            r,
        )
}

/// The source is fetched.
pub open spec fn fetched<R: MemoryRepository, F: SourceFetcher>(
    pre: R,
    fetcher: F,
    owners: Seq<Seq<char>>,
    actor: PrincipalModel,
    b: Budget,
    h: IngestHeadModel,
    dry_run: bool,
    post: R,
    r: ToolAnswer,
) -> bool {
    exists|files: Result<Seq<FileModel>, IngestErrorModel>| #[trigger]
        fetcher.fetch_rel(h.source, files) && ingested_any(
            pre,
            fetcher,
            owners,
            actor,
            b,
            h,
            dry_run,
            files,
            post,
            r,
        )
}

pub open spec fn ingest_tool<R: MemoryRepository, F: SourceFetcher>(
    pre: R,
    fetcher: Option<F>,
    owners: Seq<Seq<char>>,
    actor: PrincipalModel,
    b: Budget,
    args: JsonModel,
    post: R,
    r: ToolAnswer,
) -> bool {
    match ingest_args(args) {
        Err(e) => r == ToolAnswer::Err(e) && post == pre,
        Ok(h) => match fetcher {
            None => r == ToolAnswer::Err(unavailable()) && post == pre,
            Some(f) => fetched(
                pre,
                f,
                owners,
                actor,
                b,
                h,
                flag_arg(args, "dry_run"@, false),
                post,
                r,
            ),
        },
    }
}

/// Plans the files of a source and answers the plan or carries it out.
pub fn ingest_files<R: MemoryRepository>(
    repo: &mut R,
    h: &IngestHead,
    files: &Vec<crate::ingest::SourceFile>,
    license: &Option<String>,
    dry_run: bool,
    owners: &Vec<String>,
    actor: &Principal,
    budget: &Budget,
) -> (r: Result<Value, ToolError>)
    ensures
        ingested(
            *old(repo),
            views(owners@),
            actor@,
            *budget,
            h@,
            dry_run,
            views(files@),
            opt_view(*license),
            *final(repo),
            res_view(r),
        ),
{
    reveal(ingested);
    let license_text = match license {
        Some(t) => Some(t.as_str()),
        None => None,
    };
    let plan = match plan_ingest(
        h.source.as_str(),
        files.as_slice(),
        h.format,
        h.prefix.as_str(),
        budget,
        license_text,
    ) {
        Ok(p) => p,
        Err(e) => {
            return Err(ingest_error(e));
        },
    };
    let quiet = owner_trusted(h.source.as_str(), owners);
    if dry_run {
        return Ok(plan_value(h.source.as_str(), license, &plan, quiet));
    }
    let outcome = repo.commit_bulk(
        requests_of(&plan.units, h.source.as_str()),
        false,
        actor,
        budget,
    );
    let ghost a = res_view(outcome);
    assert(R::bulk_rel(
        *old(repo),
        unit_requests(plan@.units, h@.source),
        false,
        actor@,
        *budget,
        *repo,
        a,
    ));
    let r = match outcome {
        Ok(x) => Ok(ingest_value(h.source.as_str(), license, &plan, &x.items, quiet)),
        Err(e) => Err(domain_error(e)),
    };
    assert(brought(
        *old(repo),
        actor@,
        *budget,
        h@.source,
        opt_view(*license),
        plan@,
        quiet,
        *repo,
        res_view(r),
    ));
    r
}

fn fetch_and_ingest<R: MemoryRepository, F: SourceFetcher>(
    repo: &mut R,
    fetcher: &F,
    h: &IngestHead,
    dry_run: bool,
    owners: &Vec<String>,
    actor: &Principal,
    budget: &Budget,
) -> (r: Result<Value, ToolError>)
    ensures
        fetched(
            *old(repo),
            *fetcher,
            views(owners@),
            actor@,
            *budget,
            h@,
            dry_run,
            *final(repo),
            res_view(r),
        ),
{
    let got = fetcher.fetch(h.source.as_str());
    let ghost files = files_result(got);
    assert(fetcher.fetch_rel(h@.source, files));
    let list = match got {
        Ok(f) => f,
        Err(e) => {
            return Err(ingest_error(e));
        },
    };
    let ghost all = views(list@);
    assert(files == Ok::<_, IngestErrorModel>(all));
    let source = h.source.as_str();
    let told = fetcher.license_spdx_id(source);
    let ghost l = license_in(told);
    assert(licenses(*fetcher, h@.source, l));
    let license = match told {
        Ok(x) => x,
        Err(_) => None,
    };
    let ghost owned = views(owners@);
    let r = ingest_files(repo, h, &list, &license, dry_run, owners, actor, budget);
    assert(ingested_licensed(
        *old(repo),
        *fetcher,
        owned,
        actor@,
        *budget,
        h@,
        dry_run,
        all,
        *repo,
        res_view(r),
    ));
    assert(ingested_any(
        *old(repo),
        *fetcher,
        views(owners@),
        actor@,
        *budget,
        h@,
        dry_run,
        files,
        *repo,
        res_view(r),
    ));
    r
}

pub fn skill_ingest<R: MemoryRepository, F: SourceFetcher>(
    repo: &mut R,
    fetcher: &Option<Box<F>>,
    owners: &Vec<String>,
    args: &Value,
    actor: &Principal,
    budget: &Budget,
) -> (r: Result<Value, ToolError>)
    ensures
        ingest_tool(
            *old(repo),
            unboxed(*fetcher),
            views(owners@),
            actor@,
            *budget,
            args@,
            *final(repo),
            res_view(r),
        ),
{
    let h = match read_ingest(args) {
        Ok(h) => h,
        Err(e) => {
            return Err(e);
        },
    };
    let dry_run = arg_flag(args, "dry_run", false);
    match fetcher {
        None => Err(
            fail_with(
                &kind_value(
                    "ingest_unavailable",
                    "este despliegue no tiene descargador de fuentes configurado",
                ),
            ),
        ),
        Some(f) => fetch_and_ingest(repo, &**f, &h, dry_run, owners, actor, budget),
    }
}

/// What is in the box, if there is one.
pub open spec fn unboxed<F>(o: Option<Box<F>>) -> Option<F> {
    match o {
        Some(b) => Some(*b),
        None => None,
    }
}

} // verus!
