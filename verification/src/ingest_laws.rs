//! What bringing a source in writes.

use vstd::prelude::*;
use crate::batch_laws::{leads, lemma_each, lemma_request, stores};
use crate::importing::{
    brought, done_ids, ingest_args, ingest_json, ingest_tool, ingested, ingested_any, plan_json,
    unit_json, unit_requests, unit_text, IngestHeadModel,
};
use crate::ingest::{
    licenses, FileModel, IngestErrorModel, PlanModel, SkillFormat, SourceFetcher, UnitModel,
};
use crate::json::{number, JsonModel};
use crate::mcp::ToolAnswer;
use crate::member_laws::group_members;
use crate::memory::{each, store_ok, InMemoryStore, StoreModel};
use crate::model::{Budget, PrincipalModel};
use crate::plan::{planned, Setting};
use crate::repo::{Answer, MemoryRepository};
use crate::store::{BulkItemModel, BulkModel};
use crate::writing_laws::wrote;

verus! {

/// The format that the arguments ask for.
pub open spec fn asks_format(args: JsonModel, f: SkillFormat) -> bool {
    match args.member("format"@) {
        Some(JsonModel::String(t)) => {
            ||| t == "auto"@ && f is Auto
            ||| t == "agentic-skills"@ && f is AgenticSkills
            ||| t == "shadcn"@ && f is Shadcn
            ||| t == "okf"@ && f is Okf
            ||| t == "raw"@ && f is Raw
        },
        _ => f is Auto,
    }
}

/// A plan for what a fetcher may have fetched from a source, in the format asked
/// for.
pub open spec fn is_plan<F: SourceFetcher>(
    fetcher: F,
    b: Budget,
    args: JsonModel,
    p: PlanModel,
    files: Seq<FileModel>,
    license: Option<Seq<char>>,
    f: SkillFormat,
) -> bool {
    let source = args.member("source"@)->0->String_0;
    let prefix = args.member("path_prefix"@)->0->String_0;
    &&& fetcher.fetch_rel(source, Ok(files))
    &&& licenses(fetcher, source, license)
    &&& asks_format(args, f)
    &&& planned(files, f, Setting { source, prefix, budget: b, license }) == Ok::<
        _,
        IngestErrorModel,
    >(p)
}

/// Opens a call that succeeded.
proof fn lemma_ingested<F: SourceFetcher>(
    pre: InMemoryStore,
    fetcher: F,
    owners: Seq<Seq<char>>,
    actor: PrincipalModel,
    b: Budget,
    args: JsonModel,
    post: InMemoryStore,
    r: ToolAnswer,
) -> (z: (Seq<FileModel>, Option<Seq<char>>))
    requires
        ingest_tool(pre, Some(fetcher), owners, actor, b, args, post, r),
        r is Ok,
    ensures
        ingest_args(args) is Ok,
        ({
            let h = ingest_args(args)->Ok_0;
            let dry = crate::args::flag_arg(args, "dry_run"@, false);
            &&& fetcher.fetch_rel(h.source, Ok(z.0))
            &&& licenses(fetcher, h.source, z.1)
            &&& ingested(pre, owners, actor, b, h, dry, z.0, z.1, post, r)
        }),
{
    let h = ingest_args(args)->Ok_0;
    let dry = crate::args::flag_arg(args, "dry_run"@, false);
    let files = choose|files: Result<Seq<FileModel>, IngestErrorModel>| #[trigger]
        fetcher.fetch_rel(h.source, files) && ingested_any(
            pre,
            fetcher,
            owners,
            actor,
            b,
            h,
            dry,
            files,
            post,
            r,
        );
    let f = files->Ok_0;
    assert(files == Ok::<Seq<FileModel>, IngestErrorModel>(f));
    let license = choose|license: Option<Seq<char>>| #[trigger]
        licenses(fetcher, h.source, license) && ingested(
            pre,
            owners,
            actor,
            b,
            h,
            dry,
            f,
            license,
            post,
            r,
        );
    (f, license)
}

proof fn lemma_asks_format(args: JsonModel)
    requires
        ingest_args(args) is Ok,
    ensures
        asks_format(args, ingest_args(args)->Ok_0.format),
{
}

proof fn lemma_ingested_plan(
    pre: InMemoryStore,
    owners: Seq<Seq<char>>,
    actor: PrincipalModel,
    b: Budget,
    h: IngestHeadModel,
    dry: bool,
    files: Seq<FileModel>,
    license: Option<Seq<char>>,
    post: InMemoryStore,
    r: ToolAnswer,
)
    requires
        ingested(pre, owners, actor, b, h, dry, files, license, post, r),
        r is Ok,
    ensures
        ({
            let plan = planned(
                files,
                h.format,
                Setting { source: h.source, prefix: h.prefix, budget: b, license },
            );
            let quiet = crate::importing::trusted(h.source, owners);
            &&& plan is Ok
            &&& dry ==> post == pre && r->Ok_0 == plan_json(h.source, license, plan->Ok_0, quiet)
            &&& !dry ==> brought(
                pre,
                actor,
                b,
                h.source,
                license,
                plan->Ok_0,
                quiet,
                post,
                r,
            )
        }),
{
    reveal(ingested);
}

/// The plan behind a call that succeeded.
proof fn lemma_plan<F: SourceFetcher>(
    pre: InMemoryStore,
    fetcher: F,
    owners: Seq<Seq<char>>,
    actor: PrincipalModel,
    b: Budget,
    args: JsonModel,
    post: InMemoryStore,
    r: ToolAnswer,
) -> (z: (PlanModel, Seq<FileModel>, Option<Seq<char>>))
    requires
        ingest_tool(pre, Some(fetcher), owners, actor, b, args, post, r),
        r is Ok,
    ensures
        ingest_args(args) is Ok,
        ({
            let h = ingest_args(args)->Ok_0;
            let quiet = crate::importing::trusted(h.source, owners);
            &&& args.member("source"@) == Some(JsonModel::String(h.source))
            &&& is_plan(fetcher, b, args, z.0, z.1, z.2, h.format)
            &&& crate::args::flag_arg(args, "dry_run"@, false) ==> post == pre && r->Ok_0
                == plan_json(h.source, z.2, z.0, quiet)
            &&& !crate::args::flag_arg(args, "dry_run"@, false) ==> brought(
                pre,
                actor,
                b,
                h.source,
                z.2,
                z.0,
                quiet,
                post,
                r,
            )
        }),
{
    let (files, license) = lemma_ingested(pre, fetcher, owners, actor, b, args, post, r);
    let h = ingest_args(args)->Ok_0;
    lemma_asks_format(args);
    let setting = Setting { source: h.source, prefix: h.prefix, budget: b, license };
    let plan = planned(files, h.format, setting);
    let dry = crate::args::flag_arg(args, "dry_run"@, false);
    assert(ingested(pre, owners, actor, b, h, dry, files, license, post, r));
    lemma_ingested_plan(pre, owners, actor, b, h, dry, files, license, post, r);
    let p = plan->Ok_0;
    assert(args.member("source"@) == Some(JsonModel::String(h.source)));
    assert(args.member("path_prefix"@) == Some(JsonModel::String(h.prefix)));
    assert(is_plan(fetcher, b, args, p, files, license, h.format));
    (p, files, license)
}

/// A step by one unit of a plan: its document is written as a new one, and the
/// reply lists its id; or nothing changes.
pub open spec fn brings_so(
    s: StoreModel,
    t: StoreModel,
    actor: PrincipalModel,
    source: Seq<char>,
    u: UnitModel,
    reply: JsonModel,
) -> bool {
    ||| t == s
    ||| {
        &&& wrote(
            s,
            t,
            u.concept_id,
            None,
            unit_text(u),
            "skill_ingest desde "@ + source,
            actor,
        )
        &&& reply.member("concept_ids"@) is Some
        &&& reply.member("concept_ids"@)->0 is Array
        &&& reply.member("concept_ids"@)->0->Array_0.contains(JsonModel::String(u.concept_id))
    }
}

/// The units of a plan written one after the other, each on what those before it
/// left.
pub open spec fn brings_all(
    pre: StoreModel,
    post: StoreModel,
    actor: PrincipalModel,
    source: Seq<char>,
    p: PlanModel,
    reply: JsonModel,
) -> bool {
    exists|between: Seq<StoreModel>| #[trigger]
        leads(between, pre, post, p.units.len()) && forall|k: int|
            0 <= k < p.units.len() ==> brings_so(
                #[trigger] between[k],
                between[k + 1],
                actor,
                source,
                p.units[k],
                reply,
            )
}

proof fn lemma_done_ids(l: Seq<UnitModel>, items: Seq<BulkItemModel>, n: int, k: int)
    requires
        0 <= k < n,
        items[k] is Done,
    ensures
        done_ids(l, items, n).contains(JsonModel::String(l[k].concept_id)),
    decreases n,
{
    let x = JsonModel::String(l[k].concept_id);
    if k < n - 1 {
        lemma_done_ids(l, items, n - 1, k);
        if items[n - 1] is Done {
            crate::reason::lemma_push_contains(
                done_ids(l, items, n - 1),
                JsonModel::String(l[n - 1].concept_id),
                x,
            );
        }
    } else {
        crate::reason::lemma_push_contains(done_ids(l, items, n - 1), x, x);
    }
}

proof fn lemma_ingest_members(
    source: Seq<char>,
    license: Option<Seq<char>>,
    p: PlanModel,
    items: Seq<BulkItemModel>,
    quiet: bool,
)
    requires
        items.len() == p.units.len(),
    ensures
        ({
            let v = ingest_json(source, license, p, items, quiet);
            let ids = done_ids(p.units, items, items.len() as int);
            &&& v.member("source_url"@) == Some(JsonModel::String(source))
            &&& v.member("concept_ids"@) == Some(JsonModel::Array(ids))
            &&& v.member("ingested"@) == Some(number(ids.len()))
            &&& v.member("format"@) == Some(JsonModel::String(p.format.name()))
        }),
{
    broadcast use group_members;

    reveal_strlit("source_url");
    reveal_strlit("format");
    reveal_strlit("license");
    reveal_strlit("ingested");
    reveal_strlit("concept_ids");
    reveal_strlit("items");
    reveal_strlit("skipped");
    assert("license"@[0] != "skipped"@[0]);
}

proof fn lemma_brings_one(
    s: StoreModel,
    actor: PrincipalModel,
    b: Budget,
    source: Seq<char>,
    units: Seq<UnitModel>,
    reply: JsonModel,
    k: int,
)
    requires
        store_ok(s),
        0 <= k < units.len(),
        ({
            let reqs = unit_requests(units, source);
            let items = each(s, reqs, reqs.len() as int, actor, b).1;
            reply.member("concept_ids"@) == Some(
                JsonModel::Array(done_ids(units, items, units.len() as int)),
            )
        }),
    ensures
        ({
            let between = stores(s, unit_requests(units, source), actor, b);
            brings_so(between[k], between[k + 1], actor, source, units[k], reply)
        }),
{
    let reqs = unit_requests(units, source);
    let items = each(s, reqs, reqs.len() as int, actor, b).1;
    let between = stores(s, reqs, actor, b);
    lemma_request(s, reqs, k, actor, b);
    lemma_each(s, reqs, reqs.len() as int, actor, b);
    if between[k + 1] != between[k] {
        assert(items[k] is Done);
        lemma_done_ids(units, items, units.len() as int, k);
    }
}

proof fn lemma_brings(
    pre: InMemoryStore,
    actor: PrincipalModel,
    b: Budget,
    source: Seq<char>,
    license: Option<Seq<char>>,
    p: PlanModel,
    quiet: bool,
    post: InMemoryStore,
    r: ToolAnswer,
)
    requires
        store_ok(pre@),
        brought(pre, actor, b, source, license, p, quiet, post, r),
        r is Ok,
    ensures
        brings_all(pre@, post@, actor, source, p, r->Ok_0),
        r->Ok_0.member("source_url"@) == Some(JsonModel::String(source)),
{
    let reqs = unit_requests(p.units, source);
    let a = choose|a: Answer<BulkModel>| #[trigger]
        <InMemoryStore as MemoryRepository>::bulk_rel(pre, reqs, false, actor, b, post, a) && r
            == crate::importing::brought_answer(source, license, p, quiet, a);
    let items = a->Ok_0.items;
    let n = reqs.len() as int;
    lemma_each(pre@, reqs, n, actor, b);
    lemma_ingest_members(source, license, p, items, quiet);
    let between = stores(pre@, reqs, actor, b);
    assert(leads(between, pre@, post@, p.units.len()));
    assert forall|k: int| 0 <= k < p.units.len() implies brings_so(
        #[trigger] between[k],
        between[k + 1],
        actor,
        source,
        p.units[k],
        r->Ok_0,
    ) by {
        lemma_brings_one(pre@, actor, b, source, p.units, r->Ok_0, k);
    }
}

/// `skill_ingest` writes the units of a plan for what its source gave, and lists
/// those that it wrote.
pub proof fn law_ingestion_writes_the_plan<F: SourceFetcher>(
    pre: InMemoryStore,
    fetcher: F,
    owners: Seq<Seq<char>>,
    actor: PrincipalModel,
    b: Budget,
    args: JsonModel,
    post: InMemoryStore,
    r: ToolAnswer,
)
    requires
        store_ok(pre@),
        ingest_tool(pre, Some(fetcher), owners, actor, b, args, post, r),
        r is Ok,
        args.member("dry_run"@) != Some(JsonModel::Bool(true)),
    ensures
        args.member("source"@) is Some,
        r->Ok_0.member("source_url"@) == args.member("source"@),
        exists|p: PlanModel, files: Seq<FileModel>, license: Option<Seq<char>>, f: SkillFormat|
            #[trigger] is_plan(fetcher, b, args, p, files, license, f) && brings_all(
                pre@,
                post@,
                actor,
                args.member("source"@)->0->String_0,
                p,
                r->Ok_0,
            ),
{
    let (p, files, license) = lemma_plan(pre, fetcher, owners, actor, b, args, post, r);
    let h = ingest_args(args)->Ok_0;
    let quiet = crate::importing::trusted(h.source, owners);
    lemma_brings(pre, actor, b, h.source, license, p, quiet, post, r);
    assert(is_plan(fetcher, b, args, p, files, license, h.format));
}

/// A planned unit in a reply.
pub open spec fn shows_unit(v: JsonModel, u: UnitModel) -> bool {
    &&& v.member("concept_id"@) == Some(JsonModel::String(u.concept_id))
    &&& v.member("title"@) == Some(JsonModel::String(u.title))
    &&& v.member("action"@) == Some(
        JsonModel::String(
            if u.action is Commit {
                "commit"@
            } else {
                "convert-verbatim"@
            },
        ),
    )
}

proof fn lemma_unit_members(u: UnitModel, quiet: bool)
    ensures
        shows_unit(unit_json(u, quiet), u),
{
    broadcast use group_members;

    reveal_strlit("concept_id");
    reveal_strlit("title");
    reveal_strlit("action");
    reveal_strlit("warnings");
}

proof fn lemma_plan_members(
    source: Seq<char>,
    license: Option<Seq<char>>,
    p: PlanModel,
    quiet: bool,
)
    ensures
        plan_json(source, license, p, quiet).member("units"@) == Some(
            crate::importing::units_json(p.units, quiet),
        ),
        plan_json(source, license, p, quiet).member("dry_run"@) == Some(JsonModel::Bool(true)),
{
    broadcast use group_members;

    reveal_strlit("source_url");
    reveal_strlit("format");
    reveal_strlit("license");
    reveal_strlit("dry_run");
    reveal_strlit("units");
    reveal_strlit("skipped");
    assert("license"@[0] != "dry_run"@[0] && "license"@[0] != "skipped"@[0]);
    assert("dry_run"@[0] != "skipped"@[0]);
}

proof fn lemma_shows_plan(
    source: Seq<char>,
    license: Option<Seq<char>>,
    p: PlanModel,
    quiet: bool,
)
    ensures
        shows_plan(plan_json(source, license, p, quiet), p),
{
    lemma_plan_members(source, license, p, quiet);
    let l = Seq::new(p.units.len(), |i: int| unit_json(p.units[i], quiet));
    assert forall|k: int| 0 <= k < p.units.len() implies shows_unit(l[k], #[trigger] p.units[k]) by {
        lemma_unit_members(p.units[k], quiet);
    }
}

/// A dry run of `skill_ingest` shows the plan that it would write, and writes
/// nothing.
pub proof fn law_dry_ingestion_shows_the_plan<F: SourceFetcher>(
    pre: InMemoryStore,
    fetcher: F,
    owners: Seq<Seq<char>>,
    actor: PrincipalModel,
    b: Budget,
    args: JsonModel,
    post: InMemoryStore,
    r: ToolAnswer,
)
    requires
        ingest_tool(pre, Some(fetcher), owners, actor, b, args, post, r),
        r is Ok,
        args.member("dry_run"@) == Some(JsonModel::Bool(true)),
    ensures
        post == pre,
        r->Ok_0.member("dry_run"@) == Some(JsonModel::Bool(true)),
        exists|p: PlanModel, files: Seq<FileModel>, license: Option<Seq<char>>, f: SkillFormat|
            #[trigger] is_plan(fetcher, b, args, p, files, license, f) && shows_plan(r->Ok_0, p),
{
    let (p, files, license) = lemma_plan(pre, fetcher, owners, actor, b, args, post, r);
    let h = ingest_args(args)->Ok_0;
    let quiet = crate::importing::trusted(h.source, owners);
    lemma_plan_members(h.source, license, p, quiet);
    lemma_shows_plan(h.source, license, p, quiet);
    assert(is_plan(fetcher, b, args, p, files, license, h.format));
}

/// A reply that shows the units of a plan, in order.
pub open spec fn shows_plan(reply: JsonModel, p: PlanModel) -> bool {
    reply.member("units"@) matches Some(JsonModel::Array(l)) && l.len() == p.units.len()
        && forall|k: int| 0 <= k < p.units.len() ==> shows_unit(l[k], #[trigger] p.units[k])
}

} // verus!
