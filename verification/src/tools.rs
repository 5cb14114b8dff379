//! The tools of a memory over any store.

use vstd::prelude::*;
use crate::catalogue::{
    catalogue, list_pages, list_tools, no_assets, pages_to, tool_count, Assets, AssetsModel,
};
use crate::graph::NeighborSource;
use crate::importing::{ingest_tool, skill_ingest, unboxed};
use crate::inference::{memory_reason, reason_tool};
use crate::ingest::{FileModel, IngestError, IngestErrorModel, SourceFetcher, SourceFile};
use crate::json::{JsonModel, Value};
use crate::mcp::{
    advises, shows, ToolAnswer, ToolError, ToolErrorModel, ToolHandler, ToolModel, ToolSpec,
    UiModel, UiResource,
};
use crate::model::{Budget, Principal, PrincipalModel};
use crate::patching::{bulk_patch_tool, memory_bulk_patch, memory_patch, patch_tool};
use crate::reading::{
    backlinks_tool, embed_tool, history_tool, list_tool, memory_backlinks, memory_embed,
    memory_history, memory_list, memory_resolve, memory_search, memory_stats, memory_status,
    memory_validate, resolve_tool, search_tool, stats_tool, status_tool, validate_tool,
};
use crate::repo::{MemoryRepository, StoreMaintenance, TripleStore};
use crate::store::StoreError;
use crate::text::{opt_view, str_eq, views};
use crate::workflow::{
    propose_tool, spec_propose, spec_status, spec_status_tool, spec_tasks, tasks_tool,
};
use crate::writing::{
    bulk_tool, commit_tool, consolidate_tool, delete_tool, memory_bulk_commit, memory_commit,
    memory_consolidate, memory_delete,
};

verus! {

/// Stands where nothing can be fetched.
pub struct NoSource;

impl SourceFetcher for NoSource {
    open spec fn fetch_rel(&self, source: Seq<char>, r: Result<Seq<FileModel>, IngestErrorModel>) -> bool {
        r == Err::<Seq<FileModel>, _>(IngestErrorModel::InvalidSource(source))
    }

    fn fetch(&self, source: &str) -> (r: Result<Vec<SourceFile>, IngestError>) {
        Err(IngestError::InvalidSource(source.to_owned()))
    }
}

/// The tools over a store, with the actor and the budget of every call. Skills
/// can be brought in only with a fetcher.
pub struct MemoryTools<R, F = NoSource> {
    repo: R,
    actor: Principal,
    budget: Budget,
    fetcher: Option<Box<F>>,
    /// Owners whose content counts as reviewed.
    trusted_owners: Vec<String>,
    assets: Assets,
}

/// Mathematical counterpart of [`MemoryTools`].
pub struct ToolsModel<R, F> {
    pub repo: R,
    pub actor: PrincipalModel,
    pub budget: Budget,
    pub fetcher: Option<F>,
    pub owners: Seq<Seq<char>>,
    pub assets: AssetsModel,
}

impl<R, F> View for MemoryTools<R, F> {
    type V = ToolsModel<R, F>;

    closed spec fn view(&self) -> ToolsModel<R, F> {
        ToolsModel {
            repo: self.repo,
            actor: self.actor@,
            budget: self.budget,
            fetcher: unboxed(self.fetcher),
            owners: views(self.trusted_owners@),
            assets: self.assets@,
        }
    }
}

impl<R> MemoryTools<R> {
    /// Tools that cannot bring skills in.
    pub fn new(repo: R, actor: Principal, budget: Budget) -> (r: MemoryTools<R>)
        ensures
            r@ == (ToolsModel::<R, NoSource> {
                repo,
                actor: actor@,
                budget,
                fetcher: None,
                owners: Seq::empty(),
                assets: no_assets(),
            }),
    {
        let trusted_owners: Vec<String> = Vec::new();
        assert(views(trusted_owners@) =~= Seq::empty());
        MemoryTools {
            repo,
            actor,
            budget,
            fetcher: None,
            trusted_owners,
            assets: Assets::default(),
        }
    }
}

impl<R, F> MemoryTools<R, F> {
    /// The store behind the tools.
    pub fn repo(&self) -> (r: &R)
        ensures
            *r == self@.repo,
    {
        &self.repo
    }

    /// The same tools with a fetcher of sources. What looks suspicious is not
    /// reported for the owners that are trusted.
    pub fn with_ingest<G>(self, fetcher: Box<G>, trusted_owners: Vec<String>) -> (r: MemoryTools<R, G>)
        ensures
            r@ == (ToolsModel::<R, G> {
                repo: self@.repo,
                actor: self@.actor,
                budget: self@.budget,
                fetcher: Some(*fetcher),
                owners: views(trusted_owners@),
                assets: self@.assets,
            }),
    {
        MemoryTools {
            repo: self.repo,
            actor: self.actor,
            budget: self.budget,
            fetcher: Some(fetcher),
            trusted_owners,
            assets: self.assets,
        }
    }

    /// The same tools with the texts of a deployment.
    pub fn with_assets(self, assets: Assets) -> (r: MemoryTools<R, F>)
        ensures
            r@ == (ToolsModel::<R, F> { assets: assets@, ..self@ }),
    {
        MemoryTools {
            repo: self.repo,
            actor: self.actor,
            budget: self.budget,
            fetcher: self.fetcher,
            trusted_owners: self.trusted_owners,
            assets,
        }
    }

    /// The pages to announce.
    pub fn pages(&self) -> (r: Vec<UiResource>)
        ensures
            views(r@) == pages_to(self@.assets, tool_count(self@.fetcher is Some)),
    {
        list_pages(&self.assets, self.fetcher.is_some())
    }

    /// The advice to announce.
    pub fn advice(&self) -> (r: Option<&str>)
        ensures
            opt_view(r) == self@.assets.instructions,
    {
        match self.assets.instructions {
            Some(t) => Some(t),
            None => None,
        }
    }
}

/// What a tool does to a store and what it answers. A tool that only reads
/// leaves the store as it was; one that is not known does nothing.
pub open spec fn tool_rel<
    R: MemoryRepository + StoreMaintenance + NeighborSource<Error = StoreError> + TripleStore,
    F: SourceFetcher,
>(pre: ToolsModel<R, F>, name: Seq<char>, args: JsonModel, post: R, r: ToolAnswer) -> bool {
    let b = pre.budget;
    if name == "memory_search"@ {
        post == pre.repo && search_tool(pre.repo, b, args, r)
    } else if name == "memory_resolve"@ {
        post == pre.repo && resolve_tool(pre.repo, b, args, r)
    } else if name == "memory_reason"@ {
        reason_tool(pre.repo, b, args, post, r)
    } else if name == "memory_commit"@ {
        commit_tool(pre.repo, pre.actor, b, args, post, r)
    } else if name == "memory_consolidate"@ {
        consolidate_tool(pre.repo, pre.actor, b, args, post, r)
    } else if name == "memory_history"@ {
        post == pre.repo && history_tool(pre.repo, args, r)
    } else if name == "memory_delete"@ {
        delete_tool(pre.repo, pre.actor, args, post, r)
    } else if name == "memory_list"@ {
        post == pre.repo && list_tool(pre.repo, b, args, r)
    } else if name == "memory_backlinks"@ {
        post == pre.repo && backlinks_tool(pre.repo, args, r)
    } else if name == "memory_embed"@ {
        embed_tool(pre.repo, args, post, r)
    } else if name == "memory_patch"@ {
        patch_tool(pre.repo, pre.actor, b, args, post, r)
    } else if name == "memory_bulk_patch"@ {
        bulk_patch_tool(pre.repo, pre.actor, b, args, post, r)
    } else if name == "memory_bulk_commit"@ {
        bulk_tool(pre.repo, pre.actor, b, args, post, r)
    } else if name == "skill_ingest"@ {
        ingest_tool(pre.repo, pre.fetcher, pre.owners, pre.actor, b, args, post, r)
    } else if name == "memory_validate"@ {
        post == pre.repo && validate_tool(pre.repo, b, args, r)
    } else if name == "memory_status"@ {
        post == pre.repo && status_tool(pre.repo, r)
    } else if name == "memory_stats"@ {
        post == pre.repo && stats_tool(pre.repo, b, r)
    } else if name == "spec_propose"@ {
        propose_tool(pre.repo, pre.actor, b, args, post, r)
    } else if name == "spec_tasks"@ {
        tasks_tool(pre.repo, pre.actor, b, args, post, r)
    } else if name == "spec_status"@ {
        post == pre.repo && spec_status_tool(pre.repo, args, r)
    } else {
        post == pre.repo && r == ToolAnswer::Err(ToolErrorModel::UnknownTool)
    }
}

impl<R, F> ToolHandler for MemoryTools<R, F> where
    R: MemoryRepository + StoreMaintenance + NeighborSource<Error = StoreError> + TripleStore,
    F: SourceFetcher,
 {
    /// The tools of the catalogue; the last one only with a fetcher.
    open spec fn tools_rel(&self, r: Seq<ToolModel>) -> bool {
        r == catalogue(self@.assets, self@.fetcher is Some)
    }

    /// The named tool runs on the store; nothing else changes.
    open spec fn call_rel(
        pre: Self,
        name: Seq<char>,
        arguments: JsonModel,
        post: Self,
        r: ToolAnswer,
    ) -> bool {
        &&& post@ == (ToolsModel { repo: post@.repo, ..pre@ })
        &&& tool_rel(pre@, name, arguments, post@.repo, r)
    }

    fn tools(&self) -> (r: Vec<ToolSpec>) {
        list_tools(&self.assets, self.fetcher.is_some())
    }

    fn call(&mut self, name: &str, arguments: &Value) -> (r: Result<Value, ToolError>) {
        if str_eq(name, "memory_search") {
            memory_search(&self.repo, arguments, &self.budget)
        } else if str_eq(name, "memory_resolve") {
            memory_resolve(&self.repo, arguments, &self.budget)
        } else if str_eq(name, "memory_reason") {
            memory_reason(&mut self.repo, arguments, &self.budget)
        } else if str_eq(name, "memory_commit") {
            memory_commit(&mut self.repo, arguments, &self.actor, &self.budget)
        } else if str_eq(name, "memory_consolidate") {
            memory_consolidate(&mut self.repo, arguments, &self.actor, &self.budget)
        } else if str_eq(name, "memory_history") {
            memory_history(&self.repo, arguments)
        } else if str_eq(name, "memory_delete") {
            memory_delete(&mut self.repo, arguments, &self.actor)
        } else if str_eq(name, "memory_list") {
            memory_list(&self.repo, arguments, &self.budget)
        } else if str_eq(name, "memory_backlinks") {
            memory_backlinks(&self.repo, arguments)
        } else if str_eq(name, "memory_embed") {
            memory_embed(&mut self.repo, arguments)
        } else if str_eq(name, "memory_patch") {
            memory_patch(&mut self.repo, arguments, &self.actor, &self.budget)
        } else if str_eq(name, "memory_bulk_patch") {
            memory_bulk_patch(&mut self.repo, arguments, &self.actor, &self.budget)
        } else if str_eq(name, "memory_bulk_commit") {
            memory_bulk_commit(&mut self.repo, arguments, &self.actor, &self.budget)
        } else if str_eq(name, "skill_ingest") {
            skill_ingest(
                &mut self.repo,
                &self.fetcher,
                &self.trusted_owners,
                arguments,
                &self.actor,
                &self.budget,
            )
        } else if str_eq(name, "memory_validate") {
            memory_validate(&self.repo, arguments, &self.budget)
        } else if str_eq(name, "memory_status") {
            memory_status(&self.repo)
        } else if str_eq(name, "memory_stats") {
            memory_stats(&self.repo, &self.budget)
        } else if str_eq(name, "spec_propose") {
            spec_propose(&mut self.repo, arguments, &self.actor, &self.budget)
        } else if str_eq(name, "spec_tasks") {
            spec_tasks(&mut self.repo, arguments, &self.actor, &self.budget)
        } else if str_eq(name, "spec_status") {
            spec_status(&self.repo, arguments)
        } else {
            Err(ToolError::UnknownTool)
        }
    }

    fn ui_resources(&self) -> (r: Vec<UiResource>)
        ensures
            views(r@) == pages_to(self@.assets, tool_count(self@.fetcher is Some)),
    {
        self.pages()
    }

    fn instructions(&self) -> (r: Option<&str>)
        ensures
            opt_view(r) == self@.assets.instructions,
    {
        self.advice()
    }
}

/// A server over these tools announces exactly the pages of its catalogue and
/// exactly the advice that it was given.
pub proof fn law_pages_and_advice_are_announced<R, F>(
    tools: MemoryTools<R, F>,
    rs: Seq<UiModel>,
    t: Option<Seq<char>>,
)
    where
        R: MemoryRepository + StoreMaintenance + NeighborSource<Error = StoreError> + TripleStore,
        F: SourceFetcher,

    requires
        shows(tools, rs),
        advises(tools, t),
    ensures
        rs == pages_to(tools@.assets, tool_count(tools@.fetcher is Some)),
        t == tools@.assets.instructions,
{
}

} // verus!
