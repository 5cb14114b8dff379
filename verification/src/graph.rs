//! Bounded traversal of the graph of concepts.

use vstd::prelude::*;
use crate::model::{Budget, ConceptId};
use crate::text::{lemma_views_push, opt_view, views};

verus! {

/// The ids of a list, or the failure to read it.
pub open spec fn ids_result<E>(r: Result<Vec<ConceptId>, E>) -> Result<Seq<Seq<char>>, E> {
    match r {
        Ok(v) => Ok(views(v@)),
        Err(e) => Err(e),
    }
}

/// A source of adjacency. What it may answer is a relation: a source over a
/// network can fail on one call and not on the next.
pub trait NeighborSource {
    /// Failure to read adjacency or sizes.
    type Error;

    /// `r` is a possible answer to "where does `id` lead".
    open spec fn neighbors_rel(&self, id: Seq<char>, r: Result<Seq<Seq<char>>, Self::Error>) -> bool {
        true
    }

    /// `r` is a possible answer to "how large is `id`".
    open spec fn size_rel(&self, id: Seq<char>, r: Result<Option<usize>, Self::Error>) -> bool {
        true
    }

    /// Outgoing neighbours of `id`; an unknown id has none.
    fn neighbors(&self, id: &ConceptId) -> (r: Result<Vec<ConceptId>, Self::Error>)
        ensures
            self.neighbors_rel(id@, ids_result(r)),
    ;

    /// Size of the document in bytes; `None` where there is no document.
    fn document_size(&self, id: &ConceptId) -> (r: Result<Option<usize>, Self::Error>)
        ensures
            self.size_rel(id@, r),
    ;
}

/// A visited concept.
#[derive(Debug, PartialEq, Eq)]
pub struct Visited {
    pub id: ConceptId,
    /// Hops from the origin.
    pub depth: u8,
    /// `false` where a link leads to no document.
    pub exists: bool,
    /// The concept that led here; `None` for the origin.
    pub parent: Option<ConceptId>,
}

/// Mathematical counterpart of [`Visited`].
pub struct VisitedModel {
    pub id: Seq<char>,
    pub depth: nat,
    pub exists: bool,
    pub parent: Option<Seq<char>>,
}

impl View for Visited {
    type V = VisitedModel;

    open spec fn view(&self) -> VisitedModel {
        VisitedModel {
            id: self.id@,
            depth: self.depth as nat,
            exists: self.exists,
            parent: opt_view(self.parent),
        }
    }
}

/// What a traversal saw, and why it stopped where it did.
#[derive(Debug, PartialEq, Eq)]
pub struct Traversal {
    /// In breadth-first order, the origin first.
    pub visited: Vec<Visited>,
    /// The node limit was reached with concepts still to visit.
    pub truncated_by_nodes: bool,
    /// The depth limit was reached with neighbours still to follow.
    pub truncated_by_depth: bool,
    /// The documents seen exceed the response limit.
    pub truncated_by_bytes: bool,
    /// Bytes of the documents seen.
    pub total_bytes: usize,
}

/// Mathematical counterpart of [`Traversal`].
pub struct TraversalModel {
    pub visited: Seq<VisitedModel>,
    pub by_nodes: bool,
    pub by_depth: bool,
    pub by_bytes: bool,
    pub total: nat,
}

impl View for Traversal {
    type V = TraversalModel;

    open spec fn view(&self) -> TraversalModel {
        TraversalModel {
            visited: views(self.visited@),
            by_nodes: self.truncated_by_nodes,
            by_depth: self.truncated_by_depth,
            by_bytes: self.truncated_by_bytes,
            total: self.total_bytes as nat,
        }
    }
}

// ---------------------------------------------------------------------
// The walk
// ---------------------------------------------------------------------

/// The answers of a source.
pub struct Graph<E> {
    pub nb: spec_fn(Seq<char>) -> Result<Seq<Seq<char>>, E>,
    pub sz: spec_fn(Seq<char>) -> Result<Option<usize>, E>,
}

/// A concept that was come across, with its distance and who led to it.
pub struct FoundModel {
    pub id: Seq<char>,
    pub depth: nat,
    pub parent: Option<Seq<char>>,
}

/// A walk under way: every concept come across, in order, and for those
/// already visited, whether there is a document.
pub struct Walk {
    pub found: Seq<FoundModel>,
    pub exists: Seq<bool>,
    pub by_depth: bool,
    pub by_bytes: bool,
    pub total: nat,
}

pub open spec fn is_found(found: Seq<FoundModel>, id: Seq<char>) -> bool {
    exists|i: int| 0 <= i < found.len() && (#[trigger] found[i]).id == id
}

/// `found`, then those of the first `n` neighbours not come across before.
pub open spec fn discover(
    found: Seq<FoundModel>,
    ns: Seq<Seq<char>>,
    n: int,
    depth: nat,
    parent: Seq<char>,
) -> Seq<FoundModel>
    decreases n,
{
    if n <= 0 {
        found
    } else {
        let f = discover(found, ns, n - 1, depth, parent);
        if is_found(f, ns[n - 1]) {
            f
        } else {
            f.push(FoundModel { id: ns[n - 1], depth, parent: Some(parent) })
        }
    }
}

/// Bytes so far, held at the largest machine number.
pub open spec fn total_with(total: nat, size: Option<usize>) -> nat {
    match size {
        Some(n) => if total + n > usize::MAX {
            usize::MAX as nat
        } else {
            total + n as nat
        },
        None => total,
    }
}

/// Visits the next concept. Its neighbours join the walk unless the depth or
/// the bytes are used up, or there is no document.
pub open spec fn visit<E>(g: Graph<E>, b: Budget, w: Walk) -> Result<Walk, E> {
    let node = w.found[w.exists.len() as int];
    match (g.sz)(node.id) {
        Err(e) => Err(e),
        Ok(size) => {
            let total = total_with(w.total, size);
            let over = total > b.max_response_bytes;
            let seen = Walk {
                found: w.found,
                exists: w.exists.push(size is Some),
                by_depth: w.by_depth,
                by_bytes: w.by_bytes || over,
                total,
            };
            if size is None {
                Ok(seen)
            } else if node.depth >= b.max_graph_depth {
                match (g.nb)(node.id) {
                    Err(e) => Err(e),
                    Ok(ns) => Ok(Walk { by_depth: w.by_depth || ns.len() > 0, ..seen }),
                }
            } else if over {
                Ok(seen)
            } else {
                match (g.nb)(node.id) {
                    Err(e) => Err(e),
                    Ok(ns) => Ok(
                        Walk {
                            found: discover(
                                w.found,
                                ns,
                                ns.len() as int,
                                node.depth + 1,
                                node.id,
                            ),
                            ..seen
                        },
                    ),
                }
            }
        },
    }
}

/// The end of a walk: no concept left, or no room for another one.
pub open spec fn walk<E>(g: Graph<E>, b: Budget, w: Walk) -> Result<Walk, E>
    decreases b.max_graph_nodes - w.exists.len(),
{
    if w.exists.len() >= w.found.len() || w.exists.len() >= b.max_graph_nodes {
        Ok(w)
    } else {
        match visit(g, b, w) {
            Err(e) => Err(e),
            Ok(next) => if next.exists.len() != w.exists.len() + 1 {
                Ok(next)
            } else {
                walk(g, b, next)
            },
        }
    }
}

pub open spec fn walk_from(start: Seq<char>) -> Walk {
    Walk {
        found: seq![FoundModel { id: start, depth: 0, parent: None }],
        exists: Seq::empty(),
        by_depth: false,
        by_bytes: false,
        total: 0,
    }
}

pub open spec fn seen_by(w: Walk) -> Seq<VisitedModel> {
    Seq::new(
        w.exists.len(),
        |i: int|
            VisitedModel {
                id: w.found[i].id,
                depth: w.found[i].depth,
                exists: w.exists[i],
                parent: w.found[i].parent,
            },
    )
}

/// The breadth-first traversal from `start` of what the source answers.
pub open spec fn traversal<E>(g: Graph<E>, b: Budget, start: Seq<char>) -> Result<
    TraversalModel,
    E,
> {
    match walk(g, b, walk_from(start)) {
        Err(e) => Err(e),
        Ok(w) => Ok(
            TraversalModel {
                visited: seen_by(w),
                by_nodes: w.exists.len() < w.found.len(),
                by_depth: w.by_depth,
                by_bytes: w.by_bytes,
                total: w.total,
            },
        ),
    }
}

/// The source has an answer to "where does `id` lead".
pub open spec fn leads<S: NeighborSource>(source: &S, id: Seq<char>) -> bool {
    exists|r: Result<Seq<Seq<char>>, S::Error>| source.neighbors_rel(id, r)
}

/// The source has an answer to "how large is `id`".
pub open spec fn measures<S: NeighborSource>(source: &S, id: Seq<char>) -> bool {
    exists|r: Result<Option<usize>, S::Error>| source.size_rel(id, r)
}

/// The answers are possible answers of the source, wherever it has one.
pub open spec fn answers<S: NeighborSource>(source: &S, g: Graph<S::Error>) -> bool {
    &&& forall|id: Seq<char>| #[trigger]
        leads(source, id) ==> source.neighbors_rel(id, (g.nb)(id))
    &&& forall|id: Seq<char>| #[trigger] measures(source, id) ==> source.size_rel(id, (g.sz)(id))
}

// ---------------------------------------------------------------------
// Laws of the walk
// ---------------------------------------------------------------------

/// A walk over a source that never fails does not fail.
pub proof fn law_walks_fail_only_with_the_source<E>(g: Graph<E>, b: Budget, start: Seq<char>)
    requires
        forall|id: Seq<char>| (#[trigger] (g.nb)(id)) is Ok,
        forall|id: Seq<char>| (#[trigger] (g.sz)(id)) is Ok,
    ensures
        traversal(g, b, start) is Ok,
{
    lemma_walk_succeeds(g, b, walk_from(start));
}

proof fn lemma_walk_succeeds<E>(g: Graph<E>, b: Budget, w: Walk)
    requires
        forall|id: Seq<char>| (#[trigger] (g.nb)(id)) is Ok,
        forall|id: Seq<char>| (#[trigger] (g.sz)(id)) is Ok,
    ensures
        walk(g, b, w) is Ok,
    decreases b.max_graph_nodes - w.exists.len(),
{
    if w.exists.len() < w.found.len() && w.exists.len() < b.max_graph_nodes {
        let next = visit(g, b, w)->Ok_0;
        if next.exists.len() == w.exists.len() + 1 {
            lemma_walk_succeeds(g, b, next);
        }
    }
}

/// A visited concept other than the origin was led to by one visited before,
/// one hop nearer.
pub open spec fn led_to(found: Seq<FoundModel>, i: int, n: int) -> bool {
    exists|j: int|
        0 <= j < n && j < i && found[i].parent == Some((#[trigger] found[j]).id) && found[i].depth
            == found[j].depth + 1
}

/// What holds all along a walk from `start`.
pub open spec fn walk_ok(w: Walk, b: Budget, start: Seq<char>) -> bool {
    &&& 0 < w.found.len()
    &&& w.exists.len() <= w.found.len()
    &&& w.exists.len() <= b.max_graph_nodes
    &&& w.found[0] == FoundModel { id: start, depth: 0, parent: None }
    &&& forall|i: int, j: int|
        0 <= i < j < w.found.len() ==> (#[trigger] w.found[i]).id != (#[trigger] w.found[j]).id
    &&& forall|i: int| 0 <= i < w.found.len() ==> (#[trigger] w.found[i]).depth <= b.max_graph_depth
    &&& forall|i: int| 0 < i < w.found.len() ==> #[trigger] led_to(w.found, i, w.exists.len() as int)
}

proof fn lemma_discover(
    found: Seq<FoundModel>,
    ns: Seq<Seq<char>>,
    n: int,
    depth: nat,
    parent: Seq<char>,
)
    requires
        0 <= n <= ns.len(),
        forall|i: int, j: int|
            0 <= i < j < found.len() ==> (#[trigger] found[i]).id != (#[trigger] found[j]).id,
    ensures
        ({
            let f = discover(found, ns, n, depth, parent);
            &&& f.len() >= found.len()
            &&& forall|i: int| 0 <= i < found.len() ==> #[trigger] f[i] == found[i]
            &&& forall|i: int|
                found.len() <= i < f.len() ==> (#[trigger] f[i]).depth == depth && f[i].parent
                    == Some(parent)
            &&& forall|i: int, j: int|
                0 <= i < j < f.len() ==> (#[trigger] f[i]).id != (#[trigger] f[j]).id
        }),
    decreases n,
{
    if n > 0 {
        lemma_discover(found, ns, n - 1, depth, parent);
        let f0 = discover(found, ns, n - 1, depth, parent);
        let f = discover(found, ns, n, depth, parent);
        if !is_found(f0, ns[n - 1]) {
            assert forall|i: int, j: int| 0 <= i < j < f.len() implies (#[trigger] f[i]).id != (
            #[trigger] f[j]).id by {
                assert(f[i] == f0[i]);
                if j < f0.len() {
                    assert(f[j] == f0[j]);
                }
            }
        }
    }
}

proof fn lemma_visit_ok<E>(g: Graph<E>, b: Budget, w: Walk, start: Seq<char>)
    requires
        walk_ok(w, b, start),
        w.exists.len() < w.found.len(),
        w.exists.len() < b.max_graph_nodes,
    ensures
        match visit(g, b, w) {
            Ok(next) => walk_ok(next, b, start) && next.exists.len() == w.exists.len() + 1,
            Err(_) => true,
        },
{
    let n = w.exists.len() as int;
    let node = w.found[n];
    match visit(g, b, w) {
        Err(_) => {},
        Ok(next) => {
            match (g.nb)(node.id) {
                Ok(ns) => lemma_discover(
                    w.found,
                    ns,
                    ns.len() as int,
                    node.depth + 1,
                    node.id,
                ),
                Err(_) => {},
            }
            assert forall|i: int| 0 < i < next.found.len() implies #[trigger] led_to(
                next.found,
                i,
                n + 1,
            ) by {
                if i < w.found.len() {
                    assert(led_to(w.found, i, n));
                    let j = choose|j: int|
                        0 <= j < n && j < i && w.found[i].parent == Some(
                            (#[trigger] w.found[j]).id,
                        ) && w.found[i].depth == w.found[j].depth + 1;
                    assert(next.found[j] == w.found[j]);
                    assert(next.found[i] == w.found[i]);
                } else {
                    assert(next.found[n] == w.found[n]);
                }
            }
        },
    }
}

proof fn lemma_walk_ok<E>(g: Graph<E>, b: Budget, w: Walk, start: Seq<char>)
    requires
        walk_ok(w, b, start),
    ensures
        match walk(g, b, w) {
            Ok(end) => walk_ok(end, b, start) && (end.exists.len() < end.found.len()
                ==> end.exists.len() >= b.max_graph_nodes),
            Err(_) => true,
        },
    decreases b.max_graph_nodes - w.exists.len(),
{
    if w.exists.len() < w.found.len() && w.exists.len() < b.max_graph_nodes {
        lemma_visit_ok(g, b, w, start);
        match visit(g, b, w) {
            Ok(next) => lemma_walk_ok(g, b, next, start),
            Err(_) => {},
        }
    }
}

/// A traversal keeps its limits: at most the allowed number of concepts, none
/// deeper than allowed, none twice; the origin comes first and has no parent,
/// and every other concept was led to by an earlier one, one hop nearer, so
/// the parents form a tree.
pub open spec fn traversal_ok(t: TraversalModel, b: Budget, start: Seq<char>) -> bool {
    &&& t.visited.len() <= b.max_graph_nodes
    &&& forall|i: int| 0 <= i < t.visited.len() ==> (#[trigger] t.visited[i]).depth
        <= b.max_graph_depth
    &&& forall|i: int, j: int|
        0 <= i < j < t.visited.len() ==> (#[trigger] t.visited[i]).id != (
        #[trigger] t.visited[j]).id
    &&& t.visited.len() > 0 ==> t.visited[0].id == start && t.visited[0].parent is None
        && t.visited[0].depth == 0
    &&& forall|i: int|
        0 < i < t.visited.len() ==> exists|j: int|
            0 <= j < i && (#[trigger] t.visited[i]).parent == Some((#[trigger] t.visited[j]).id)
                && t.visited[i].depth == t.visited[j].depth + 1
    &&& t.by_nodes ==> t.visited.len() == b.max_graph_nodes
}

/// Every traversal, of any source, keeps its limits.
pub proof fn law_traversal_is_bounded<E>(g: Graph<E>, b: Budget, start: Seq<char>)
    ensures
        match traversal(g, b, start) {
            Ok(t) => traversal_ok(t, b, start),
            Err(_) => true,
        },
{
    let w0 = walk_from(start);
    lemma_walk_ok(g, b, w0, start);
    match walk(g, b, w0) {
        Ok(w) => {
            let t = traversal(g, b, start)->Ok_0;
            assert forall|i: int| 0 < i < t.visited.len() implies exists|j: int|
                0 <= j < i && (#[trigger] t.visited[i]).parent == Some(
                    (#[trigger] t.visited[j]).id,
                ) && t.visited[i].depth == t.visited[j].depth + 1 by {
                assert(led_to(w.found, i, w.exists.len() as int));
                let j = choose|j: int|
                    0 <= j < w.exists.len() && j < i && w.found[i].parent == Some(
                        (#[trigger] w.found[j]).id,
                    ) && w.found[i].depth == w.found[j].depth + 1;
                assert(t.visited[j].id == w.found[j].id);
            }
        },
        Err(_) => {},
    }
}

/// The document `p` is there and leads to `q`.
pub open spec fn leads_to<E>(g: Graph<E>, p: Seq<char>, q: Seq<char>) -> bool {
    &&& (g.sz)(p) is Ok
    &&& (g.sz)(p)->Ok_0 is Some
    &&& (g.nb)(p) is Ok
    &&& (g.nb)(p)->Ok_0.contains(q)
}

/// `id` is `hops` links away from `start`, by some way.
pub open spec fn reachable<E>(g: Graph<E>, start: Seq<char>, id: Seq<char>, hops: nat) -> bool
    decreases hops,
{
    if hops == 0 {
        id == start
    } else {
        exists|p: Seq<char>|
            reachable(g, start, p, (hops - 1) as nat) && #[trigger] leads_to(g, p, id)
    }
}

/// Found no further than `depth`.
pub open spec fn found_by(found: Seq<FoundModel>, id: Seq<char>, depth: nat) -> bool {
    exists|i: int| 0 <= i < found.len() && (#[trigger] found[i]).id == id && found[i].depth <= depth
}

/// All that the document `p`, at `depth`, leads to was found.
pub open spec fn followed<E>(g: Graph<E>, found: Seq<FoundModel>, p: FoundModel) -> bool {
    forall|q: Seq<char>| #[trigger] leads_to(g, p.id, q) ==> found_by(found, q, p.depth + 1)
}

/// What a walk keeps besides its limits: concepts come in order of distance,
/// at their shortest one, and as long as the bytes last every visited document
/// above the depth limit was followed.
pub open spec fn walk_near<E>(g: Graph<E>, b: Budget, w: Walk, start: Seq<char>) -> bool {
    &&& forall|i: int, j: int|
        0 <= i <= j < w.found.len() ==> (#[trigger] w.found[i]).depth <= (
        #[trigger] w.found[j]).depth
    &&& w.exists.len() < w.found.len() ==> w.found.last().depth
        <= w.found[w.exists.len() as int].depth + 1
    &&& forall|i: int|
        0 <= i < w.found.len() ==> reachable(
            g,
            start,
            (#[trigger] w.found[i]).id,
            w.found[i].depth,
        )
    &&& forall|i: int, k: nat|
        0 <= i < w.found.len() && k < w.found[i].depth ==> !#[trigger] reachable(
            g,
            start,
            w.found[i].id,
            k,
        )
    &&& w.total <= usize::MAX
    &&& w.by_bytes ==> w.total > b.max_response_bytes
    &&& !w.by_bytes ==> forall|i: int|
        0 <= i < w.exists.len() && (#[trigger] w.found[i]).depth < b.max_graph_depth ==> followed(
            g,
            w.found,
            w.found[i],
        )
}

/// Everything no further than the next concept to visit was found.
proof fn lemma_levels<E>(
    g: Graph<E>,
    b: Budget,
    w: Walk,
    start: Seq<char>,
    id: Seq<char>,
    k: nat,
)
    requires
        walk_ok(w, b, start),
        walk_near(g, b, w, start),
        !w.by_bytes,
        k <= b.max_graph_depth,
        w.exists.len() < w.found.len() ==> k <= w.found[w.exists.len() as int].depth,
        reachable(g, start, id, k),
    ensures
        found_by(w.found, id, k),
    decreases k,
{
    if k == 0 {
        assert(w.found[0].id == id);
    } else {
        let p = choose|p: Seq<char>|
            reachable(g, start, p, (k - 1) as nat) && #[trigger] leads_to(g, p, id);
        lemma_levels(g, b, w, start, p, (k - 1) as nat);
        let i = choose|i: int|
            0 <= i < w.found.len() && (#[trigger] w.found[i]).id == p && w.found[i].depth <= k - 1;
        let n = w.exists.len() as int;
        if i >= n {
            assert(w.found[n].depth <= w.found[i].depth);
        }
        assert(followed(g, w.found, w.found[i]));
        assert(leads_to(g, w.found[i].id, id));
        let j = choose|j: int|
            0 <= j < w.found.len() && (#[trigger] w.found[j]).id == id && w.found[j].depth
                <= w.found[i].depth + 1;
        assert(w.found[j].depth <= k);
    }
}

proof fn lemma_discover_all(
    found: Seq<FoundModel>,
    ns: Seq<Seq<char>>,
    n: int,
    depth: nat,
    parent: Seq<char>,
)
    requires
        0 <= n <= ns.len(),
    ensures
        ({
            let f = discover(found, ns, n, depth, parent);
            &&& f.len() >= found.len()
            &&& forall|i: int| 0 <= i < found.len() ==> #[trigger] f[i] == found[i]
            &&& forall|k: int| 0 <= k < n ==> is_found(f, #[trigger] ns[k])
            &&& forall|i: int|
                found.len() <= i < f.len() ==> ns.contains((#[trigger] f[i]).id) && !is_found(
                    found,
                    f[i].id,
                ) && f[i].depth == depth
        }),
    decreases n,
{
    if n > 0 {
        lemma_discover_all(found, ns, n - 1, depth, parent);
        let f0 = discover(found, ns, n - 1, depth, parent);
        let f = discover(found, ns, n, depth, parent);
        assert forall|k: int| 0 <= k < n implies is_found(f, #[trigger] ns[k]) by {
            if is_found(f0, ns[k]) {
                let i = choose|i: int| 0 <= i < f0.len() && (#[trigger] f0[i]).id == ns[k];
                assert(f[i] == f0[i]);
            } else {
                assert(k == n - 1);
                assert(f[f0.len() as int].id == ns[k]);
            }
        }
        assert forall|i: int| found.len() <= i < f.len() implies ns.contains(
            (#[trigger] f[i]).id,
        ) && !is_found(found, f[i].id) && f[i].depth == depth by {
            if i < f0.len() {
                assert(f[i] == f0[i]);
            } else {
                assert(f[i].id == ns[n - 1]);
                if is_found(found, ns[n - 1]) {
                    let j = choose|j: int|
                        0 <= j < found.len() && (#[trigger] found[j]).id == ns[n - 1];
                    assert(f0[j] == found[j]);
                }
            }
        }
    }
}

proof fn lemma_visit_near<E>(g: Graph<E>, b: Budget, w: Walk, start: Seq<char>)
    requires
        walk_ok(w, b, start),
        walk_near(g, b, w, start),
        w.exists.len() < w.found.len(),
        w.exists.len() < b.max_graph_nodes,
    ensures
        match visit(g, b, w) {
            Ok(next) => walk_near(g, b, next, start),
            Err(_) => true,
        },
{
    let n = w.exists.len() as int;
    let node = w.found[n];
    match visit(g, b, w) {
        Err(_) => {},
        Ok(next) => {
            let size = (g.sz)(node.id)->Ok_0;
            let over = total_with(w.total, size) > b.max_response_bytes;
            if size is Some && node.depth < b.max_graph_depth && !over {
                let ns = (g.nb)(node.id)->Ok_0;
                lemma_discover_all(w.found, ns, ns.len() as int, node.depth + 1, node.id);
                let f = next.found;
                assert(w.found.last().depth <= node.depth + 1);
                assert forall|i: int, j: int| 0 <= i <= j < f.len() implies (#[trigger] f[i]).depth
                    <= (#[trigger] f[j]).depth by {
                    if j >= w.found.len() && i < w.found.len() {
                        assert(w.found[i].depth <= w.found[w.found.len() - 1].depth);
                    }
                }
                if n + 1 < f.len() {
                    assert(f[n].depth <= f[n + 1].depth);
                    assert(f.last() == f[f.len() - 1]);
                    if f.len() == w.found.len() {
                        assert(f.last() == w.found.last());
                    }
                }
                assert forall|i: int| 0 <= i < f.len() implies reachable(
                    g,
                    start,
                    (#[trigger] f[i]).id,
                    f[i].depth,
                ) by {
                    if i >= w.found.len() {
                        assert(reachable(g, start, w.found[n].id, w.found[n].depth));
                        assert(leads_to(g, node.id, f[i].id));
                        assert((f[i].depth - 1) as nat == node.depth);
                    }
                }
                assert forall|i: int, k: nat| 0 <= i < f.len() && k < f[i].depth implies
                    !#[trigger] reachable(g, start, f[i].id, k) by {
                    if i >= w.found.len() {
                        if reachable(g, start, f[i].id, k) {
                            lemma_levels(g, b, w, start, f[i].id, k);
                            let j = choose|j: int|
                                0 <= j < w.found.len() && (#[trigger] w.found[j]).id == f[i].id
                                    && w.found[j].depth <= k;
                            assert(is_found(w.found, f[i].id));
                        }
                    } else {
                        assert(f[i] == w.found[i]);
                    }
                }
                if !next.by_bytes {
                    assert forall|i: int|
                        0 <= i < next.exists.len() && (#[trigger] f[i]).depth
                            < b.max_graph_depth implies followed(g, f, f[i]) by {
                        assert forall|q: Seq<char>| #[trigger] leads_to(
                            g,
                            f[i].id,
                            q,
                        ) implies found_by(f, q, f[i].depth + 1) by {
                            if i < n {
                                assert(f[i] == w.found[i]);
                                assert(followed(g, w.found, w.found[i]));
                                assert(leads_to(g, w.found[i].id, q));
                                let j = choose|j: int|
                                    0 <= j < w.found.len() && (#[trigger] w.found[j]).id == q
                                        && w.found[j].depth <= w.found[i].depth + 1;
                                assert(f[j] == w.found[j]);
                            } else {
                                let k = choose|k: int| 0 <= k < ns.len() && ns[k] == q;
                                assert(is_found(f, ns[k]));
                                let j = choose|j: int|
                                    0 <= j < f.len() && (#[trigger] f[j]).id == q;
                                assert(f[j].depth <= f[f.len() - 1].depth);
                                assert(f[f.len() - 1].depth <= node.depth + 1);
                            }
                        }
                    }
                }
            } else {
                assert(next.found == w.found);
                if n + 1 < w.found.len() {
                    assert(w.found[n].depth <= w.found[n + 1].depth);
                }
                if !next.by_bytes {
                    assert forall|i: int|
                        0 <= i < next.exists.len() && (#[trigger] next.found[i]).depth
                            < b.max_graph_depth implies followed(
                        g,
                        next.found,
                        next.found[i],
                    ) by {
                        if i < n {
                            assert(followed(g, w.found, w.found[i]));
                        }
                    }
                }
            }
        },
    }
}

proof fn lemma_walk_near<E>(g: Graph<E>, b: Budget, w: Walk, start: Seq<char>)
    requires
        walk_ok(w, b, start),
        walk_near(g, b, w, start),
    ensures
        match walk(g, b, w) {
            Ok(end) => walk_ok(end, b, start) && walk_near(g, b, end, start),
            Err(_) => true,
        },
    decreases b.max_graph_nodes - w.exists.len(),
{
    if w.exists.len() < w.found.len() && w.exists.len() < b.max_graph_nodes {
        lemma_visit_ok(g, b, w, start);
        lemma_visit_near(g, b, w, start);
        match visit(g, b, w) {
            Ok(next) => lemma_walk_near(g, b, next, start),
            Err(_) => {},
        }
    }
}

/// The depth of a visited concept is its shortest distance from the origin,
/// over links of documents that are there.
pub proof fn law_depths_are_shortest<E>(g: Graph<E>, b: Budget, start: Seq<char>, i: int)
    requires
        traversal(g, b, start) is Ok,
        0 <= i < traversal(g, b, start)->Ok_0.visited.len(),
    ensures
        ({
            let v = traversal(g, b, start)->Ok_0.visited[i];
            &&& reachable(g, start, v.id, v.depth)
            &&& forall|k: nat| k < v.depth ==> !#[trigger] reachable(g, start, v.id, k)
        }),
{
    let w0 = walk_from(start);
    lemma_walk_near(g, b, w0, start);
    let w = walk(g, b, w0)->Ok_0;
    assert(reachable(g, start, w.found[i].id, w.found[i].depth));
}

/// A traversal that neither the number of concepts nor the bytes cut short
/// visited every concept within the depth limit.
pub proof fn law_traversals_are_complete<E>(
    g: Graph<E>,
    b: Budget,
    start: Seq<char>,
    id: Seq<char>,
    hops: nat,
)
    requires
        traversal(g, b, start) is Ok,
        !traversal(g, b, start)->Ok_0.by_nodes,
        !traversal(g, b, start)->Ok_0.by_bytes,
        reachable(g, start, id, hops),
        hops <= b.max_graph_depth,
    ensures
        exists|i: int|
            0 <= i < traversal(g, b, start)->Ok_0.visited.len() && (#[trigger] traversal(
                g,
                b,
                start,
            )->Ok_0.visited[i]).id == id,
{
    let w0 = walk_from(start);
    lemma_walk_near(g, b, w0, start);
    let w = walk(g, b, w0)->Ok_0;
    lemma_levels(g, b, w, start, id, hops);
    let i = choose|i: int|
        0 <= i < w.found.len() && (#[trigger] w.found[i]).id == id && w.found[i].depth <= hops;
    assert(traversal(g, b, start)->Ok_0.visited[i].id == id);
}

// ---------------------------------------------------------------------
// The traversal itself
// ---------------------------------------------------------------------

struct Found {
    id: ConceptId,
    depth: u8,
    parent: Option<ConceptId>,
}

impl View for Found {
    type V = FoundModel;

    closed spec fn view(&self) -> FoundModel {
        FoundModel { id: self.id@, depth: self.depth as nat, parent: opt_view(self.parent) }
    }
}

fn is_found_in(found: &Vec<Found>, id: &ConceptId) -> (r: bool)
    ensures
        r == is_found(views(found@), id@),
{
    let mut i: usize = 0;
    while i < found.len()
        invariant
            i <= found.len(),
            forall|k: int| 0 <= k < i ==> (#[trigger] views(found@)[k]).id != id@,
        decreases found.len() - i,
    {
        if found[i].id.same(id) {
            assert(views(found@)[i as int].id == id@);
            return true;
        }
        i += 1;
    }
    false
}

fn discover_all(found: &mut Vec<Found>, ns: Vec<ConceptId>, depth: u8, parent: &ConceptId)
    ensures
        views(final(found)@) == discover(
            views(old(found)@),
            views(ns@),
            ns@.len() as int,
            depth as nat,
            parent@,
        ),
{
    let mut i: usize = 0;
    while i < ns.len()
        invariant
            i <= ns.len(),
            views(found@) == discover(
                views(old(found)@),
                views(ns@),
                i as int,
                depth as nat,
                parent@,
            ),
        decreases ns.len() - i,
    {
        assert(views(ns@)[i as int] == ns@[i as int]@);
        if !is_found_in(found, &ns[i]) {
            let f = Found { id: ns[i].clone(), depth, parent: Some(parent.clone()) };
            proof {
                lemma_views_push(found@, f);
            }
            found.push(f);
        }
        i += 1;
    }
}

/// The answers recorded during a walk.
ghost struct Answers<E> {
    nb: Map<Seq<char>, Result<Seq<Seq<char>>, E>>,
    sz: Map<Seq<char>, Result<Option<usize>, E>>,
}

spec fn agrees<E>(g: Graph<E>, a: Answers<E>) -> bool {
    &&& forall|k: Seq<char>| #[trigger] a.nb.dom().contains(k) ==> (g.nb)(k) == a.nb[k]
    &&& forall|k: Seq<char>| #[trigger] a.sz.dom().contains(k) ==> (g.sz)(k) == a.sz[k]
}

/// The recorded answers are answers of the source, about visited concepts.
spec fn recorded<S: NeighborSource>(source: &S, a: Answers<S::Error>, w: Walk, n: int) -> bool {
    &&& forall|k: Seq<char>| #[trigger]
        a.nb.dom().contains(k) ==> source.neighbors_rel(k, a.nb[k]) && (exists|i: int|
            0 <= i < n && (#[trigger] w.found[i]).id == k)
    &&& forall|k: Seq<char>| #[trigger]
        a.sz.dom().contains(k) ==> source.size_rel(k, a.sz[k]) && (exists|i: int|
            0 <= i < n && (#[trigger] w.found[i]).id == k)
}

/// The recorded answers, completed by any answers of the source.
spec fn completed<S: NeighborSource>(source: &S, a: Answers<S::Error>) -> Graph<S::Error> {
    Graph {
        nb: |id: Seq<char>|
            if a.nb.dom().contains(id) {
                a.nb[id]
            } else {
                choose|r: Result<Seq<Seq<char>>, S::Error>| source.neighbors_rel(id, r)
            },
        sz: |id: Seq<char>|
            if a.sz.dom().contains(id) {
                a.sz[id]
            } else {
                choose|r: Result<Option<usize>, S::Error>| source.size_rel(id, r)
            },
    }
}

proof fn lemma_completed<S: NeighborSource>(source: &S, a: Answers<S::Error>, w: Walk, n: int)
    requires
        recorded(source, a, w, n),
    ensures
        agrees(completed(source, a), a),
        answers(source, completed(source, a)),
{
    let g = completed(source, a);
    assert forall|id: Seq<char>| #[trigger] leads(source, id) implies source.neighbors_rel(
        id,
        (g.nb)(id),
    ) by {
        if a.nb.dom().contains(id) {
            assert(source.neighbors_rel(id, a.nb[id]));
        }
    }
    assert forall|id: Seq<char>| #[trigger] measures(source, id) implies source.size_rel(
        id,
        (g.sz)(id),
    ) by {
        if a.sz.dom().contains(id) {
            assert(source.size_rel(id, a.sz[id]));
        }
    }
}

/// Breadth-first traversal from `start` within a budget.
pub fn bounded_bfs<S: NeighborSource>(source: &S, start: &ConceptId, budget: &Budget) -> (r: Result<
    Traversal,
    S::Error,
>)
    ensures
        exists|g: Graph<S::Error>| #[trigger]
            answers(source, g) && match r {
                Ok(t) => traversal(g, *budget, start@) == Ok::<_, S::Error>(t@),
                Err(e) => traversal(g, *budget, start@) == Err::<TraversalModel, _>(e),
            },
        r is Ok ==> traversal_ok(r->Ok_0@, *budget, start@),
{
    let mut found: Vec<Found> = Vec::new();
    let origin = Found { id: start.clone(), depth: 0, parent: None };
    proof {
        lemma_views_push(found@, origin);
    }
    found.push(origin);
    let mut visited: Vec<Visited> = Vec::new();
    let mut by_depth: bool = false;
    let mut by_bytes: bool = false;
    let mut total: usize = 0;
    let ghost mut a: Answers<S::Error> = Answers { nb: Map::empty(), sz: Map::empty() };
    let ghost mut w: Walk = walk_from(start@);
    assert(views(found@) =~= w.found);
    assert(views(visited@) =~= seen_by(w));
    while visited.len() < found.len() && visited.len() < budget.max_graph_nodes
        invariant
            walk_ok(w, *budget, start@),
            w.found == views(found@),
            w.by_depth == by_depth,
            w.by_bytes == by_bytes,
            w.total == total,
            w.exists.len() == visited@.len(),
            views(visited@) == seen_by(w),
            recorded(source, a, w, w.exists.len() as int),
            forall|g: Graph<S::Error>| #[trigger]
                agrees(g, a) ==> walk(g, *budget, walk_from(start@)) == walk(g, *budget, w),
        decreases budget.max_graph_nodes - visited.len(),
    {
        let n = visited.len();
        let ghost w0 = w;
        let ghost a0 = a;
        assert(views(found@)[n as int] == found@[n as int]@);
        let id = found[n].id.clone();
        let depth = found[n].depth;
        let parent = match &found[n].parent {
            Some(p) => Some(p.clone()),
            None => None,
        };
        let ghost node = w.found[n as int];
        assert(!a0.sz.dom().contains(id@) && !a0.nb.dom().contains(id@)) by {
            if a0.sz.dom().contains(id@) || a0.nb.dom().contains(id@) {
                let i = choose|i: int| 0 <= i < n && (#[trigger] w.found[i]).id == id@;
                assert(w.found[i].id != w.found[n as int].id);
            }
        }
        let size = source.document_size(&id);
        proof {
            a = Answers { nb: a0.nb, sz: a0.sz.insert(id@, size) };
        }
        let size = match size {
            Err(e) => {
                proof {
                    let w1 = Walk { exists: w0.exists.push(false), ..w0 };
                    assert forall|k: Seq<char>| #[trigger] a.sz.dom().contains(k) implies (exists|
                        i: int,
                    |
                        0 <= i < n + 1 && (#[trigger] w.found[i]).id == k) by {
                        if k == id@ {
                            assert(w.found[n as int].id == k);
                        }
                    }
                    assert(recorded(source, a, w, n + 1));
                    lemma_completed(source, a, w, n + 1);
                    let g = completed(source, a);
                    assert(agrees(g, a0)) by {
                        assert forall|k: Seq<char>| #[trigger]
                            a0.sz.dom().contains(k) implies (g.sz)(k) == a0.sz[k] by {
                            assert(a.sz.dom().contains(k));
                        }
                        assert forall|k: Seq<char>| #[trigger]
                            a0.nb.dom().contains(k) implies (g.nb)(k) == a0.nb[k] by {
                            assert(a.nb.dom().contains(k));
                        }
                    }
                    assert(a.sz.dom().contains(id@));
                    assert(visit(g, *budget, w) == Err::<Walk, _>(e));
                    assert(traversal(g, *budget, start@) == Err::<TraversalModel, _>(e));
                }
                return Err(e);
            },
            Ok(s) => s,
        };
        let exists_doc = size.is_some();
        match size {
            Some(bytes) => {
                total = if bytes > usize::MAX - total {
                    usize::MAX
                } else {
                    total + bytes
                };
            },
            None => {},
        }
        let over = total > budget.max_response_bytes;
        if over {
            by_bytes = true;
        }
        let v = Visited { id: id.clone(), depth, exists: exists_doc, parent };
        proof {
            lemma_views_push(visited@, v);
        }
        visited.push(v);
        let ghost mut next: Walk = Walk {
            found: w0.found,
            exists: w0.exists.push(exists_doc),
            by_depth: w0.by_depth,
            by_bytes,
            total: total as nat,
        };
        if exists_doc && (depth >= budget.max_graph_depth || !over) {
            let answer = source.neighbors(&id);
            proof {
                a = Answers { nb: a0.nb.insert(id@, ids_result(answer)), sz: a.sz };
            }
            match answer {
                Err(e) => {
                    proof {
                        assert(recorded(source, a, w, n + 1)) by {
                            assert(w.found[n as int].id == id@);
                        }
                        lemma_completed(source, a, w, n + 1);
                        let g = completed(source, a);
                        assert(agrees(g, a0)) by {
                            assert forall|k: Seq<char>| #[trigger]
                                a0.sz.dom().contains(k) implies (g.sz)(k) == a0.sz[k] by {
                                assert(a.sz.dom().contains(k));
                            }
                            assert forall|k: Seq<char>| #[trigger]
                                a0.nb.dom().contains(k) implies (g.nb)(k) == a0.nb[k] by {
                                assert(a.nb.dom().contains(k));
                            }
                        }
                        assert(a.sz.dom().contains(id@));
                        assert(a.nb.dom().contains(id@));
                        assert((g.nb)(id@) == Err::<Seq<Seq<char>>, _>(e));
                        assert(visit(g, *budget, w) == Err::<Walk, _>(e));
                        assert(traversal(g, *budget, start@) == Err::<TraversalModel, _>(e));
                    }
                    return Err(e);
                },
                Ok(ns) => {
                    if depth >= budget.max_graph_depth {
                        if ns.len() > 0 {
                            by_depth = true;
                        }
                    } else {
                        discover_all(&mut found, ns, depth + 1, &id);
                    }
                    proof {
                        next = Walk { found: views(found@), by_depth, ..next };
                    }
                },
            }
        }
        proof {
            w = next;
            let ghost some_g = completed(source, a);
            assert forall|g: Graph<S::Error>| #[trigger] agrees(g, a) implies agrees(g, a0)
                && visit(g, *budget, w0) == Ok::<Walk, S::Error>(w) by {
                assert forall|k: Seq<char>| #[trigger] a0.sz.dom().contains(k) implies (g.sz)(k)
                    == a0.sz[k] by {
                    assert(a.sz.dom().contains(k));
                }
                assert forall|k: Seq<char>| #[trigger] a0.nb.dom().contains(k) implies (g.nb)(k)
                    == a0.nb[k] by {
                    assert(a.nb.dom().contains(k));
                }
                assert(a.sz.dom().contains(id@));
                if exists_doc && (depth >= budget.max_graph_depth || !over) {
                    assert(a.nb.dom().contains(id@));
                }
            }
            assert forall|k: int| 0 <= k < w0.found.len() implies w.found[k] == w0.found[k] by {
                match visit(some_g, *budget, w0) {
                    _ => {},
                }
                if exists_doc && !over && depth < budget.max_graph_depth {
                    match a.nb[id@] {
                        Ok(ns) => {
                            lemma_discover(
                                w0.found,
                                ns,
                                ns.len() as int,
                                node.depth + 1,
                                node.id,
                            );
                        },
                        Err(_) => {},
                    }
                }
            }
            assert(recorded(source, a, w, n + 1)) by {
                assert forall|k: Seq<char>| #[trigger] a.sz.dom().contains(k) implies (exists|
                    i: int,
                |
                    0 <= i < n + 1 && (#[trigger] w.found[i]).id == k) by {
                    if k == id@ {
                        assert(w.found[n as int].id == k);
                    } else {
                        assert(a0.sz.dom().contains(k));
                        let i = choose|i: int| 0 <= i < n && (#[trigger] w0.found[i]).id == k;
                        assert(w.found[i].id == k);
                    }
                }
                assert forall|k: Seq<char>| #[trigger] a.nb.dom().contains(k) implies (exists|
                    i: int,
                |
                    0 <= i < n + 1 && (#[trigger] w.found[i]).id == k) by {
                    if k == id@ {
                        assert(w.found[n as int].id == k);
                    } else {
                        assert(a0.nb.dom().contains(k));
                        let i = choose|i: int| 0 <= i < n && (#[trigger] w0.found[i]).id == k;
                        assert(w.found[i].id == k);
                    }
                }
            }
            lemma_completed(source, a, w, n + 1);
            lemma_visit_ok(some_g, *budget, w0, start@);
            assert(views(visited@) =~= seen_by(w));
        }
    }
    proof {
        lemma_completed(source, a, w, w.exists.len() as int);
        law_traversal_is_bounded(completed(source, a), *budget, start@);
    }
    let by_nodes = visited.len() < found.len();
    let t = Traversal {
        visited,
        truncated_by_nodes: by_nodes,
        truncated_by_depth: by_depth,
        truncated_by_bytes: by_bytes,
        total_bytes: total,
    };
    proof {
        let g = completed(source, a);
        assert(traversal(g, *budget, start@) == Ok::<_, S::Error>(t@));
    }
    Ok(t)
}

} // verus!
