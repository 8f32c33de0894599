//! The graph of a query's stages: the stages by their identifiers, and the
//! edges between them in both directions.

use crate::error::FragmenterError;
use crate::execution::StageId;
use crate::order::{
    ascending, insert_in_order, lemma_is_ascending, lists_in_order, members_in_order,
};
use crate::query_id::QueryId;
use crate::stage::{QueryStageRef, QueryStageView};
use std::collections::{HashMap, HashSet};
use vstd::prelude::*;
use crate::walk::{
    lemma_distinct_stages_fit, lemma_walk_end, lemma_walk_meets_stage, lemma_walk_skip,
    lemma_walk_start, lemma_walk_visit, walking,
};
use vstd::std_specs::iter::IteratorSpec;

verus! {

broadcast use vstd::std_specs::hash::group_hash_axioms;

/// What a table of stages holds: each stage's content by its key.
pub open spec fn stages_view(stages: HashMap<StageId, QueryStageRef>) -> Map<
    StageId,
    QueryStageView,
> {
    Map::new(|id: StageId| stages@.contains_key(id), |id: StageId| stages@[id]@)
}

/// What a table of edges holds: the set of neighbours of each key.
pub open spec fn edges_view(edges: HashMap<StageId, HashSet<StageId>>) -> Map<
    StageId,
    Set<StageId>,
> {
    Map::new(|id: StageId| edges@.contains_key(id), |id: StageId| edges@[id]@)
}

/// Whether three tables make up a graph: they have the same keys, finitely
/// many, each stage stands under its own identifier and is fed by finitely
/// many stages, every edge joins two stages of the graph, and the edge from
/// `p` down to `c` is there exactly if the edge from `c` up to `p` is.
pub open spec fn is_graph(
    stages: Map<StageId, QueryStageView>,
    child_edges: Map<StageId, Set<StageId>>,
    parent_edges: Map<StageId, Set<StageId>>,
) -> bool {
    &&& stages.dom().finite()
    &&& stages.dom() == child_edges.dom()
    &&& stages.dom() == parent_edges.dom()
    &&& forall|id: StageId| #[trigger] stages.contains_key(id) ==> stages[id].id == id
    &&& forall|id: StageId| #[trigger] child_edges.contains_key(id) ==> child_edges[id].finite()
    &&& forall|p: StageId, c: StageId|
        child_edges.contains_key(p) && #[trigger] child_edges[p].contains(c)
            ==> parent_edges.contains_key(c) && parent_edges[c].contains(p)
    &&& forall|p: StageId, c: StageId|
        parent_edges.contains_key(c) && #[trigger] parent_edges[c].contains(p)
            ==> child_edges.contains_key(p) && child_edges[p].contains(c)
}

/// What a [`StageGraphBuilder`] holds.
pub struct StageGraphBuilderView {
    pub stages: Map<StageId, QueryStageView>,
    pub child_edges: Map<StageId, Set<StageId>>,
    pub parent_edges: Map<StageId, Set<StageId>>,
}

impl StageGraphBuilderView {
    /// The builder that holds nothing.
    pub open spec fn empty() -> Self {
        StageGraphBuilderView {
            stages: Map::empty(),
            child_edges: Map::empty(),
            parent_edges: Map::empty(),
        }
    }

    /// The three tables make up a graph.
    pub open spec fn wf(self) -> bool {
        is_graph(self.stages, self.child_edges, self.parent_edges)
    }

    /// Whether a stage with this identifier has been added.
    pub open spec fn contains(self, id: StageId) -> bool {
        self.stages.contains_key(id)
    }

    /// The builder with `stage` in it, and no edge at that stage yet.
    pub open spec fn add_node(self, stage: QueryStageView) -> Self {
        StageGraphBuilderView {
            stages: self.stages.insert(stage.id, stage),
            child_edges: self.child_edges.insert(stage.id, Set::empty()),
            parent_edges: self.parent_edges.insert(stage.id, Set::empty()),
        }
    }

    /// The builder with the edge between `parent_id` and `child_id` in it,
    /// in both directions.
    pub open spec fn link_to_child(self, parent_id: StageId, child_id: StageId) -> Self {
        StageGraphBuilderView {
            stages: self.stages,
            child_edges: self.child_edges.insert(
                parent_id,
                self.child_edges[parent_id].insert(child_id),
            ),
            parent_edges: self.parent_edges.insert(
                child_id,
                self.parent_edges[child_id].insert(parent_id),
            ),
        }
    }

    /// The graph of what has been added, with the given root.
    pub open spec fn build(self, root_stage_id: StageId) -> StageGraphView {
        StageGraphView {
            root_stage_id,
            stages: self.stages,
            child_edges: self.child_edges,
            parent_edges: self.parent_edges,
        }
    }
}

/// What a [`StageGraph`] holds.
pub struct StageGraphView {
    pub root_stage_id: StageId,
    pub stages: Map<StageId, QueryStageView>,
    pub child_edges: Map<StageId, Set<StageId>>,
    pub parent_edges: Map<StageId, Set<StageId>>,
}

impl StageGraphView {
    /// The three tables make up a graph, and the root is one of its stages.
    pub open spec fn wf(self) -> bool {
        &&& is_graph(self.stages, self.child_edges, self.parent_edges)
        &&& self.stages.contains_key(self.root_stage_id)
    }

    /// Whether there is an edge from `parent_id` down to `child_id`.
    pub open spec fn has_edge(self, parent_id: StageId, child_id: StageId) -> bool {
        self.child_edges.contains_key(parent_id) && self.child_edges[parent_id].contains(child_id)
    }

    /// Whether the graph is a tree below its root, and `rank` shows that it
    /// has no cycle: the rank grows along every edge from a stage to a stage
    /// that feeds it, the root feeds no stage, and every other stage feeds
    /// exactly one.
    pub open spec fn is_tree_by(self, rank: spec_fn(StageId) -> nat) -> bool {
        &&& forall|p: StageId, c: StageId| #[trigger] self.has_edge(p, c) ==> rank(p) < rank(c)
        &&& forall|p: StageId| !#[trigger] self.has_edge(p, self.root_stage_id)
        &&& forall|c: StageId|
            #![trigger self.stages.contains_key(c)]
            self.stages.contains_key(c) && c != self.root_stage_id ==> exists|p: StageId|
                self.has_edge(p, c)
        &&& forall|p: StageId, q: StageId, c: StageId|
            #![trigger self.has_edge(p, c), self.has_edge(q, c)]
            self.has_edge(p, c) && self.has_edge(q, c) ==> p == q
    }

    /// Whether the graph is a tree below its root.
    pub open spec fn is_tree(self) -> bool {
        exists|rank: spec_fn(StageId) -> nat| self.is_tree_by(rank)
    }

    /// Whether the graph is a tree below its root in which the stages are
    /// numbered from the root down: every stage has a smaller identifier
    /// than the stages that feed it.
    pub open spec fn is_numbered_tree(self) -> bool {
        self.is_tree_by(|id: StageId| id as nat)
    }

    /// Whether `order` lists every stage once.
    pub open spec fn lists_every_stage(self, order: Seq<StageId>) -> bool {
        &&& order.no_duplicates()
        &&& forall|id: StageId| order.contains(id) <==> self.stages.contains_key(id)
    }

    /// Whether in `order` every stage stands after the stages that feed it.
    pub open spec fn children_first(self, order: Seq<StageId>) -> bool {
        forall|i: int, j: int|
            #![trigger order[i], order[j]]
            0 <= i < order.len() && 0 <= j < order.len() && self.has_edge(order[i], order[j]) ==> j
                < i
    }

    /// Where a walk over the stages ends that has `stack` still to look at
    /// and has been at `visited`. The walk looks at the top of the stack. A
    /// stage that it has not been at is visited, and the stages that feed it
    /// go on the stack, the least at the bottom.
    pub open spec fn walk(self, stack: Seq<StageId>, visited: Seq<StageId>) -> Seq<StageId>
        decreases self.stages.dom().difference(visited.to_set()).len(), stack.len(),
        when self.stages.dom().finite()
    {
        if stack.len() == 0 {
            visited
        } else {
            let top = stack.last();
            if visited.contains(top) || !self.stages.contains_key(top) {
                self.walk(stack.drop_last(), visited)
            } else {
                proof {
                    let left = self.stages.dom().difference(visited.to_set());
                    assert(left.contains(top));
                    assert(self.stages.dom().difference(visited.push(top).to_set()) =~= left.remove(
                        top,
                    )) by {
                        visited.lemma_push_to_set_commute(top);
                    }
                }
                self.walk(
                    stack.drop_last() + ascending(self.child_edges[top]),
                    visited.push(top),
                )
            }
        }
    }

    /// The stages that a walk from the root reaches, the root last.
    pub open spec fn topo_order(self) -> Seq<StageId> {
        self.walk(seq![self.root_stage_id], Seq::empty()).reverse()
    }

    /// The stages that no stage feeds.
    pub open spec fn leaves(self) -> Set<StageId> {
        Set::new(|id: StageId| self.is_leaf(id))
    }

    /// Whether `id` is a stage that no stage feeds.
    pub open spec fn is_leaf(self, id: StageId) -> bool {
        self.child_edges.contains_key(id) && self.child_edges[id].is_empty()
    }

    /// Whether a walk from the root along the edges to children stays
    /// inside `reached`.
    pub open spec fn closed_from_root(self, reached: Set<StageId>) -> bool {
        &&& reached.contains(self.root_stage_id)
        &&& forall|p: StageId, c: StageId|
            reached.contains(p) && #[trigger] self.has_edge(p, c) ==> reached.contains(c)
    }
}

/// Collects stages and the edges between them, keeping the two directions
/// of every edge in step.
pub struct StageGraphBuilder {
    stages: HashMap<StageId, QueryStageRef>,
    child_edges: HashMap<StageId, HashSet<StageId>>,
    parent_edges: HashMap<StageId, HashSet<StageId>>,
}

impl View for StageGraphBuilder {
    type V = StageGraphBuilderView;

    closed spec fn view(&self) -> StageGraphBuilderView {
        StageGraphBuilderView {
            stages: stages_view(self.stages),
            child_edges: edges_view(self.child_edges),
            parent_edges: edges_view(self.parent_edges),
        }
    }
}

impl StageGraphBuilder {
    /// The invariant of the builder.
    pub open spec fn wf(&self) -> bool {
        self@.wf()
    }

    /// A builder with no stage in it.
    pub fn new() -> (r: Self)
        ensures
            r@ == StageGraphBuilderView::empty(),
            r.wf(),
    {
        let r = StageGraphBuilder {
            stages: HashMap::new(),
            child_edges: HashMap::new(),
            parent_edges: HashMap::new(),
        };
        assert(r@.stages =~= Map::empty());
        assert(r@.child_edges =~= Map::empty());
        assert(r@.parent_edges =~= Map::empty());
        r
    }

    /// Whether a stage with this identifier has been added.
    pub fn contains(&self, stage_id: StageId) -> (r: bool)
        ensures
            r == self@.contains(stage_id),
    {
        self.stages.contains_key(&stage_id)
    }

    /// Hands the stages over as a graph rooted at `root_stage_id`. Fails if
    /// no stage with that identifier has been added.
    pub fn build(self, root_stage_id: StageId) -> (r: Result<StageGraph, FragmenterError>)
        requires
            self.wf(),
        ensures
            match r {
                Ok(graph) => self@.contains(root_stage_id) && graph@ == self@.build(root_stage_id)
                    && graph.wf(),
                Err(e) => !self@.contains(root_stage_id) && e == FragmenterError::MissingStageId(
                    root_stage_id,
                ),
            },
    {
        if !self.stages.contains_key(&root_stage_id) {
            return Err(FragmenterError::MissingStageId(root_stage_id));
        }
        Ok(
            StageGraph {
                root_stage_id,
                stages: self.stages,
                child_edges: self.child_edges,
                parent_edges: self.parent_edges,
            },
        )
    }

    /// Links a parent stage and a child stage, in both directions. Linking
    /// them again changes nothing. Fails, and changes nothing, if one of the
    /// two has not been added; of two missing stages the parent is named.
    pub fn link_to_child(&mut self, parent_id: StageId, child_id: StageId) -> (r: Result<
        (),
        FragmenterError,
    >)
        requires
            old(self).wf(),
        ensures
            final(self).wf(),
            match r {
                Ok(_) => old(self)@.contains(parent_id) && old(self)@.contains(child_id)
                    && final(self)@ == old(self)@.link_to_child(parent_id, child_id),
                Err(e) => final(self)@ == old(self)@ && if !old(self)@.contains(parent_id) {
                    e == FragmenterError::MissingStageId(parent_id)
                } else {
                    !old(self)@.contains(child_id) && e == FragmenterError::MissingStageId(child_id)
                },
            },
    {
        if !self.stages.contains_key(&parent_id) {
            return Err(FragmenterError::MissingStageId(parent_id));
        }
        if !self.stages.contains_key(&child_id) {
            return Err(FragmenterError::MissingStageId(child_id));
        }
        let ghost before = self@;
        assert(before.child_edges.contains_key(parent_id));
        assert(before.parent_edges.contains_key(child_id));
        let mut children = self.child_edges.remove(&parent_id).unwrap();
        children.insert(child_id);
        self.child_edges.insert(parent_id, children);
        let mut parents = self.parent_edges.remove(&child_id).unwrap();
        parents.insert(parent_id);
        self.parent_edges.insert(child_id, parents);
        assert(self@.child_edges =~= before.link_to_child(parent_id, child_id).child_edges);
        assert(self@.parent_edges =~= before.link_to_child(parent_id, child_id).parent_edges);
        Ok(())
    }

    /// Adds a stage, with no edge yet in either direction. Fails, and
    /// changes nothing, if a stage with the same identifier is there
    /// already.
    pub fn add_node(&mut self, stage: QueryStageRef) -> (r: Result<(), FragmenterError>)
        requires
            old(self).wf(),
        ensures
            final(self).wf(),
            match r {
                Ok(_) => !old(self)@.contains(stage.id) && final(self)@ == old(self)@.add_node(
                    stage@,
                ),
                Err(e) => old(self)@.contains(stage.id) && final(self)@ == old(self)@ && e
                    == FragmenterError::DuplicateStageId(stage.id),
            },
    {
        let id = stage.id;
        if self.stages.contains_key(&id) {
            return Err(FragmenterError::DuplicateStageId(id));
        }
        let ghost before = self@;
        // Insert here so that leaf and root stages also have linkage.
        self.child_edges.insert(id, HashSet::new());
        self.parent_edges.insert(id, HashSet::new());
        self.stages.insert(id, stage);
        assert(self@.stages =~= before.add_node(stage@).stages);
        assert(self@.child_edges =~= before.add_node(stage@).child_edges);
        assert(self@.parent_edges =~= before.add_node(stage@).parent_edges);
        Ok(())
    }
}

/// How the stages of a query are connected.
#[derive(Debug)]
pub struct StageGraph {
    pub root_stage_id: StageId,
    pub stages: HashMap<StageId, QueryStageRef>,
    /// From a stage down to the stages that feed it.
    child_edges: HashMap<StageId, HashSet<StageId>>,
    /// From a stage up to the stages that it feeds.
    parent_edges: HashMap<StageId, HashSet<StageId>>,
}

impl View for StageGraph {
    type V = StageGraphView;

    closed spec fn view(&self) -> StageGraphView {
        StageGraphView {
            root_stage_id: self.root_stage_id,
            stages: stages_view(self.stages),
            child_edges: edges_view(self.child_edges),
            parent_edges: edges_view(self.parent_edges),
        }
    }
}

/// The items of `items` from the last to the first.
fn reversed(items: &Vec<StageId>) -> (r: Vec<StageId>)
    ensures
        r@ == items@.reverse(),
{
    let mut r: Vec<StageId> = Vec::with_capacity(items.len());
    let mut i: usize = items.len();
    while i > 0
        invariant
            i <= items.len(),
            r@.len() == items.len() - i,
            forall|j: int| 0 <= j < r@.len() ==> r@[j] == items@[items.len() - 1 - j],
        decreases i,
    {
        i = i - 1;
        r.push(items[i]);
    }
    assert(r@ =~= items@.reverse());
    r
}

impl StageGraph {
    /// The invariant of the graph.
    pub open spec fn wf(&self) -> bool {
        self@.wf()
    }

    /// The stage with the given identifier, which must be in the graph.
    pub fn get_stage_unchecked(&self, stage_id: &StageId) -> (r: QueryStageRef)
        requires
            self@.stages.contains_key(*stage_id),
        ensures
            r@ == self@.stages[*stage_id],
    {
        self.stages.get(stage_id).unwrap().clone()
    }

    /// The stages that feed the stage with the given identifier, which must
    /// be in the graph.
    pub fn get_child_stages_unchecked(&self, stage_id: &StageId) -> (r: &HashSet<StageId>)
        requires
            self@.child_edges.contains_key(*stage_id),
        ensures
            r@ == self@.child_edges[*stage_id],
    {
        self.child_edges.get(stage_id).unwrap()
    }

    /// The stages that a walk from the root reaches, each once and each
    /// after the stages that the walk reached it from. In a tree these are
    /// all the stages, and every stage comes after the stages that feed it,
    /// so that stages can be scheduled in this order.
    pub fn stage_ids_by_topo_order(&self) -> (r: Vec<StageId>)
        requires
            self.wf(),
        ensures
            r@ == self@.topo_order(),
            r@.no_duplicates(),
            forall|id: StageId| r@.contains(id) ==> self@.stages.contains_key(id),
            self@.closed_from_root(r@.to_set()),
            self@.is_tree() ==> self@.lists_every_stage(r@) && self@.children_first(r@),
    {
        let ghost graph = self@;
        let mut stack: Vec<StageId> = Vec::with_capacity(self.stages.len());
        stack.push(self.root_stage_id);
        let mut ret: Vec<StageId> = Vec::with_capacity(self.stages.len());
        let mut existing: HashSet<StageId> = HashSet::with_capacity(self.stages.len());
        proof {
            assert(self.stages@.dom() =~= graph.stages.dom());
            assert(stack@ =~= seq![graph.root_stage_id]);
            assert(ret@.to_set() =~= Set::empty());
            lemma_walk_start(graph);
        }
        let ghost end = graph.walk(stack@, ret@);
        loop
            invariant
                graph == self@,
                graph.walk(stack@, ret@) == end,
                graph.wf(),
                self.stages@.dom() == graph.stages.dom(),
                existing@ == ret@.to_set(),
                walking(graph, stack@, ret@),
                ret@.len() <= self.stages.len(),
            ensures
                stack@.len() == 0,
            decreases self.stages.len() - ret@.len(), stack@.len(),
        {
            let ghost stack_before = stack@;
            let s = match stack.pop() {
                None => {
                    break ;
                },
                Some(s) => s,
            };
            assert(stack_before =~= stack@.push(s));
            if !existing.contains(&s) {
                proof {
                    lemma_walk_meets_stage(graph, stack@, ret@, s);
                }
                let ghost below = stack@;
                let mut children = members_in_order(self.child_edges.get(&s).unwrap());
                let ghost pushed = children@;
                stack.append(&mut children);
                proof {
                    assert(stack_before.last() == s);
                    assert(stack_before.drop_last() =~= below);
                    assert(pushed.to_set() =~= graph.child_edges[s]);
                    lemma_walk_visit(graph, below, ret@, s, pushed);
                    lemma_distinct_stages_fit(graph.stages.dom(), ret@.push(s));
                    ret@.lemma_push_to_set_commute(s);
                }
                ret.push(s);
                existing.insert(s);
            } else {
                proof {
                    assert(stack_before.last() == s);
                    assert(stack_before.drop_last() =~= stack@);
                    lemma_walk_skip(graph, stack@, ret@, s);
                }
            }
        }
        let r = reversed(&ret);
        proof {
            assert(stack@ =~= Seq::empty());
            lemma_walk_end(graph, ret@);
        }
        r
    }
}

/// What a [`Query`] holds.
pub struct QueryView {
    pub query_id: Seq<char>,
    pub stage_graph: StageGraphView,
}

/// A query cut into stages, ready to be scheduled.
#[derive(Debug)]
pub struct Query {
    /// Unique among all queries.
    pub query_id: QueryId,
    pub stage_graph: StageGraph,
}

impl View for Query {
    type V = QueryView;

    open spec fn view(&self) -> QueryView {
        QueryView { query_id: self.query_id@, stage_graph: self.stage_graph@ }
    }
}

/// What a result of splitting holds.
pub open spec fn result_view(r: Result<Query, FragmenterError>) -> Result<
    QueryView,
    FragmenterError,
> {
    match r {
        Ok(query) => Ok(query@),
        Err(e) => Err(e),
    }
}

impl Query {
    /// The invariant of the query: that of its graph.
    pub open spec fn wf(&self) -> bool {
        self.stage_graph.wf()
    }

    /// The stages that no stage feeds, from the least identifier to the
    /// greatest.
    pub fn leaf_stages(&self) -> (r: Vec<StageId>)
        requires
            self.wf(),
        ensures
            r@ == ascending(self@.stage_graph.leaves()),
            lists_in_order(r@, self@.stage_graph.leaves()),
    {
        let ghost graph = self.stage_graph@;
        let ghost keys = self.stage_graph.stages.keys().remaining().unref();
        let mut ret_leaf_stages: Vec<StageId> = Vec::new();
        proof {
            assert(self.stage_graph.stages@.dom() =~= graph.stages.dom());
        }
        for stage_id in iter: self.stage_graph.stages.keys()
            invariant
                graph == self.stage_graph@,
                graph.wf(),
                keys == iter.seq().unref(),
                keys.to_set() == graph.stages.dom(),
                lists_in_order(
                    ret_leaf_stages@,
                    Set::new(
                        |id: StageId| keys.take(iter.index()).contains(id) && graph.is_leaf(id),
                    ),
                ),
        {
            let ghost before = ret_leaf_stages@;
            let ghost at = iter.index();
            assert(keys[at] == *stage_id);
            assert(keys.to_set().contains(*stage_id));
            assert(graph.child_edges.dom().contains(*stage_id));
            assert(keys.take(at + 1) =~= keys.take(at).push(*stage_id));
            if self.stage_graph.get_child_stages_unchecked(stage_id).is_empty() {
                insert_in_order(&mut ret_leaf_stages, *stage_id);
            }
            proof {
                let seen = keys.take(at + 1);
                assert forall|id: StageId| ret_leaf_stages@.contains(id) <==> (seen.contains(id)
                    && graph.is_leaf(id)) by {
                    assert(before.to_set().contains(id) <==> before.contains(id));
                    assert(before.contains(id) <==> keys.take(at).contains(id) && graph.is_leaf(
                        id,
                    ));
                    if keys.take(at).contains(id) {
                        let i = choose|i: int| 0 <= i < at && keys.take(at)[i] == id;
                        assert(seen[i] == id);
                    }
                    if seen.contains(id) && id != *stage_id {
                        let i = choose|i: int| 0 <= i < at + 1 && seen[i] == id;
                        assert(keys.take(at)[i] == id);
                    }
                    if id == *stage_id {
                        assert(seen[at] == id);
                    }
                }
            }
        }
        proof {
            assert(keys.take(keys.len() as int) =~= keys);
            assert forall|id: StageId| ret_leaf_stages@.contains(id) <==> graph.leaves().contains(
                id,
            ) by {
                if graph.is_leaf(id) {
                    assert(graph.stages.dom().contains(id));
                    assert(keys.to_set().contains(id));
                }
            }
            lemma_is_ascending(ret_leaf_stages@, graph.leaves());
        }
        ret_leaf_stages
    }

    /// The stages that the stage with the given identifier feeds, or an
    /// error that names the identifier if no such stage is in the query.
    pub fn get_parents(&self, stage_id: &StageId) -> (r: Result<&HashSet<StageId>, FragmenterError>)
        ensures
            match r {
                Ok(parents) => self@.stage_graph.parent_edges.contains_key(*stage_id) && parents@
                    == self@.stage_graph.parent_edges[*stage_id],
                Err(e) => !self@.stage_graph.parent_edges.contains_key(*stage_id) && e
                    == FragmenterError::MissingStageId(*stage_id),
            },
    {
        match self.stage_graph.parent_edges.get(stage_id) {
            Some(parents) => Ok(parents),
            None => Err(FragmenterError::MissingStageId(*stage_id)),
        }
    }

    /// The identifier of the stage that puts out the query's result.
    pub fn root_stage_id(&self) -> (r: StageId)
        ensures
            r == self@.stage_graph.root_stage_id,
    {
        self.stage_graph.root_stage_id
    }
}

} // verus!
