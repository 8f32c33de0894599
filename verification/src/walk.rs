//! Walking a stage graph from its root, and what the walk arrives at.

use crate::execution::StageId;
use crate::graph::StageGraphView;
use crate::order::{ascending, lemma_ascending_lists};
use vstd::prelude::*;

verus! {

/// In a tree, a walk from the root reaches every stage.
pub proof fn lemma_tree_is_reached(
    graph: StageGraphView,
    rank: spec_fn(StageId) -> nat,
    reached: Set<StageId>,
    id: StageId,
)
    requires
        graph.wf(),
        graph.is_tree_by(rank),
        graph.closed_from_root(reached),
        graph.stages.contains_key(id),
    ensures
        reached.contains(id),
    decreases rank(id),
{
    if id != graph.root_stage_id {
        let p = choose|p: StageId| graph.has_edge(p, id);
        assert(graph.has_edge(p, id));
        assert(graph.stages.dom().contains(p));
        lemma_tree_is_reached(graph, rank, reached, p);
    }
}

/// A tree whose stages are numbered from the root down is a tree.
pub proof fn lemma_numbered_tree_is_tree(graph: StageGraphView)
    requires
        graph.is_numbered_tree(),
    ensures
        graph.is_tree(),
{
    assert(graph.is_tree_by(|id: StageId| id as nat));
}

/// What holds while the stages are walked from the root: `stack` holds the
/// stages that are still to be looked at, `visited` those that have been
/// reached, in the order in which they were.
pub open spec fn walking(graph: StageGraphView, stack: Seq<StageId>, visited: Seq<StageId>) -> bool {
    &&& visited.no_duplicates()
    &&& forall|i: int| 0 <= i < stack.len() ==> graph.stages.contains_key(#[trigger] stack[i])
    &&& forall|i: int| 0 <= i < visited.len() ==> graph.stages.contains_key(#[trigger] visited[i])
    &&& visited.contains(graph.root_stage_id) || stack.contains(graph.root_stage_id)
    &&& forall|p: StageId, c: StageId|
        visited.contains(p) && #[trigger] graph.has_edge(p, c) ==> visited.contains(c)
            || stack.contains(c)
    &&& forall|i: int|
        0 <= i < stack.len() ==> #[trigger] stack[i] == graph.root_stage_id || exists|k: int|
            0 <= k < visited.len() && graph.has_edge(visited[k], stack[i])
    &&& forall|j: int|
        0 <= j < visited.len() ==> #[trigger] visited[j] == graph.root_stage_id || exists|k: int|
            0 <= k < j && graph.has_edge(visited[k], visited[j])
}

/// A walk may start with the root on the stack.
pub proof fn lemma_walk_start(graph: StageGraphView)
    requires
        graph.wf(),
    ensures
        walking(graph, seq![graph.root_stage_id], Seq::empty()),
{
    let stack = seq![graph.root_stage_id];
    assert(stack[0] == graph.root_stage_id);
}

/// What the walk finds on the stack is a stage of the graph.
pub proof fn lemma_walk_meets_stage(
    graph: StageGraphView,
    stack: Seq<StageId>,
    visited: Seq<StageId>,
    s: StageId,
)
    requires
        graph.wf(),
        walking(graph, stack.push(s), visited),
    ensures
        graph.stages.contains_key(s),
        graph.child_edges.contains_key(s),
{
    assert(stack.push(s)[stack.len() as int] == s);
    assert(graph.stages.dom().contains(s));
}

/// The walk may drop from the stack a stage that it has been at.
pub proof fn lemma_walk_skip(
    graph: StageGraphView,
    stack: Seq<StageId>,
    visited: Seq<StageId>,
    s: StageId,
)
    requires
        walking(graph, stack.push(s), visited),
        visited.contains(s),
    ensures
        walking(graph, stack, visited),
{
    let before = stack.push(s);
    assert forall|i: int| 0 <= i < stack.len() implies graph.stages.contains_key(
        #[trigger] stack[i],
    ) && (stack[i] == graph.root_stage_id || exists|k: int|
        0 <= k < visited.len() && graph.has_edge(visited[k], stack[i])) by {
        assert(before[i] == stack[i]);
    }
    assert forall|c: StageId| before.contains(c) implies visited.contains(c) || stack.contains(
        c,
    ) by {
        let i = choose|i: int| 0 <= i < before.len() && before[i] == c;
        if i < stack.len() {
            assert(stack[i] == c);
        }
    }
}

/// The walk may visit a stage that it has not been at, and put the stages
/// that feed it on the stack in its place.
pub proof fn lemma_walk_visit(
    graph: StageGraphView,
    stack: Seq<StageId>,
    visited: Seq<StageId>,
    s: StageId,
    pushed: Seq<StageId>,
)
    requires
        graph.wf(),
        walking(graph, stack.push(s), visited),
        !visited.contains(s),
        graph.child_edges.contains_key(s),
        pushed.to_set() == graph.child_edges[s],
    ensures
        walking(graph, stack + pushed, visited.push(s)),
{
    let before = stack.push(s);
    let after = stack + pushed;
    let reached = visited.push(s);
    let last = visited.len() as int;
    assert(before[stack.len() as int] == s);
    assert(reached[last] == s);
    assert forall|i: int, j: int| 0 <= i < reached.len() && 0 <= j < reached.len() && i
        != j implies reached[i] != reached[j] by {
        if i == last {
            assert(visited[j] == reached[j]);
        } else if j == last {
            assert(visited[i] == reached[i]);
        }
    }
    assert forall|i: int| 0 <= i < after.len() implies graph.stages.contains_key(
        #[trigger] after[i],
    ) && (after[i] == graph.root_stage_id || exists|k: int|
        0 <= k < reached.len() && graph.has_edge(reached[k], after[i])) by {
        if i < stack.len() {
            assert(after[i] == before[i]);
            if after[i] != graph.root_stage_id {
                let k = choose|k: int|
                    0 <= k < visited.len() && graph.has_edge(visited[k], before[i]);
                assert(reached[k] == visited[k]);
            }
        } else {
            assert(after[i] == pushed[i - stack.len()]);
            assert(pushed.to_set().contains(after[i]));
            assert(graph.has_edge(reached[last], after[i]));
            assert(graph.parent_edges.dom().contains(after[i]));
        }
    }
    assert forall|j: int| 0 <= j < reached.len() implies graph.stages.contains_key(
        #[trigger] reached[j],
    ) && (reached[j] == graph.root_stage_id || exists|k: int|
        0 <= k < j && graph.has_edge(reached[k], reached[j])) by {
        if j < last {
            assert(reached[j] == visited[j]);
            if reached[j] != graph.root_stage_id {
                let k = choose|k: int| 0 <= k < j && graph.has_edge(visited[k], visited[j]);
                assert(reached[k] == visited[k]);
            }
        } else {
            if s != graph.root_stage_id {
                let k = choose|k: int|
                    0 <= k < visited.len() && graph.has_edge(visited[k], before[stack.len() as int]);
                assert(reached[k] == visited[k]);
            }
        }
    }
    assert forall|c: StageId| before.contains(c) || visited.contains(c) implies reached.contains(
        c,
    ) || after.contains(c) by {
        if visited.contains(c) {
            let j = choose|j: int| 0 <= j < visited.len() && visited[j] == c;
            assert(reached[j] == c);
        } else {
            let i = choose|i: int| 0 <= i < before.len() && before[i] == c;
            if i < stack.len() {
                assert(after[i] == c);
            }
        }
    }
    assert forall|p: StageId, c: StageId|
        reached.contains(p) && #[trigger] graph.has_edge(p, c) implies reached.contains(c)
            || after.contains(c) by {
        if visited.contains(p) {
            assert(visited.contains(c) || before.contains(c));
        } else {
            let j = choose|j: int| 0 <= j < reached.len() && reached[j] == p;
            if j < last {
                assert(visited[j] == p);
            }
            assert(p == s);
            assert(pushed.to_set().contains(c));
            let i = choose|i: int| 0 <= i < pushed.len() && pushed[i] == c;
            assert(after[stack.len() + i] == c);
        }
    }
}

/// When the stack is empty, the stages that the walk has been at, read
/// backwards, are in the order that scheduling needs.
pub proof fn lemma_walk_end(graph: StageGraphView, visited: Seq<StageId>)
    requires
        graph.wf(),
        walking(graph, Seq::empty(), visited),
    ensures
        visited.reverse().no_duplicates(),
        forall|id: StageId| visited.reverse().contains(id) ==> graph.stages.contains_key(id),
        graph.closed_from_root(visited.reverse().to_set()),
        graph.is_tree() ==> graph.lists_every_stage(visited.reverse()) && graph.children_first(
            visited.reverse(),
        ),
{
    let r = visited.reverse();
    let n = visited.len() as int;
    let none = Seq::<StageId>::empty();
    assert forall|i: int, j: int| 0 <= i < n && 0 <= j < n && i != j implies r[i] != r[j] by {
        assert(r[i] == visited[n - 1 - i] && r[j] == visited[n - 1 - j]);
    }
    assert forall|id: StageId| r.contains(id) <==> visited.contains(id) by {
        if r.contains(id) {
            let i = choose|i: int| 0 <= i < n && r[i] == id;
            assert(visited[n - 1 - i] == id);
        }
        if visited.contains(id) {
            let i = choose|i: int| 0 <= i < n && visited[i] == id;
            assert(r[n - 1 - i] == id);
        }
    }
    assert(r.to_set() =~= visited.to_set());
    assert(!none.contains(graph.root_stage_id));
    assert forall|p: StageId, c: StageId|
        visited.to_set().contains(p) && #[trigger] graph.has_edge(p, c) implies visited.to_set().contains(
        c,
    ) by {
        assert(visited.contains(c) || none.contains(c));
    }
    if graph.is_tree() {
        let rank = choose|rank: spec_fn(StageId) -> nat| graph.is_tree_by(rank);
        assert forall|id: StageId| graph.stages.contains_key(id) implies r.contains(id) by {
            lemma_tree_is_reached(graph, rank, r.to_set(), id);
        }
        assert forall|i: int, j: int|
            #![trigger r[i], r[j]]
            0 <= i < n && 0 <= j < n && graph.has_edge(r[i], r[j]) implies j < i by {
            let child = n - 1 - j;
            let parent = n - 1 - i;
            assert(r[j] == visited[child] && r[i] == visited[parent]);
            assert(visited[child] != graph.root_stage_id);
            let k = choose|k: int| 0 <= k < child && graph.has_edge(visited[k], visited[child]);
            assert(visited[k] == visited[parent]);
        }
    }
}

/// A list of distinct stages of a finite set is no longer than the set is
/// large.
pub proof fn lemma_distinct_stages_fit(stages: Set<StageId>, list: Seq<StageId>)
    requires
        stages.finite(),
        list.no_duplicates(),
        forall|i: int| 0 <= i < list.len() ==> stages.contains(#[trigger] list[i]),
    ensures
        list.len() <= stages.len(),
{
    list.unique_seq_to_set();
    assert(list.to_set().subset_of(stages)) by {
        assert forall|id: StageId| list.to_set().contains(id) implies stages.contains(id) by {
            let i = choose|i: int| 0 <= i < list.len() && list[i] == id;
        }
    }
    vstd::set_lib::lemma_len_subset(list.to_set(), stages);
}

/// A walk that has kept to the rules so far keeps to them to its end.
pub proof fn lemma_walk_keeps(graph: StageGraphView, stack: Seq<StageId>, visited: Seq<StageId>)
    requires
        graph.wf(),
        walking(graph, stack, visited),
    ensures
        walking(graph, Seq::empty(), graph.walk(stack, visited)),
    decreases graph.stages.dom().difference(visited.to_set()).len(), stack.len(),
{
    if stack.len() == 0 {
        assert(stack =~= Seq::empty());
    } else {
        let top = stack.last();
        let rest = stack.drop_last();
        assert(stack =~= rest.push(top));
        assert(graph.stages.contains_key(stack[stack.len() - 1]));
        if visited.contains(top) {
            lemma_walk_skip(graph, rest, visited, top);
            lemma_walk_keeps(graph, rest, visited);
        } else {
            lemma_walk_meets_stage(graph, rest, visited, top);
            let pushed = ascending(graph.child_edges[top]);
            lemma_ascending_lists(graph.child_edges[top]);
            assert(pushed.to_set() =~= graph.child_edges[top]);
            lemma_walk_visit(graph, rest, visited, top, pushed);
            let left = graph.stages.dom().difference(visited.to_set());
            assert(left.contains(top));
            assert(graph.stages.dom().difference(visited.push(top).to_set()) =~= left.remove(top))
                by {
                visited.lemma_push_to_set_commute(top);
            }
            lemma_walk_keeps(graph, rest + pushed, visited.push(top));
        }
    }
}

/// The order in which a graph's stages are to be scheduled holds each stage
/// that a walk from the root reaches once, and no other. In a tree these
/// are all the stages, and each of them comes after the stages that feed it.
pub proof fn lemma_topo_order(graph: StageGraphView)
    requires
        graph.wf(),
    ensures
        graph.topo_order().no_duplicates(),
        forall|id: StageId| graph.topo_order().contains(id) ==> graph.stages.contains_key(id),
        graph.closed_from_root(graph.topo_order().to_set()),
        graph.is_tree() ==> graph.lists_every_stage(graph.topo_order()) && graph.children_first(
            graph.topo_order(),
        ),
{
    lemma_walk_start(graph);
    lemma_walk_keeps(graph, seq![graph.root_stage_id], Seq::empty());
    lemma_walk_end(graph, graph.walk(seq![graph.root_stage_id], Seq::empty()));
}

} // verus!
