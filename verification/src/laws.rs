//! What holds of every stage graph that comes out of a plan.

use crate::error::FragmenterError;
use crate::execution::StageId;
use crate::graph::{result_view, Query, StageGraphView};
use crate::model::{
    fault, in_range, is_parent_table, lemma_parents_below, lemma_stage_trees, lemma_stages_below,
    parents_below, split_of, stage_graph_of, stage_tree, stages_below, stages_below_inputs,
    stages_of,
};
use crate::plan::{exchanges_in, DistributionView, ExchangeInfoView, PlanNodeView};
use crate::walk::{lemma_numbered_tree_is_tree, lemma_topo_order};
use vstd::prelude::*;

verus! {

/// In a graph that is well formed, the edge from a parent down to a child is
/// there exactly if the edge from the child up to the parent is.
pub proof fn lemma_edges_agree(graph: StageGraphView, parent_id: StageId, child_id: StageId)
    requires
        graph.wf(),
    ensures
        graph.child_edges.contains_key(parent_id) && graph.child_edges[parent_id].contains(child_id)
            <==> graph.parent_edges.contains_key(child_id)
            && graph.parent_edges[child_id].contains(parent_id),
{
}

/// In a graph that is well formed, every stage has an entry in both tables
/// of edges, and every edge joins two stages of the graph.
pub proof fn lemma_edges_stay_inside(graph: StageGraphView, parent_id: StageId, child_id: StageId)
    requires
        graph.wf(),
    ensures
        graph.stages.contains_key(parent_id) <==> graph.child_edges.contains_key(parent_id),
        graph.stages.contains_key(parent_id) <==> graph.parent_edges.contains_key(parent_id),
        graph.has_edge(parent_id, child_id) ==> graph.stages.contains_key(parent_id)
            && graph.stages.contains_key(child_id),
{
    assert(graph.stages.dom().contains(parent_id) <==> graph.child_edges.dom().contains(parent_id));
    assert(graph.stages.dom().contains(parent_id) <==> graph.parent_edges.dom().contains(
        parent_id,
    ));
    if graph.has_edge(parent_id, child_id) {
        assert(graph.parent_edges.dom().contains(child_id));
    }
}

/// The stage graph of a plan that can be split is well formed, and it is a
/// tree: the root stage feeds no stage, every other stage feeds exactly one,
/// and that one has the smaller identifier.
pub proof fn lemma_plan_graph_is_tree(plan: PlanNodeView, workers: u32, query_id: Seq<char>)
    requires
        fault(plan, 1, workers) is None,
    ensures
        stage_graph_of(plan, workers, query_id).wf(),
        stage_graph_of(plan, workers, query_id).is_numbered_tree(),
        stage_graph_of(plan, workers, query_id).is_tree(),
{
    let graph = stage_graph_of(plan, workers, query_id);
    let stages = stages_of(plan, workers, query_id);
    let below = stages_below(plan, 1, 1, workers, query_id);
    let parents = parents_below(plan, 1, 0);
    let named = stage_tree(plan, 1).child_stages();
    let count = plan.exchanges();
    lemma_stages_below(plan, 1, 1, workers, query_id);
    lemma_parents_below(plan, 1, 1, workers, query_id, 0);
    assert(is_parent_table(parents, 1, count, 0, named, below));
    assert(stages[0].root.child_stages() == named);
    assert forall|p: StageId, c: StageId| #[trigger]
        graph.has_edge(p, c) <==> in_range(c, 1, count) && parents[c] == p by {
        if p == 0 {
            assert(named.contains(c) <==> in_range(c, 1, count) && parents[c] == 0);
        } else if below.contains_key(p) {
            assert(stages[p] == below[p]);
            assert(below[p].root.child_stages().contains(c) <==> in_range(c, 1, count)
                && parents[c] == p);
        } else {
            assert(!in_range(p, 1, count));
            if in_range(c, 1, count) {
                assert(parents[c] == 0 || (in_range(parents[c], 1, count) && parents[c] < c));
            }
        }
    }
    assert forall|c: StageId| in_range(c, 1, count) implies parents[c] < c && stages.contains_key(
        #[trigger] parents[c],
    ) by {
        assert(parents[c] == 0 || (in_range(parents[c], 1, count) && parents[c] < c));
        assert(below.contains_key(parents[c]) <==> in_range(parents[c], 1, count));
    }
    assert(graph.stages.dom() =~= graph.child_edges.dom());
    assert(graph.stages.dom() =~= graph.parent_edges.dom());
    assert forall|id: StageId| #[trigger] graph.stages.contains_key(id) implies graph.stages[id].id
        == id by {
        if id != 0 {
            assert(below.contains_key(id));
        }
    }
    assert forall|p: StageId, c: StageId|
        graph.child_edges.contains_key(p) && #[trigger] graph.child_edges[p].contains(c) implies
        graph.parent_edges.contains_key(c) && graph.parent_edges[c].contains(p) by {
        assert(graph.has_edge(p, c));
        assert(below.contains_key(c) <==> in_range(c, 1, count));
    }
    assert forall|p: StageId, c: StageId|
        graph.parent_edges.contains_key(c) && #[trigger] graph.parent_edges[c].contains(p) implies
        graph.child_edges.contains_key(p) && graph.child_edges[p].contains(c) by {}
    assert(graph.stages.dom().finite()) by {
        lemma_count_below(1 + count);
        assert forall|id: StageId| graph.stages.contains_key(id) <==> id < 1 + count by {
            assert(below.contains_key(id) <==> in_range(id, 1, count));
        }
        assert(graph.stages.dom() =~= Set::new(|id: StageId| id < 1 + count));
    }
    assert(graph.wf());
    assert forall|c: StageId|
        #![trigger graph.stages.contains_key(c)]
        graph.stages.contains_key(c) && c != graph.root_stage_id implies exists|p: StageId|
            graph.has_edge(p, c) by {
        assert(below.contains_key(c));
        assert(in_range(c, 1, count));
        assert(graph.has_edge(parents[c], c));
    }
    assert(graph.is_numbered_tree());
    lemma_numbered_tree_is_tree(graph);
}

/// The order in which the stages of a plan are to be scheduled holds every
/// stage once, and each stage after the stages that feed it.
pub proof fn lemma_plan_order(plan: PlanNodeView, workers: u32, query_id: Seq<char>)
    requires
        fault(plan, 1, workers) is None,
    ensures
        stage_graph_of(plan, workers, query_id).lists_every_stage(
            stage_graph_of(plan, workers, query_id).topo_order(),
        ),
        stage_graph_of(plan, workers, query_id).children_first(
            stage_graph_of(plan, workers, query_id).topo_order(),
        ),
{
    lemma_plan_graph_is_tree(plan, workers, query_id);
    lemma_topo_order(stage_graph_of(plan, workers, query_id));
}

/// The root stage of a plan's graph is the stage 0. It runs on one parallel
/// unit and hands its output to a single consumer.
pub proof fn lemma_root_stage(plan: PlanNodeView, workers: u32, query_id: Seq<char>)
    ensures
        stage_graph_of(plan, workers, query_id).root_stage_id == 0,
        stage_graph_of(plan, workers, query_id).stages.contains_key(0),
        stage_graph_of(plan, workers, query_id).stages[0].id == 0,
        stage_graph_of(plan, workers, query_id).stages[0].parallelism == 1,
        stage_graph_of(plan, workers, query_id).stages[0].exchange_info == (ExchangeInfoView {
            distribution: DistributionView::Single,
            parallelism: 1,
        }),
{
}

/// Every stage that an exchange gives rise to runs on as many parallel
/// units as there are workers, and belongs to the query.
proof fn lemma_stages_below_run_on_workers(
    node: PlanNodeView,
    next: nat,
    parallelism: u32,
    workers: u32,
    query_id: Seq<char>,
)
    ensures
        forall|id: StageId| #[trigger]
            stages_below(node, next, parallelism, workers, query_id).contains_key(id) ==> {
                let stage = stages_below(node, next, parallelism, workers, query_id)[id];
                &&& stage.parallelism == workers
                &&& stage.query_id == query_id
                &&& stage.root.wf()
            },
    decreases node, 0nat,
{
    if node.is_exchange() {
        if node.inputs.len() == 1 {
            lemma_stages_below_run_on_workers(node.inputs[0], next + 1, workers, workers, query_id);
            lemma_stage_tree_is_wf(node.inputs[0], next + 1);
        }
    } else {
        lemma_stages_below_inputs_run_on_workers(
            node.inputs,
            node.inputs.len(),
            next,
            parallelism,
            workers,
            query_id,
        );
    }
}

proof fn lemma_stages_below_inputs_run_on_workers(
    inputs: Seq<PlanNodeView>,
    k: nat,
    next: nat,
    parallelism: u32,
    workers: u32,
    query_id: Seq<char>,
)
    ensures
        forall|id: StageId| #[trigger]
            stages_below_inputs(inputs, k, next, parallelism, workers, query_id).contains_key(id)
                ==> {
                let stage = stages_below_inputs(inputs, k, next, parallelism, workers, query_id)[id];
                &&& stage.parallelism == workers
                &&& stage.query_id == query_id
                &&& stage.root.wf()
            },
    decreases inputs, k,
{
    if 0 < k <= inputs.len() {
        let before = exchanges_in(inputs, (k - 1) as nat);
        lemma_stages_below_inputs_run_on_workers(
            inputs,
            (k - 1) as nat,
            next,
            parallelism,
            workers,
            query_id,
        );
        lemma_stages_below_run_on_workers(
            inputs[k - 1],
            next + before,
            parallelism,
            workers,
            query_id,
        );
    }
}

/// In the tree of a stage, stage references stand where they belong: every
/// exchange names a stage and has no children, and no other operator names
/// a stage.
pub proof fn lemma_stage_tree_is_wf(node: PlanNodeView, next: nat)
    ensures
        stage_tree(node, next).wf(),
    decreases node,
{
    if !node.is_exchange() {
        let k = node.inputs.len();
        lemma_stage_trees(node.inputs, k, next);
        let tree = stage_tree(node, next);
        assert forall|i: int| 0 <= i < tree.children.len() implies (#[trigger] tree.children[i]).wf() by {
            lemma_stage_tree_is_wf(
                node.inputs[i],
                next + exchanges_in(node.inputs, i as nat),
            );
        }
    }
}

/// Every stage of a plan's graph but the root stage runs on as many
/// parallel units as there are workers.
pub proof fn lemma_stage_parallelism(
    plan: PlanNodeView,
    workers: u32,
    query_id: Seq<char>,
    id: StageId,
)
    requires
        stage_graph_of(plan, workers, query_id).stages.contains_key(id),
        id != 0,
    ensures
        stage_graph_of(plan, workers, query_id).stages[id].parallelism == workers,
{
    lemma_stages_below_run_on_workers(plan, 1, 1, workers, query_id);
    assert(stages_below(plan, 1, 1, workers, query_id).contains_key(id));
}

/// Every stage of a plan's graph belongs to the query, and in its tree the
/// stage references stand where they belong.
pub proof fn lemma_stage_is_wf(plan: PlanNodeView, workers: u32, query_id: Seq<char>, id: StageId)
    requires
        stage_graph_of(plan, workers, query_id).stages.contains_key(id),
    ensures
        stage_graph_of(plan, workers, query_id).stages[id].query_id == query_id,
        stage_graph_of(plan, workers, query_id).stages[id].root.wf(),
{
    lemma_stages_below_run_on_workers(plan, 1, 1, workers, query_id);
    lemma_stage_tree_is_wf(plan, 1);
    if id != 0 {
        assert(stages_below(plan, 1, 1, workers, query_id).contains_key(id));
    }
}

/// The identifiers below `n` are `n` identifiers.
proof fn lemma_count_below(n: nat)
    requires
        n <= u32::MAX + 1,
    ensures
        Set::new(|id: StageId| id < n).finite(),
        Set::new(|id: StageId| id < n).len() == n,
    decreases n,
{
    let all = Set::new(|id: StageId| id < n);
    if n == 0 {
        assert(all =~= Set::empty());
    } else {
        let rest = Set::new(|id: StageId| id < (n - 1) as nat);
        lemma_count_below((n - 1) as nat);
        assert(all =~= rest.insert((n - 1) as StageId));
    }
}

/// A plan that can be split has one stage more than it has exchanges, and
/// their identifiers are the numbers from 0 on, without a gap.
pub proof fn lemma_stage_count(plan: PlanNodeView, workers: u32, query_id: Seq<char>)
    requires
        fault(plan, 1, workers) is None,
    ensures
        forall|id: StageId|
            stage_graph_of(plan, workers, query_id).stages.contains_key(id) <==> id
                <= plan.exchanges(),
        stage_graph_of(plan, workers, query_id).stages.dom().finite(),
        stage_graph_of(plan, workers, query_id).stages.len() == 1 + plan.exchanges(),
{
    let stages = stage_graph_of(plan, workers, query_id).stages;
    let below = stages_below(plan, 1, 1, workers, query_id);
    let count = 1 + plan.exchanges();
    lemma_stages_below(plan, 1, 1, workers, query_id);
    assert forall|id: StageId| stages.contains_key(id) <==> id <= plan.exchanges() by {
        assert(below.contains_key(id) <==> in_range(id, 1, plan.exchanges()));
    }
    lemma_count_below(count);
    assert(stages.dom() =~= Set::new(|id: StageId| id < count));
}

/// Splitting the same plan for the same query, with the same number of
/// workers, gives the same result.
pub proof fn lemma_split_is_deterministic(
    plan: PlanNodeView,
    workers: u32,
    query_id: Seq<char>,
    first: Result<Query, FragmenterError>,
    second: Result<Query, FragmenterError>,
)
    requires
        result_view(first) == split_of(plan, workers, query_id),
        result_view(second) == split_of(plan, workers, query_id),
    ensures
        result_view(first) == result_view(second),
{
}

} // verus!
