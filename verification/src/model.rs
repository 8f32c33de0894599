//! What fragmenting a plan means, stated over plans as mathematical trees.
//!
//! A walk over the plan, each operator before its inputs and the inputs from
//! left to right, gives every exchange a number: the first one met is 1, the
//! next one 2, and so on. The input of the exchange with number `k` becomes
//! the root of the stage `k`; the plan's own root is the root of stage 0. In
//! the functions below, `next` is the number that the next exchange met will
//! get.

use crate::error::FragmenterError;
use crate::execution::{
    child_stages_in, lemma_child_stages_in_prefix, ExecutionPlanNodeView, StageId,
};
use crate::graph::{QueryView, StageGraphView};
use crate::plan::{exchanges_in, DistributionView, ExchangeInfoView, PlanNodeView};
use crate::stage::QueryStageView;
use vstd::prelude::*;

verus! {

/// The part of a stage that is made from the plan below `node`: the
/// operators down to the first exchange on every path, that exchange
/// included and given the stage that feeds it.
pub open spec fn stage_tree(node: PlanNodeView, next: nat) -> ExecutionPlanNodeView
    decreases node, 0nat,
{
    if node.is_exchange() {
        node.bare().with_stage(next as StageId)
    } else {
        ExecutionPlanNodeView {
            children: stage_trees(node.inputs, node.inputs.len(), next),
            ..node.bare()
        }
    }
}

/// The parts of a stage that are made from the first `k` of `inputs`.
pub open spec fn stage_trees(inputs: Seq<PlanNodeView>, k: nat, next: nat) -> Seq<
    ExecutionPlanNodeView,
>
    decreases inputs, k,
{
    if k == 0 || k > inputs.len() {
        Seq::empty()
    } else {
        stage_trees(inputs, (k - 1) as nat, next).push(
            stage_tree(inputs[k - 1], next + exchanges_in(inputs, (k - 1) as nat)),
        )
    }
}

/// The stage with the identifier `id` and the plan `root`.
pub open spec fn stage_at(
    root: PlanNodeView,
    id: nat,
    parallelism: u32,
    exchange_info: ExchangeInfoView,
    query_id: Seq<char>,
) -> QueryStageView {
    QueryStageView {
        query_id,
        id: id as StageId,
        root: stage_tree(root, id + 1),
        exchange_info,
        parallelism,
    }
}

/// The stages that the exchanges in the plan below `node` give rise to,
/// where `node` lies in a stage of the given parallelism. A stage that
/// is not the root stage runs on every worker, and hands its output over in
/// the distribution of its exchange, for the parallelism of the stage above.
pub open spec fn stages_below(
    node: PlanNodeView,
    next: nat,
    parallelism: u32,
    workers: u32,
    query_id: Seq<char>,
) -> Map<StageId, QueryStageView>
    decreases node, 0nat,
{
    if node.is_exchange() {
        if node.inputs.len() == 1 {
            stages_below(node.inputs[0], next + 1, workers, workers, query_id).insert(
                next as StageId,
                stage_at(
                    node.inputs[0],
                    next,
                    workers,
                    node.distribution.to_prost(parallelism),
                    query_id,
                ),
            )
        } else {
            Map::empty()
        }
    } else {
        stages_below_inputs(node.inputs, node.inputs.len(), next, parallelism, workers, query_id)
    }
}

/// The stages that the exchanges in the first `k` of `inputs` give rise to.
pub open spec fn stages_below_inputs(
    inputs: Seq<PlanNodeView>,
    k: nat,
    next: nat,
    parallelism: u32,
    workers: u32,
    query_id: Seq<char>,
) -> Map<StageId, QueryStageView>
    decreases inputs, k,
{
    if k == 0 || k > inputs.len() {
        Map::empty()
    } else {
        stages_below_inputs(
            inputs,
            (k - 1) as nat,
            next,
            parallelism,
            workers,
            query_id,
        ).union_prefer_right(
            stages_below(
                inputs[k - 1],
                next + exchanges_in(inputs, (k - 1) as nat),
                parallelism,
                workers,
                query_id,
            ),
        )
    }
}

/// The exchange descriptor of the root stage: one unit takes everything.
pub open spec fn root_exchange_info() -> ExchangeInfoView {
    DistributionView::Single.to_prost(1)
}

/// All the stages of a plan: the root stage, with one parallel unit, and
/// one stage for every exchange.
pub open spec fn stages_of(plan: PlanNodeView, workers: u32, query_id: Seq<char>) -> Map<
    StageId,
    QueryStageView,
> {
    stages_below(plan, 1, 1, workers, query_id).insert(
        0,
        stage_at(plan, 0, 1, root_exchange_info(), query_id),
    )
}

/// The stage graph of a plan: its stages, an edge from each stage down to
/// every stage that one of its exchanges names, and the same edges upwards.
pub open spec fn stage_graph_of(
    plan: PlanNodeView,
    workers: u32,
    query_id: Seq<char>,
) -> StageGraphView {
    let stages = stages_of(plan, workers, query_id);
    StageGraphView {
        root_stage_id: 0,
        stages,
        child_edges: Map::new(
            |id: StageId| stages.contains_key(id),
            |id: StageId| stages[id].root.child_stages().to_set(),
        ),
        parent_edges: Map::new(
            |id: StageId| stages.contains_key(id),
            |id: StageId|
                Set::new(
                    |p: StageId|
                        stages.contains_key(p) && stages[p].root.child_stages().contains(id),
                ),
        ),
    }
}

/// What splitting a plan gives: the first thing that stops the walk over the
/// plan, or else the query with the plan's stage graph.
pub open spec fn split_of(plan: PlanNodeView, workers: u32, query_id: Seq<char>) -> Result<
    QueryView,
    FragmenterError,
> {
    match fault(plan, 1, workers) {
        Some(e) => Err(e),
        None => Ok(QueryView { query_id, stage_graph: stage_graph_of(plan, workers, query_id) }),
    }
}

/// The first thing that stops the walk over the plan below `node`, if
/// anything does. The walk stops at an exchange that does not have exactly
/// one input; at an exchange for which no stage identifier is left; and, in
/// a cluster without workers, at any exchange, since the stage below it
/// would have nothing to run on.
pub open spec fn fault(node: PlanNodeView, next: nat, workers: u32) -> Option<FragmenterError>
    decreases node, 0nat,
{
    if node.is_exchange() {
        if node.inputs.len() != 1 {
            Some(FragmenterError::MalformedPlan(node.id))
        } else if next >= u32::MAX {
            Some(FragmenterError::StageIdOverflow(node.id))
        } else if workers == 0 {
            Some(FragmenterError::EmptyCluster(next as StageId))
        } else {
            fault(node.inputs[0], next + 1, workers)
        }
    } else {
        fault_in(node.inputs, node.inputs.len(), next, workers)
    }
}

/// The first thing that stops the walk over the first `k` of `inputs`.
pub open spec fn fault_in(inputs: Seq<PlanNodeView>, k: nat, next: nat, workers: u32) -> Option<
    FragmenterError,
>
    decreases inputs, k,
{
    if k == 0 || k > inputs.len() {
        None
    } else {
        match fault_in(inputs, (k - 1) as nat, next, workers) {
            Some(e) => Some(e),
            None => fault(inputs[k - 1], next + exchanges_in(inputs, (k - 1) as nat), workers),
        }
    }
}

/// What has stopped the walk over the first `k` inputs stops the walk over
/// the first `m`, for every `m` from `k` on.
pub proof fn lemma_fault_in_stays(
    inputs: Seq<PlanNodeView>,
    k: nat,
    m: nat,
    next: nat,
    workers: u32,
)
    requires
        k <= m <= inputs.len(),
        fault_in(inputs, k, next, workers) is Some,
    ensures
        fault_in(inputs, m, next, workers) == fault_in(inputs, k, next, workers),
    decreases m,
{
    if k < m {
        lemma_fault_in_stays(inputs, k, (m - 1) as nat, next, workers);
    }
}

/// Whether `id` is one of the `count` identifiers from `next` on.
pub open spec fn in_range(id: StageId, next: nat, count: nat) -> bool {
    next <= id < next + count
}

/// Where nothing stops the walk, the exchanges below `node` get the
/// identifiers from `next` on, without a gap, and these are the keys of the
/// stages that they give rise to, each stage under its own identifier.
pub proof fn lemma_stages_below(
    node: PlanNodeView,
    next: nat,
    parallelism: u32,
    workers: u32,
    query_id: Seq<char>,
)
    requires
        fault(node, next, workers) is None,
        next <= u32::MAX,
    ensures
        next + node.exchanges() <= u32::MAX,
        forall|id: StageId|
            stages_below(node, next, parallelism, workers, query_id).contains_key(id) <==> in_range(
                id,
                next,
                node.exchanges(),
            ),
        forall|id: StageId| #[trigger]
            stages_below(node, next, parallelism, workers, query_id).contains_key(id)
                ==> stages_below(node, next, parallelism, workers, query_id)[id].id == id,
    decreases node, 0nat,
{
    if node.is_exchange() {
        let below = stages_below(node.inputs[0], next + 1, workers, workers, query_id);
        lemma_stages_below(node.inputs[0], next + 1, workers, workers, query_id);
        assert(exchanges_in(node.inputs, 1) == exchanges_in(node.inputs, 0)
            + node.inputs[0].exchanges());
        assert forall|id: StageId|
            stages_below(node, next, parallelism, workers, query_id).contains_key(id)
                <==> in_range(id, next, node.exchanges()) by {
            assert(below.contains_key(id) <==> in_range(id, next + 1, node.inputs[0].exchanges()));
        }
    } else {
        lemma_stages_below_inputs(node.inputs, node.inputs.len(), next, parallelism, workers, query_id);
    }
}

/// The same for the first `k` of `inputs`.
pub proof fn lemma_stages_below_inputs(
    inputs: Seq<PlanNodeView>,
    k: nat,
    next: nat,
    parallelism: u32,
    workers: u32,
    query_id: Seq<char>,
)
    requires
        fault_in(inputs, k, next, workers) is None,
        next <= u32::MAX,
        k <= inputs.len(),
    ensures
        next + exchanges_in(inputs, k) <= u32::MAX,
        forall|id: StageId|
            stages_below_inputs(inputs, k, next, parallelism, workers, query_id).contains_key(id)
                <==> in_range(id, next, exchanges_in(inputs, k)),
        forall|id: StageId| #[trigger]
            stages_below_inputs(inputs, k, next, parallelism, workers, query_id).contains_key(id)
                ==> stages_below_inputs(inputs, k, next, parallelism, workers, query_id)[id].id
                == id,
    decreases inputs, k,
{
    if k > 0 {
        lemma_stages_below_inputs(inputs, (k - 1) as nat, next, parallelism, workers, query_id);
        lemma_stages_below(
            inputs[k - 1],
            next + exchanges_in(inputs, (k - 1) as nat),
            parallelism,
            workers,
            query_id,
        );
        let before = exchanges_in(inputs, (k - 1) as nat);
        let left = stages_below_inputs(inputs, (k - 1) as nat, next, parallelism, workers, query_id);
        let right = stages_below(inputs[k - 1], next + before, parallelism, workers, query_id);
        assert forall|id: StageId|
            stages_below_inputs(inputs, k, next, parallelism, workers, query_id).contains_key(id)
                <==> in_range(id, next, exchanges_in(inputs, k)) by {
            assert(left.contains_key(id) <==> in_range(id, next, before));
            assert(right.contains_key(id) <==> in_range(
                id,
                next + before,
                inputs[k - 1].exchanges(),
            ));
        }
    } else {
        assert forall|id: StageId|
            stages_below_inputs(inputs, k, next, parallelism, workers, query_id).contains_key(id)
                <==> in_range(id, next, exchanges_in(inputs, k)) by {}
    }
}

/// For every stage that an exchange in the plan below `node` gives rise to,
/// the stage that it feeds; `enclosing` is the stage that `node` lies in.
pub open spec fn parents_below(node: PlanNodeView, next: nat, enclosing: StageId) -> Map<
    StageId,
    StageId,
>
    decreases node, 0nat,
{
    if node.is_exchange() {
        if node.inputs.len() == 1 {
            parents_below(node.inputs[0], next + 1, next as StageId).insert(
                next as StageId,
                enclosing,
            )
        } else {
            Map::empty()
        }
    } else {
        parents_below_inputs(node.inputs, node.inputs.len(), next, enclosing)
    }
}

/// The same for the first `k` of `inputs`.
pub open spec fn parents_below_inputs(
    inputs: Seq<PlanNodeView>,
    k: nat,
    next: nat,
    enclosing: StageId,
) -> Map<StageId, StageId>
    decreases inputs, k,
{
    if k == 0 || k > inputs.len() {
        Map::empty()
    } else {
        parents_below_inputs(inputs, (k - 1) as nat, next, enclosing).union_prefer_right(
            parents_below(inputs[k - 1], next + exchanges_in(inputs, (k - 1) as nat), enclosing),
        )
    }
}

/// Whether `parents` gives the one parent of each of the `count` stages
/// from `next` on: `named` are the stages that the enclosing stage names,
/// `stages` are the stages themselves, and each of them names exactly the
/// stages whose parent it is. A parent has a smaller identifier than its
/// child.
pub open spec fn is_parent_table(
    parents: Map<StageId, StageId>,
    next: nat,
    count: nat,
    enclosing: StageId,
    named: Seq<StageId>,
    stages: Map<StageId, QueryStageView>,
) -> bool {
    &&& forall|c: StageId| #[trigger] parents.contains_key(c) <==> in_range(c, next, count)
    &&& forall|c: StageId|
        in_range(c, next, count) ==> #[trigger] parents[c] == enclosing || (in_range(
            parents[c],
            next,
            count,
        ) && parents[c] < c)
    &&& forall|c: StageId|
        #[trigger] named.contains(c) <==> in_range(c, next, count) && parents[c] == enclosing
    &&& forall|p: StageId, c: StageId|
        stages.contains_key(p) ==> (#[trigger] stages[p].root.child_stages().contains(c)
            <==> in_range(c, next, count) && parents[c] == p)
}

/// The trees made from the first `k` inputs are `k` trees, one from each
/// input.
pub proof fn lemma_stage_trees(inputs: Seq<PlanNodeView>, k: nat, next: nat)
    requires
        k <= inputs.len(),
    ensures
        stage_trees(inputs, k, next).len() == k,
        forall|i: int|
            0 <= i < k ==> #[trigger] stage_trees(inputs, k, next)[i] == stage_tree(
                inputs[i],
                next + exchanges_in(inputs, i as nat),
            ),
    decreases k,
{
    if k > 0 {
        lemma_stage_trees(inputs, (k - 1) as nat, next);
    }
}

/// Where nothing stops the walk, every stage below `node` feeds exactly one
/// stage: the one that names it.
pub proof fn lemma_parents_below(
    node: PlanNodeView,
    next: nat,
    parallelism: u32,
    workers: u32,
    query_id: Seq<char>,
    enclosing: StageId,
)
    requires
        fault(node, next, workers) is None,
        next <= u32::MAX,
        enclosing < next,
    ensures
        is_parent_table(
            parents_below(node, next, enclosing),
            next,
            node.exchanges(),
            enclosing,
            stage_tree(node, next).child_stages(),
            stages_below(node, next, parallelism, workers, query_id),
        ),
    decreases node, 0nat,
{
    let parents = parents_below(node, next, enclosing);
    let stages = stages_below(node, next, parallelism, workers, query_id);
    let named = stage_tree(node, next).child_stages();
    lemma_stages_below(node, next, parallelism, workers, query_id);
    if node.is_exchange() {
        let input = node.inputs[0];
        let id = next as StageId;
        let inner = parents_below(input, next + 1, id);
        let inner_stages = stages_below(input, next + 1, workers, workers, query_id);
        let inner_named = stage_tree(input, next + 1).child_stages();
        lemma_parents_below(input, next + 1, workers, workers, query_id, id);
        lemma_stages_below(input, next + 1, workers, workers, query_id);
        assert(exchanges_in(node.inputs, 1) == exchanges_in(node.inputs, 0) + input.exchanges());
        assert(named =~= seq![id]);
        assert(named[0] == id);
        assert forall|c: StageId| #[trigger] parents.contains_key(c) <==> in_range(
            c,
            next,
            node.exchanges(),
        ) by {
            assert(inner.contains_key(c) <==> in_range(c, next + 1, input.exchanges()));
        }
        assert forall|c: StageId| in_range(c, next, node.exchanges()) implies #[trigger] parents[c]
            == enclosing || (in_range(parents[c], next, node.exchanges()) && parents[c] < c) by {
            if c != id {
                assert(in_range(c, next + 1, input.exchanges()));
                assert(inner[c] == id || (in_range(inner[c], next + 1, input.exchanges())
                    && inner[c] < c));
            }
        }
        assert forall|c: StageId| #[trigger]
            named.contains(c) <==> in_range(c, next, node.exchanges()) && parents[c]
                == enclosing by {
            if c != id && in_range(c, next, node.exchanges()) {
                assert(in_range(c, next + 1, input.exchanges()));
                assert(inner[c] == id || (in_range(inner[c], next + 1, input.exchanges())
                    && inner[c] < c));
            }
        }
        assert forall|p: StageId, c: StageId| stages.contains_key(p) implies (
        #[trigger] stages[p].root.child_stages().contains(c) <==> in_range(
            c,
            next,
            node.exchanges(),
        ) && parents[c] == p) by {
            if p == id {
                assert(stages[p].root == stage_tree(input, next + 1));
                assert(inner_named.contains(c) <==> in_range(c, next + 1, input.exchanges())
                    && inner[c] == id);
            } else {
                assert(inner_stages.contains_key(p));
                assert(in_range(p, next + 1, input.exchanges()));
                assert(inner_stages[p].root.child_stages().contains(c) <==> in_range(
                    c,
                    next + 1,
                    input.exchanges(),
                ) && inner[c] == p);
            }
        }
    } else {
        let k = node.inputs.len();
        lemma_parents_below_inputs(node.inputs, k, next, parallelism, workers, query_id, enclosing);
        lemma_stage_trees(node.inputs, k, next);
        assert(named =~= child_stages_in(stage_trees(node.inputs, k, next), k));
    }
}

/// The same for the first `k` of `inputs`.
pub proof fn lemma_parents_below_inputs(
    inputs: Seq<PlanNodeView>,
    k: nat,
    next: nat,
    parallelism: u32,
    workers: u32,
    query_id: Seq<char>,
    enclosing: StageId,
)
    requires
        fault_in(inputs, k, next, workers) is None,
        next <= u32::MAX,
        k <= inputs.len(),
        enclosing < next,
    ensures
        is_parent_table(
            parents_below_inputs(inputs, k, next, enclosing),
            next,
            exchanges_in(inputs, k),
            enclosing,
            child_stages_in(stage_trees(inputs, k, next), k),
            stages_below_inputs(inputs, k, next, parallelism, workers, query_id),
        ),
    decreases inputs, k,
{
    let parents = parents_below_inputs(inputs, k, next, enclosing);
    let stages = stages_below_inputs(inputs, k, next, parallelism, workers, query_id);
    let named = child_stages_in(stage_trees(inputs, k, next), k);
    let count = exchanges_in(inputs, k);
    if k > 0 {
        let j = (k - 1) as nat;
        let before = exchanges_in(inputs, j);
        let at = next + before;
        let here = inputs[k - 1].exchanges();
        let left = parents_below_inputs(inputs, j, next, enclosing);
        let right = parents_below(inputs[k - 1], at, enclosing);
        let left_stages = stages_below_inputs(inputs, j, next, parallelism, workers, query_id);
        let right_stages = stages_below(inputs[k - 1], at, parallelism, workers, query_id);
        let left_named = child_stages_in(stage_trees(inputs, j, next), j);
        let right_named = stage_tree(inputs[k - 1], at).child_stages();
        lemma_stages_below_inputs(inputs, j, next, parallelism, workers, query_id);
        lemma_stages_below(inputs[k - 1], at, parallelism, workers, query_id);
        lemma_parents_below_inputs(inputs, j, next, parallelism, workers, query_id, enclosing);
        lemma_parents_below(inputs[k - 1], at, parallelism, workers, query_id, enclosing);
        lemma_stage_trees(inputs, j, next);
        lemma_stage_trees(inputs, k, next);
        lemma_child_stages_in_prefix(
            stage_trees(inputs, k, next),
            stage_trees(inputs, j, next),
            j,
        );
        assert(named =~= left_named + right_named);
        assert forall|c: StageId| #[trigger] parents.contains_key(c) <==> in_range(
            c,
            next,
            count,
        ) by {
            assert(left.contains_key(c) <==> in_range(c, next, before));
            assert(right.contains_key(c) <==> in_range(c, at, here));
        }
        assert forall|c: StageId| in_range(c, next, count) implies #[trigger] parents[c]
            == enclosing || (in_range(parents[c], next, count) && parents[c] < c) by {
            assert(left.contains_key(c) <==> in_range(c, next, before));
            assert(right.contains_key(c) <==> in_range(c, at, here));
            if right.contains_key(c) {
                assert(right[c] == enclosing || (in_range(right[c], at, here) && right[c] < c));
            } else {
                assert(left[c] == enclosing || (in_range(left[c], next, before) && left[c] < c));
            }
        }
        assert forall|c: StageId| #[trigger]
            named.contains(c) <==> in_range(c, next, count) && parents[c] == enclosing by {
            assert(left.contains_key(c) <==> in_range(c, next, before));
            assert(right.contains_key(c) <==> in_range(c, at, here));
            assert(left_named.contains(c) <==> in_range(c, next, before) && left[c] == enclosing);
            assert(right_named.contains(c) <==> in_range(c, at, here) && right[c] == enclosing);
            if named.contains(c) {
                let i = choose|i: int| 0 <= i < named.len() && named[i] == c;
                if i < left_named.len() {
                    assert(left_named[i] == c);
                } else {
                    assert(right_named[i - left_named.len()] == c);
                }
            }
            if left_named.contains(c) {
                let i = choose|i: int| 0 <= i < left_named.len() && left_named[i] == c;
                assert(named[i] == c);
            }
            if right_named.contains(c) {
                let i = choose|i: int| 0 <= i < right_named.len() && right_named[i] == c;
                assert(named[left_named.len() + i] == c);
            }
        }
        assert forall|p: StageId, c: StageId| stages.contains_key(p) implies (
        #[trigger] stages[p].root.child_stages().contains(c) <==> in_range(c, next, count)
            && parents[c] == p) by {
            assert(left.contains_key(c) <==> in_range(c, next, before));
            assert(right.contains_key(c) <==> in_range(c, at, here));
            assert(left_stages.contains_key(p) <==> in_range(p, next, before));
            assert(right_stages.contains_key(p) <==> in_range(p, at, here));
            if right_stages.contains_key(p) {
                assert(right_stages[p].root.child_stages().contains(c) <==> in_range(c, at, here)
                    && right[c] == p);
                if in_range(c, next, before) {
                    assert(left[c] == enclosing || (in_range(left[c], next, before) && left[c]
                        < c));
                }
            } else {
                assert(left_stages[p].root.child_stages().contains(c) <==> in_range(
                    c,
                    next,
                    before,
                ) && left[c] == p);
                if in_range(c, at, here) {
                    assert(right[c] == enclosing || (in_range(right[c], at, here) && right[c]
                        < c));
                }
            }
        }
    } else {
        assert(named =~= Seq::empty());
    }
}

} // verus!
