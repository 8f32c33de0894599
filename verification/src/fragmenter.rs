//! Cutting a plan into stages.

use crate::error::FragmenterError;
use crate::execution::{
    child_stages_in, lemma_child_stages_in_prefix, ExecutionPlanNode, ExecutionPlanNodeView,
    StageId,
};
use crate::graph::{result_view, Query, StageGraphBuilder, StageGraphBuilderView};
use crate::laws::lemma_plan_graph_is_tree;
use crate::model::{
    fault, fault_in, in_range, lemma_fault_in_stays, lemma_stages_below, root_exchange_info,
    split_of, stage_at, stage_graph_of, stage_tree, stage_trees, stages_below,
    stages_below_inputs, stages_of,
};
use crate::plan::{exchanges_in, Distribution, ExchangeInfo, PlanNodeType, PlanRef};
use crate::query_id::{is_random_uuid_text, QueryId};
use crate::stage::{QueryStage, QueryStageRef, QueryStageView};
use crate::worker::WorkerNodeManager;
use std::sync::Arc;
use vstd::prelude::*;

verus! {

/// Assembles one stage: its operator tree, and the stages that feed it.
struct QueryStageBuilder {
    query_id: QueryId,
    id: StageId,
    plan_root: PlanRef,
    root: Option<Arc<ExecutionPlanNode>>,
    parallelism: u32,
    parent_parallelism: Option<u32>,
    exchange_info: ExchangeInfo,
    children_stages: Vec<QueryStageRef>,
}

impl QueryStageBuilder {
    /// The identifiers of the stages that feed this one, as collected so
    /// far.
    spec fn children_ids(&self) -> Seq<StageId> {
        self.children_stages@.map_values(|s: QueryStageRef| s.id)
    }

    /// Whether only the tree and the children differ between the two.
    spec fn same_stage(&self, other: &QueryStageBuilder) -> bool {
        &&& self.query_id@ == other.query_id@
        &&& self.id == other.id
        &&& self.parallelism == other.parallelism
        &&& self.parent_parallelism == other.parent_parallelism
        &&& self.exchange_info@ == other.exchange_info@
    }

    /// Whether all the children collected so far are in the graph.
    spec fn children_in(&self, graph: StageGraphBuilderView) -> bool {
        forall|i: int|
            0 <= i < self.children_stages@.len() ==> graph.contains(
                (#[trigger] self.children_stages@[i]).id,
            )
    }

    fn new(
        root: PlanRef,
        id: StageId,
        query_id: QueryId,
        parallelism: u32,
        parent_parallelism: Option<u32>,
        exchange_info: ExchangeInfo,
    ) -> (r: Self)
        ensures
            r.query_id == query_id,
            r.id == id,
            r.plan_root == root,
            r.root is None,
            r.parallelism == parallelism,
            r.parent_parallelism == parent_parallelism,
            r.exchange_info == exchange_info,
            r.children_stages@.len() == 0,
    {
        QueryStageBuilder {
            query_id,
            id,
            plan_root: root,
            root: None,
            parallelism,
            parent_parallelism,
            exchange_info,
            children_stages: Vec::new(),
        }
    }

    /// Makes the stage, adds it to the graph and links it to the stages that
    /// feed it.
    fn finish(self, stage_graph_builder: &mut StageGraphBuilder) -> (r: Result<
        QueryStageRef,
        FragmenterError,
    >)
        requires
            self.root is Some,
            old(stage_graph_builder).wf(),
            !old(stage_graph_builder)@.contains(self.id),
            self.children_in(old(stage_graph_builder)@),
        ensures
            final(stage_graph_builder).wf(),
            r matches Ok(stage) && stage@ == (QueryStageView {
                query_id: self.query_id@,
                id: self.id,
                root: self.root->0@,
                exchange_info: self.exchange_info@,
                parallelism: self.parallelism,
            }) && final(stage_graph_builder)@.stages == old(stage_graph_builder)@.stages.insert(
                self.id,
                stage@,
            ) && final(stage_graph_builder)@.child_edges == old(
                stage_graph_builder,
            )@.child_edges.insert(self.id, self.children_ids().to_set()),
    {
        let ghost ids = self.children_ids();
        let ghost before = stage_graph_builder@;
        let id = self.id;
        let children_stages = self.children_stages;
        let stage = Arc::new(
            QueryStage {
                query_id: self.query_id,
                id: self.id,
                root: self.root.unwrap(),
                exchange_info: self.exchange_info,
                parallelism: self.parallelism,
            },
        );
        match stage_graph_builder.add_node(stage.clone()) {
            Err(e) => {
                return Err(e);
            },
            Ok(_) => {},
        }
        assert(ids.take(0).to_set() =~= Set::empty());
        let mut i: usize = 0;
        while i < children_stages.len()
            invariant
                i <= children_stages.len(),
                ids == children_stages@.map_values(|s: QueryStageRef| s.id),
                stage_graph_builder.wf(),
                stage_graph_builder@.stages == before.stages.insert(id, stage@),
                stage_graph_builder@.child_edges == before.child_edges.insert(
                    id,
                    ids.take(i as int).to_set(),
                ),
                forall|j: int|
                    0 <= j < children_stages@.len() ==> before.contains(
                        (#[trigger] children_stages@[j]).id,
                    ),
            decreases children_stages.len() - i,
        {
            let child_id = children_stages[i].id;
            assert(child_id == ids[i as int]);
            match stage_graph_builder.link_to_child(id, child_id) {
                Err(e) => {
                    return Err(e);
                },
                Ok(_) => {},
            }
            assert(ids.take(i + 1).to_set() =~= ids.take(i as int).to_set().insert(child_id)) by {
                assert(ids.take(i + 1) =~= ids.take(i as int).push(child_id));
                assert forall|c: StageId|
                    ids.take(i + 1).to_set().contains(c) <==> ids.take(i as int).to_set().insert(
                        child_id,
                    ).contains(c) by {
                    if ids.take(i as int).contains(c) {
                        let j = choose|j: int| 0 <= j < i && ids.take(i as int)[j] == c;
                        assert(ids.take(i + 1)[j] == c);
                    }
                    if c == child_id {
                        assert(ids.take(i + 1)[i as int] == c);
                    }
                }
            }
            i = i + 1;
        }
        assert(ids.take(i as int) =~= ids);
        Ok(stage)
    }
}

/// Whether the graph `after` is the graph `before` with the stages `added`,
/// each with an edge down to every stage that its tree names.
spec fn extends(
    before: StageGraphBuilderView,
    after: StageGraphBuilderView,
    added: Map<StageId, QueryStageView>,
) -> bool {
    &&& after.stages == before.stages.union_prefer_right(added)
    &&& forall|id: StageId| #[trigger]
        before.contains(id) ==> after.child_edges[id] == before.child_edges[id]
    &&& forall|id: StageId| #[trigger]
        added.contains_key(id) ==> after.child_edges[id]
            == added[id].root.child_stages().to_set()
}

/// Splits a query plan into stages, at its exchange operators.
pub struct BatchPlanFragmenter {
    query_id: QueryId,
    stage_graph_builder: StageGraphBuilder,
    next_stage_id: u32,
    worker_node_manager: WorkerNodeManager,
}

impl BatchPlanFragmenter {
    /// The identifier of the query that this fragmenter will put out.
    pub closed spec fn query_id(&self) -> Seq<char> {
        self.query_id@
    }

    /// The number of workers in the snapshot that this fragmenter holds.
    pub closed spec fn workers(&self) -> u32 {
        self.worker_node_manager.spec_worker_node_count()
    }

    /// Whether nothing has been split yet.
    pub closed spec fn is_fresh(&self) -> bool {
        &&& self.next_stage_id == 0
        &&& self.stage_graph_builder@ == StageGraphBuilderView::empty()
    }

    /// The graph is sound, and every stage in it has an identifier that has
    /// been given out.
    spec fn inv(&self) -> bool {
        &&& self.stage_graph_builder.wf()
        &&& forall|id: StageId| #[trigger]
            self.stage_graph_builder@.contains(id) ==> id < self.next_stage_id
    }

    /// Whether the two differ only in the graph and in the next identifier.
    spec fn same_query(&self, other: &BatchPlanFragmenter) -> bool {
        &&& self.query_id@ == other.query_id@
        &&& self.workers() == other.workers()
    }

    /// A fragmenter for one query, with a fresh query identifier.
    pub fn new(worker_node_manager: WorkerNodeManager) -> (r: Self)
        ensures
            r.is_fresh(),
            r.workers() == worker_node_manager.spec_worker_node_count(),
            is_random_uuid_text(r.query_id()),
    {
        Self::with_query_id(QueryId::default(), worker_node_manager)
    }

    /// A fragmenter for the query with the given identifier.
    pub fn with_query_id(query_id: QueryId, worker_node_manager: WorkerNodeManager) -> (r: Self)
        ensures
            r.is_fresh(),
            r.workers() == worker_node_manager.spec_worker_node_count(),
            r.query_id() == query_id@,
    {
        BatchPlanFragmenter {
            query_id,
            stage_graph_builder: StageGraphBuilder::new(),
            next_stage_id: 0,
            worker_node_manager,
        }
    }

    /// Opens a stage for the plan below `root`, builds it and the stages
    /// below it, and adds them to the graph.
    fn new_stage(
        &mut self,
        root: PlanRef,
        parent_parallelism: Option<u32>,
        exchange_info: Option<ExchangeInfo>,
    ) -> (r: Result<QueryStageRef, FragmenterError>)
        requires
            old(self).inv(),
            old(self).next_stage_id < u32::MAX,
        ensures
            final(self).same_query(old(self)),
            ({
                let next = old(self).next_stage_id as nat;
                let workers = old(self).workers();
                let parallelism = if parent_parallelism is Some {
                    workers
                } else {
                    1
                };
                let info = match exchange_info {
                    Some(info) => info@,
                    None => root_exchange_info(),
                };
                if parent_parallelism is Some && workers == 0 {
                    r == Err::<QueryStageRef, _>(FragmenterError::EmptyCluster(next as StageId))
                } else {
                    match fault(root@, next + 1, workers) {
                        Some(e) => r == Err::<QueryStageRef, _>(e),
                        None => r matches Ok(stage) && stage@ == stage_at(
                            root@,
                            next,
                            parallelism,
                            info,
                            old(self).query_id@,
                        ) && final(self).inv() && final(self).next_stage_id == next + 1
                            + root@.exchanges() && extends(
                            old(self).stage_graph_builder@,
                            final(self).stage_graph_builder@,
                            stages_below(
                                root@,
                                next + 1,
                                parallelism,
                                workers,
                                old(self).query_id@,
                            ).insert(next as StageId, stage@),
                        ),
                    }
                }
            }),
        decreases root, 2nat,
    {
        let next_stage_id = self.next_stage_id;
        self.next_stage_id = self.next_stage_id + 1;
        let parallelism = match parent_parallelism {
            // A stage below the root stage.
            Some(_) => {
                let workers = self.worker_node_manager.worker_node_count();
                if workers == 0 {
                    return Err(FragmenterError::EmptyCluster(next_stage_id));
                }
                workers
            },
            // The root stage.
            None => 1,
        };
        let exchange_info = match exchange_info {
            Some(info) => info,
            // The root stage hands everything to one consumer.
            None => Distribution::Single.to_prost(1),
        };
        let ghost info = exchange_info@;
        let ghost before = self.stage_graph_builder@;
        let ghost below = stages_below(
            root@,
            (next_stage_id + 1) as nat,
            parallelism,
            self.workers(),
            self.query_id@,
        );
        let mut builder = QueryStageBuilder::new(
            root.clone(),
            next_stage_id,
            self.query_id.clone(),
            parallelism,
            parent_parallelism,
            exchange_info,
        );
        match self.visit_node(root, &mut builder, None) {
            Err(e) => {
                return Err(e);
            },
            Ok(_) => {},
        }
        proof {
            lemma_stages_below(
                root@,
                (next_stage_id + 1) as nat,
                parallelism,
                self.workers(),
                self.query_id@,
            );
            assert(builder.children_ids() =~= stage_tree(
                root@,
                (next_stage_id + 1) as nat,
            ).child_stages());
            assert(!before.contains(next_stage_id));
            assert(!below.contains_key(next_stage_id)) by {
                assert(!in_range(next_stage_id, (next_stage_id + 1) as nat, root@.exchanges()));
            }
        }
        let ghost middle = self.stage_graph_builder@;
        match builder.finish(&mut self.stage_graph_builder) {
            Err(e) => Err(e),
            Ok(stage) => {
                proof {
                    let after = self.stage_graph_builder@;
                    let added = below.insert(next_stage_id, stage@);
                    assert(after.stages =~= before.stages.union_prefer_right(added));
                    assert forall|id: StageId| #[trigger] after.contains(id) implies id
                        < self.next_stage_id by {
                        if id != next_stage_id && !before.contains(id) {
                            assert(below.contains_key(id));
                            assert(in_range(id, (next_stage_id + 1) as nat, root@.exchanges()));
                        }
                    }
                    assert forall|id: StageId| #[trigger] before.contains(id) implies
                        after.child_edges[id] == before.child_edges[id] by {
                        assert(middle.child_edges[id] == before.child_edges[id]);
                    }
                    assert forall|id: StageId| #[trigger] added.contains_key(id) implies
                        after.child_edges[id] == added[id].root.child_stages().to_set() by {
                        if id != next_stage_id {
                            assert(below.contains_key(id));
                            assert(middle.child_edges[id] == below[id].root.child_stages().to_set());
                        }
                    }
                }
                Ok(stage)
            },
        }
    }

    /// Puts `node` into the tree of its stage: below `parent`, or at the
    /// root of the stage where there is no parent.
    fn attach(
        node: ExecutionPlanNode,
        builder: &mut QueryStageBuilder,
        parent_exec_node: Option<&mut ExecutionPlanNode>,
    )
        ensures
            final(builder).same_stage(old(builder)),
            final(builder).children_stages == old(builder).children_stages,
            match parent_exec_node {
                Some(parent) => final(parent)@ == parent@.with_child(node@) && final(builder).root
                    == old(builder).root,
                None => final(builder).root matches Some(root) && root@ == node@,
            },
    {
        if let Some(parent) = parent_exec_node {
            let ghost before = parent@;
            parent.children.push(Arc::new(node));
            assert(parent@.children =~= before.children.push(node@));
        } else {
            builder.root = Some(Arc::new(node));
        }
    }

    /// Walks the plan below `node`, which lies in the stage that `builder`
    /// assembles.
    fn visit_node(
        &mut self,
        node: PlanRef,
        builder: &mut QueryStageBuilder,
        parent_exec_node: Option<&mut ExecutionPlanNode>,
    ) -> (r: Result<(), FragmenterError>)
        requires
            old(self).inv(),
            old(builder).children_in(old(self).stage_graph_builder@),
        ensures
            final(self).same_query(old(self)),
            final(builder).same_stage(old(builder)),
            ({
                let next = old(self).next_stage_id as nat;
                match fault(node@, next, old(self).workers()) {
                    Some(e) => r == Err::<(), _>(e),
                    None => {
                        &&& r is Ok
                        &&& final(self).inv()
                        &&& final(self).next_stage_id == next + node@.exchanges()
                        &&& extends(
                            old(self).stage_graph_builder@,
                            final(self).stage_graph_builder@,
                            stages_below(
                                node@,
                                next,
                                old(builder).parallelism,
                                old(self).workers(),
                                old(self).query_id@,
                            ),
                        )
                        &&& final(builder).children_in(final(self).stage_graph_builder@)
                        &&& final(builder).children_ids() == old(builder).children_ids()
                            + stage_tree(node@, next).child_stages()
                        &&& match parent_exec_node {
                            Some(parent) => final(parent)@ == parent@.with_child(
                                stage_tree(node@, next),
                            ) && final(builder).root == old(builder).root,
                            None => final(builder).root matches Some(root) && root@ == stage_tree(
                                node@,
                                next,
                            ),
                        }
                    },
                }
            }),
        decreases node, 1nat,
    {
        match node.node_type {
            PlanNodeType::BatchExchange => self.visit_exchange(node, builder, parent_exec_node),
            _ => {
                let ghost next = self.next_stage_id as nat;
                let ghost before = self.stage_graph_builder@;
                let ghost ids = builder.children_ids();
                let ghost workers = self.workers();
                let ghost query_id = self.query_id@;
                let ghost parallelism = builder.parallelism;
                let mut execution_plan_node = ExecutionPlanNode::from(node.clone());
                let mut i: usize = 0;
                proof {
                    assert(stages_below_inputs(
                        node@.inputs,
                        0,
                        next,
                        parallelism,
                        workers,
                        query_id,
                    ) =~= Map::empty());
                    assert(before.stages.union_prefer_right(Map::empty()) =~= before.stages);
                    assert(ids + Seq::<StageId>::empty() =~= ids);
                }
                while i < node.inputs.len()
                    invariant
                        i <= node.inputs.len(),
                        node.inputs@.len() == node@.inputs.len(),
                        forall|j: int|
                            0 <= j < node.inputs@.len() ==> (#[trigger] node.inputs@[j])@
                                == node@.inputs[j],
                        !node@.is_exchange(),
                        self.same_query(old(self)),
                        builder.same_stage(old(builder)),
                        builder.root == old(builder).root,
                        workers == old(self).workers(),
                        query_id == old(self).query_id@,
                        parallelism == old(builder).parallelism,
                        next == old(self).next_stage_id,
                        fault_in(node@.inputs, i as nat, next, workers) is None,
                        self.inv(),
                        self.next_stage_id == next + exchanges_in(node@.inputs, i as nat),
                        extends(
                            before,
                            self.stage_graph_builder@,
                            stages_below_inputs(
                                node@.inputs,
                                i as nat,
                                next,
                                parallelism,
                                workers,
                                query_id,
                            ),
                        ),
                        builder.children_in(self.stage_graph_builder@),
                        execution_plan_node@ == (ExecutionPlanNodeView {
                            children: stage_trees(node@.inputs, i as nat, next),
                            ..node@.bare()
                        }),
                        stage_trees(node@.inputs, i as nat, next).len() == i,
                        builder.children_ids() == ids + child_stages_in(
                            execution_plan_node@.children,
                            i as nat,
                        ),
                    decreases node.inputs.len() - i,
                {
                    let ghost graph = self.stage_graph_builder@;
                    let ghost children = execution_plan_node@.children;
                    let ghost so_far = builder.children_ids();
                    let ghost at = self.next_stage_id as nat;
                    let input = node.inputs[i].clone();
                    match self.visit_node(input, builder, Some(&mut execution_plan_node)) {
                        Err(e) => {
                            proof {
                                lemma_fault_in_stays(
                                    node@.inputs,
                                    (i + 1) as nat,
                                    node@.inputs.len(),
                                    next,
                                    workers,
                                );
                            }
                            return Err(e);
                        },
                        Ok(_) => {},
                    }
                    proof {
                        let tree = stage_tree(node@.inputs[i as int], at);
                        let left = stages_below_inputs(
                            node@.inputs,
                            i as nat,
                            next,
                            parallelism,
                            workers,
                            query_id,
                        );
                        let right = stages_below(
                            node@.inputs[i as int],
                            at,
                            parallelism,
                            workers,
                            query_id,
                        );
                        let after = self.stage_graph_builder@;
                        assert(after.stages =~= before.stages.union_prefer_right(
                            left.union_prefer_right(right),
                        ));
                        assert forall|id: StageId| #[trigger] before.contains(id) implies
                            after.child_edges[id] == before.child_edges[id] by {
                            assert(graph.contains(id));
                        }
                        assert forall|id: StageId| #[trigger]
                            left.union_prefer_right(right).contains_key(id) implies
                            after.child_edges[id] == left.union_prefer_right(
                            right,
                        )[id].root.child_stages().to_set() by {
                            if !right.contains_key(id) {
                                assert(left.contains_key(id));
                                assert(graph.contains(id));
                            }
                        }
                        lemma_child_stages_in_prefix(
                            children,
                            execution_plan_node@.children,
                            i as nat,
                        );
                        assert(builder.children_ids() =~= ids + child_stages_in(
                            execution_plan_node@.children,
                            (i + 1) as nat,
                        ));
                    }
                    i = i + 1;
                }
                proof {
                    assert(execution_plan_node@ == stage_tree(node@, next));
                    assert(execution_plan_node@.child_stages() =~= child_stages_in(
                        execution_plan_node@.children,
                        i as nat,
                    ));
                }
                Self::attach(execution_plan_node, builder, parent_exec_node);
                Ok(())
            },
        }
    }

    /// Cuts the plan at the exchange `node`: the plan below it becomes a
    /// stage of its own, and `node` ends the tree of the stage that
    /// `builder` assembles.
    fn visit_exchange(
        &mut self,
        node: PlanRef,
        builder: &mut QueryStageBuilder,
        parent_exec_node: Option<&mut ExecutionPlanNode>,
    ) -> (r: Result<(), FragmenterError>)
        requires
            node@.is_exchange(),
            old(self).inv(),
            old(builder).children_in(old(self).stage_graph_builder@),
        ensures
            final(self).same_query(old(self)),
            final(builder).same_stage(old(builder)),
            ({
                let next = old(self).next_stage_id as nat;
                match fault(node@, next, old(self).workers()) {
                    Some(e) => r == Err::<(), _>(e),
                    None => {
                        &&& r is Ok
                        &&& final(self).inv()
                        &&& final(self).next_stage_id == next + node@.exchanges()
                        &&& extends(
                            old(self).stage_graph_builder@,
                            final(self).stage_graph_builder@,
                            stages_below(
                                node@,
                                next,
                                old(builder).parallelism,
                                old(self).workers(),
                                old(self).query_id@,
                            ),
                        )
                        &&& final(builder).children_in(final(self).stage_graph_builder@)
                        &&& final(builder).children_ids() == old(builder).children_ids()
                            + stage_tree(node@, next).child_stages()
                        &&& match parent_exec_node {
                            Some(parent) => final(parent)@ == parent@.with_child(
                                stage_tree(node@, next),
                            ) && final(builder).root == old(builder).root,
                            None => final(builder).root matches Some(root) && root@ == stage_tree(
                                node@,
                                next,
                            ),
                        }
                    },
                }
            }),
        decreases node, 0nat,
    {
        if node.inputs.len() != 1 {
            return Err(FragmenterError::MalformedPlan(node.id));
        }
        if self.next_stage_id == u32::MAX {
            return Err(FragmenterError::StageIdOverflow(node.id));
        }
        let ghost next = self.next_stage_id as nat;
        let ghost before = self.stage_graph_builder@;
        let ghost ids = builder.children_ids();
        let mut execution_plan_node = ExecutionPlanNode::from(node.clone());
        let child_exchange_info = Some(node.distribution.to_prost(builder.parallelism));
        let input = node.inputs[0].clone();
        assert(input@ == node@.inputs[0]);
        let child_stage = match self.new_stage(
            input,
            Some(builder.parallelism),
            child_exchange_info,
        ) {
            Err(e) => {
                return Err(e);
            },
            Ok(child_stage) => child_stage,
        };
        execution_plan_node.stage_id = Some(child_stage.id);
        proof {
            assert(exchanges_in(node@.inputs, 1) == exchanges_in(node@.inputs, 0)
                + node@.inputs[0].exchanges());
            assert(execution_plan_node@ == stage_tree(node@, next));
            assert(execution_plan_node@.child_stages() =~= seq![child_stage.id]);
            assert(self.stage_graph_builder@.contains(child_stage.id));
            assert forall|i: int| 0 <= i < builder.children_stages@.len() implies
                self.stage_graph_builder@.contains((#[trigger] builder.children_stages@[i]).id) by {
                assert(before.contains(builder.children_stages@[i].id));
            }
        }
        Self::attach(execution_plan_node, builder, parent_exec_node);
        builder.children_stages.push(child_stage);
        assert(builder.children_ids() =~= ids + seq![child_stage.id]);
        Ok(())
    }

    /// Splits the plan into stages at its exchange operators, and hands out
    /// the query that they make up.
    ///
    /// The plan is walked from its root, each operator before its inputs and
    /// the inputs from left to right. The walk stops with an error at the
    /// first exchange that does not have exactly one input, or for which no
    /// stage identifier is left, or, in a cluster without workers, at the
    /// first exchange of any kind. Where nothing stops it, the query holds
    /// the stage graph of the plan.
    pub fn split(self, batch_node: PlanRef) -> (r: Result<Query, FragmenterError>)
        requires
            self.is_fresh(),
        ensures
            result_view(r) == split_of(batch_node@, self.workers(), self.query_id()),
            r matches Ok(query) ==> query.wf() && query@.stage_graph.is_numbered_tree()
                && query@.stage_graph.is_tree(),
    {
        let mut this = self;
        let root_stage = match this.new_stage(batch_node.clone(), None, None) {
            Err(e) => {
                return Err(e);
            },
            Ok(root_stage) => root_stage,
        };
        let ghost built = this.stage_graph_builder@;
        let stage_graph = match this.stage_graph_builder.build(root_stage.id) {
            Err(e) => {
                return Err(e);
            },
            Ok(stage_graph) => stage_graph,
        };
        let query = Query { stage_graph, query_id: this.query_id };
        proof {
            let expected = stage_graph_of(batch_node@, self.workers(), self.query_id());
            let added = stages_of(batch_node@, self.workers(), self.query_id());
            assert(added == expected.stages);
            assert(built.stages =~= added);
            assert forall|id: StageId| #[trigger] built.contains(id) implies built.child_edges[id]
                == added[id].root.child_stages().to_set() by {
                assert(added.contains_key(id));
            }
            assert(built.child_edges =~= expected.child_edges);
            assert forall|c: StageId| #[trigger] built.contains(c) implies built.parent_edges[c]
                =~= expected.parent_edges[c] by {
                assert forall|p: StageId|
                    built.parent_edges[c].contains(p) <==> expected.parent_edges[c].contains(
                        p,
                    ) by {
                    if built.parent_edges[c].contains(p) {
                        assert(built.child_edges[p].contains(c));
                        assert(built.contains(p));
                        assert(added[p].root.child_stages().to_set().contains(c));
                    }
                    if expected.parent_edges[c].contains(p) {
                        assert(built.contains(p));
                        assert(added[p].root.child_stages().to_set().contains(c));
                        assert(built.child_edges[p].contains(c));
                    }
                }
            }
            assert(built.parent_edges.dom() =~= expected.parent_edges.dom());
            assert forall|c: StageId| #[trigger] built.parent_edges.contains_key(c) implies
                built.parent_edges[c] == expected.parent_edges[c] by {
                assert(built.contains(c));
            }
            assert(built.parent_edges =~= expected.parent_edges);
            lemma_plan_graph_is_tree(batch_node@, self.workers(), self.query_id());
        }
        Ok(query)
    }
}

} // verus!
