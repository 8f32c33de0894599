use std::collections::{HashMap, HashSet};
use std::rc::Rc;

use plan_fragmenter::error::FragmenterError;
use plan_fragmenter::execution::{ExecutionPlanNode, StageId};
use plan_fragmenter::fragmenter::BatchPlanFragmenter;
use plan_fragmenter::graph::{Query, StageGraphBuilder};
use plan_fragmenter::plan::{
    DataType, Distribution, ExchangeInfo, Field, NodeBody, PlanNode, PlanNodeId, PlanNodeType,
    PlanRef,
};
use plan_fragmenter::query_id::QueryId;
use plan_fragmenter::stage::QueryStage;
use plan_fragmenter::worker::WorkerNodeManager;

fn schema() -> Vec<Field> {
    vec![
        Field { data_type: DataType::Int32, name: "a".to_string() },
        Field { data_type: DataType::Float64, name: "b".to_string() },
    ]
}

fn seq_scan(id: i32) -> PlanRef {
    PlanNode::new(
        PlanNodeId(id),
        PlanNodeType::BatchSeqScan,
        NodeBody::RowSeqScan(vec![1, 2, 3]),
        schema(),
        vec![],
        Distribution::Any,
    )
}

fn exchange(id: i32, inputs: Vec<PlanRef>, distribution: Distribution) -> PlanRef {
    PlanNode::new(
        PlanNodeId(id),
        PlanNodeType::BatchExchange,
        NodeBody::Exchange(vec![id as u8]),
        schema(),
        inputs,
        distribution,
    )
}

fn hash_join(id: i32, left: PlanRef, right: PlanRef) -> PlanRef {
    PlanNode::new(
        PlanNodeId(id),
        PlanNodeType::BatchHashJoin,
        NodeBody::HashJoin(vec![7]),
        schema(),
        vec![left, right],
        Distribution::Any,
    )
}

/// Exchange(Single) over a hash join over two exchanges by hash, each over
/// the same scan.
fn join_plan() -> PlanRef {
    let batch_plan_node = seq_scan(1);
    let batch_exchange_node1 =
        exchange(2, vec![batch_plan_node.clone()], Distribution::HashShard(vec![0, 1]));
    let batch_exchange_node2 =
        exchange(3, vec![batch_plan_node.clone()], Distribution::HashShard(vec![0, 1]));
    let hash_join_node = hash_join(4, batch_exchange_node1, batch_exchange_node2);
    exchange(5, vec![hash_join_node], Distribution::Single)
}

fn split(plan: PlanRef, workers: u32) -> Result<Query, FragmenterError> {
    BatchPlanFragmenter::new(WorkerNodeManager::new(workers)).split(plan)
}

fn split_as(plan: PlanRef, workers: u32, query_id: &str) -> Result<Query, FragmenterError> {
    BatchPlanFragmenter::with_query_id(
        QueryId { id: query_id.to_string() },
        WorkerNodeManager::new(workers),
    )
    .split(plan)
}

fn set(ids: &[StageId]) -> HashSet<StageId> {
    ids.iter().copied().collect()
}

fn children(query: &Query, id: StageId) -> HashSet<StageId> {
    query.stage_graph.get_child_stages_unchecked(&id).clone()
}

fn parents(query: &Query, id: StageId) -> HashSet<StageId> {
    query.get_parents(&id).unwrap().clone()
}

fn stage(query: &Query, id: StageId) -> std::sync::Arc<QueryStage> {
    query.stage_graph.get_stage_unchecked(&id)
}

fn is_single_over_one(info: &ExchangeInfo) -> bool {
    matches!(info.distribution, Distribution::Single) && info.parallelism == 1
}

/// Exchanges name a stage and have no children; nothing else names a stage.
fn references_in_place(node: &ExecutionPlanNode) -> bool {
    let here = if node.plan_node_type == PlanNodeType::BatchExchange {
        node.stage_id.is_some() && node.children.is_empty()
    } else {
        node.stage_id.is_none()
    };
    here && node.children.iter().all(|child| references_in_place(child))
}

#[test]
fn test_fragmenter() {
    // Construct a hash join with exchange nodes.
    //
    //    HashJoin
    //     /    \
    //   Scan  Scan
    //
    let batch_exchange_node3 = join_plan();
    // Break the plan node into fragments.
    let fragmenter = BatchPlanFragmenter::new(WorkerNodeManager::new(3));
    let query = fragmenter.split(batch_exchange_node3.clone()).unwrap();

    assert_eq!(query.stage_graph.root_stage_id, 0);
    assert_eq!(query.stage_graph.stages.len(), 4);

    // Check the mappings of child edges.
    assert_eq!(children(&query, 0), set(&[1]));
    assert_eq!(children(&query, 1), set(&[2, 3]));
    assert_eq!(children(&query, 2), HashSet::new());
    assert_eq!(children(&query, 3), HashSet::new());

    // Check the mappings of parent edges.
    assert_eq!(parents(&query, 0), HashSet::new());
    assert_eq!(parents(&query, 1), set(&[0]));
    assert_eq!(parents(&query, 2), set(&[1]));
    assert_eq!(parents(&query, 3), set(&[1]));

    // Verify topology order
    {
        let stage_id_to_pos: HashMap<StageId, usize> = query
            .stage_graph
            .stage_ids_by_topo_order()
            .into_iter()
            .enumerate()
            .map(|(pos, stage_id)| (stage_id, pos))
            .collect();

        for stage_id in query.stage_graph.stages.keys() {
            let stage_pos = stage_id_to_pos[stage_id];
            for child_stage_id in query.stage_graph.get_child_stages_unchecked(stage_id) {
                let child_pos = stage_id_to_pos[child_stage_id];
                assert!(stage_pos > child_pos);
            }
        }
    }

    // Check plan node in each stages.
    let root_exchange = query.stage_graph.stages.get(&0).unwrap();
    assert_eq!(root_exchange.root.node_type(), PlanNodeType::BatchExchange);
    assert_eq!(root_exchange.root.stage_id, Some(1));
    assert!(matches!(root_exchange.root.node, NodeBody::Exchange(_)));
    assert_eq!(root_exchange.parallelism, 1);

    let join_node = query.stage_graph.stages.get(&1).unwrap();
    assert_eq!(join_node.root.node_type(), PlanNodeType::BatchHashJoin);
    assert_eq!(join_node.parallelism, 3);

    assert!(matches!(join_node.root.node, NodeBody::HashJoin(_)));
    assert_eq!(join_node.root.stage_id, None);
    assert_eq!(2, join_node.root.children.len());

    assert!(matches!(join_node.root.children[0].node, NodeBody::Exchange(_)));
    assert_eq!(join_node.root.children[0].stage_id, Some(2));
    assert_eq!(0, join_node.root.children[0].children.len());

    assert!(matches!(join_node.root.children[1].node, NodeBody::Exchange(_)));
    assert_eq!(join_node.root.children[1].stage_id, Some(3));
    assert_eq!(0, join_node.root.children[1].children.len());

    let scan_node1 = query.stage_graph.stages.get(&2).unwrap();
    assert_eq!(scan_node1.root.node_type(), PlanNodeType::BatchSeqScan);
    assert_eq!(scan_node1.root.stage_id, None);
    assert_eq!(0, scan_node1.root.children.len());
    let scan_node2 = query.stage_graph.stages.get(&3).unwrap();
    assert_eq!(scan_node2.root.node_type(), PlanNodeType::BatchSeqScan);
    assert_eq!(scan_node2.root.stage_id, None);
    assert_eq!(0, scan_node2.root.children.len());
}

#[test]
fn trivial_plan_is_one_stage() {
    let query = split(seq_scan(1), 3).unwrap();
    assert_eq!(query.root_stage_id(), 0);
    assert_eq!(query.stage_graph.stages.len(), 1);
    let root = stage(&query, 0);
    assert_eq!(root.id, 0);
    assert_eq!(root.parallelism, 1);
    assert!(is_single_over_one(&root.exchange_info));
    assert_eq!(root.root.node_type(), PlanNodeType::BatchSeqScan);
    assert!(root.root.children.is_empty());
    assert_eq!(root.root.stage_id, None);
    assert_eq!(query.leaf_stages(), vec![0]);
    assert_eq!(children(&query, 0), HashSet::new());
    assert_eq!(parents(&query, 0), HashSet::new());
    assert_eq!(query.stage_graph.stage_ids_by_topo_order(), vec![0]);
}

#[test]
fn operators_are_carried_over_unchanged() {
    let query = split(join_plan(), 3).unwrap();
    let root = stage(&query, 0);
    assert_eq!(root.root.plan_node_id, PlanNodeId(5));
    assert!(matches!(&root.root.node, NodeBody::Exchange(bytes) if bytes == &vec![5u8]));
    assert_eq!(root.root.schema.len(), 2);
    assert_eq!(root.root.schema[0].name, "a");
    assert_eq!(root.root.schema[0].data_type, DataType::Int32);
    assert_eq!(root.root.schema[1].name, "b");
    assert_eq!(root.root.schema[1].data_type, DataType::Float64);
    let join = stage(&query, 1);
    assert_eq!(join.root.plan_node_id, PlanNodeId(4));
    assert_eq!(join.root.children[0].plan_node_id, PlanNodeId(2));
    assert_eq!(join.root.children[1].plan_node_id, PlanNodeId(3));
    let scan = stage(&query, 2);
    assert_eq!(scan.root.plan_node_id, PlanNodeId(1));
    assert!(matches!(&scan.root.node, NodeBody::RowSeqScan(bytes) if bytes == &vec![1u8, 2, 3]));
}

#[test]
fn exchange_info_is_for_the_parent_stage() {
    let query = split(join_plan(), 3).unwrap();
    // The root stage hands everything to one consumer.
    assert!(is_single_over_one(&stage(&query, 0).exchange_info));
    // Stage 1 feeds the root stage, which has one parallel unit.
    let info = &stage(&query, 1).exchange_info;
    assert!(matches!(info.distribution, Distribution::Single));
    assert_eq!(info.parallelism, 1);
    // Stages 2 and 3 feed stage 1, which runs on the three workers.
    for id in [2, 3] {
        let info = &stage(&query, id).exchange_info;
        assert!(matches!(&info.distribution, Distribution::HashShard(keys) if keys == &vec![0, 1]));
        assert_eq!(info.parallelism, 3);
    }
}

#[test]
fn chained_exchanges() {
    let plan = exchange(
        3,
        vec![exchange(2, vec![seq_scan(1)], Distribution::HashShard(vec![0]))],
        Distribution::Single,
    );
    let query = split(plan, 3).unwrap();
    assert_eq!(query.stage_graph.stages.len(), 3);
    assert_eq!(children(&query, 0), set(&[1]));
    assert_eq!(children(&query, 1), set(&[2]));
    assert_eq!(children(&query, 2), HashSet::new());
    assert_eq!(parents(&query, 0), HashSet::new());
    assert_eq!(parents(&query, 1), set(&[0]));
    assert_eq!(parents(&query, 2), set(&[1]));
    let stage0 = stage(&query, 0);
    assert_eq!(stage0.root.node_type(), PlanNodeType::BatchExchange);
    assert_eq!(stage0.root.stage_id, Some(1));
    assert_eq!(stage0.parallelism, 1);
    let stage1 = stage(&query, 1);
    assert_eq!(stage1.root.node_type(), PlanNodeType::BatchExchange);
    assert_eq!(stage1.root.stage_id, Some(2));
    assert!(stage1.root.children.is_empty());
    assert_eq!(stage1.parallelism, 3);
    let stage2 = stage(&query, 2);
    assert_eq!(stage2.root.node_type(), PlanNodeType::BatchSeqScan);
    assert_eq!(stage2.root.stage_id, None);
    assert_eq!(stage2.parallelism, 3);
    assert_eq!(query.stage_graph.stage_ids_by_topo_order(), vec![2, 1, 0]);
    assert_eq!(query.leaf_stages(), vec![2]);
}

#[test]
fn topology_order_of_the_join() {
    let query = split(join_plan(), 3).unwrap();
    let order = query.stage_graph.stage_ids_by_topo_order();
    assert_eq!(order.len(), 4);
    let position = |id: StageId| order.iter().position(|x| *x == id).unwrap();
    assert!(position(2) < position(1));
    assert!(position(3) < position(1));
    assert!(position(1) < position(0));
    // Of two stages that feed the same stage, the one opened later comes
    // first.
    assert_eq!(order, vec![2, 3, 1, 0]);
    assert_eq!(query.leaf_stages(), vec![2, 3]);
}

#[test]
fn empty_cluster_is_rejected() {
    assert_eq!(split(join_plan(), 0).err(), Some(FragmenterError::EmptyCluster(1)));
    let one_exchange = exchange(2, vec![seq_scan(1)], Distribution::Single);
    assert_eq!(split(one_exchange, 0).err(), Some(FragmenterError::EmptyCluster(1)));
    // With no exchange there is only the root stage, which needs no worker.
    let query = split(hash_join(3, seq_scan(1), seq_scan(2)), 0).unwrap();
    assert_eq!(query.stage_graph.stages.len(), 1);
    assert_eq!(stage(&query, 0).parallelism, 1);
}

#[test]
fn malformed_exchange_is_rejected() {
    let no_input = exchange(9, vec![], Distribution::Single);
    assert_eq!(split(no_input, 3).err(), Some(FragmenterError::MalformedPlan(PlanNodeId(9))));
    let two_inputs = exchange(8, vec![seq_scan(1), seq_scan(2)], Distribution::Single);
    assert_eq!(split(two_inputs, 3).err(), Some(FragmenterError::MalformedPlan(PlanNodeId(8))));
    // Further down, to the right of a sound exchange.
    let deep = hash_join(
        4,
        exchange(2, vec![seq_scan(1)], Distribution::Single),
        exchange(3, vec![], Distribution::Single),
    );
    assert_eq!(split(deep, 3).err(), Some(FragmenterError::MalformedPlan(PlanNodeId(3))));
}

#[test]
fn the_first_fault_on_the_walk_is_reported() {
    // Without workers the walk stops at the first exchange that it meets:
    // at a malformed one with its own error, at a sound one for want of
    // workers.
    let malformed_first = hash_join(
        4,
        exchange(2, vec![], Distribution::Single),
        exchange(3, vec![seq_scan(1)], Distribution::Single),
    );
    assert_eq!(
        split(malformed_first, 0).err(),
        Some(FragmenterError::MalformedPlan(PlanNodeId(2)))
    );
    let sound_first = hash_join(
        4,
        exchange(2, vec![seq_scan(1)], Distribution::Single),
        exchange(3, vec![], Distribution::Single),
    );
    assert_eq!(split(sound_first, 0).err(), Some(FragmenterError::EmptyCluster(1)));
}

#[test]
fn the_order_does_not_depend_on_how_the_graph_was_built() {
    let mut forwards = StageGraphBuilder::new();
    for id in 0..6 {
        assert_eq!(forwards.add_node(bare_stage(id)), Ok(()));
    }
    for child in 1..6 {
        assert_eq!(forwards.link_to_child(0, child), Ok(()));
    }
    let mut backwards = StageGraphBuilder::new();
    for id in (0..6).rev() {
        assert_eq!(backwards.add_node(bare_stage(id)), Ok(()));
    }
    for child in (1..6).rev() {
        assert_eq!(backwards.link_to_child(0, child), Ok(()));
    }
    let forwards = forwards.build(0).ok().unwrap();
    let backwards = backwards.build(0).ok().unwrap();
    assert_eq!(forwards.stage_ids_by_topo_order(), vec![1, 2, 3, 4, 5, 0]);
    assert_eq!(backwards.stage_ids_by_topo_order(), vec![1, 2, 3, 4, 5, 0]);
}

#[test]
fn leaves_come_in_increasing_order() {
    let mut plan = hash_join(
        30,
        exchange(10, vec![seq_scan(1)], Distribution::Single),
        exchange(11, vec![seq_scan(2)], Distribution::Single),
    );
    for i in 0..5 {
        plan = hash_join(
            31 + i,
            plan,
            exchange(12 + i, vec![seq_scan(3 + i)], Distribution::Broadcast),
        );
    }
    let query = split(plan, 2).unwrap();
    assert_eq!(query.leaf_stages(), vec![1, 2, 3, 4, 5, 6, 7]);
    assert_eq!(query.stage_graph.stage_ids_by_topo_order(), vec![1, 2, 3, 4, 5, 6, 7, 0]);
}

#[test]
fn edges_agree_in_both_directions() {
    let query = split(join_plan(), 5).unwrap();
    let ids: Vec<StageId> = query.stage_graph.stages.keys().copied().collect();
    for p in &ids {
        for c in &ids {
            assert_eq!(children(&query, *p).contains(c), parents(&query, *c).contains(p));
        }
    }
}

#[test]
fn stages_below_the_root_run_on_every_worker() {
    let query = split(join_plan(), 7).unwrap();
    assert_eq!(stage(&query, 0).parallelism, 1);
    for id in [1, 2, 3] {
        assert_eq!(stage(&query, id).parallelism, 7);
        assert_eq!(stage(&query, id).id, id);
    }
}

#[test]
fn stage_references_stand_at_exchanges_only() {
    let query = split(join_plan(), 3).unwrap();
    for id in 0..4 {
        assert!(references_in_place(&stage(&query, id).root));
    }
}

#[test]
fn one_stage_more_than_exchanges() {
    assert_eq!(split(seq_scan(1), 2).unwrap().stage_graph.stages.len(), 1);
    assert_eq!(split(join_plan(), 2).unwrap().stage_graph.stages.len(), 4);
    let mut plan = seq_scan(0);
    for i in 1..=10 {
        plan = exchange(i, vec![plan], Distribution::Broadcast);
    }
    let query = split(plan, 2).unwrap();
    assert_eq!(query.stage_graph.stages.len(), 11);
    assert_eq!(query.stage_graph.stage_ids_by_topo_order(), (0..=10).rev().collect::<Vec<u32>>());
}

#[test]
fn splitting_twice_gives_the_same_query() {
    let first = split_as(join_plan(), 3, "q").unwrap();
    let second = split_as(join_plan(), 3, "q").unwrap();
    assert_eq!(first.query_id, second.query_id);
    assert_eq!(first.query_id.id, "q");
    assert_eq!(first.stage_graph.stages.len(), second.stage_graph.stages.len());
    for id in 0..4 {
        assert_eq!(children(&first, id), children(&second, id));
        assert_eq!(parents(&first, id), parents(&second, id));
        let (a, b) = (stage(&first, id), stage(&second, id));
        assert_eq!(a.query_id, b.query_id);
        assert_eq!(a.parallelism, b.parallelism);
        assert_eq!(a.root.plan_node_id, b.root.plan_node_id);
        assert_eq!(a.root.stage_id, b.root.stage_id);
        assert_eq!(a.root.children.len(), b.root.children.len());
    }
}

#[test]
fn every_stage_carries_the_query_id() {
    let query = split_as(join_plan(), 3, "query-1").unwrap();
    assert_eq!(query.query_id.id, "query-1");
    for id in 0..4 {
        assert_eq!(stage(&query, id).query_id.id, "query-1");
    }
}

#[test]
fn fresh_query_ids_are_random_uuids() {
    let first = QueryId::default();
    let second = QueryId::default();
    assert_ne!(first, second);
    for id in [first, second] {
        let text: Vec<char> = id.id.chars().collect();
        assert_eq!(text.len(), 36);
        for (i, c) in text.iter().enumerate() {
            if i == 8 || i == 13 || i == 18 || i == 23 {
                assert_eq!(*c, '-');
            } else {
                assert!(c.is_ascii_digit() || ('a'..='f').contains(c));
            }
        }
        assert_eq!(text[14], '4');
        assert!(matches!(text[19], '8' | '9' | 'a' | 'b'));
    }
    let query = split(seq_scan(1), 1).unwrap();
    assert_eq!(query.query_id.id.len(), 36);
    assert_eq!(stage(&query, 0).query_id, query.query_id);
}

#[test]
fn get_parents_of_a_missing_stage_is_an_error() {
    let query = split(join_plan(), 3).unwrap();
    assert_eq!(query.get_parents(&4).err(), Some(FragmenterError::MissingStageId(4)));
    assert!(query.get_parents(&3).is_ok());
}

fn bare_stage(id: StageId) -> std::sync::Arc<QueryStage> {
    std::sync::Arc::new(QueryStage {
        query_id: QueryId { id: "q".to_string() },
        id,
        root: std::sync::Arc::new(ExecutionPlanNode::from(seq_scan(1))),
        exchange_info: Distribution::Single.to_prost(1),
        parallelism: 1,
    })
}

#[test]
fn builder_keeps_both_directions_in_step() {
    let mut builder = StageGraphBuilder::new();
    assert_eq!(builder.add_node(bare_stage(0)), Ok(()));
    assert_eq!(builder.add_node(bare_stage(1)), Ok(()));
    assert_eq!(builder.add_node(bare_stage(2)), Ok(()));
    assert!(builder.contains(1));
    assert!(!builder.contains(3));
    assert_eq!(builder.link_to_child(0, 1), Ok(()));
    assert_eq!(builder.link_to_child(0, 2), Ok(()));
    // Linking again changes nothing.
    assert_eq!(builder.link_to_child(0, 1), Ok(()));
    let graph = builder.build(0).ok().unwrap();
    assert_eq!(graph.root_stage_id, 0);
    assert_eq!(graph.get_child_stages_unchecked(&0).clone(), set(&[1, 2]));
    assert_eq!(graph.get_child_stages_unchecked(&1).clone(), HashSet::new());
    assert_eq!(graph.get_stage_unchecked(&2).id, 2);
    let query = Query { query_id: QueryId { id: "q".to_string() }, stage_graph: graph };
    assert_eq!(parents(&query, 1), set(&[0]));
    assert_eq!(parents(&query, 2), set(&[0]));
    assert_eq!(parents(&query, 0), HashSet::new());
    assert_eq!(query.root_stage_id(), 0);
    assert_eq!(query.leaf_stages(), vec![1, 2]);
}

#[test]
fn builder_rejects_duplicates_and_missing_stages() {
    let mut builder = StageGraphBuilder::new();
    assert_eq!(builder.add_node(bare_stage(0)), Ok(()));
    assert_eq!(builder.add_node(bare_stage(0)), Err(FragmenterError::DuplicateStageId(0)));
    assert_eq!(builder.link_to_child(5, 0), Err(FragmenterError::MissingStageId(5)));
    assert_eq!(builder.link_to_child(0, 6), Err(FragmenterError::MissingStageId(6)));
    assert_eq!(builder.link_to_child(5, 6), Err(FragmenterError::MissingStageId(5)));
    assert_eq!(builder.build(7).err(), Some(FragmenterError::MissingStageId(7)));
    let mut builder = StageGraphBuilder::new();
    assert_eq!(builder.add_node(bare_stage(3)), Ok(()));
    let graph = builder.build(3).ok().unwrap();
    assert_eq!(graph.stage_ids_by_topo_order(), vec![3]);
}

#[test]
fn walk_from_the_root_reaches_what_hangs_below_it() {
    // A graph that is no tree: stage 3 hangs nowhere, stage 2 below two
    // stages.
    let mut builder = StageGraphBuilder::new();
    for id in 0..4 {
        assert_eq!(builder.add_node(bare_stage(id)), Ok(()));
    }
    assert_eq!(builder.link_to_child(0, 1), Ok(()));
    assert_eq!(builder.link_to_child(0, 2), Ok(()));
    assert_eq!(builder.link_to_child(1, 2), Ok(()));
    let graph = builder.build(0).ok().unwrap();
    assert_eq!(graph.stage_ids_by_topo_order(), vec![1, 2, 0]);
}

#[test]
fn execution_node_from_plan_node() {
    let plan = exchange(5, vec![seq_scan(1)], Distribution::Single);
    let node = ExecutionPlanNode::from(plan.clone());
    assert_eq!(node.plan_node_id, PlanNodeId(5));
    assert_eq!(node.node_type(), PlanNodeType::BatchExchange);
    assert!(matches!(&node.node, NodeBody::Exchange(bytes) if bytes == &vec![5u8]));
    assert_eq!(node.schema.len(), 2);
    assert!(node.children.is_empty());
    assert_eq!(node.stage_id, None);
}

#[test]
fn execution_node_clone_keeps_the_tree() {
    let query = split(join_plan(), 3).unwrap();
    let root = stage(&query, 1).root.clone();
    let copy = ExecutionPlanNode::clone(&root);
    assert_eq!(copy.plan_node_id, PlanNodeId(4));
    assert_eq!(copy.node_type(), PlanNodeType::BatchHashJoin);
    assert_eq!(copy.stage_id, None);
    assert_eq!(copy.schema.len(), 2);
    assert_eq!(copy.children.len(), 2);
    assert_eq!(copy.children[0].stage_id, Some(2));
    assert_eq!(copy.children[1].stage_id, Some(3));
}

#[test]
fn distribution_to_prost() {
    let info = Distribution::HashShard(vec![2, 0]).to_prost(4);
    assert!(matches!(&info.distribution, Distribution::HashShard(keys) if keys == &vec![2, 0]));
    assert_eq!(info.parallelism, 4);
    let info = Distribution::Broadcast.to_prost(9);
    assert!(matches!(info.distribution, Distribution::Broadcast));
    assert_eq!(info.parallelism, 9);
    assert!(is_single_over_one(&Distribution::Single.to_prost(1)));
}

#[test]
fn worker_snapshot_reports_its_count() {
    assert_eq!(WorkerNodeManager::new(0).worker_node_count(), 0);
    assert_eq!(WorkerNodeManager::new(3).worker_node_count(), 3);
    let shared: Rc<WorkerNodeManager> = Rc::new(WorkerNodeManager::new(8));
    assert_eq!(shared.worker_node_count(), 8);
}

#[test]
fn insert_in_order_keeps_the_order() {
    let mut list: Vec<StageId> = vec![];
    for id in [5, 1, 9, 5, 0, 7, 1] {
        plan_fragmenter::order::insert_in_order(&mut list, id);
    }
    assert_eq!(list, vec![0, 1, 5, 7, 9]);
    plan_fragmenter::order::insert_in_order(&mut list, u32::MAX);
    assert_eq!(list, vec![0, 1, 5, 7, 9, u32::MAX]);
}

#[test]
fn members_in_order_lists_a_set() {
    assert_eq!(plan_fragmenter::order::members_in_order(&set(&[])), Vec::<StageId>::new());
    assert_eq!(plan_fragmenter::order::members_in_order(&set(&[3, 1, 2])), vec![1, 2, 3]);
    let many: Vec<StageId> = (0..100).rev().collect();
    assert_eq!(
        plan_fragmenter::order::members_in_order(&set(&many)),
        (0..100).collect::<Vec<StageId>>()
    );
}

#[test]
fn schema_is_copied_field_by_field() {
    let copy = plan_fragmenter::plan::clone_schema(&schema());
    assert_eq!(copy.len(), 2);
    assert_eq!(copy[0].name, "a");
    assert_eq!(copy[0].data_type, DataType::Int32);
    assert_eq!(copy[1].name, "b");
    assert_eq!(copy[1].data_type, DataType::Float64);
    assert!(plan_fragmenter::plan::clone_schema(&vec![]).is_empty());
}
