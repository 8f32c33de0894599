//! Stages: the units that the scheduler runs.

use crate::execution::{ExecutionPlanNode, ExecutionPlanNodeView, StageId};
use crate::plan::{ExchangeInfo, ExchangeInfoView};
use crate::query_id::QueryId;
use std::sync::Arc;
use vstd::prelude::*;

verus! {

/// One stage of a query: a part of the plan that holds no exchange but at
/// its lower edge, run by `parallelism` parallel units.
#[derive(Debug)]
pub struct QueryStage {
    pub query_id: QueryId,
    pub id: StageId,
    pub root: Arc<ExecutionPlanNode>,
    /// How this stage hands its output to the stage above it.
    pub exchange_info: ExchangeInfo,
    pub parallelism: u32,
}

/// A shared handle to a stage.
pub type QueryStageRef = Arc<QueryStage>;

/// What a [`QueryStage`] holds.
pub struct QueryStageView {
    pub query_id: Seq<char>,
    pub id: StageId,
    pub root: ExecutionPlanNodeView,
    pub exchange_info: ExchangeInfoView,
    pub parallelism: u32,
}

impl View for QueryStage {
    type V = QueryStageView;

    open spec fn view(&self) -> QueryStageView {
        QueryStageView {
            query_id: self.query_id@,
            id: self.id,
            root: self.root@,
            exchange_info: self.exchange_info@,
            parallelism: self.parallelism,
        }
    }
}

} // verus!
