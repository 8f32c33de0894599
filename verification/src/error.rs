//! What can go wrong while a plan is cut into stages.

use crate::execution::StageId;
use crate::plan::PlanNodeId;
use vstd::prelude::*;

verus! {

/// Why no query came out, or why the stage graph refused an operation.
/// Each error names the operator or the stage at which it arose.
#[derive(Clone, Copy, Debug, PartialEq, Eq, Structural)]
pub enum FragmenterError {
    /// The exchange operator with this identifier does not have exactly one
    /// input.
    MalformedPlan(PlanNodeId),
    /// The stage with this identifier is not the root stage, and there is no
    /// worker to run it on.
    EmptyCluster(StageId),
    /// A stage with this identifier is in the graph already.
    DuplicateStageId(StageId),
    /// No stage with this identifier is in the graph.
    MissingStageId(StageId),
    /// The exchange operator with this identifier needs a stage of its own,
    /// and the stage identifiers have run out.
    StageIdOverflow(PlanNodeId),
}

} // verus!
