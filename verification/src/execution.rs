//! The operator trees that stages are made of.

use crate::plan::{
    clone_schema, schema_view, Field, FieldView, NodeBody, NodeBodyView, PlanNodeId, PlanNodeType,
    PlanNodeView, PlanRef,
};
use std::sync::Arc;
use vstd::prelude::*;

verus! {

/// The identifier of a stage: unique within one query, 0 for the root stage.
pub type StageId = u32;

/// One operator of a stage. An exchange operator stands at the lower edge of
/// its stage: it has no children there, and names the stage that feeds it.
#[derive(Debug)]
pub struct ExecutionPlanNode {
    pub plan_node_id: PlanNodeId,
    pub plan_node_type: PlanNodeType,
    pub node: NodeBody,
    pub schema: Vec<Field>,
    pub children: Vec<Arc<ExecutionPlanNode>>,
    /// The stage that feeds this operator, if it is an exchange; `None` for
    /// every other operator.
    pub stage_id: Option<StageId>,
}

/// A stage's operators as a mathematical tree.
pub struct ExecutionPlanNodeView {
    pub plan_node_id: PlanNodeId,
    pub plan_node_type: PlanNodeType,
    pub node: NodeBodyView,
    pub schema: Seq<FieldView>,
    pub children: Seq<ExecutionPlanNodeView>,
    pub stage_id: Option<StageId>,
}

impl ExecutionPlanNode {
    /// The tree below and including this operator.
    pub open spec fn tree(&self) -> ExecutionPlanNodeView
        decreases self,
    {
        ExecutionPlanNodeView {
            plan_node_id: self.plan_node_id,
            plan_node_type: self.plan_node_type,
            node: self.node@,
            schema: schema_view(self.schema@),
            children: Seq::new(
                self.children@.len(),
                |i: int|
                    if 0 <= i < self.children@.len() {
                        self.children@[i].tree()
                    } else {
                        arbitrary()
                    },
            ),
            stage_id: self.stage_id,
        }
    }

    /// The kind of this operator.
    pub fn node_type(&self) -> (r: PlanNodeType)
        ensures
            r == self.plan_node_type,
    {
        self.plan_node_type
    }
}

impl Clone for ExecutionPlanNode {
    /// A copy of this operator that shares the trees below it.
    fn clone(&self) -> (r: Self)
        ensures
            r@ == self@,
    {
        let mut children: Vec<Arc<ExecutionPlanNode>> = Vec::new();
        let mut i: usize = 0;
        while i < self.children.len()
            invariant
                i <= self.children.len(),
                children@.len() == i,
                forall|j: int| 0 <= j < i ==> children@[j] == self.children@[j],
            decreases self.children.len() - i,
        {
            children.push(self.children[i].clone());
            i = i + 1;
        }
        let r = ExecutionPlanNode {
            plan_node_id: self.plan_node_id,
            plan_node_type: self.plan_node_type,
            node: self.node.clone(),
            schema: clone_schema(&self.schema),
            children,
            stage_id: self.stage_id,
        };
        assert(r@.children =~= self@.children);
        r
    }
}

impl View for ExecutionPlanNode {
    type V = ExecutionPlanNodeView;

    open spec fn view(&self) -> ExecutionPlanNodeView {
        self.tree()
    }
}

impl ExecutionPlanNodeView {
    /// Whether stage references stand where they belong, here and below: an
    /// exchange names a stage and has no children, and no other operator
    /// names a stage.
    pub open spec fn wf(self) -> bool
        decreases self,
    {
        &&& self.plan_node_type == PlanNodeType::BatchExchange ==> self.stage_id is Some
            && self.children.len() == 0
        &&& self.plan_node_type != PlanNodeType::BatchExchange ==> self.stage_id is None
        &&& forall|i: int| 0 <= i < self.children.len() ==> (#[trigger] self.children[i]).wf()
    }

    /// The stages that this tree names, in the order in which a walk from
    /// the root meets them, each operator before its children and the
    /// children from left to right.
    pub open spec fn child_stages(self) -> Seq<StageId>
        decreases self, 0nat,
    {
        (match self.stage_id {
            Some(id) => seq![id],
            None => Seq::empty(),
        }) + child_stages_in(self.children, self.children.len())
    }

    /// This operator with one more child, to the right of the others.
    pub open spec fn with_child(self, child: ExecutionPlanNodeView) -> Self {
        ExecutionPlanNodeView { children: self.children.push(child), ..self }
    }

    /// This operator, naming `stage_id` as the stage that feeds it.
    pub open spec fn with_stage(self, stage_id: StageId) -> Self {
        ExecutionPlanNodeView { stage_id: Some(stage_id), ..self }
    }
}

/// The stages that the first `k` of `trees` name, tree by tree.
pub open spec fn child_stages_in(trees: Seq<ExecutionPlanNodeView>, k: nat) -> Seq<StageId>
    decreases trees, k,
{
    if k == 0 || k > trees.len() {
        Seq::empty()
    } else {
        child_stages_in(trees, (k - 1) as nat) + trees[k - 1].child_stages()
    }
}

/// The stages named by the first `k` trees do not depend on the trees that
/// follow them.
pub proof fn lemma_child_stages_in_prefix(
    a: Seq<ExecutionPlanNodeView>,
    b: Seq<ExecutionPlanNodeView>,
    k: nat,
)
    requires
        k <= a.len(),
        k <= b.len(),
        forall|i: int| 0 <= i < k ==> a[i] == b[i],
    ensures
        child_stages_in(a, k) == child_stages_in(b, k),
    decreases k,
{
    if k > 0 {
        lemma_child_stages_in_prefix(a, b, (k - 1) as nat);
    }
}

impl PlanNodeView {
    /// The operator alone, as it enters a stage: without children and
    /// without a stage reference.
    pub open spec fn bare(self) -> ExecutionPlanNodeView {
        ExecutionPlanNodeView {
            plan_node_id: self.id,
            plan_node_type: self.node_type,
            node: self.body,
            schema: self.schema,
            children: Seq::empty(),
            stage_id: None,
        }
    }
}

impl From<PlanRef> for ExecutionPlanNode {
    /// The operator as it enters a stage: with the identity, the payload and
    /// the schema of the plan operator, without children and without a
    /// stage reference.
    fn from(plan_node: PlanRef) -> (r: Self)
        ensures
            r@ == plan_node@.bare(),
    {
        let r = ExecutionPlanNode {
            plan_node_id: plan_node.id,
            plan_node_type: plan_node.node_type,
            node: plan_node.body.clone(),
            children: Vec::new(),
            schema: clone_schema(&plan_node.schema),
            stage_id: None,
        };
        assert(r@.children =~= Seq::empty());
        r
    }
}

/// What the conversion gives is stated over views, in the contract of
/// `from`: two nodes with the same content need not be the same value.
impl vstd::std_specs::convert::FromSpecImpl<PlanRef> for ExecutionPlanNode {
    open spec fn obeys_from_spec() -> bool {
        false
    }

    open spec fn from_spec(plan_node: PlanRef) -> Self {
        arbitrary()
    }
}

} // verus!
