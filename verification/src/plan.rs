//! The input of the fragmenter: a tree of batch operators, each carrying its
//! payload, its output schema and the distribution of its output.

use std::rc::Rc;
use vstd::prelude::*;

verus! {

/// The identifier that the optimizer gave an operator. The fragmenter only
/// carries it along, for diagnostics.
#[derive(Clone, Copy, Debug, PartialEq, Eq, Hash, Structural)]
pub struct PlanNodeId(pub i32);

/// The kind of a batch operator. Only `BatchExchange` means anything to the
/// fragmenter: it is where a plan is cut.
#[derive(Clone, Copy, Debug, PartialEq, Eq, Hash, Structural)]
pub enum PlanNodeType {
    BatchSeqScan,
    BatchValues,
    BatchFilter,
    BatchProject,
    BatchHashJoin,
    BatchHashAgg,
    BatchSort,
    BatchLimit,
    BatchInsert,
    BatchDelete,
    BatchExchange,
}

/// The type of a column.
#[derive(Clone, Copy, Debug, PartialEq, Eq, Hash, Structural)]
pub enum DataType {
    Boolean,
    Int16,
    Int32,
    Int64,
    Float32,
    Float64,
    Decimal,
    Date,
    Varchar,
    Time,
    Timestamp,
    Interval,
}

/// One column of an operator's output.
#[derive(Debug)]
pub struct Field {
    pub data_type: DataType,
    pub name: String,
}

/// What a [`Field`] holds.
pub struct FieldView {
    pub data_type: DataType,
    pub name: Seq<char>,
}

impl View for Field {
    type V = FieldView;

    open spec fn view(&self) -> FieldView {
        FieldView { data_type: self.data_type, name: self.name@ }
    }
}

impl Clone for Field {
    fn clone(&self) -> (r: Self)
        ensures
            r@ == self@,
    {
        Field { data_type: self.data_type, name: self.name.clone() }
    }
}

/// The fields of `schema`, in order.
pub open spec fn schema_view(schema: Seq<Field>) -> Seq<FieldView> {
    schema.map_values(|f: Field| f@)
}

/// A copy of a schema, field by field.
pub fn clone_schema(schema: &Vec<Field>) -> (r: Vec<Field>)
    ensures
        schema_view(r@) == schema_view(schema@),
{
    let mut r: Vec<Field> = Vec::new();
    let mut i: usize = 0;
    while i < schema.len()
        invariant
            i <= schema.len(),
            r.len() == i,
            forall|j: int| 0 <= j < i ==> (#[trigger] r@[j])@ == schema@[j]@,
        decreases schema.len() - i,
    {
        r.push(schema[i].clone());
        i = i + 1;
    }
    assert(schema_view(r@) =~= schema_view(schema@));
    r
}

/// The operator's own parameters in their wire encoding, tagged with the
/// kind of message they encode. The fragmenter never looks inside.
#[derive(Debug)]
pub enum NodeBody {
    RowSeqScan(Vec<u8>),
    Values(Vec<u8>),
    Filter(Vec<u8>),
    Project(Vec<u8>),
    HashJoin(Vec<u8>),
    HashAgg(Vec<u8>),
    OrderBy(Vec<u8>),
    Limit(Vec<u8>),
    Insert(Vec<u8>),
    Delete(Vec<u8>),
    Exchange(Vec<u8>),
}

/// What a [`NodeBody`] holds.
pub enum NodeBodyView {
    RowSeqScan(Seq<u8>),
    Values(Seq<u8>),
    Filter(Seq<u8>),
    Project(Seq<u8>),
    HashJoin(Seq<u8>),
    HashAgg(Seq<u8>),
    OrderBy(Seq<u8>),
    Limit(Seq<u8>),
    Insert(Seq<u8>),
    Delete(Seq<u8>),
    Exchange(Seq<u8>),
}

impl View for NodeBody {
    type V = NodeBodyView;

    open spec fn view(&self) -> NodeBodyView {
        match self {
            NodeBody::RowSeqScan(b) => NodeBodyView::RowSeqScan(b@),
            NodeBody::Values(b) => NodeBodyView::Values(b@),
            NodeBody::Filter(b) => NodeBodyView::Filter(b@),
            NodeBody::Project(b) => NodeBodyView::Project(b@),
            NodeBody::HashJoin(b) => NodeBodyView::HashJoin(b@),
            NodeBody::HashAgg(b) => NodeBodyView::HashAgg(b@),
            NodeBody::OrderBy(b) => NodeBodyView::OrderBy(b@),
            NodeBody::Limit(b) => NodeBodyView::Limit(b@),
            NodeBody::Insert(b) => NodeBodyView::Insert(b@),
            NodeBody::Delete(b) => NodeBodyView::Delete(b@),
            NodeBody::Exchange(b) => NodeBodyView::Exchange(b@),
        }
    }
}

impl Clone for NodeBody {
    fn clone(&self) -> (r: Self)
        ensures
            r@ == self@,
    {
        match self {
            NodeBody::RowSeqScan(b) => NodeBody::RowSeqScan(b.clone()),
            NodeBody::Values(b) => NodeBody::Values(b.clone()),
            NodeBody::Filter(b) => NodeBody::Filter(b.clone()),
            NodeBody::Project(b) => NodeBody::Project(b.clone()),
            NodeBody::HashJoin(b) => NodeBody::HashJoin(b.clone()),
            NodeBody::HashAgg(b) => NodeBody::HashAgg(b.clone()),
            NodeBody::OrderBy(b) => NodeBody::OrderBy(b.clone()),
            NodeBody::Limit(b) => NodeBody::Limit(b.clone()),
            NodeBody::Insert(b) => NodeBody::Insert(b.clone()),
            NodeBody::Delete(b) => NodeBody::Delete(b.clone()),
            NodeBody::Exchange(b) => NodeBody::Exchange(b.clone()),
        }
    }
}

/// How the rows that an operator puts out are spread over the parallel
/// units that take them.
#[derive(Debug)]
pub enum Distribution {
    /// No requirement.
    Any,
    /// All rows in one place.
    Single,
    /// Every unit gets every row.
    Broadcast,
    /// Spread out, no matter how.
    AnyShard,
    /// Spread out by the hash of the columns at these indices.
    HashShard(Vec<usize>),
}

/// What a [`Distribution`] holds.
pub enum DistributionView {
    Any,
    Single,
    Broadcast,
    AnyShard,
    HashShard(Seq<usize>),
}

impl View for Distribution {
    type V = DistributionView;

    open spec fn view(&self) -> DistributionView {
        match self {
            Distribution::Any => DistributionView::Any,
            Distribution::Single => DistributionView::Single,
            Distribution::Broadcast => DistributionView::Broadcast,
            Distribution::AnyShard => DistributionView::AnyShard,
            Distribution::HashShard(keys) => DistributionView::HashShard(keys@),
        }
    }
}

impl Clone for Distribution {
    fn clone(&self) -> (r: Self)
        ensures
            r@ == self@,
    {
        match self {
            Distribution::Any => Distribution::Any,
            Distribution::Single => Distribution::Single,
            Distribution::Broadcast => Distribution::Broadcast,
            Distribution::AnyShard => Distribution::AnyShard,
            Distribution::HashShard(keys) => Distribution::HashShard(keys.clone()),
        }
    }
}

/// Tells a stage how to spread its output over the parallel units of the
/// stage that consumes it. The scheduler takes it as it is.
#[derive(Debug)]
pub struct ExchangeInfo {
    pub distribution: Distribution,
    /// The number of parallel units of the consuming stage.
    pub parallelism: u32,
}

/// What an [`ExchangeInfo`] holds.
pub struct ExchangeInfoView {
    pub distribution: DistributionView,
    pub parallelism: u32,
}

impl View for ExchangeInfo {
    type V = ExchangeInfoView;

    open spec fn view(&self) -> ExchangeInfoView {
        ExchangeInfoView { distribution: self.distribution@, parallelism: self.parallelism }
    }
}

impl Clone for ExchangeInfo {
    fn clone(&self) -> (r: Self)
        ensures
            r@ == self@,
    {
        ExchangeInfo { distribution: self.distribution.clone(), parallelism: self.parallelism }
    }
}

impl DistributionView {
    /// This distribution, over `parallelism` consuming units.
    pub open spec fn to_prost(self, parallelism: u32) -> ExchangeInfoView {
        ExchangeInfoView { distribution: self, parallelism }
    }
}

impl Distribution {
    /// The exchange descriptor of this distribution for a consumer of the
    /// given parallelism.
    pub fn to_prost(&self, parallelism: u32) -> (r: ExchangeInfo)
        ensures
            r@ == self@.to_prost(parallelism),
    {
        ExchangeInfo { distribution: self.clone(), parallelism }
    }
}

/// A shared handle to a plan operator.
pub type PlanRef = Rc<PlanNode>;

/// One operator of the plan, with the operators that feed it, left to right.
#[derive(Debug)]
pub struct PlanNode {
    pub id: PlanNodeId,
    pub node_type: PlanNodeType,
    pub body: NodeBody,
    pub schema: Vec<Field>,
    pub inputs: Vec<PlanRef>,
    /// The distribution of this operator's output. For an exchange it is the
    /// distribution that the exchange brings about.
    pub distribution: Distribution,
}

/// A plan as a mathematical tree.
pub struct PlanNodeView {
    pub id: PlanNodeId,
    pub node_type: PlanNodeType,
    pub body: NodeBodyView,
    pub schema: Seq<FieldView>,
    pub inputs: Seq<PlanNodeView>,
    pub distribution: DistributionView,
}

impl PlanNode {
    /// The tree below and including this operator.
    pub open spec fn tree(&self) -> PlanNodeView
        decreases self,
    {
        PlanNodeView {
            id: self.id,
            node_type: self.node_type,
            body: self.body@,
            schema: schema_view(self.schema@),
            inputs: Seq::new(
                self.inputs@.len(),
                |i: int|
                    if 0 <= i < self.inputs@.len() {
                        self.inputs@[i].tree()
                    } else {
                        arbitrary()
                    },
            ),
            distribution: self.distribution@,
        }
    }

    /// A new operator.
    pub fn new(
        id: PlanNodeId,
        node_type: PlanNodeType,
        body: NodeBody,
        schema: Vec<Field>,
        inputs: Vec<PlanRef>,
        distribution: Distribution,
    ) -> (r: PlanRef)
        ensures
            r.id == id,
            r.node_type == node_type,
            r.body == body,
            r.schema == schema,
            r.inputs == inputs,
            r.distribution == distribution,
    {
        Rc::new(PlanNode { id, node_type, body, schema, inputs, distribution })
    }
}

impl View for PlanNode {
    type V = PlanNodeView;

    open spec fn view(&self) -> PlanNodeView {
        self.tree()
    }
}

impl PlanNodeView {
    /// Whether the plan is cut at this operator.
    pub open spec fn is_exchange(self) -> bool {
        self.node_type == PlanNodeType::BatchExchange
    }

    /// The number of exchange operators in this tree.
    pub open spec fn exchanges(self) -> nat
        decreases self, 0nat,
    {
        (if self.is_exchange() {
            1nat
        } else {
            0nat
        }) + exchanges_in(self.inputs, self.inputs.len())
    }
}

/// The number of exchange operators in the first `k` trees of `inputs`.
pub open spec fn exchanges_in(inputs: Seq<PlanNodeView>, k: nat) -> nat
    decreases inputs, k,
{
    if k == 0 || k > inputs.len() {
        0
    } else {
        exchanges_in(inputs, (k - 1) as nat) + inputs[k - 1].exchanges()
    }
}

} // verus!
