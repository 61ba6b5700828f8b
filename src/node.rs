use vstd::prelude::*;
use crate::bag::Fact;

verus! {

/// A globally unique node identifier: a per-replica counter and the replica.
/// Identifiers are ordered by counter first, then by replica.
#[derive(Clone, Copy, Debug, PartialEq, Eq, Structural, Hash)]
pub struct NodeId {
    pub counter: u64,
    pub replica: u64,
}

/// The total order on identifiers, as a specification.
pub open spec fn id_lt(a: NodeId, b: NodeId) -> bool {
    a.counter < b.counter || (a.counter == b.counter && a.replica < b.replica)
}

impl NodeId {
    pub fn new(counter: u64, replica: u64) -> (r: NodeId)
        ensures
            r.counter == counter,
            r.replica == replica,
    {
        NodeId { counter, replica }
    }

    /// Whether `self` comes strictly before `other`.
    pub fn less_than(&self, other: &NodeId) -> (r: bool)
        ensures
            r == id_lt(*self, *other),
    {
        self.counter < other.counter || (self.counter == other.counter && self.replica < other.replica)
    }
}

/// A directed pointer between two nodes.
#[derive(Clone, Copy, Debug, PartialEq, Eq, Structural, Hash)]
pub struct Link {
    pub from: NodeId,
    pub to: NodeId,
}

/// `child` was created directly under `parent`.
#[derive(Clone, Copy, Debug, PartialEq, Eq, Structural, Hash)]
pub struct InsertEdge {
    pub child: NodeId,
    pub parent: NodeId,
}

/// A write of `value` to element `elem`, identified by the operation `op`.
#[derive(Clone, Debug)]
pub struct AssignOp {
    pub op: NodeId,
    pub elem: NodeId,
    pub value: String,
}

impl View for NodeId {
    type V = NodeId;

    open spec fn view(&self) -> NodeId {
        *self
    }
}

impl View for InsertEdge {
    type V = InsertEdge;

    open spec fn view(&self) -> InsertEdge {
        *self
    }
}

impl View for AssignOp {
    type V = (NodeId, NodeId, Seq<char>);

    open spec fn view(&self) -> (NodeId, NodeId, Seq<char>) {
        (self.op, self.elem, self.value@)
    }
}

impl Fact for NodeId {
    fn same(&self, other: &Self) -> (r: bool) {
        *self == *other
    }

    fn duplicate(&self) -> (r: Self) {
        *self
    }
}

impl Fact for InsertEdge {
    fn same(&self, other: &Self) -> (r: bool) {
        *self == *other
    }

    fn duplicate(&self) -> (r: Self) {
        *self
    }
}

impl Fact for AssignOp {
    fn same(&self, other: &Self) -> (r: bool) {
        self.op == other.op && self.elem == other.elem && self.value == other.value
    }

    fn duplicate(&self) -> (r: Self) {
        AssignOp { op: self.op, elem: self.elem, value: self.value.clone() }
    }
}

impl AssignOp {
    pub fn new(op: NodeId, elem: NodeId, value: String) -> (r: AssignOp)
        ensures
            r.op == op,
            r.elem == elem,
            r.value == value,
    {
        AssignOp { op, elem, value }
    }
}

impl InsertEdge {
    pub fn new(child: NodeId, parent: NodeId) -> (r: InsertEdge)
        ensures
            r.child == child,
            r.parent == parent,
    {
        InsertEdge { child, parent }
    }
}

} // verus!
