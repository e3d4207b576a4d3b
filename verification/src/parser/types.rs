//! The canonical-format graph model: identifiers, gate types, pins, edges
//! and nodes. Structurally these match the ingestion records; a node may
//! additionally be the shared constant, and an edge may cross into a named
//! sub-circuit.

use vstd::prelude::*;

verus! {

/// A node identifier: one of the three 1-based numbering spaces, or the
/// circuit's single shared constant-1 node.
#[derive(Debug, Copy, Clone, PartialEq, Eq, Structural, Hash)]
pub enum ID {
    Input(u64),
    Output(u64),
    Gate(u64),
    Const,
}

impl ID {
    /// The bare number of the identifier; the constant has none.
    pub open spec fn val(self) -> u64 {
        match self {
            ID::Input(id) => id,
            ID::Output(id) => id,
            ID::Gate(id) => id,
            ID::Const => 0,
        }
    }

    pub fn is_input(&self) -> (b: bool)
        ensures
            b == (self is Input),
    {
        match *self {
            ID::Input(_) => true,
            _ => false,
        }
    }

    pub fn is_output(&self) -> (b: bool)
        ensures
            b == (self is Output),
    {
        match *self {
            ID::Output(_) => true,
            _ => false,
        }
    }

    pub fn is_gate(&self) -> (b: bool)
        ensures
            b == (self is Gate),
    {
        match *self {
            ID::Gate(_) => true,
            _ => false,
        }
    }

    /// The identifier's number, usable where it is not the constant.
    pub fn u64(&self) -> (v: u64)
        ensures
            v == self.val(),
    {
        match *self {
            ID::Input(id) => id,
            ID::Output(id) => id,
            ID::Gate(id) => id,
            ID::Const => 0,
        }
    }
}

/// The four basic gate types of the canonical format.
#[derive(Debug, Copy, Clone, PartialEq, Eq, Structural, Hash)]
pub enum GateType {
    XOR,
    AND,
    OR,
    NOT,
}

impl GateType {
    /// How many operand slots this type of gate has.
    pub open spec fn spec_operands(&self) -> usize {
        match *self {
            GateType::NOT => 1usize,
            _ => 2usize,
        }
    }

    #[verifier::when_used_as_spec(spec_operands)]
    pub fn operands(&self) -> (n: usize)
        ensures
            n == self.spec_operands(),
    {
        match *self {
            GateType::NOT => 1,
            _ => 2,
        }
    }
}

/// Which operand slot of a 2-input gate an edge feeds; NOT gates always
/// use `Left`.
#[derive(Debug, Copy, Clone, PartialEq, Eq, Structural, Hash)]
pub enum Pin {
    Left,
    Right,
}

/// A directed connection from a node's output to another node's operand
/// slot, possibly into a named sub-circuit.
#[derive(Debug, PartialEq, Eq, Hash)]
pub struct Edge {
    pub id: ID,
    pub pin: Option<Pin>,
    pub circuit: Option<String>,
}

/// The mathematical value of an edge, the sub-circuit name as a character
/// sequence.
#[verifier::ext_equal]
pub struct EdgeSpec {
    pub id: ID,
    pub pin: Option<Pin>,
    pub circuit: Option<Seq<char>>,
}

impl View for Edge {
    type V = EdgeSpec;

    open spec fn view(&self) -> EdgeSpec {
        EdgeSpec {
            id: self.id,
            pin: self.pin,
            circuit: match self.circuit {
                Some(ref s) => Some(s@),
                None => None,
            },
        }
    }
}

/// The mathematical values of an edge list.
pub open spec fn edge_views(edges: Seq<Edge>) -> Seq<EdgeSpec> {
    edges.map_values(|e: Edge| e@)
}

impl Edge {
    /// An exact copy of the edge.
    pub fn clone(&self) -> (r: Edge)
        ensures
            r@ =~= self@,
    {
        Edge {
            id: self.id,
            pin: self.pin,
            circuit: match &self.circuit {
                Some(s) => Some(s.clone()),
                None => None,
            },
        }
    }

    pub fn new(id: ID, pin: Option<Pin>, circuit: Option<String>) -> (e: Edge)
        ensures
            e.id == id,
            e.pin == pin,
            e.circuit == circuit,
    {
        Edge { id, pin, circuit }
    }

    pub fn id(&self) -> (id: ID)
        ensures
            id == self.id,
    {
        self.id
    }

    pub fn pin(&self) -> (p: Option<Pin>)
        ensures
            p == self.pin,
    {
        self.pin
    }

    /// The name of the sub-circuit the edge crosses into, if any.
    pub fn circuit(&self) -> (c: Option<String>)
        ensures
            c is Some <==> self.circuit is Some,
            c is Some ==> c->0@ == self.circuit->0@,
    {
        match self.circuit {
            Some(ref val) => Some(val.clone()),
            None => None,
        }
    }
}

/// An entity of a canonical circuit: an input pin, a gate, an output pin —
/// possibly sourced from a named sub-circuit — or the constant node, with
/// its outgoing edges.
#[derive(Debug, PartialEq, Eq, Hash)]
pub struct Node {
    pub id: ID,
    pub gate_type: Option<GateType>,
    pub circuit: Option<String>,
    pub edges: Vec<Edge>,
}

/// The mathematical value of a node.
#[verifier::ext_equal]
pub struct NodeSpec {
    pub id: ID,
    pub gate_type: Option<GateType>,
    pub circuit: Option<Seq<char>>,
    pub edges: Seq<EdgeSpec>,
}

impl View for Node {
    type V = NodeSpec;

    open spec fn view(&self) -> NodeSpec {
        NodeSpec {
            id: self.id,
            gate_type: self.gate_type,
            circuit: match self.circuit {
                Some(ref s) => Some(s@),
                None => None,
            },
            edges: edge_views(self.edges@),
        }
    }
}

/// The mathematical values of a node list.
pub open spec fn node_views(nodes: Seq<Node>) -> Seq<NodeSpec> {
    nodes.map_values(|n: Node| n@)
}

impl Node {
    /// An exact copy of the node, edge for edge.
    pub fn clone(&self) -> (r: Node)
        ensures
            r@ =~~= self@,
            r.id == self.id,
            r.gate_type == self.gate_type,
            (r.circuit is Some <==> self.circuit is Some),
            r.circuit is Some ==> r.circuit->0@ == self.circuit->0@,
            edge_views(r.edges@) =~~= edge_views(self.edges@),
    {
        let mut edges: Vec<Edge> = Vec::new();
        let mut i: usize = 0;
        while i < self.edges.len()
            invariant
                0 <= i <= self.edges@.len(),
                edges@.len() == i,
                forall|t: int|
                    0 <= t < i ==> #[trigger] edge_views(edges@)[t] =~~= edge_views(self.edges@)[t],
            decreases self.edges@.len() - i,
        {
            let ghost prev = edge_views(edges@);
            let e = self.edges[i].clone();
            let ghost ev = e@;
            edges.push(e);
            proof {
                assert forall|t: int| 0 <= t < i + 1 implies #[trigger] edge_views(edges@)[t]
                    == if t < i {
                    prev[t]
                } else {
                    ev
                } by {
                    assert(edge_views(edges@)[t] == edges@[t]@);
                }
            }
            i = i + 1;
        }
        Node {
            id: self.id,
            gate_type: self.gate_type,
            circuit: match &self.circuit {
                Some(s) => Some(s.clone()),
                None => None,
            },
            edges,
        }
    }

    pub fn new(id: ID, gate_type: Option<GateType>, circuit: Option<String>, edges: Vec<Edge>) -> (n:
        Node)
        ensures
            n.id == id,
            n.gate_type == gate_type,
            n.circuit == circuit,
            n.edges@ == edges@,
    {
        Node { id, gate_type, circuit, edges }
    }

    pub fn id(&self) -> (id: ID)
        ensures
            id == self.id,
    {
        self.id
    }

    pub fn is_input(&self) -> (b: bool)
        ensures
            b == (self.id is Input),
    {
        match self.id {
            ID::Input(_) => true,
            _ => false,
        }
    }

    pub fn is_output(&self) -> (b: bool)
        ensures
            b == (self.id is Output),
    {
        match self.id {
            ID::Output(_) => true,
            _ => false,
        }
    }

    pub fn is_constant(&self) -> (b: bool)
        ensures
            b == (self.id is Const),
    {
        match self.id {
            ID::Const => true,
            _ => false,
        }
    }

    /// The name of the sub-circuit the node's value comes from, if any.
    pub fn circuit(&self) -> (c: Option<String>)
        ensures
            c is Some <==> self.circuit is Some,
            c is Some ==> c->0@ == self.circuit->0@,
    {
        match self.circuit {
            Some(ref val) => Some(val.clone()),
            None => None,
        }
    }

    pub fn gate_type(&self) -> (t: Option<GateType>)
        ensures
            t == self.gate_type,
    {
        self.gate_type
    }

    pub fn edges(&self) -> (e: &[Edge])
        ensures
            e@ == self.edges@,
    {
        self.edges.as_slice()
    }

    /// Appends copies of the given edges to the node's outgoing list.
    pub fn connect(&mut self, edges: &[Edge])
        ensures
            final(self).id == old(self).id,
            final(self).gate_type == old(self).gate_type,
            final(self).circuit == old(self).circuit,
            edge_views(final(self).edges@) =~~= edge_views(old(self).edges@) + edge_views(edges@),
    {
        let ghost orig = edge_views(self.edges@);
        let mut i: usize = 0;
        while i < edges.len()
            invariant
                0 <= i <= edges@.len(),
                self.id == old(self).id,
                self.gate_type == old(self).gate_type,
                self.circuit == old(self).circuit,
                orig == edge_views(old(self).edges@),
                edge_views(self.edges@) =~~= orig + edge_views(edges@.take(i as int)),
            decreases edges@.len() - i,
        {
            let ghost prev = edge_views(self.edges@);
            let e = edges[i].clone();
            let ghost ev = e@;
            self.edges.push(e);
            proof {
                assert forall|t: int| 0 <= t < self.edges@.len() implies #[trigger] edge_views(
                    self.edges@,
                )[t] == if t < prev.len() {
                    prev[t]
                } else {
                    ev
                } by {
                    assert(edge_views(self.edges@)[t] == self.edges@[t]@);
                }
                assert(edge_views(edges@.take(i + 1)) =~~= edge_views(edges@.take(i as int)).push(
                    edges@[i as int]@,
                )) by {
                    assert forall|t: int| 0 <= t < i + 1 implies #[trigger] edge_views(
                        edges@.take(i + 1),
                    )[t] == edges@[t]@ by {
                        assert(edge_views(edges@.take(i + 1))[t] == edges@.take(i + 1)[t]@);
                    }
                }
            }
            i = i + 1;
        }
        proof {
            assert(edges@.take(edges@.len() as int) =~= edges@);
        }
    }
}

} // verus!
