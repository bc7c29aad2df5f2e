//! Values of a module and the debug information attached to them.
use vstd::prelude::*;

verus! {

/// What a value is to the sanitizer.
#[derive(Clone, Copy, Debug, PartialEq, Eq, Structural)]
pub enum NodeKind {
    /// `DICompositeType`: a structure, a union, an enumeration, an array.
    Composite { tag: u16, flags: i32 },
    /// `DIDerivedType`: a pointer, a member, a type definition.
    Derived { tag: u16, offset_in_bits: u64 },
    /// `DISubprogram`.
    Subprogram,
    /// Any other value.
    Other,
}

/// Operand of a derived type that holds its base type.
pub const BASE_TYPE_OPERAND: usize = 3;

/// Operand of a composite type that holds the tuple of its elements.
pub const ELEMENTS_OPERAND: usize = 4;

/// A value. Nodes refer to each other by their index in the graph. A string is
/// no node: the name of a node stands in `name`, and an operand that is a string
/// or is not set is `None`.
pub struct Node {
    pub kind: NodeKind,
    pub name: Option<Vec<u8>>,
    pub operands: Vec<Option<usize>>,
    /// What belongs to the value besides its operands: its metadata entries, and
    /// for a function its parameters and then the instructions of its blocks.
    pub items: Vec<usize>,
}

/// The mathematical content of a `Node`.
pub struct NodeModel {
    pub kind: NodeKind,
    pub name: Option<Seq<u8>>,
    pub operands: Seq<Option<usize>>,
    pub items: Seq<usize>,
}

/// The content of an optional byte string.
pub open spec fn name_view(name: Option<Vec<u8>>) -> Option<Seq<u8>> {
    match name {
        Some(bytes) => Some(bytes@),
        None => None,
    }
}

impl View for Node {
    type V = NodeModel;

    open spec fn view(&self) -> NodeModel {
        NodeModel {
            kind: self.kind,
            name: name_view(self.name),
            operands: self.operands@,
            items: self.items@,
        }
    }
}

/// A graph as the specifications see it.
pub open spec fn models(nodes: Seq<Node>) -> Seq<NodeModel> {
    nodes.map_values(|n: Node| n@)
}

/// Whether an optional reference stays below `len`.
pub open spec fn in_range(id: Option<usize>, len: nat) -> bool {
    match id {
        Some(i) => i < len,
        None => true,
    }
}

/// Whether the references of one node stay below `len`, and its operands can be
/// numbered.
pub open spec fn node_in_range(node: NodeModel, len: nat) -> bool {
    &&& node.operands.len() <= usize::MAX
    &&& forall|i: int|
        0 <= i < node.operands.len() ==> in_range(#[trigger] node.operands[i], len)
    &&& forall|i: int| 0 <= i < node.items.len() ==> #[trigger] node.items[i] < len
}

/// Every reference of a graph leads to a node.
pub open spec fn closed_graph(nodes: Seq<NodeModel>) -> bool {
    forall|i: int| 0 <= i < nodes.len() ==> node_in_range(#[trigger] nodes[i], nodes.len())
}

/// Whether every index of `refs` that is set is below `len`.
pub fn are_refs_in_range(refs: &Vec<Option<usize>>, len: usize) -> (r: bool)
    ensures
        r == (forall|i: int| 0 <= i < refs@.len() ==> in_range(#[trigger] refs@[i], len as nat)),
{
    let mut i: usize = 0;
    while i < refs.len()
        invariant
            i <= refs@.len(),
            forall|j: int| 0 <= j < i ==> in_range(#[trigger] refs@[j], len as nat),
        decreases refs@.len() - i,
    {
        if let Some(id) = refs[i] {
            if id >= len {
                assert(!in_range(refs@[i as int], len as nat));
                return false;
            }
        }
        i = i + 1;
    }
    true
}

/// Whether every index of `ids` is below `len`.
pub fn ids_in_range(ids: &Vec<usize>, len: usize) -> (r: bool)
    ensures
        r == (forall|i: int| 0 <= i < ids@.len() ==> #[trigger] ids@[i] < len),
{
    let mut i: usize = 0;
    while i < ids.len()
        invariant
            i <= ids@.len(),
            forall|j: int| 0 <= j < i ==> #[trigger] ids@[j] < len,
        decreases ids@.len() - i,
    {
        if ids[i] >= len {
            return false;
        }
        i = i + 1;
    }
    true
}

/// Decides whether every reference of a graph leads to a node.
pub fn is_closed_graph(nodes: &Vec<Node>) -> (r: bool)
    ensures
        r == closed_graph(models(nodes@)),
{
    let ghost graph = models(nodes@);
    let mut i: usize = 0;
    while i < nodes.len()
        invariant
            i <= nodes@.len(),
            graph == models(nodes@),
            forall|j: int| 0 <= j < i ==> node_in_range(#[trigger] graph[j], graph.len()),
        decreases nodes@.len() - i,
    {
        assert(graph[i as int] == nodes@[i as int]@);
        let operands_ok: bool = are_refs_in_range(&nodes[i].operands, nodes.len());
        assert(nodes[i as int].operands.len() <= usize::MAX);
        let items_ok: bool = ids_in_range(&nodes[i].items, nodes.len());
        if !operands_ok || !items_ok {
            assert(graph[i as int].operands == nodes@[i as int].operands@);
            assert(graph[i as int].items == nodes@[i as int].items@);
            assert(!node_in_range(graph[i as int], graph.len()));
            return false;
        }
        i = i + 1;
    }
    true
}

/// A graph is closed exactly if every operand that is set and everything that belongs to a
/// node is a node of it, and the operands of each can be numbered.
pub proof fn closed_graphs_lead_nowhere_else(nodes: Seq<NodeModel>)
    ensures
        closed_graph(nodes) <==> {
            &&& forall|i: int|
                0 <= i < nodes.len() ==> (#[trigger] nodes[i]).operands.len() <= usize::MAX
            &&& forall|i: int, j: int|
                0 <= i < nodes.len() && 0 <= j < nodes[i].operands.len()
                    && #[trigger] nodes[i].operands[j] is Some ==> nodes[i].operands[j]->Some_0
                    < nodes.len()
            &&& forall|i: int, j: int|
                0 <= i < nodes.len() && 0 <= j < nodes[i].items.len()
                    ==> #[trigger] nodes[i].items[j] < nodes.len()
        },
{
    let all_closed = closed_graph(nodes);
    if all_closed {
        assert forall|i: int, j: int|
            0 <= i < nodes.len() && 0 <= j < nodes[i].operands.len()
                && #[trigger] nodes[i].operands[j] is Some implies nodes[i].operands[j]->Some_0
            < nodes.len() by {
            assert(node_in_range(nodes[i], nodes.len()));
            assert(in_range(nodes[i].operands[j], nodes.len()));
        }
        assert forall|i: int, j: int|
            0 <= i < nodes.len() && 0 <= j
                < nodes[i].items.len() implies #[trigger] nodes[i].items[j] < nodes.len() by {
            assert(node_in_range(nodes[i], nodes.len()));
        }
    } else {
        let i = choose|i: int|
            0 <= i < nodes.len() && !node_in_range(#[trigger] nodes[i], nodes.len());
        let node = nodes[i];
        if node.operands.len() <= usize::MAX {
            if forall|j: int| 0 <= j < node.items.len() ==> #[trigger] node.items[j] < nodes.len() {
                let j = choose|j: int|
                    0 <= j < node.operands.len() && !in_range(
                        #[trigger] node.operands[j],
                        nodes.len(),
                    );
                assert(nodes[i].operands[j] is Some);
            } else {
                let j = choose|j: int|
                    0 <= j < node.items.len() && !(#[trigger] node.items[j] < nodes.len());
                assert(!(nodes[i].items[j] < nodes.len()));
            }
        }
    }
}

} // verus!
