//! What the sanitizer does to a single node.
use vstd::prelude::*;

use crate::bytes;
use crate::di::graph;
use crate::di::graph::{Node, NodeKind, NodeModel, BASE_TYPE_OPERAND, ELEMENTS_OPERAND};
use crate::di::name;
use crate::di::name::sanitize_type_name;
use crate::dwarf;
use crate::text;

verus! {

/// The name of the type that marks a BTF map.
pub open spec fn marker_name() -> Seq<u8> {
    bytes::ascii("AyaBtfMapMarker"@)
}

/// Changes to one node: the new list of its elements, its new name, and the
/// name of the type whose debug information is left out.
pub struct NodeEdit {
    pub elements: Option<Vec<usize>>,
    pub name: Option<Vec<u8>>,
    pub skipped: Option<String>,
}

/// The mathematical content of a `NodeEdit`.
pub struct NodeEditModel {
    pub elements: Option<Seq<usize>>,
    pub name: Option<Seq<u8>>,
    pub skipped: Option<Seq<char>>,
}

impl View for NodeEdit {
    type V = NodeEditModel;

    open spec fn view(&self) -> NodeEditModel {
        NodeEditModel {
            elements: match self.elements {
                Some(members) => Some(members@),
                None => None,
            },
            name: graph::name_view(self.name),
            skipped: match self.skipped {
                Some(name) => Some(name@),
                None => None,
            },
        }
    }
}

/// The edit that changes nothing.
pub open spec fn no_edit() -> NodeEditModel {
    NodeEditModel { elements: None, name: None, skipped: None }
}

/// The elements of a composite type.
pub open spec fn elements_of(nodes: Seq<NodeModel>, node: NodeModel) -> Seq<Option<usize>> {
    if node.operands.len() <= ELEMENTS_OPERAND {
        Seq::empty()
    } else {
        match node.operands[ELEMENTS_OPERAND as int] {
            Some(tuple) => nodes[tuple as int].operands,
            None => Seq::empty(),
        }
    }
}

/// An element that only exists for some values of a discriminant: the type is an
/// enumeration that carries data.
pub open spec fn is_variant_part(nodes: Seq<NodeModel>, element: Option<usize>) -> bool {
    match element {
        Some(e) => match nodes[e as int].kind {
            NodeKind::Composite { tag, .. } => tag == dwarf::variant_part(),
            _ => false,
        },
        None => false,
    }
}

/// A field whose type marks the structure as a BTF map.
pub open spec fn is_marker(nodes: Seq<NodeModel>, element: Option<usize>) -> bool {
    match element {
        Some(e) => nodes[e as int].kind is Derived && nodes[e as int].operands.len()
            > BASE_TYPE_OPERAND && match nodes[e as int].operands[BASE_TYPE_OPERAND as int] {
            Some(base) => nodes[base as int].kind is Composite && nodes[base as int].name == Some(
                marker_name(),
            ),
            None => false,
        },
        None => false,
    }
}

/// A field that is kept.
pub open spec fn is_member(nodes: Seq<NodeModel>, element: Option<usize>) -> bool {
    match element {
        Some(e) => nodes[e as int].kind is Derived && !is_marker(nodes, element),
        None => false,
    }
}

/// The position of the first variant part, or the number of elements.
pub open spec fn first_variant_part(nodes: Seq<NodeModel>, elements: Seq<Option<usize>>) -> nat
    decreases elements.len(),
{
    if elements.len() == 0 || is_variant_part(nodes, elements[0]) {
        0
    } else {
        1 + first_variant_part(nodes, elements.skip(1))
    }
}

/// The fields among `elements` that are kept, in their order.
pub open spec fn members_of(nodes: Seq<NodeModel>, elements: Seq<Option<usize>>) -> Seq<usize>
    decreases elements.len(),
{
    if elements.len() == 0 {
        Seq::empty()
    } else {
        let before = members_of(nodes, elements.drop_last());
        if is_member(nodes, elements.last()) {
            before.push(elements.last()->Some_0)
        } else {
            before
        }
    }
}

pub open spec fn has_marker(nodes: Seq<NodeModel>, elements: Seq<Option<usize>>) -> bool {
    exists|i: int| 0 <= i < elements.len() && is_marker(nodes, #[trigger] elements[i])
}

/// The offset of a field in its structure.
pub open spec fn offset_of(nodes: Seq<NodeModel>, member: usize) -> u64 {
    match nodes[member as int].kind {
        NodeKind::Derived { offset_in_bits, .. } => offset_in_bits,
        _ => 0,
    }
}

/// Inserts a field behind all fields whose offset is not greater.
pub open spec fn insert_by_offset(nodes: Seq<NodeModel>, sorted: Seq<usize>, member: usize) -> Seq<
    usize,
>
    decreases sorted.len(),
{
    if sorted.len() == 0 || offset_of(nodes, sorted.last()) <= offset_of(nodes, member) {
        sorted.push(member)
    } else {
        insert_by_offset(nodes, sorted.drop_last(), member).push(sorted.last())
    }
}

/// The fields in the order of their offsets; fields with the same offset keep
/// their order.
pub open spec fn by_offset(nodes: Seq<NodeModel>, members: Seq<usize>) -> Seq<usize>
    decreases members.len(),
{
    if members.len() == 0 {
        Seq::empty()
    } else {
        insert_by_offset(nodes, by_offset(nodes, members.drop_last()), members.last())
    }
}

/// The edit of a structure or union definition. The elements of an enumeration
/// that carries data are removed; otherwise the fields are sorted by offset.
/// A structure that marks a BTF map loses its name, any other gets a C name.
pub open spec fn structure_edit(nodes: Seq<NodeModel>, node: NodeModel) -> NodeEditModel {
    let elements = elements_of(nodes, node);
    let end = first_variant_part(nodes, elements);
    let plain = elements.take(end as int);
    let members = members_of(nodes, plain);
    NodeEditModel {
        elements: if end < elements.len() {
            Some(Seq::empty())
        } else if members.len() > 0 {
            Some(by_offset(nodes, members))
        } else {
            None
        },
        name: if has_marker(nodes, plain) {
            Some(Seq::empty())
        } else {
            match node.name {
                Some(n) => Some(name::sanitized(n)),
                None => None,
            }
        },
        skipped: if end < elements.len() {
            match node.name {
                Some(n) => Some(text::lossy_utf8(n)),
                None => None,
            }
        } else {
            None
        },
    }
}

/// Whether a composite type is a structure or union definition.
pub open spec fn is_structure(kind: NodeKind) -> bool {
    match kind {
        NodeKind::Composite { tag, flags } => (tag == dwarf::structure_type() || tag
            == dwarf::union_type()) && flags != dwarf::fwd_decl(),
        _ => false,
    }
}

/// Whether a derived type is a pointer.
pub open spec fn is_pointer(kind: NodeKind) -> bool {
    match kind {
        NodeKind::Derived { tag, .. } => tag == dwarf::pointer_type(),
        _ => false,
    }
}

/// What is done to a node when it is visited.
pub open spec fn node_edit(nodes: Seq<NodeModel>, id: usize) -> NodeEditModel {
    let node = nodes[id as int];
    if is_structure(node.kind) {
        structure_edit(nodes, node)
    } else if is_pointer(node.kind) {
        NodeEditModel { name: Some(Seq::empty()), ..no_edit() }
    } else if node.kind is Subprogram && node.name is Some {
        NodeEditModel { name: Some(name::sanitized(node.name->Some_0)), ..no_edit() }
    } else {
        no_edit()
    }
}

/// A tuple of nodes.
pub open spec fn tuple_node(members: Seq<usize>) -> NodeModel {
    NodeModel {
        kind: NodeKind::Other,
        name: None,
        operands: members.map_values(|m: usize| Some(m)),
        items: Seq::empty(),
    }
}

/// The graph after an edit of node `id`. New elements stand in a tuple of their
/// own at the end of the graph.
pub open spec fn apply_edit(nodes: Seq<NodeModel>, id: usize, edit: NodeEditModel) -> Seq<
    NodeModel,
> {
    let node = nodes[id as int];
    let renamed = NodeModel {
        name: if edit.name is Some {
            edit.name
        } else {
            node.name
        },
        ..node
    };
    match edit.elements {
        Some(members) => nodes.update(
            id as int,
            NodeModel {
                operands: node.operands.update(
                    ELEMENTS_OPERAND as int,
                    Some(nodes.len() as usize),
                ),
                ..renamed
            },
        ).push(tuple_node(members)),
        None => nodes.update(id as int, renamed),
    }
}

proof fn lemma_first_variant_part(nodes: Seq<NodeModel>, elements: Seq<Option<usize>>, k: nat)
    requires
        k <= elements.len(),
        forall|i: int| 0 <= i < k ==> !is_variant_part(nodes, #[trigger] elements[i]),
        k < elements.len() ==> is_variant_part(nodes, elements[k as int]),
    ensures
        first_variant_part(nodes, elements) == k,
    decreases elements.len(),
{
    if elements.len() > 0 && k > 0 {
        let rest = elements.skip(1);
        assert(!is_variant_part(nodes, elements[0]));
        assert forall|i: int| 0 <= i < k - 1 implies !is_variant_part(
            nodes,
            #[trigger] rest[i],
        ) by {
            assert(rest[i] == elements[i + 1]);
        }
        lemma_first_variant_part(nodes, rest, (k - 1) as nat);
    }
}

fn is_marker_element(nodes: &Vec<Node>, element: usize) -> (r: bool)
    requires
        graph::closed_graph(graph::models(nodes@)),
        element < nodes@.len(),
    ensures
        r == is_marker(graph::models(nodes@), Some(element)),
{
    let ghost g = graph::models(nodes@);
    assert(g[element as int] == nodes@[element as int]@);
    assert(graph::node_in_range(g[element as int], g.len()));
    let node = &nodes[element];
    if !matches!(node.kind, NodeKind::Derived { .. }) {
        return false;
    }
    if node.operands.len() <= BASE_TYPE_OPERAND {
        return false;
    }
    match node.operands[BASE_TYPE_OPERAND] {
        None => false,
        Some(base) => {
            assert(graph::in_range(g[element as int].operands[BASE_TYPE_OPERAND as int], g.len()));
            assert(g[base as int] == nodes@[base as int]@);
            if !matches!(nodes[base].kind, NodeKind::Composite { .. }) {
                return false;
            }
            match &nodes[base].name {
                None => false,
                Some(name) => {
                    proof {
                        reveal_strlit("AyaBtfMapMarker");
                    }
                    bytes::equal(name.as_slice(), bytes::literal("AyaBtfMapMarker"))
                },
            }
        },
    }
}

fn member_offset(nodes: &Vec<Node>, member: usize) -> (r: u64)
    requires
        member < nodes@.len(),
    ensures
        r == offset_of(graph::models(nodes@), member),
{
    assert(graph::models(nodes@)[member as int] == nodes@[member as int]@);
    match nodes[member].kind {
        NodeKind::Derived { offset_in_bits, .. } => offset_in_bits,
        _ => 0,
    }
}

/// A field is inserted behind the last one whose offset is not greater.
proof fn lemma_insert_at(nodes: Seq<NodeModel>, sorted: Seq<usize>, member: usize, at: nat)
    requires
        at <= sorted.len(),
        at > 0 ==> offset_of(nodes, sorted[at - 1]) <= offset_of(nodes, member),
        forall|i: int|
            at <= i < sorted.len() ==> offset_of(nodes, #[trigger] sorted[i]) > offset_of(
                nodes,
                member,
            ),
    ensures
        insert_by_offset(nodes, sorted, member) == sorted.insert(at as int, member),
    decreases sorted.len(),
{
    if at == sorted.len() {
        assert(sorted.insert(at as int, member) =~= sorted.push(member));
    } else {
        let front = sorted.drop_last();
        assert forall|i: int| at <= i < front.len() implies offset_of(nodes, #[trigger] front[i])
            > offset_of(nodes, member) by {
            assert(front[i] == sorted[i]);
        }
        lemma_insert_at(nodes, front, member, at);
        assert(sorted.insert(at as int, member) =~= front.insert(at as int, member).push(
            sorted.last(),
        ));
    }
}

/// Sorts fields by offset and keeps the order of fields with the same offset.
fn sort_by_offset(nodes: &Vec<Node>, members: &Vec<usize>) -> (r: Vec<usize>)
    requires
        forall|i: int| 0 <= i < members@.len() ==> #[trigger] members@[i] < nodes@.len(),
    ensures
        r@ == by_offset(graph::models(nodes@), members@),
        forall|i: int| 0 <= i < r@.len() ==> #[trigger] r@[i] < nodes@.len(),
{
    let ghost g = graph::models(nodes@);
    let mut sorted: Vec<usize> = Vec::new();
    let mut i: usize = 0;
    while i < members.len()
        invariant
            i <= members@.len(),
            g == graph::models(nodes@),
            forall|j: int| 0 <= j < members@.len() ==> #[trigger] members@[j] < nodes@.len(),
            forall|j: int| 0 <= j < sorted@.len() ==> #[trigger] sorted@[j] < nodes@.len(),
            sorted@ == by_offset(g, members@.take(i as int)),
        decreases members@.len() - i,
    {
        let member: usize = members[i];
        let offset: u64 = member_offset(nodes, member);
        let mut at: usize = sorted.len();
        while at > 0 && member_offset(nodes, sorted[at - 1]) > offset
            invariant
                at <= sorted@.len(),
                g == graph::models(nodes@),
                offset == offset_of(g, member),
                forall|j: int| 0 <= j < sorted@.len() ==> #[trigger] sorted@[j] < nodes@.len(),
                forall|j: int|
                    at <= j < sorted@.len() ==> offset_of(g, #[trigger] sorted@[j]) > offset,
            decreases at,
        {
            at = at - 1;
        }
        proof {
            lemma_insert_at(g, sorted@, member, at as nat);
            assert(members@.take(i + 1).drop_last() =~= members@.take(i as int));
        }
        sorted.insert(at, member);
        i = i + 1;
    }
    assert(members@.take(members@.len() as int) =~= members@);
    sorted
}

/// What the elements of a structure say about it.
struct StructureScan {
    members: Vec<usize>,
    has_marker: bool,
    is_data_carrying_enum: bool,
}

fn scan_elements(nodes: &Vec<Node>, elements: &Vec<Option<usize>>) -> (r: StructureScan)
    requires
        graph::closed_graph(graph::models(nodes@)),
        forall|i: int|
            0 <= i < elements@.len() ==> graph::in_range(#[trigger] elements@[i], nodes@.len()),
    ensures
        ({
            let g = graph::models(nodes@);
            let end = first_variant_part(g, elements@);
            &&& r.is_data_carrying_enum == (end < elements@.len())
            &&& r.members@ == members_of(g, elements@.take(end as int))
            &&& r.has_marker == has_marker(g, elements@.take(end as int))
        }),
        forall|i: int| 0 <= i < r.members@.len() ==> #[trigger] r.members@[i] < nodes@.len(),
{
    let ghost g = graph::models(nodes@);
    let mut members: Vec<usize> = Vec::new();
    let mut marker: bool = false;
    let mut i: usize = 0;
    while i < elements.len()
        invariant
            i <= elements@.len(),
            g == graph::models(nodes@),
            graph::closed_graph(g),
            forall|j: int|
                0 <= j < elements@.len() ==> graph::in_range(#[trigger] elements@[j], nodes@.len()),
            forall|j: int| 0 <= j < members@.len() ==> #[trigger] members@[j] < nodes@.len(),
            forall|j: int| 0 <= j < i ==> !is_variant_part(g, #[trigger] elements@[j]),
            members@ == members_of(g, elements@.take(i as int)),
            marker == has_marker(g, elements@.take(i as int)),
        decreases elements@.len() - i,
    {
        let ghost seen = elements@.take(i as int);
        let ghost next = elements@.take(i + 1);
        proof {
            assert(next.drop_last() =~= seen);
            assert(next.last() == elements@[i as int]);
            assert(has_marker(g, next) == (has_marker(g, seen) || is_marker(
                g,
                elements@[i as int],
            ))) by {
                if has_marker(g, seen) {
                    let j = choose|j: int|
                        0 <= j < seen.len() && is_marker(g, #[trigger] seen[j]);
                    assert(next[j] == seen[j]);
                }
                if has_marker(g, next) {
                    let j = choose|j: int|
                        0 <= j < next.len() && is_marker(g, #[trigger] next[j]);
                    if j < i {
                        assert(seen[j] == next[j]);
                    }
                }
                if is_marker(g, elements@[i as int]) {
                    assert(is_marker(g, next[i as int]));
                }
            }
        }
        match elements[i] {
            None => {},
            Some(element) => {
                assert(graph::in_range(elements@[i as int], nodes@.len()));
                assert(g[element as int] == nodes@[element as int]@);
                match nodes[element].kind {
                    NodeKind::Composite { tag, .. } => {
                        if tag == dwarf::dw_tag_variant_part() {
                            proof {
                                lemma_first_variant_part(g, elements@, i as nat);
                            }
                            return StructureScan {
                                members,
                                has_marker: marker,
                                is_data_carrying_enum: true,
                            };
                        }
                    },
                    NodeKind::Derived { .. } => {
                        if is_marker_element(nodes, element) {
                            marker = true;
                        } else {
                            members.push(element);
                        }
                    },
                    _ => {},
                }
            },
        }
        i = i + 1;
    }
    proof {
        lemma_first_variant_part(g, elements@, i as nat);
    }
    StructureScan { members, has_marker: marker, is_data_carrying_enum: false }
}

fn visit_structure(nodes: &Vec<Node>, id: usize) -> (r: NodeEdit)
    requires
        graph::closed_graph(graph::models(nodes@)),
        id < nodes@.len(),
    ensures
        r@ == structure_edit(graph::models(nodes@), graph::models(nodes@)[id as int]),
        r.elements is Some ==> nodes@[id as int].operands@.len() > ELEMENTS_OPERAND,
        r.elements is Some ==> forall|i: int|
            0 <= i < r.elements->Some_0@.len() ==> #[trigger] r.elements->Some_0@[i] < nodes@.len(),
{
    let ghost g = graph::models(nodes@);
    assert(g[id as int] == nodes@[id as int]@);
    assert(graph::node_in_range(g[id as int], g.len()));
    let node = &nodes[id];
    let no_elements: Vec<Option<usize>> = Vec::new();
    let elements: &Vec<Option<usize>> = if node.operands.len() <= ELEMENTS_OPERAND {
        &no_elements
    } else {
        match node.operands[ELEMENTS_OPERAND] {
            Some(tuple) => {
                assert(graph::in_range(
                    g[id as int].operands[ELEMENTS_OPERAND as int],
                    g.len(),
                ));
                assert(g[tuple as int] == nodes@[tuple as int]@);
                assert(graph::node_in_range(g[tuple as int], g.len()));
                &nodes[tuple].operands
            },
            None => &no_elements,
        }
    };
    assert(elements@ == elements_of(g, g[id as int]));
    let scan = scan_elements(nodes, elements);
    let new_elements: Option<Vec<usize>> = if scan.is_data_carrying_enum {
        Some(Vec::new())
    } else if scan.members.len() > 0 {
        Some(sort_by_offset(nodes, &scan.members))
    } else {
        None
    };
    proof {
        if elements@.len() == 0 {
            assert(elements@.take(0) =~= elements@);
        }
    }
    let skipped: Option<String> = if scan.is_data_carrying_enum {
        match &node.name {
            Some(name) => Some(text::string_from_utf8_lossy(name.as_slice())),
            None => None,
        }
    } else {
        None
    };
    let new_name: Option<Vec<u8>> = if scan.has_marker {
        Some(Vec::new())
    } else {
        match &node.name {
            Some(name) => Some(sanitize_type_name(name.as_slice())),
            None => None,
        }
    };
    NodeEdit { elements: new_elements, name: new_name, skipped }
}

/// Decides what is done to a node when it is visited.
pub fn visit_mdnode(nodes: &Vec<Node>, id: usize) -> (r: NodeEdit)
    requires
        graph::closed_graph(graph::models(nodes@)),
        id < nodes@.len(),
    ensures
        r@ == node_edit(graph::models(nodes@), id),
        r.elements is Some ==> nodes@[id as int].operands@.len() > ELEMENTS_OPERAND,
        r.elements is Some ==> forall|i: int|
            0 <= i < r.elements->Some_0@.len() ==> #[trigger] r.elements->Some_0@[i] < nodes@.len(),
{
    assert(graph::models(nodes@)[id as int] == nodes@[id as int]@);
    match nodes[id].kind {
        NodeKind::Composite { tag, flags } => {
            if (tag == dwarf::dw_tag_structure_type() || tag == dwarf::dw_tag_union_type()) && flags
                != dwarf::di_flag_fwd_decl() {
                return visit_structure(nodes, id);
            }
        },
        NodeKind::Derived { tag, .. } => {
            if tag == dwarf::dw_tag_pointer_type() {
                return NodeEdit { elements: None, name: Some(Vec::new()), skipped: None };
            }
        },
        NodeKind::Subprogram => {
            if let Some(name) = &nodes[id].name {
                return NodeEdit {
                    elements: None,
                    name: Some(sanitize_type_name(name.as_slice())),
                    skipped: None,
                };
            }
        },
        NodeKind::Other => {},
    }
    NodeEdit { elements: None, name: None, skipped: None }
}

/// Sorting keeps every field: none is lost, none is added.
pub proof fn sorting_permutes(nodes: Seq<NodeModel>, members: Seq<usize>)
    ensures
        by_offset(nodes, members).to_multiset() == members.to_multiset(),
    decreases members.len(),
{
    broadcast use vstd::seq_lib::group_to_multiset_ensures;

    if members.len() > 0 {
        let front = members.drop_last();
        sorting_permutes(nodes, front);
        lemma_insert_permutes(nodes, by_offset(nodes, front), members.last());
        assert(members =~= front.push(members.last()));
    } else {
        assert(by_offset(nodes, members) =~= members);
    }
}

proof fn lemma_insert_permutes(nodes: Seq<NodeModel>, sorted: Seq<usize>, member: usize)
    ensures
        insert_by_offset(nodes, sorted, member).to_multiset() == sorted.to_multiset().insert(
            member,
        ),
    decreases sorted.len(),
{
    broadcast use vstd::seq_lib::group_to_multiset_ensures;

    if sorted.len() == 0 || offset_of(nodes, sorted.last()) <= offset_of(nodes, member) {
    } else {
        let front = sorted.drop_last();
        lemma_insert_permutes(nodes, front, member);
        assert(sorted =~= front.push(sorted.last()));
        assert(front.to_multiset().insert(member).insert(sorted.last())
            =~= front.to_multiset().insert(sorted.last()).insert(member));
    }
}

/// Whether fields stand in the order of their offsets.
pub open spec fn is_sorted_by_offset(nodes: Seq<NodeModel>, members: Seq<usize>) -> bool {
    forall|i: int, j: int|
        0 <= i < j < members.len() ==> offset_of(nodes, #[trigger] members[i]) <= offset_of(
            nodes,
            #[trigger] members[j],
        )
}

/// The fields of a structure come out in the order of their offsets.
pub proof fn sorting_sorts(nodes: Seq<NodeModel>, members: Seq<usize>)
    ensures
        is_sorted_by_offset(nodes, by_offset(nodes, members)),
    decreases members.len(),
{
    if members.len() > 0 {
        sorting_sorts(nodes, members.drop_last());
        lemma_insert_sorts(nodes, by_offset(nodes, members.drop_last()), members.last());
    }
}

proof fn lemma_insert_sorts(nodes: Seq<NodeModel>, sorted: Seq<usize>, member: usize)
    requires
        is_sorted_by_offset(nodes, sorted),
    ensures
        is_sorted_by_offset(nodes, insert_by_offset(nodes, sorted, member)),
        forall|i: int|
            0 <= i < insert_by_offset(nodes, sorted, member).len() ==> {
                let m = #[trigger] insert_by_offset(nodes, sorted, member)[i];
                m == member || sorted.contains(m)
            },
    decreases sorted.len(),
{
    let out = insert_by_offset(nodes, sorted, member);
    if sorted.len() == 0 || offset_of(nodes, sorted.last()) <= offset_of(nodes, member) {
        assert forall|i: int, j: int| 0 <= i < j < out.len() implies offset_of(
            nodes,
            #[trigger] out[i],
        ) <= offset_of(nodes, #[trigger] out[j]) by {
            if j == sorted.len() && i < sorted.len() - 1 {
                assert(offset_of(nodes, sorted[i]) <= offset_of(nodes, sorted[sorted.len() - 1]));
            }
        }
        assert forall|i: int| 0 <= i < out.len() implies {
            let m = #[trigger] out[i];
            m == member || sorted.contains(m)
        } by {
            if i < sorted.len() {
                assert(sorted.contains(sorted[i]));
            }
        }
    } else {
        let front = sorted.drop_last();
        let inner = insert_by_offset(nodes, front, member);
        lemma_insert_sorts(nodes, front, member);
        assert forall|i: int| 0 <= i < inner.len() implies offset_of(nodes, #[trigger] inner[i])
            <= offset_of(nodes, sorted.last()) by {
            if inner[i] != member {
                let k = choose|k: int| 0 <= k < front.len() && front[k] == inner[i];
                assert(sorted[k] == front[k]);
                assert(offset_of(nodes, sorted[k]) <= offset_of(nodes, sorted[sorted.len() - 1]));
            }
        }
        assert forall|i: int, j: int| 0 <= i < j < out.len() implies offset_of(
            nodes,
            #[trigger] out[i],
        ) <= offset_of(nodes, #[trigger] out[j]) by {
            assert(out[i] == inner[i]);
            if j < inner.len() {
                assert(out[j] == inner[j]);
            }
        }
        assert forall|i: int| 0 <= i < out.len() implies {
            let m = #[trigger] out[i];
            m == member || sorted.contains(m)
        } by {
            if i < inner.len() {
                assert(out[i] == inner[i]);
                if inner[i] != member {
                    let k = choose|k: int| 0 <= k < front.len() && front[k] == inner[i];
                    assert(sorted[k] == inner[i]);
                }
            } else {
                assert(sorted[sorted.len() - 1] == out[i]);
            }
        }
    }
}

/// The fields at one offset, in their order.
pub open spec fn at_offset(nodes: Seq<NodeModel>, members: Seq<usize>, offset: u64) -> Seq<usize>
    decreases members.len(),
{
    if members.len() == 0 {
        Seq::empty()
    } else {
        let before = at_offset(nodes, members.drop_last(), offset);
        if offset_of(nodes, members.last()) == offset {
            before.push(members.last())
        } else {
            before
        }
    }
}

/// Fields with the same offset keep their order.
pub proof fn sorting_is_stable(nodes: Seq<NodeModel>, members: Seq<usize>, offset: u64)
    ensures
        at_offset(nodes, by_offset(nodes, members), offset) == at_offset(nodes, members, offset),
    decreases members.len(),
{
    if members.len() > 0 {
        let front = members.drop_last();
        let sorted = by_offset(nodes, front);
        sorting_is_stable(nodes, front, offset);
        sorting_sorts(nodes, front);
        lemma_insert_is_stable(nodes, sorted, members.last(), offset);
        assert(sorted.push(members.last()).drop_last() =~= sorted);
    }
}

proof fn lemma_insert_is_stable(
    nodes: Seq<NodeModel>,
    sorted: Seq<usize>,
    member: usize,
    offset: u64,
)
    requires
        is_sorted_by_offset(nodes, sorted),
    ensures
        at_offset(nodes, insert_by_offset(nodes, sorted, member), offset) == at_offset(
            nodes,
            sorted.push(member),
            offset,
        ),
    decreases sorted.len(),
{
    reveal_with_fuel(at_offset, 2);
    assert(sorted.push(member).drop_last() =~= sorted);
    if sorted.len() == 0 || offset_of(nodes, sorted.last()) <= offset_of(nodes, member) {
    } else {
        let front = sorted.drop_last();
        let inner = insert_by_offset(nodes, front, member);
        lemma_insert_is_stable(nodes, front, member, offset);
        assert(inner.push(sorted.last()).drop_last() =~= inner);
        assert(front.push(member).drop_last() =~= front);
    }
}

/// A structure that marks a BTF map becomes anonymous.
pub proof fn map_structure_is_anonymous(nodes: Seq<NodeModel>, id: usize, i: int)
    requires
        is_structure(nodes[id as int].kind),
        0 <= i < first_variant_part(nodes, elements_of(nodes, nodes[id as int])),
        is_marker(nodes, elements_of(nodes, nodes[id as int])[i]),
    ensures
        node_edit(nodes, id).name == Some(Seq::<u8>::empty()),
{
    let elements = elements_of(nodes, nodes[id as int]);
    lemma_first_variant_part_bound(nodes, elements);
    let plain = elements.take(first_variant_part(nodes, elements) as int);
    assert(is_marker(nodes, plain[i]));
}

proof fn lemma_first_variant_part_bound(nodes: Seq<NodeModel>, elements: Seq<Option<usize>>)
    ensures
        first_variant_part(nodes, elements) <= elements.len(),
    decreases elements.len(),
{
    if elements.len() > 0 && !is_variant_part(nodes, elements[0]) {
        lemma_first_variant_part_bound(nodes, elements.skip(1));
    }
}

/// The debug information of an enumeration that carries data is emptied.
pub proof fn data_carrying_enum_is_emptied(nodes: Seq<NodeModel>, id: usize, i: int)
    requires
        is_structure(nodes[id as int].kind),
        0 <= i < elements_of(nodes, nodes[id as int]).len(),
        is_variant_part(nodes, elements_of(nodes, nodes[id as int])[i]),
    ensures
        node_edit(nodes, id).elements == Some(Seq::<usize>::empty()),
        node_edit(nodes, id).skipped is Some <==> nodes[id as int].name is Some,
{
    lemma_variant_part_is_found(nodes, elements_of(nodes, nodes[id as int]), i);
}

proof fn lemma_variant_part_is_found(
    nodes: Seq<NodeModel>,
    elements: Seq<Option<usize>>,
    i: int,
)
    requires
        0 <= i < elements.len(),
        is_variant_part(nodes, elements[i]),
    ensures
        first_variant_part(nodes, elements) <= i,
    decreases elements.len(),
{
    if !is_variant_part(nodes, elements[0]) {
        let rest = elements.skip(1);
        assert(rest[i - 1] == elements[i]);
        lemma_variant_part_is_found(nodes, rest, i - 1);
    }
}

/// New elements are nodes of the graph, and stand in an elements operand.
pub proof fn lemma_structure_edit_in_range(nodes: Seq<NodeModel>, node: NodeModel)
    requires
        graph::closed_graph(nodes),
        graph::node_in_range(node, nodes.len()),
    ensures
        structure_edit(nodes, node).elements is Some ==> node.operands.len() > ELEMENTS_OPERAND,
        structure_edit(nodes, node).elements is Some ==> forall|i: int|
            0 <= i < structure_edit(nodes, node).elements->Some_0.len()
                ==> #[trigger] structure_edit(nodes, node).elements->Some_0[i] < nodes.len(),
        structure_edit(nodes, node).elements is Some ==> structure_edit(
            nodes,
            node,
        ).elements->Some_0.len() <= usize::MAX,
{
    let elements = elements_of(nodes, node);
    lemma_first_variant_part_bound(nodes, elements);
    let plain = elements.take(first_variant_part(nodes, elements) as int);
    if node.operands.len() > ELEMENTS_OPERAND {
        assert(graph::in_range(node.operands[ELEMENTS_OPERAND as int], nodes.len()));
        if let Some(tuple) = node.operands[ELEMENTS_OPERAND as int] {
            assert(graph::node_in_range(nodes[tuple as int], nodes.len()));
        }
    } else {
        assert(members_of(nodes, plain).len() == 0);
    }
    assert forall|i: int| 0 <= i < plain.len() implies graph::in_range(
        #[trigger] plain[i],
        nodes.len(),
    ) by {
        assert(plain[i] == elements[i]);
    }
    lemma_members_in_range(nodes, plain);
    let members = members_of(nodes, plain);
    let sorted = by_offset(nodes, members);
    sorting_permutes(nodes, members);
    assert(sorted.len() == members.len()) by {
        broadcast use vstd::seq_lib::group_to_multiset_ensures;

        assert(sorted.to_multiset().len() == members.to_multiset().len());
    }
    assert forall|i: int| 0 <= i < sorted.len() implies #[trigger] sorted[i] < nodes.len() by {
        broadcast use vstd::seq_lib::group_to_multiset_ensures;

        assert(sorted.contains(sorted[i]));
        assert(sorted.to_multiset().contains(sorted[i]));
        assert(members.contains(sorted[i]));
    }
}

proof fn lemma_members_in_range(nodes: Seq<NodeModel>, elements: Seq<Option<usize>>)
    requires
        forall|i: int|
            0 <= i < elements.len() ==> graph::in_range(#[trigger] elements[i], nodes.len()),
    ensures
        forall|i: int|
            0 <= i < members_of(nodes, elements).len() ==> #[trigger] members_of(nodes, elements)[i]
                < nodes.len(),
        members_of(nodes, elements).len() <= elements.len(),
    decreases elements.len(),
{
    if elements.len() > 0 {
        let front = elements.drop_last();
        assert forall|i: int| 0 <= i < front.len() implies graph::in_range(
            #[trigger] front[i],
            nodes.len(),
        ) by {
            assert(front[i] == elements[i]);
        }
        lemma_members_in_range(nodes, front);
        assert(graph::in_range(elements[elements.len() - 1], nodes.len()));
        let all = members_of(nodes, elements);
        assert forall|i: int| 0 <= i < all.len() implies #[trigger] all[i] < nodes.len() by {
            if i < members_of(nodes, front).len() {
                assert(all[i] == members_of(nodes, front)[i]);
            }
        }
    }
}

} // verus!
