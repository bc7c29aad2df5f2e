//! What the sanitizer leaves of the fields and the name of a node.
use vstd::prelude::*;

use crate::di::edit;
use crate::di::graph::{NodeKind, NodeModel};
use crate::di::name;
use crate::text;

verus! {

/// Whether an element of a structure is a field.
pub open spec fn is_field(nodes: Seq<NodeModel>, element: Option<usize>) -> bool {
    element is Some && nodes[element->Some_0 as int].kind is Derived
}

/// Whether an element is a field whose type is a composite type called
/// `AyaBtfMapMarker`.
pub open spec fn marks_map(nodes: Seq<NodeModel>, element: Option<usize>) -> bool {
    is_field(nodes, element) && {
        let operands = nodes[element->Some_0 as int].operands;
        operands.len() > 3 && operands[3] is Some && {
            let base = nodes[operands[3]->Some_0 as int];
            base.kind is Composite && base.name == Some(
                seq![
                    0x41u8,
                    0x79,
                    0x61,
                    0x42,
                    0x74,
                    0x66,
                    0x4d,
                    0x61,
                    0x70,
                    0x4d,
                    0x61,
                    0x72,
                    0x6b,
                    0x65,
                    0x72,
                ],
            )
        }
    }
}

/// Whether an element is the variant part of an enumeration.
pub open spec fn starts_variants(nodes: Seq<NodeModel>, element: Option<usize>) -> bool {
    element is Some && match nodes[element->Some_0 as int].kind {
        NodeKind::Composite { tag, .. } => tag == 0x33,
        _ => false,
    }
}

/// Whether a node is the definition of a structure or union, and `tuple` holds its
/// elements.
pub open spec fn defines(nodes: Seq<NodeModel>, id: usize, tuple: usize) -> bool {
    let node = nodes[id as int];
    &&& is_definition(node.kind)
    &&& node.operands.len() > 4
    &&& node.operands[4] == Some(tuple)
}

/// Whether a node is the definition of a structure or union, and no declaration.
pub open spec fn is_definition(kind: NodeKind) -> bool {
    match kind {
        NodeKind::Composite { tag, flags } => (tag == 0x13 || tag == 0x17) && flags != 4,
        _ => false,
    }
}

/// The offset of a field.
pub open spec fn field_offset(nodes: Seq<NodeModel>, field: usize) -> u64 {
    nodes[field as int].kind->Derived_offset_in_bits
}

/// The fields among some elements that do not mark a map, in their order.
pub open spec fn plain_fields(nodes: Seq<NodeModel>, elements: Seq<Option<usize>>) -> Seq<usize> {
    elements.filter(|e: Option<usize>| is_field(nodes, e) && !marks_map(nodes, e)).map_values(
        |e: Option<usize>| e->Some_0,
    )
}

/// Whether a list holds the same fields as another, in the order of their offsets,
/// and those at one offset in the order they had.
pub open spec fn is_ordered_copy(
    nodes: Seq<NodeModel>,
    fields: Seq<usize>,
    ordered: Seq<usize>,
) -> bool {
    &&& ordered.to_multiset() == fields.to_multiset()
    &&& forall|i: int, j: int|
        0 <= i < j < ordered.len() ==> field_offset(nodes, #[trigger] ordered[i]) <= field_offset(
            nodes,
            #[trigger] ordered[j],
        )
    &&& forall|offset: u64| #[trigger]
        fields_at(nodes, ordered, offset) == fields_at(nodes, fields, offset)
}

/// The fields that stand at one offset, in their order.
pub open spec fn fields_at(nodes: Seq<NodeModel>, fields: Seq<usize>, offset: u64) -> Seq<usize> {
    fields.filter(|m: usize| field_offset(nodes, m) == offset)
}

/// The name of a node made valid in C, where it has one.
pub open spec fn valid_name(node: NodeModel) -> Option<Seq<u8>> {
    if node.name is Some {
        Some(name::sanitized(node.name->Some_0))
    } else {
        None
    }
}

proof fn lemma_marker(nodes: Seq<NodeModel>, element: Option<usize>)
    ensures
        edit::is_marker(nodes, element) == marks_map(nodes, element),
        edit::is_member(nodes, element) == (is_field(nodes, element) && !marks_map(
            nodes,
            element,
        )),
{
    reveal_strlit("AyaBtfMapMarker");
    assert(edit::marker_name() =~= seq![
        0x41u8,
        0x79,
        0x61,
        0x42,
        0x74,
        0x66,
        0x4d,
        0x61,
        0x70,
        0x4d,
        0x61,
        0x72,
        0x6b,
        0x65,
        0x72,
    ]);
}

proof fn lemma_members(nodes: Seq<NodeModel>, elements: Seq<Option<usize>>)
    ensures
        edit::members_of(nodes, elements) == plain_fields(nodes, elements),
        forall|i: int|
            0 <= i < plain_fields(nodes, elements).len() ==> nodes[#[trigger] plain_fields(
                nodes,
                elements,
            )[i] as int].kind is Derived,
    decreases elements.len(),
{
    reveal(Seq::filter);
    let keep = |e: Option<usize>| is_field(nodes, e) && !marks_map(nodes, e);
    let get = |e: Option<usize>| e->Some_0;
    if elements.len() > 0 {
        let front = elements.drop_last();
        let last = elements.last();
        lemma_members(nodes, front);
        lemma_marker(nodes, last);
        if keep(last) {
            assert(elements.filter(keep) == front.filter(keep).push(last));
            assert(elements.filter(keep).map_values(get) =~= front.filter(keep).map_values(
                get,
            ).push(get(last)));
            assert(plain_fields(nodes, elements) == plain_fields(nodes, front).push(get(last)));
            assert forall|i: int| 0 <= i < plain_fields(nodes, elements).len() implies nodes[
            #[trigger] plain_fields(nodes, elements)[i] as int].kind is Derived by {
                if i < plain_fields(nodes, front).len() {
                    assert(plain_fields(nodes, elements)[i] == plain_fields(nodes, front)[i]);
                }
            }
        } else {
            assert(elements.filter(keep) == front.filter(keep));
            assert(plain_fields(nodes, elements) == plain_fields(nodes, front));
        }
    } else {
        assert(elements.filter(keep).map_values(get) =~= Seq::<usize>::empty());
    }
}

proof fn lemma_fields_at(nodes: Seq<NodeModel>, fields: Seq<usize>, offset: u64)
    requires
        forall|i: int|
            0 <= i < fields.len() ==> nodes[#[trigger] fields[i] as int].kind is Derived,
    ensures
        edit::at_offset(nodes, fields, offset) == fields_at(nodes, fields, offset),
    decreases fields.len(),
{
    reveal(Seq::filter);
    if fields.len() > 0 {
        let front = fields.drop_last();
        assert forall|i: int| 0 <= i < front.len() implies nodes[#[trigger] front[i] as int].kind
            is Derived by {
            assert(front[i] == fields[i]);
        }
        lemma_fields_at(nodes, front, offset);
        assert(fields[fields.len() - 1] == fields.last());
    }
}

proof fn lemma_sorted(nodes: Seq<NodeModel>, elements: Seq<Option<usize>>)
    ensures
        is_ordered_copy(
            nodes,
            plain_fields(nodes, elements),
            edit::by_offset(nodes, edit::members_of(nodes, elements)),
        ),
{
    let members = plain_fields(nodes, elements);
    lemma_members(nodes, elements);
    let sorted = edit::by_offset(nodes, members);
    edit::sorting_permutes(nodes, members);
    edit::sorting_sorts(nodes, members);
    assert forall|i: int| 0 <= i < sorted.len() implies nodes[#[trigger] sorted[i] as int].kind
        is Derived by {
        broadcast use vstd::seq_lib::group_to_multiset_ensures;

        assert(sorted.contains(sorted[i]));
        assert(sorted.to_multiset().contains(sorted[i]));
        assert(members.contains(sorted[i]));
        let k = choose|k: int| 0 <= k < members.len() && members[k] == sorted[i];
        assert(nodes[members[k] as int].kind is Derived);
    }
    assert forall|i: int, j: int| 0 <= i < j < sorted.len() implies field_offset(
        nodes,
        #[trigger] sorted[i],
    ) <= field_offset(nodes, #[trigger] sorted[j]) by {
        assert(edit::offset_of(nodes, sorted[i]) <= edit::offset_of(nodes, sorted[j]));
    }
    assert forall|offset: u64| #[trigger]
        fields_at(nodes, sorted, offset) == fields_at(nodes, members, offset) by {
        edit::sorting_is_stable(nodes, members, offset);
        lemma_fields_at(nodes, members, offset);
        lemma_fields_at(nodes, sorted, offset);
    }
}

proof fn lemma_first(nodes: Seq<NodeModel>, elements: Seq<Option<usize>>, k: nat)
    requires
        k <= elements.len(),
        forall|i: int| 0 <= i < k ==> !starts_variants(nodes, #[trigger] elements[i]),
        k < elements.len() ==> starts_variants(nodes, elements[k as int]),
    ensures
        edit::first_variant_part(nodes, elements) == k,
    decreases elements.len(),
{
    if elements.len() > 0 && k > 0 {
        let rest = elements.skip(1);
        assert(!starts_variants(nodes, elements[0]));
        assert forall|i: int| 0 <= i < k - 1 implies !starts_variants(
            nodes,
            #[trigger] rest[i],
        ) by {
            assert(rest[i] == elements[i + 1]);
        }
        lemma_first(nodes, rest, (k - 1) as nat);
    }
}

proof fn lemma_has_marker(nodes: Seq<NodeModel>, elements: Seq<Option<usize>>)
    ensures
        edit::has_marker(nodes, elements) == exists|i: int|
            0 <= i < elements.len() && marks_map(nodes, #[trigger] elements[i]),
{
    assert forall|i: int| 0 <= i < elements.len() implies edit::is_marker(nodes, elements[i])
        == marks_map(nodes, #[trigger] elements[i]) by {
        lemma_marker(nodes, elements[i]);
    }
    if edit::has_marker(nodes, elements) {
        let i = choose|i: int|
            0 <= i < elements.len() && edit::is_marker(nodes, #[trigger] elements[i]);
        assert(marks_map(nodes, elements[i]));
    }
    if exists|i: int| 0 <= i < elements.len() && marks_map(nodes, #[trigger] elements[i]) {
        let i = choose|i: int| 0 <= i < elements.len() && marks_map(nodes, #[trigger] elements[i]);
        assert(edit::is_marker(nodes, elements[i]));
    }
}

/// A structure or union without a variant part keeps every field but those whose
/// type is called `AyaBtfMapMarker`, in the order of their offsets. It becomes
/// anonymous exactly if it has such a field; otherwise its name is made valid.
pub proof fn structure_keeps_its_fields(nodes: Seq<NodeModel>, id: usize, tuple: usize)
    requires
        defines(nodes, id, tuple),
        forall|i: int|
            0 <= i < nodes[tuple as int].operands.len() ==> !starts_variants(
                nodes,
                #[trigger] nodes[tuple as int].operands[i],
            ),
    ensures
        ({
            let elements = nodes[tuple as int].operands;
            let fields = plain_fields(nodes, elements);
            let edit = edit::node_edit(nodes, id);
            &&& edit.elements is Some <==> fields.len() > 0
            &&& edit.elements is Some ==> is_ordered_copy(nodes, fields, edit.elements->Some_0)
            &&& edit.name == (if exists|i: int|
                0 <= i < elements.len() && marks_map(nodes, #[trigger] elements[i]) {
                Some(Seq::<u8>::empty())
            } else {
                valid_name(nodes[id as int])
            })
            &&& edit.skipped is None
        }),
{
    let elements = nodes[tuple as int].operands;
    lemma_first(nodes, elements, elements.len());
    assert(elements.take(elements.len() as int) =~= elements);
    lemma_members(nodes, elements);
    lemma_sorted(nodes, elements);
    lemma_has_marker(nodes, elements);
}

/// A structure or union in which no field has a type called `AyaBtfMapMarker`, and
/// which has no variant part, keeps every one of its fields, and its name is made
/// valid.
pub proof fn structure_without_marker_loses_nothing(nodes: Seq<NodeModel>, id: usize, tuple: usize)
    requires
        defines(nodes, id, tuple),
        forall|i: int|
            0 <= i < nodes[tuple as int].operands.len() ==> !starts_variants(
                nodes,
                #[trigger] nodes[tuple as int].operands[i],
            ) && !marks_map(nodes, nodes[tuple as int].operands[i]),
    ensures
        ({
            let elements = nodes[tuple as int].operands;
            let edit = edit::node_edit(nodes, id);
            &&& edit.name == valid_name(nodes[id as int])
            &&& forall|i: int|
                0 <= i < elements.len() && is_field(nodes, #[trigger] elements[i])
                    ==> edit.elements is Some && edit.elements->Some_0.contains(
                    elements[i]->Some_0,
                )
        }),
{
    let elements = nodes[tuple as int].operands;
    let edit = edit::node_edit(nodes, id);
    let keep = |e: Option<usize>| is_field(nodes, e) && !marks_map(nodes, e);
    structure_keeps_its_fields(nodes, id, tuple);
    assert forall|i: int|
        0 <= i < elements.len() && is_field(
            nodes,
            #[trigger] elements[i],
        ) implies edit.elements is Some && edit.elements->Some_0.contains(
        elements[i]->Some_0,
    ) by {
        broadcast use vstd::seq_lib::group_to_multiset_ensures;

        let kept = elements.filter(keep);
        elements.lemma_filter_contains(keep, i);
        let k = choose|k: int| 0 <= k < kept.len() && kept[k] == elements[i];
        let fields = plain_fields(nodes, elements);
        assert(fields[k] == elements[i]->Some_0);
        assert(fields.contains(fields[k]));
        assert(fields.to_multiset().contains(fields[k]));
        assert(edit.elements->Some_0.contains(fields[k]));
    }
}

/// A structure or union with a variant part is emptied, and its name is reported.
/// Whether it becomes anonymous is decided by the fields in front of that part.
pub proof fn structure_with_variants_is_emptied(
    nodes: Seq<NodeModel>,
    id: usize,
    tuple: usize,
    first: int,
)
    requires
        defines(nodes, id, tuple),
        0 <= first < nodes[tuple as int].operands.len(),
        starts_variants(nodes, nodes[tuple as int].operands[first]),
        forall|i: int|
            0 <= i < first ==> !starts_variants(
                nodes,
                #[trigger] nodes[tuple as int].operands[i],
            ),
    ensures
        ({
            let elements = nodes[tuple as int].operands;
            let edit = edit::node_edit(nodes, id);
            &&& edit.elements == Some(Seq::<usize>::empty())
            &&& edit.skipped is Some <==> nodes[id as int].name is Some
            &&& edit.skipped is Some ==> edit.skipped == Some(
                text::lossy_utf8(nodes[id as int].name->Some_0),
            )
            &&& edit.name == (if exists|i: int|
                0 <= i < first && marks_map(nodes, #[trigger] elements[i]) {
                Some(Seq::<u8>::empty())
            } else {
                valid_name(nodes[id as int])
            })
        }),
{
    let elements = nodes[tuple as int].operands;
    lemma_first(nodes, elements, first as nat);
    let plain = elements.take(first);
    lemma_has_marker(nodes, plain);
    if exists|i: int| 0 <= i < first && marks_map(nodes, #[trigger] elements[i]) {
        let i = choose|i: int| 0 <= i < first && marks_map(nodes, #[trigger] elements[i]);
        assert(marks_map(nodes, plain[i]));
    }
    if exists|i: int| 0 <= i < plain.len() && marks_map(nodes, #[trigger] plain[i]) {
        let i = choose|i: int| 0 <= i < plain.len() && marks_map(nodes, #[trigger] plain[i]);
        assert(marks_map(nodes, elements[i]));
    }
}

/// A structure or union without elements only has its name made valid.
pub proof fn structure_without_elements_is_renamed(nodes: Seq<NodeModel>, id: usize)
    requires
        is_definition(nodes[id as int].kind),
        nodes[id as int].operands.len() <= 4 || nodes[id as int].operands[4] is None,
    ensures
        edit::node_edit(nodes, id).elements is None,
        edit::node_edit(nodes, id).skipped is None,
        edit::node_edit(nodes, id).name == valid_name(nodes[id as int]),
{
    let none = Seq::<Option<usize>>::empty();
    assert(edit::elements_of(nodes, nodes[id as int]) =~= none);
    lemma_first(nodes, none, 0);
    assert(none.take(0) =~= none);
}

/// Of any other node no element is touched and nothing is reported. A pointer loses
/// its name, that of a function is made valid, and every other node keeps its own.
pub proof fn other_nodes_keep_their_elements(nodes: Seq<NodeModel>, id: usize)
    requires
        !is_definition(nodes[id as int].kind),
    ensures
        edit::node_edit(nodes, id).elements is None,
        edit::node_edit(nodes, id).skipped is None,
        edit::node_edit(nodes, id).name == (match nodes[id as int].kind {
            NodeKind::Derived { tag, .. } => if tag == 0x0f {
                Some(Seq::<u8>::empty())
            } else {
                None
            },
            NodeKind::Subprogram => valid_name(nodes[id as int]),
            _ => None,
        }),
{
}

/// An edit of a node leaves every other node as it is, and of the node itself
/// everything but its name and its elements. New elements are those, and no others,
/// that the node leads to afterwards.
pub proof fn edit_changes_only_its_node(
    nodes: Seq<NodeModel>,
    id: usize,
    change: edit::NodeEditModel,
)
    requires
        id < nodes.len() <= usize::MAX,
        change.elements is Some ==> nodes[id as int].operands.len() > 4,
    ensures
        ({
            let after = edit::apply_edit(nodes, id, change);
            let node = after[id as int];
            &&& after.len() == nodes.len() + (if change.elements is Some {
                1int
            } else {
                0int
            })
            &&& forall|i: int| 0 <= i < nodes.len() && i != id ==> #[trigger] after[i] == nodes[i]
            &&& node.kind == nodes[id as int].kind
            &&& node.items == nodes[id as int].items
            &&& node.name == (if change.name is Some {
                change.name
            } else {
                nodes[id as int].name
            })
            &&& node.operands.len() == nodes[id as int].operands.len()
            &&& forall|i: int|
                0 <= i < node.operands.len() && i != 4 ==> #[trigger] node.operands[i]
                    == nodes[id as int].operands[i]
            &&& match change.elements {
                None => node.operands == nodes[id as int].operands,
                Some(members) => {
                    let tuple = after[nodes.len() as int];
                    &&& node.operands[4] == Some(nodes.len() as usize)
                    &&& tuple.operands.len() == members.len()
                    &&& forall|i: int|
                        0 <= i < members.len() ==> #[trigger] tuple.operands[i] == Some(members[i])
                    &&& tuple.name is None
                    &&& tuple.items.len() == 0
                    &&& tuple.kind is Other
                },
            }
        }),
{
}

} // verus!
