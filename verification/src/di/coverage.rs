//! What holds of a module once a walk has ended.
use vstd::prelude::*;

use crate::di::edit;
use crate::di::graph;
use crate::di::graph::NodeModel;
use crate::di::name;
use crate::di::sanitizer;
use crate::di::sanitizer::{Item, SanitizerModel};

verus! {

/// A name that the kernel accepts: a valid C name of limited length.
pub open spec fn is_kernel_name(n: Seq<u8>) -> bool {
    name::is_c_name(n) && n.len() <= name::MAX_KSYM_NAME_LEN
}

/// What holds of a node after its visit: structures, unions and functions have
/// names that the kernel accepts, and pointers have none.
pub open spec fn is_settled(node: NodeModel) -> bool {
    &&& (edit::is_structure(node.kind) || node.kind is Subprogram) && node.name is Some
        ==> is_kernel_name(node.name->Some_0)
    &&& edit::is_pointer(node.kind) ==> node.name == Some(Seq::<u8>::empty())
}

/// Whether `new` stands for a node that has been visited.
pub open spec fn stands_for_visited(state: SanitizerModel, new: usize) -> bool {
    exists|old: usize|
        old < state.visited.len() && state.visited[old as int] && #[trigger] sanitizer::replacement(
            state.replace,
            old,
        ) == Some(new)
}

/// An operand that needs no further work: it is not set, it has been visited and
/// keeps its place, or it has replaced a node that has been visited.
pub open spec fn is_operand_done(state: SanitizerModel, operand: Option<usize>) -> bool {
    match operand {
        None => true,
        Some(id) => {
            ||| id < state.visited.len() && state.visited[id as int] && sanitizer::replacement(
                state.replace,
                id,
            ) is None
            ||| stands_for_visited(state, id)
        },
    }
}

spec fn is_operand_listed(state: SanitizerModel, parent: int, index: int) -> bool {
    state.work.contains(
        Item::Operand {
            parent: parent as usize,
            index: index as usize,
            value: state.nodes[parent].operands[index],
        },
    )
}

/// What every state of a walk keeps.
spec fn progress_invariant(init: SanitizerModel, state: SanitizerModel) -> bool {
    &&& init.nodes.len() <= state.nodes.len()
    &&& state.replace == init.replace
    &&& forall|i: int|
        0 <= i < state.nodes.len() && state.visited[i] ==> is_settled(#[trigger] state.nodes[i])
    &&& forall|i: int|
        0 <= i < init.nodes.len() && !state.visited[i] ==> #[trigger] state.nodes[i]
            == init.nodes[i]
    &&& forall|k: int|
        0 <= k < state.work.len() ==> (#[trigger] state.work[k] matches Item::Operand {
            parent,
            ..
        } ==> state.visited[parent as int])
    &&& forall|i: int, j: int|
        0 <= i < state.nodes.len() && state.visited[i] && 0 <= j < state.nodes[i].operands.len()
            ==> is_operand_done(state, #[trigger] state.nodes[i].operands[j]) || is_operand_listed(
            state,
            i,
            j,
        )
    &&& forall|i: int, j: int|
        0 <= i < state.nodes.len() && state.visited[i] && 0 <= j < state.nodes[i].items.len() ==> {
            let item = #[trigger] state.nodes[i].items[j];
            state.visited[item as int] || state.work.contains(Item::Value(item))
        }
}

/// What an edited node looks like.
proof fn lemma_edited_node_is_settled(nodes: Seq<NodeModel>, id: usize)
    requires
        id < nodes.len(),
    ensures
        is_settled(edit::apply_edit(nodes, id, edit::node_edit(nodes, id))[id as int]),
{
    let node = nodes[id as int];
    if node.name is Some {
        name::sanitized_name_is_valid(node.name->Some_0);
    }
}

proof fn lemma_popped_invariant(init: SanitizerModel, state: SanitizerModel, next: SanitizerModel)
    requires
        sanitizer::wf(state),
        state.nodes.len() <= usize::MAX,
        progress_invariant(init, state),
        state.work.len() > 0,
        next == sanitizer::replace_operand(
            (SanitizerModel { work: state.work.drop_last(), ..state }),
            state.work.last(),
        ),
    ensures
        init.nodes.len() <= next.nodes.len(),
        next.nodes.len() == state.nodes.len(),
        next.replace == init.replace,
        next.visited == state.visited,
        next.work == state.work.drop_last(),
        forall|i: int|
            0 <= i < next.nodes.len() && next.visited[i] ==> is_settled(#[trigger] next.nodes[i]),
        forall|i: int|
            0 <= i < init.nodes.len() && !next.visited[i] ==> #[trigger] next.nodes[i]
                == init.nodes[i],
        forall|k: int|
            0 <= k < next.work.len() ==> (#[trigger] next.work[k] matches Item::Operand {
                parent,
                ..
            } ==> next.visited[parent as int]),
{
    let item = state.work.last();
    assert(item == state.work[state.work.len() - 1]);
    assert(sanitizer::item_in_range(state.nodes, item));
    assert forall|i: int| 0 <= i < next.nodes.len() && next.visited[i] implies is_settled(
        #[trigger] next.nodes[i],
    ) by {
        assert(is_settled(state.nodes[i]));
    }
    assert forall|i: int| 0 <= i < init.nodes.len() && !next.visited[i] implies (
    #[trigger] next.nodes[i]) == init.nodes[i] by {
        assert(state.nodes[i] == init.nodes[i]);
    }
    assert forall|k: int| 0 <= k < next.work.len() implies (#[trigger] next.work[k] matches Item::Operand {
        parent,
        ..
    } ==> next.visited[parent as int]) by {
        assert(next.work[k] == state.work[k]);
    }
}

/// Taking an item off a list keeps the others.
proof fn lemma_popped_list(work: Seq<Item>, item: Item)
    requires
        work.len() > 0,
        work.contains(item),
        item != work.last(),
    ensures
        work.drop_last().contains(item),
{
    let k = choose|k: int| 0 <= k < work.len() && work[k] == item;
    assert(work.drop_last()[k] == item);
}

/// An operand stays done while more nodes are visited.
proof fn lemma_done_is_stable(
    before: SanitizerModel,
    after: SanitizerModel,
    operand: Option<usize>,
)
    requires
        is_operand_done(before, operand),
        before.replace == after.replace,
        before.visited.len() <= after.visited.len(),
        forall|i: int| 0 <= i < before.visited.len() && before.visited[i] ==> after.visited[i],
    ensures
        is_operand_done(after, operand),
{
    if let Some(id) = operand {
        if stands_for_visited(before, id) {
            let old = choose|old: usize|
                old < before.visited.len() && before.visited[old as int]
                    && #[trigger] sanitizer::replacement(before.replace, old) == Some(id);
            assert(sanitizer::replacement(after.replace, old) == Some(id));
        }
    }
}

proof fn lemma_step_keeps_invariant(init: SanitizerModel, state: SanitizerModel)
    requires
        sanitizer::wf(state),
        sanitizer::step(state).nodes.len() <= usize::MAX,
        progress_invariant(init, state),
    ensures
        progress_invariant(init, sanitizer::step(state)),
{
    if state.work.len() > 0 {
        let item = state.work.last();
        assert(item == state.work[state.work.len() - 1]);
        assert(sanitizer::item_in_range(state.nodes, item));
        let popped = SanitizerModel { work: state.work.drop_last(), ..state };
        let mid = sanitizer::replace_operand(popped, item);
        let out = sanitizer::step(state);
        lemma_popped_invariant(init, state, mid);
        match sanitizer::item_value(item) {
            None => {
                assert(mid == popped);
                assert(out == popped);
                lemma_operands_kept(init, state, mid, out);
            },
            Some(id) => {
                if mid.visited[id as int] {
                    assert(out == mid);
                } else {
                    lemma_enter_settles(init, mid, id);
                }
                lemma_operands_kept(init, state, mid, out);
            },
        }
    }
}

/// The part of the invariant that speaks of single nodes survives a visit.
proof fn lemma_enter_settles(init: SanitizerModel, mid: SanitizerModel, id: usize)
    requires
        id < mid.nodes.len(),
        mid.visited.len() == mid.nodes.len(),
        !mid.visited[id as int],
        init.nodes.len() <= mid.nodes.len(),
        mid.replace == init.replace,
        forall|i: int|
            0 <= i < mid.nodes.len() && mid.visited[i] ==> is_settled(#[trigger] mid.nodes[i]),
        forall|i: int|
            0 <= i < init.nodes.len() && !mid.visited[i] ==> #[trigger] mid.nodes[i]
                == init.nodes[i],
        forall|k: int|
            0 <= k < mid.work.len() ==> (#[trigger] mid.work[k] matches Item::Operand {
                parent,
                ..
            } ==> parent < mid.nodes.len() && mid.visited[parent as int]),
    ensures
        ({
            let out = sanitizer::enter_node(mid, id);
            &&& init.nodes.len() <= out.nodes.len()
            &&& out.visited.len() == out.nodes.len()
            &&& forall|i: int|
                0 <= i < out.nodes.len() && out.visited[i] ==> is_settled(#[trigger] out.nodes[i])
            &&& forall|i: int|
                0 <= i < init.nodes.len() && !out.visited[i] ==> #[trigger] out.nodes[i]
                    == init.nodes[i]
            &&& forall|k: int|
                0 <= k < out.work.len() ==> (#[trigger] out.work[k] matches Item::Operand {
                    parent,
                    ..
                } ==> out.visited[parent as int])
        }),
{
    let out = sanitizer::enter_node(mid, id);
    lemma_edited_node_is_settled(mid.nodes, id);
    assert forall|i: int| 0 <= i < out.nodes.len() && out.visited[i] implies is_settled(
        #[trigger] out.nodes[i],
    ) by {
        if i != id {
            assert(i < mid.nodes.len());
            assert(is_settled(mid.nodes[i]));
        }
    }
    assert forall|i: int| 0 <= i < init.nodes.len() && !out.visited[i] implies (
    #[trigger] out.nodes[i]) == init.nodes[i] by {
        assert(mid.nodes[i] == init.nodes[i]);
    }
    let below = sanitizer::children(out.nodes[id as int], id);
    assert forall|k: int| 0 <= k < out.work.len() implies (#[trigger] out.work[k] matches Item::Operand {
        parent,
        ..
    } ==> out.visited[parent as int]) by {
        if k < mid.work.len() {
            assert(out.work[k] == mid.work[k]);
        } else {
            assert(out.work[k] == below[below.len() - 1 - (k - mid.work.len())]);
        }
    }
}

/// Every operand and item of a visited node stays done or listed.
proof fn lemma_operands_kept(
    init: SanitizerModel,
    state: SanitizerModel,
    mid: SanitizerModel,
    out: SanitizerModel,
)
    requires
        sanitizer::wf(state),
        out.nodes.len() <= usize::MAX,
        progress_invariant(init, state),
        state.work.len() > 0,
        mid == sanitizer::replace_operand(
            (SanitizerModel { work: state.work.drop_last(), ..state }),
            state.work.last(),
        ),
        out == sanitizer::step(state),
    ensures
        forall|i: int, j: int|
            0 <= i < out.nodes.len() && out.visited[i] && 0 <= j < out.nodes[i].operands.len()
                ==> is_operand_done(out, #[trigger] out.nodes[i].operands[j]) || is_operand_listed(
                out,
                i,
                j,
            ),
        forall|i: int, j: int|
            0 <= i < out.nodes.len() && out.visited[i] && 0 <= j < out.nodes[i].items.len() ==> {
                let item = #[trigger] out.nodes[i].items[j];
                out.visited[item as int] || out.work.contains(Item::Value(item))
            },
{
    let item = state.work.last();
    assert(item == state.work[state.work.len() - 1]);
    assert(sanitizer::item_in_range(state.nodes, item));
    let rest = state.work.drop_last();
    let value = sanitizer::item_value(item);
    assert(forall|k: int| 0 <= k < rest.len() ==> out.work[k] == rest[k]);
    assert forall|i: int, j: int|
        0 <= i < out.nodes.len() && out.visited[i] && 0 <= j < out.nodes[i].operands.len() implies {
        is_operand_done(out, #[trigger] out.nodes[i].operands[j]) || is_operand_listed(out, i, j)
    } by {
        let fresh = value is Some && i == value->Some_0 && !mid.visited[i];
        if fresh {
            let below = sanitizer::children(out.nodes[i], i as usize);
            let k = rest.len() + (below.len() - 1 - j);
            assert(out.work[k] == below[j]);
            assert(is_operand_listed(out, i, j));
        } else {
            assert(i < state.nodes.len() && state.visited[i]);
            assert(graph::node_in_range(state.nodes[i], state.nodes.len()));
            assert(out.nodes[i].operands.len() == state.nodes[i].operands.len());
            let was = state.nodes[i].operands[j];
            let here = Item::Operand { parent: i as usize, index: j as usize, value: was };
            let is_here = match item {
                Item::Operand { parent, index, .. } => parent == i && index == j,
                _ => false,
            };
            if is_here && value is Some {
                // The operand that has just been visited.
                let v = value->Some_0;
                assert(out.visited[v as int]);
                match sanitizer::replacement(state.replace, v) {
                    Some(new) => {
                        assert(out.nodes[i].operands[j] == Some(new));
                        assert(sanitizer::replacement(out.replace, v) == Some(new));
                        assert(stands_for_visited(out, new));
                    },
                    None => {
                        assert(out.nodes[i].operands[j] == was);
                        if item == here {
                            assert(is_operand_done(out, was));
                        } else {
                            if is_operand_done(state, was) {
                                lemma_done_is_stable(state, out, was);
                            } else {
                                lemma_popped_list(state.work, here);
                                let k = choose|k: int| 0 <= k < rest.len() && rest[k] == here;
                                assert(out.work[k] == here);
                            }
                        }
                    },
                }
            } else {
                assert(out.nodes[i].operands[j] == was);
                if is_operand_done(state, was) {
                    lemma_done_is_stable(state, out, was);
                } else {
                    if item == here {
                        assert(was is None);
                    } else {
                        lemma_popped_list(state.work, here);
                        let k = choose|k: int| 0 <= k < rest.len() && rest[k] == here;
                        assert(out.work[k] == here);
                    }
                }
            }
        }
    }
    assert forall|i: int, j: int|
        0 <= i < out.nodes.len() && out.visited[i] && 0 <= j < out.nodes[i].items.len() implies {
        let it = #[trigger] out.nodes[i].items[j];
        out.visited[it as int] || out.work.contains(Item::Value(it))
    } by {
        let it = out.nodes[i].items[j];
        let fresh = value is Some && i == value->Some_0 && !mid.visited[i];
        if fresh {
            let below = sanitizer::children(out.nodes[i], i as usize);
            let at = out.nodes[i].operands.len() + j;
            let k = rest.len() + (below.len() - 1 - at);
            assert(below[at] == Item::Value(it));
            assert(out.work[k] == below[at]);
        } else {
            assert(i < state.nodes.len() && state.visited[i]);
            assert(state.nodes[i].items[j] == it);
            assert(graph::node_in_range(state.nodes[i], state.nodes.len()));
            if !state.visited[it as int] {
                assert(state.work.contains(Item::Value(it)));
                if item == Item::Value(it) {
                    assert(out.visited[it as int]);
                } else {
                    lemma_popped_list(state.work, Item::Value(it));
                    let k = choose|k: int| 0 <= k < rest.len() && rest[k] == Item::Value(it);
                    assert(out.work[k] == Item::Value(it));
                }
            }
        }
    }
}

proof fn lemma_steps_keep_invariant(init: SanitizerModel, n: nat)
    requires
        sanitizer::wf(init),
        forall|i: int| 0 <= i < init.visited.len() ==> !init.visited[i],
        forall|k: int| 0 <= k < init.work.len() ==> (#[trigger] init.work[k]) is Value,
        init.nodes.len() + sanitizer::work_left(init) <= usize::MAX,
    ensures
        sanitizer::wf(sanitizer::steps(init, n)),
        progress_invariant(init, sanitizer::steps(init, n)),
        sanitizer::steps(init, n).nodes.len() + sanitizer::work_left(sanitizer::steps(init, n))
            <= usize::MAX,
    decreases n,
{
    if n > 0 {
        let before = sanitizer::steps(init, (n - 1) as nat);
        lemma_steps_keep_invariant(init, (n - 1) as nat);
        if before.work.len() > 0 {
            sanitizer::lemma_step_progress(before);
        }
        sanitizer::lemma_step_keeps_wf(before);
        lemma_step_keeps_invariant(init, before);
    }
}

/// The roots of a walk are visited or still on the list.
proof fn lemma_roots_reached(init: SanitizerModel, n: nat, root: usize)
    requires
        sanitizer::wf(init),
        forall|i: int| 0 <= i < init.visited.len() ==> !init.visited[i],
        forall|k: int| 0 <= k < init.work.len() ==> (#[trigger] init.work[k]) is Value,
        init.work.contains(Item::Value(root)),
        init.nodes.len() + sanitizer::work_left(init) <= usize::MAX,
    ensures
        ({
            let state = sanitizer::steps(init, n);
            state.visited[root as int] || state.work.contains(Item::Value(root))
        }),
    decreases n,
{
    if n > 0 {
        let before = sanitizer::steps(init, (n - 1) as nat);
        let state = sanitizer::step(before);
        lemma_roots_reached(init, (n - 1) as nat, root);
        lemma_steps_keep_invariant(init, (n - 1) as nat);
        if !before.visited[root as int] {
            let k = choose|k: int| 0 <= k < before.work.len() && before.work[k] == Item::Value(root);
            assert(sanitizer::item_in_range(before.nodes, before.work[k]));
            if before.work.last() != Item::Value(root) {
                lemma_popped_list(before.work, Item::Value(root));
                let m = choose|m: int|
                    0 <= m < before.work.drop_last().len() && before.work.drop_last()[m]
                        == Item::Value(root);
                assert(state.work[m] == Item::Value(root));
            } else {
                assert(state.visited[root as int]);
            }
        } else {
            let k = choose|k: int| 0 <= k < init.work.len() && init.work[k] == Item::Value(root);
            assert(sanitizer::item_in_range(init.nodes, init.work[k]));
        }
    }
}

/// When a walk from `roots` has ended, every node that can be reached has been
/// visited and has a name that the kernel accepts, no operand of such a node
/// refers to a node that was to be replaced unless that node is itself a
/// replacement, and nodes that were not reached are as they were.
pub proof fn walk_is_complete(
    nodes: Seq<NodeModel>,
    replace: Seq<Option<usize>>,
    roots: Seq<usize>,
    n: nat,
)
    requires
        sanitizer::wf(sanitizer::start(nodes, replace, roots)),
        sanitizer::steps(sanitizer::start(nodes, replace, roots), n).work.len() == 0,
        3 * nodes.len() <= usize::MAX,
    ensures
        ({
            let end = sanitizer::steps(sanitizer::start(nodes, replace, roots), n);
            &&& forall|i: int|
                0 <= i < roots.len() ==> end.visited[(#[trigger] roots[i]) as int]
            &&& forall|i: int|
                0 <= i < end.nodes.len() && end.visited[i] ==> is_settled(#[trigger] end.nodes[i])
            &&& forall|i: int, j: int|
                0 <= i < end.nodes.len() && end.visited[i] && 0 <= j < end.nodes[i].operands.len()
                    ==> is_operand_done(end, #[trigger] end.nodes[i].operands[j])
            &&& forall|i: int, j: int|
                0 <= i < end.nodes.len() && end.visited[i] && 0 <= j < end.nodes[i].items.len()
                    ==> end.visited[(#[trigger] end.nodes[i].items[j]) as int]
            &&& forall|i: int|
                0 <= i < nodes.len() && !end.visited[i] ==> #[trigger] end.nodes[i] == nodes[i]
        }),
{
    let init = sanitizer::start(nodes, replace, roots);
    let end = sanitizer::steps(init, n);
    let items = roots.map_values(|id: usize| Item::Value(id));
    assert forall|k: int| 0 <= k < init.work.len() implies (#[trigger] init.work[k]) is Value by {
        assert(init.work[k] == items[items.len() - 1 - k]);
    }
    sanitizer::lemma_pending_bound(nodes, init.visited, nodes.len());
    lemma_steps_keep_invariant(init, n);
    assert forall|i: int| 0 <= i < roots.len() implies end.visited[(
    #[trigger] roots[i]) as int] by {
        assert(init.work[items.len() - 1 - i] == Item::Value(roots[i]));
        lemma_roots_reached(init, n, roots[i]);
    }
    assert forall|i: int, j: int|
        0 <= i < end.nodes.len() && end.visited[i] && 0 <= j
            < end.nodes[i].operands.len() implies is_operand_done(
        end,
        #[trigger] end.nodes[i].operands[j],
    ) by {
        assert(!is_operand_listed(end, i, j));
    }
    assert forall|i: int, j: int|
        0 <= i < end.nodes.len() && end.visited[i] && 0 <= j
            < end.nodes[i].items.len() implies end.visited[(
    #[trigger] end.nodes[i].items[j]) as int] by {
        let item = end.nodes[i].items[j];
        assert(!end.work.contains(Item::Value(item)));
    }
}

} // verus!
