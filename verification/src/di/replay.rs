//! What the changes of a walk amount to.
use vstd::prelude::*;

use crate::di::edit;
use crate::di::fields;
use crate::di::graph::{NodeKind, NodeModel};
use crate::di::sanitizer;
use crate::di::sanitizer::{EditModel, Item, SanitizerModel};

verus! {

/// A graph after a list of changes, made one after the other.
pub open spec fn replay(nodes: Seq<NodeModel>, edits: Seq<EditModel>) -> Seq<NodeModel>
    decreases edits.len(),
{
    if edits.len() == 0 {
        nodes
    } else {
        let before = replay(nodes, edits.drop_last());
        match edits.last() {
            EditModel::Node { node, edit } => edit::apply_edit(before, node, edit),
            EditModel::Operand { parent, index, node } => before.update(
                parent as int,
                NodeModel {
                    operands: before[parent as int].operands.update(index as int, Some(node)),
                    ..before[parent as int]
                },
            ),
        }
    }
}

/// The names that a list of changes reports, in their order.
pub open spec fn reported(edits: Seq<EditModel>) -> Seq<Seq<char>>
    decreases edits.len(),
{
    if edits.len() == 0 {
        Seq::empty()
    } else {
        let before = reported(edits.drop_last());
        match edits.last() {
            EditModel::Node { edit, .. } => if edit.skipped is Some {
                before.push(edit.skipped->Some_0)
            } else {
                before
            },
            _ => before,
        }
    }
}

/// What a node has become once it was visited: it keeps its kind, what belongs to it,
/// and the number of its operands. The name of a structure, union or function is made
/// valid, or the structure or union has become anonymous; a pointer has no name; any
/// other node keeps its own.
pub open spec fn has_become(before: NodeModel, after: NodeModel) -> bool {
    &&& after.kind == before.kind
    &&& after.items == before.items
    &&& after.operands.len() == before.operands.len()
    &&& match before.kind {
        NodeKind::Composite { tag, flags } => if (tag == 0x13 || tag == 0x17) && flags != 4 {
            after.name == Some(Seq::<u8>::empty()) || after.name == fields::valid_name(before)
        } else {
            after.name == before.name
        },
        NodeKind::Derived { tag, .. } => if tag == 0x0f {
            after.name == Some(Seq::<u8>::empty())
        } else {
            after.name == before.name
        },
        NodeKind::Subprogram => after.name == fields::valid_name(before),
        NodeKind::Other => after.name == before.name,
    }
}

spec fn edited(edit: EditModel) -> Option<usize> {
    match edit {
        EditModel::Node { node, .. } => Some(node),
        _ => None,
    }
}

spec fn is_kept(init: SanitizerModel, state: SanitizerModel) -> bool {
    &&& state.replace == init.replace
    &&& init.nodes.len() <= state.nodes.len()
    &&& replay(init.nodes, state.edits) == state.nodes
    &&& reported(state.edits) == state.skipped
    &&& forall|i: int|
        0 <= i < init.nodes.len() ==> (if state.visited[i] {
            has_become(init.nodes[i], #[trigger] state.nodes[i])
        } else {
            state.nodes[i] == init.nodes[i]
        })
    &&& forall|a: int|
        0 <= a < state.edits.len() ==> match #[trigger] state.edits[a] {
            EditModel::Node { node, .. } => node < state.visited.len()
                && state.visited[node as int],
            EditModel::Operand { parent, node, .. } => exists|from: int|
                0 <= from < state.replace.len() && #[trigger] state.replace[from] == Some(node),
        }
    &&& forall|a: int, b: int|
        0 <= a < b < state.edits.len() ==> (edited(#[trigger] state.edits[a]) is None || edited(
            state.edits[a],
        ) != edited(#[trigger] state.edits[b]))
    &&& forall|k: int|
        0 <= k < state.work.len() ==> (#[trigger] state.work[k] matches Item::Operand {
            parent,
            ..
        } ==> parent < state.visited.len() && state.visited[parent as int])
}

proof fn lemma_popped(init: SanitizerModel, state: SanitizerModel)
    requires
        sanitizer::wf(state),
        is_kept(init, state),
        state.work.len() > 0,
    ensures
        ({
            let popped = SanitizerModel { work: state.work.drop_last(), ..state };
            &&& sanitizer::replace_operand(popped, state.work.last()).visited == state.visited
            &&& sanitizer::replace_operand(popped, state.work.last()).nodes.len()
                == state.nodes.len()
            &&& is_kept(init, popped)
            &&& is_kept(init, sanitizer::replace_operand(popped, state.work.last()))
        }),
{
    let item = state.work.last();
    assert(item == state.work[state.work.len() - 1]);
    assert(sanitizer::item_in_range(state.nodes, item));
    let popped = SanitizerModel { work: state.work.drop_last(), ..state };
    assert forall|k: int| 0 <= k < popped.work.len() implies (#[trigger] popped.work[k] matches Item::Operand {
        parent,
        ..
    } ==> parent < popped.visited.len() && popped.visited[parent as int]) by {
        assert(popped.work[k] == state.work[k]);
    }
    assert(is_kept(init, popped));
    let next = sanitizer::replace_operand(popped, item);
    if next.edits != popped.edits {
        assert(next.edits.drop_last() =~= popped.edits);
        let new = next.edits.last()->Operand_node;
        let value = sanitizer::item_value(item)->Some_0;
        assert(state.replace[value as int] == Some(new));
        assert forall|a: int| 0 <= a < next.edits.len() implies match #[trigger] next.edits[a] {
            EditModel::Node { node, .. } => node < next.visited.len() && next.visited[node as int],
            EditModel::Operand { parent, node, .. } => exists|from: int|
                0 <= from < next.replace.len() && #[trigger] next.replace[from] == Some(node),
        } by {
            if a < popped.edits.len() {
                assert(next.edits[a] == popped.edits[a]);
            } else {
                assert(next.replace[value as int] == Some(new));
            }
        }
        assert forall|a: int, b: int| 0 <= a < b < next.edits.len() implies (edited(
            #[trigger] next.edits[a],
        ) is None || edited(next.edits[a]) != edited(#[trigger] next.edits[b])) by {
            assert(next.edits[a] == popped.edits[a]);
            if b < popped.edits.len() {
                assert(next.edits[b] == popped.edits[b]);
            }
        }
        assert forall|i: int| 0 <= i < init.nodes.len() implies (if next.visited[i] {
            has_become(init.nodes[i], #[trigger] next.nodes[i])
        } else {
            next.nodes[i] == init.nodes[i]
        }) by {
            assert(if popped.visited[i] {
                has_become(init.nodes[i], popped.nodes[i])
            } else {
                popped.nodes[i] == init.nodes[i]
            });
        }
    }
}

proof fn lemma_entered(init: SanitizerModel, state: SanitizerModel, id: usize)
    requires
        is_kept(init, state),
        state.visited.len() == state.nodes.len(),
        id < state.nodes.len(),
        !state.visited[id as int],
    ensures
        is_kept(init, sanitizer::enter_node(state, id)),
{
    let change = edit::node_edit(state.nodes, id);
    let next = sanitizer::enter_node(state, id);
    let node = state.nodes[id as int];
    if change == edit::no_edit() {
        assert(next.nodes =~= state.nodes);
    } else {
        assert(next.edits.drop_last() =~= state.edits);
    }
    assert forall|i: int| 0 <= i < init.nodes.len() implies (if next.visited[i] {
        has_become(init.nodes[i], #[trigger] next.nodes[i])
    } else {
        next.nodes[i] == init.nodes[i]
    }) by {
        assert(if state.visited[i] {
            has_become(init.nodes[i], state.nodes[i])
        } else {
            state.nodes[i] == init.nodes[i]
        });
    }
    assert forall|a: int| 0 <= a < next.edits.len() implies match #[trigger] next.edits[a] {
        EditModel::Node { node, .. } => node < next.visited.len() && next.visited[node as int],
        EditModel::Operand { parent, node, .. } => exists|from: int|
            0 <= from < next.replace.len() && #[trigger] next.replace[from] == Some(node),
    } by {
        if a < state.edits.len() {
            assert(next.edits[a] == state.edits[a]);
            match state.edits[a] {
                EditModel::Node { node, .. } => {
                    assert(state.visited[node as int]);
                },
                EditModel::Operand { node, .. } => {
                    let from = choose|from: int|
                        0 <= from < state.replace.len() && #[trigger] state.replace[from] == Some(
                            node,
                        );
                    assert(next.replace[from] == Some(node));
                },
            }
        } else {
            assert(next.edits[a] == (EditModel::Node { node: id, edit: change }));
            assert(next.visited[id as int]);
        }
    }
    assert forall|a: int, b: int| 0 <= a < b < next.edits.len() implies (edited(
        #[trigger] next.edits[a],
    ) is None || edited(next.edits[a]) != edited(#[trigger] next.edits[b])) by {
        assert(next.edits[a] == state.edits[a]);
        if b < state.edits.len() {
            assert(next.edits[b] == state.edits[b]);
        }
    }
    let below = sanitizer::children(next.nodes[id as int], id);
    assert forall|k: int| 0 <= k < next.work.len() implies (#[trigger] next.work[k] matches Item::Operand {
        parent,
        ..
    } ==> parent < next.visited.len() && next.visited[parent as int]) by {
        if k < state.work.len() {
            assert(next.work[k] == state.work[k]);
        } else {
            assert(next.work[k] == below[below.len() - 1 - (k - state.work.len())]);
        }
    }
}

proof fn lemma_steps(init: SanitizerModel, n: nat)
    requires
        sanitizer::wf(init),
        init.edits.len() == 0,
        init.skipped.len() == 0,
        forall|i: int| 0 <= i < init.visited.len() ==> !init.visited[i],
        forall|k: int| 0 <= k < init.work.len() ==> (#[trigger] init.work[k]) is Value,
        init.nodes.len() + sanitizer::work_left(init) <= usize::MAX,
    ensures
        sanitizer::wf(sanitizer::steps(init, n)),
        is_kept(init, sanitizer::steps(init, n)),
        sanitizer::steps(init, n).nodes.len() + sanitizer::work_left(sanitizer::steps(init, n))
            <= usize::MAX,
    decreases n,
{
    if n == 0 {
        assert(reported(init.edits) =~= init.skipped);
    } else {
        let before = sanitizer::steps(init, (n - 1) as nat);
        lemma_steps(init, (n - 1) as nat);
        if before.work.len() > 0 {
            sanitizer::lemma_step_progress(before);
            lemma_popped(init, before);
            let item = before.work.last();
            assert(item == before.work[before.work.len() - 1]);
            assert(sanitizer::item_in_range(before.nodes, item));
            let popped = SanitizerModel { work: before.work.drop_last(), ..before };
            if let Some(id) = sanitizer::item_value(item) {
                let replaced = sanitizer::replace_operand(popped, item);
                if !replaced.visited[id as int] {
                    lemma_entered(init, replaced, id);
                }
            }
        }
        sanitizer::lemma_step_keeps_wf(before);
    }
}

proof fn lemma_start(nodes: Seq<NodeModel>, replace: Seq<Option<usize>>, roots: Seq<usize>)
    requires
        3 * nodes.len() <= usize::MAX,
    ensures
        ({
            let init = sanitizer::start(nodes, replace, roots);
            &&& forall|k: int| 0 <= k < init.work.len() ==> (#[trigger] init.work[k]) is Value
            &&& init.nodes.len() + sanitizer::work_left(init) <= usize::MAX
        }),
{
    let init = sanitizer::start(nodes, replace, roots);
    let items = roots.map_values(|id: usize| Item::Value(id));
    assert forall|k: int| 0 <= k < init.work.len() implies (#[trigger] init.work[k]) is Value by {
        assert(init.work[k] == items[items.len() - 1 - k]);
    }
    sanitizer::lemma_pending_bound(nodes, init.visited, nodes.len());
}

/// The changes that a walk lists, made one after the other, turn the graph that it
/// started from into the one that it ends with. The names that it reports are those of
/// the changes, in their order. No node is changed twice, and an operand only becomes
/// what stands for another node.
pub proof fn changes_replay_to_the_end(
    nodes: Seq<NodeModel>,
    replace: Seq<Option<usize>>,
    roots: Seq<usize>,
    n: nat,
)
    requires
        sanitizer::wf(sanitizer::start(nodes, replace, roots)),
        3 * nodes.len() <= usize::MAX,
    ensures
        ({
            let state = sanitizer::steps(sanitizer::start(nodes, replace, roots), n);
            &&& replay(nodes, state.edits) == state.nodes
            &&& reported(state.edits) == state.skipped
            &&& forall|a: int, b: int|
                0 <= a < b < state.edits.len() && #[trigger] state.edits[a] is Node
                    && #[trigger] state.edits[b] is Node ==> state.edits[a]->Node_node
                    != state.edits[b]->Node_node
            &&& forall|a: int|
                0 <= a < state.edits.len() ==> (#[trigger] state.edits[a] matches EditModel::Operand {
                    node,
                    ..
                } ==> replace.contains(Some(node)))
        }),
{
    let init = sanitizer::start(nodes, replace, roots);
    let state = sanitizer::steps(init, n);
    lemma_start(nodes, replace, roots);
    lemma_steps(init, n);
    assert forall|a: int, b: int|
        0 <= a < b < state.edits.len() && #[trigger] state.edits[a] is Node
            && #[trigger] state.edits[b] is Node implies state.edits[a]->Node_node
        != state.edits[b]->Node_node by {
        assert(edited(state.edits[a]) != edited(state.edits[b]));
    }
}

/// A node that a walk visits keeps its kind and what belongs to it. The names of
/// structures, unions and functions are made valid, or a structure or union becomes
/// anonymous; pointers lose their names; any other node keeps its own. A node that is
/// not visited is left as it is.
pub proof fn visited_nodes_keep_what_they_are(
    nodes: Seq<NodeModel>,
    replace: Seq<Option<usize>>,
    roots: Seq<usize>,
    n: nat,
    i: int,
)
    requires
        sanitizer::wf(sanitizer::start(nodes, replace, roots)),
        3 * nodes.len() <= usize::MAX,
        0 <= i < nodes.len(),
    ensures
        ({
            let state = sanitizer::steps(sanitizer::start(nodes, replace, roots), n);
            if state.visited[i] {
                has_become(nodes[i], state.nodes[i])
            } else {
                state.nodes[i] == nodes[i]
            }
        }),
{
    let init = sanitizer::start(nodes, replace, roots);
    lemma_start(nodes, replace, roots);
    lemma_steps(init, n);
    assert(if sanitizer::steps(init, n).visited[i] {
        has_become(init.nodes[i], sanitizer::steps(init, n).nodes[i])
    } else {
        sanitizer::steps(init, n).nodes[i] == init.nodes[i]
    });
}

/// A node that is met for the first time is changed, and what it leads to is met next:
/// its operands in their order, then what else belongs to it, and only then what was
/// waiting already.
pub proof fn new_node_is_followed_at_once(state: SanitizerModel, id: usize)
    requires
        sanitizer::wf(state),
        state.work.len() > 0,
        match state.work.last() {
            Item::Value(v) => v == id,
            Item::Operand { value, .. } => value == Some(id) && (id >= state.replace.len()
                || state.replace[id as int] is None),
        },
        !state.visited[id as int],
    ensures
        ({
            let next = sanitizer::step(state);
            let change = edit::node_edit(state.nodes, id);
            let node = next.nodes[id as int];
            let operands = node.operands.len();
            let all = operands + node.items.len();
            &&& next.nodes == edit::apply_edit(state.nodes, id, change)
            &&& next.visited[id as int]
            &&& next.work.len() == state.work.len() - 1 + all
            &&& forall|k: int|
                0 <= k < state.work.len() - 1 ==> #[trigger] next.work[k] == state.work[k]
            &&& forall|k: int|
                0 <= k < operands ==> next.work[next.work.len() - 1 - k] == (Item::Operand {
                    parent: id,
                    index: k as usize,
                    value: #[trigger] node.operands[k],
                })
            &&& forall|k: int|
                0 <= k < node.items.len() ==> next.work[next.work.len() - 1 - operands - k]
                    == Item::Value(#[trigger] node.items[k])
        }),
{
    let next = sanitizer::step(state);
    assert(state.work.last() == state.work[state.work.len() - 1]);
    assert(sanitizer::item_in_range(state.nodes, state.work.last()));
    let rest = state.work.drop_last();
    let node = next.nodes[id as int];
    let below = sanitizer::children(node, id);
    assert(next.work =~= rest + below.reverse());
    assert forall|k: int| 0 <= k < below.len() implies next.work[next.work.len() - 1 - k]
        == #[trigger] below[k] by {
        assert(below.reverse()[below.len() - 1 - k] == below[k]);
    }
    assert forall|k: int| 0 <= k < node.operands.len() implies next.work[next.work.len() - 1 - k]
        == (Item::Operand {
        parent: id,
        index: k as usize,
        value: #[trigger] node.operands[k],
    }) by {
        assert(next.work[next.work.len() - 1 - k] == below[k]);
    }
    assert forall|k: int| 0 <= k < node.items.len() implies next.work[next.work.len() - 1
        - node.operands.len() - k] == Item::Value(#[trigger] node.items[k]) by {
        let j = node.operands.len() + k;
        assert(next.work[next.work.len() - 1 - j] == below[j]);
    }
}

/// An operand that has something to stand for it is replaced, whether or not it was met
/// before, and is itself met all the same.
pub proof fn operand_is_replaced(
    state: SanitizerModel,
    parent: usize,
    index: usize,
    value: usize,
    new: usize,
)
    requires
        sanitizer::wf(state),
        state.work.len() > 0,
        state.work.last() == (Item::Operand { parent, index, value: Some(value) }),
        value < state.replace.len(),
        state.replace[value as int] == Some(new),
        parent != value || state.visited[value as int],
    ensures
        ({
            let next = sanitizer::step(state);
            &&& next.nodes[parent as int].operands[index as int] == Some(new)
            &&& next.visited[value as int]
            &&& next.edits.len() > state.edits.len()
            &&& next.edits[state.edits.len() as int] == (EditModel::Operand {
                parent,
                index,
                node: new,
            })
        }),
{
    assert(state.work.last() == state.work[state.work.len() - 1]);
    assert(sanitizer::item_in_range(state.nodes, state.work.last()));
}

/// An operand that is not set, and a node that was met before and for which nothing stands,
/// change nothing.
pub proof fn known_node_is_passed_over(state: SanitizerModel)
    requires
        sanitizer::wf(state),
        state.work.len() > 0,
        match state.work.last() {
            Item::Value(v) => state.visited[v as int],
            Item::Operand { value: None, .. } => true,
            Item::Operand { value: Some(v), .. } => state.visited[v as int] && (v
                >= state.replace.len() || state.replace[v as int] is None),
        },
    ensures
        sanitizer::step(state) == (SanitizerModel {
            work: state.work.take(state.work.len() - 1),
            ..state
        }),
{
    assert(state.work.drop_last() =~= state.work.take(state.work.len() - 1));
}

/// The outcome of a walk is all that it has come to when nothing is left to be met: the graph,
/// every change and every name that is reported.
pub proof fn outcome_is_the_end_of_the_walk(
    state: SanitizerModel,
    n: nat,
    outcome: sanitizer::Sanitized,
)
    requires
        sanitizer::ends_with(state, n, outcome),
    ensures
        ({
            let end = sanitizer::steps(state, n);
            &&& end.work.len() == 0
            &&& outcome.nodes@.len() == end.nodes.len()
            &&& forall|i: int|
                0 <= i < end.nodes.len() ==> (#[trigger] outcome.nodes@[i])@ == end.nodes[i]
            &&& outcome.edits@.len() == end.edits.len()
            &&& forall|i: int|
                0 <= i < end.edits.len() ==> (#[trigger] outcome.edits@[i])@ == end.edits[i]
            &&& outcome.skipped@.len() == end.skipped.len()
            &&& forall|i: int|
                0 <= i < end.skipped.len() ==> (#[trigger] outcome.skipped@[i])@ == end.skipped[i]
        }),
{
    let end = sanitizer::steps(state, n);
    let edits = outcome.edits@.map_values(|e: sanitizer::Edit| e@);
    let skipped = outcome.skipped@.map_values(|s: String| s@);
    assert(crate::di::graph::models(outcome.nodes@) == end.nodes);
    assert forall|i: int| 0 <= i < end.nodes.len() implies (#[trigger] outcome.nodes@[i])@
        == end.nodes[i] by {
        assert(crate::di::graph::models(outcome.nodes@)[i] == outcome.nodes@[i]@);
    }
    assert forall|i: int| 0 <= i < end.edits.len() implies (#[trigger] outcome.edits@[i])@
        == end.edits[i] by {
        assert(edits[i] == outcome.edits@[i]@);
    }
    assert forall|i: int| 0 <= i < end.skipped.len() implies (#[trigger] outcome.skipped@[i])@
        == end.skipped[i] by {
        assert(skipped[i] == outcome.skipped@[i]@);
    }
}

/// Apart from its being replaced, an operand is met like any other node: the step is that of
/// the walk in which it is replaced already and the node waits on its own.
pub proof fn replaced_operand_is_met_like_any_node(
    state: SanitizerModel,
    parent: usize,
    index: usize,
    value: usize,
    new: usize,
)
    requires
        sanitizer::wf(state),
        state.work.len() > 0,
        state.work.last() == (Item::Operand { parent, index, value: Some(value) }),
        value < state.replace.len(),
        state.replace[value as int] == Some(new),
    ensures
        ({
            let node = state.nodes[parent as int];
            let replaced = SanitizerModel {
                nodes: state.nodes.update(
                    parent as int,
                    NodeModel { operands: node.operands.update(index as int, Some(new)), ..node },
                ),
                edits: state.edits.push(EditModel::Operand { parent, index, node: new }),
                work: state.work.update(state.work.len() - 1, Item::Value(value)),
                ..state
            };
            sanitizer::step(state) == sanitizer::step(replaced)
        }),
{
    let work = state.work.update(state.work.len() - 1, Item::Value(value));
    assert(work.drop_last() =~= state.work.drop_last());
    assert(work.last() == Item::Value(value));
}

} // verus!
