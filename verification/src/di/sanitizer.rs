//! The walk over all debug information of a module.
use vstd::prelude::*;

use crate::bytes;
use crate::di::edit;
use crate::di::edit::{visit_mdnode, NodeEdit, NodeEditModel};
use crate::di::graph;
use crate::di::graph::{Node, NodeKind, NodeModel, ELEMENTS_OPERAND};

verus! {

/// A value that is still to be visited: an operand of a node, or a value of its
/// own.
#[derive(Clone, Copy, Debug, PartialEq, Eq, Structural)]
pub enum Item {
    Operand { parent: usize, index: usize, value: Option<usize> },
    Value(usize),
}

/// A change to the module.
pub enum Edit {
    Node { node: usize, edit: NodeEdit },
    Operand { parent: usize, index: usize, node: usize },
}

/// The mathematical content of an `Edit`.
pub enum EditModel {
    Node { node: usize, edit: NodeEditModel },
    Operand { parent: usize, index: usize, node: usize },
}

impl View for Edit {
    type V = EditModel;

    open spec fn view(&self) -> EditModel {
        match *self {
            Edit::Node { node, edit } => EditModel::Node { node, edit: edit@ },
            Edit::Operand { parent, index, node } => EditModel::Operand { parent, index, node },
        }
    }
}

/// The state of the walk.
pub struct DISanitizer {
    nodes: Vec<Node>,
    visited: Vec<bool>,
    replace: Vec<Option<usize>>,
    work: Vec<Item>,
    edits: Vec<Edit>,
    skipped: Vec<String>,
}

/// The mathematical content of a `DISanitizer`: the graph, which nodes have been
/// visited, the replacement of each node that is to be replaced as an operand,
/// the values still to be visited with the next one last, the changes made so
/// far, and the types whose debug information was left out.
#[verifier::ext_equal]
pub struct SanitizerModel {
    pub nodes: Seq<NodeModel>,
    pub visited: Seq<bool>,
    pub replace: Seq<Option<usize>>,
    pub work: Seq<Item>,
    pub edits: Seq<EditModel>,
    pub skipped: Seq<Seq<char>>,
}

impl View for DISanitizer {
    type V = SanitizerModel;

    closed spec fn view(&self) -> SanitizerModel {
        SanitizerModel {
            nodes: graph::models(self.nodes@),
            visited: self.visited@,
            replace: self.replace@,
            work: self.work@,
            edits: self.edits@.map_values(|e: Edit| e@),
            skipped: self.skipped@.map_values(|s: String| s@),
        }
    }
}

/// Whether an item refers to what is in the graph.
pub open spec fn item_in_range(nodes: Seq<NodeModel>, item: Item) -> bool {
    match item {
        Item::Operand { parent, index, value } => parent < nodes.len() && index
            < nodes[parent as int].operands.len() && graph::in_range(value, nodes.len()),
        Item::Value(id) => id < nodes.len(),
    }
}

/// Every reference of a walk leads to a node.
pub open spec fn wf(state: SanitizerModel) -> bool {
    &&& graph::closed_graph(state.nodes)
    &&& state.visited.len() == state.nodes.len()
    &&& forall|i: int|
        0 <= i < state.replace.len() ==> graph::in_range(
            #[trigger] state.replace[i],
            state.nodes.len(),
        )
    &&& forall|i: int|
        0 <= i < state.work.len() ==> item_in_range(state.nodes, #[trigger] state.work[i])
}

/// What stands for a node where it is an operand.
pub open spec fn replacement(replace: Seq<Option<usize>>, id: usize) -> Option<usize> {
    if id < replace.len() {
        replace[id as int]
    } else {
        None
    }
}

/// The value of an item.
pub open spec fn item_value(item: Item) -> Option<usize> {
    match item {
        Item::Operand { value, .. } => value,
        Item::Value(id) => Some(id),
    }
}

/// What a node leads to: its operands, and what else belongs to it.
pub open spec fn children(node: NodeModel, id: usize) -> Seq<Item> {
    Seq::new(
        node.operands.len() + node.items.len(),
        |i: int|
            if i < node.operands.len() {
                Item::Operand { parent: id, index: i as usize, value: node.operands[i] }
            } else {
                Item::Value(node.items[i - node.operands.len()])
            },
    )
}

/// Replaces an operand whose value has a replacement. This happens whether or
/// not the value has been visited: it can be an operand of many nodes.
pub open spec fn replace_operand(state: SanitizerModel, item: Item) -> SanitizerModel {
    match item {
        Item::Operand { parent, index, value: Some(value) } => match replacement(
            state.replace,
            value,
        ) {
            Some(new) => {
                let node = state.nodes[parent as int];
                SanitizerModel {
                    nodes: state.nodes.update(
                        parent as int,
                        NodeModel {
                            operands: node.operands.update(index as int, Some(new)),
                            ..node
                        },
                    ),
                    edits: state.edits.push(EditModel::Operand { parent, index, node: new }),
                    ..state
                }
            },
            None => state,
        },
        _ => state,
    }
}

/// Visits a node for the first time: edits it and puts what it leads to on the
/// list, so that it is visited next and in order.
pub open spec fn enter_node(state: SanitizerModel, id: usize) -> SanitizerModel {
    let change = edit::node_edit(state.nodes, id);
    let nodes = edit::apply_edit(state.nodes, id, change);
    let seen = state.visited.update(id as int, true);
    SanitizerModel {
        nodes,
        visited: if change.elements is Some {
            seen.push(false)
        } else {
            seen
        },
        replace: state.replace,
        work: state.work + children(nodes[id as int], id).reverse(),
        edits: if change == edit::no_edit() {
            state.edits
        } else {
            state.edits.push(EditModel::Node { node: id, edit: change })
        },
        skipped: match change.skipped {
            Some(name) => state.skipped.push(name),
            None => state.skipped,
        },
    }
}

/// Takes the next item off the list and visits it.
pub open spec fn step(state: SanitizerModel) -> SanitizerModel {
    if state.work.len() == 0 {
        state
    } else {
        let item = state.work.last();
        let popped = SanitizerModel { work: state.work.drop_last(), ..state };
        match item_value(item) {
            None => popped,
            Some(id) => {
                let replaced = replace_operand(popped, item);
                if replaced.visited[id as int] {
                    replaced
                } else {
                    enter_node(replaced, id)
                }
            },
        }
    }
}

/// The state after `n` steps.
pub open spec fn steps(state: SanitizerModel, n: nat) -> SanitizerModel
    decreases n,
{
    if n == 0 {
        state
    } else {
        step(steps(state, (n - 1) as nat))
    }
}

/// The state in which a walk from `roots` begins.
pub open spec fn start(
    nodes: Seq<NodeModel>,
    replace: Seq<Option<usize>>,
    roots: Seq<usize>,
) -> SanitizerModel {
    SanitizerModel {
        nodes,
        visited: Seq::new(nodes.len(), |i: int| false),
        replace,
        work: roots.map_values(|id: usize| Item::Value(id)).reverse(),
        edits: Seq::empty(),
        skipped: Seq::empty(),
    }
}

/// A state whose list holds `roots`, the first to be visited first.
pub open spec fn with_roots(state: SanitizerModel, roots: Seq<usize>) -> SanitizerModel {
    SanitizerModel { work: start(state.nodes, state.replace, roots).work, ..state }
}

/// A step keeps every reference inside the graph.
pub proof fn lemma_step_keeps_wf(state: SanitizerModel)
    requires
        wf(state),
        step(state).nodes.len() <= usize::MAX,
    ensures
        wf(step(state)),
{
    if state.work.len() > 0 {
        let item = state.work.last();
        assert(item_in_range(state.nodes, item));
        let popped = SanitizerModel { work: state.work.drop_last(), ..state };
        lemma_pop_keeps_wf(state);
        if item_value(item) is Some {
            let id = item_value(item)->Some_0;
            lemma_replace_keeps_wf(popped, item);
            let replaced = replace_operand(popped, item);
            if !replaced.visited[id as int] {
                lemma_enter_keeps_wf(replaced, id);
            }
        }
    }
}

proof fn lemma_pop_keeps_wf(state: SanitizerModel)
    requires
        wf(state),
        state.work.len() > 0,
    ensures
        wf(SanitizerModel { work: state.work.drop_last(), ..state }),
{
    let work = state.work.drop_last();
    assert forall|i: int| 0 <= i < work.len() implies item_in_range(
        state.nodes,
        #[trigger] work[i],
    ) by {
        assert(work[i] == state.work[i]);
    }
}

proof fn lemma_replace_keeps_wf(state: SanitizerModel, item: Item)
    requires
        wf(state),
        item_in_range(state.nodes, item),
    ensures
        wf(replace_operand(state, item)),
        replace_operand(state, item).nodes.len() == state.nodes.len(),
{
    let out = replace_operand(state, item);
    if let Item::Operand { parent, index, value: Some(value) } = item {
        if let Some(new) = replacement(state.replace, value) {
            assert(graph::in_range(state.replace[value as int], state.nodes.len()));
            assert forall|i: int| 0 <= i < out.nodes.len() implies graph::node_in_range(
                #[trigger] out.nodes[i],
                out.nodes.len(),
            ) by {
                assert(graph::node_in_range(state.nodes[i], state.nodes.len()));
                if i == parent {
                    let node = out.nodes[i];
                    assert forall|j: int| 0 <= j < node.operands.len() implies graph::in_range(
                        #[trigger] node.operands[j],
                        out.nodes.len(),
                    ) by {
                        if j != index {
                            assert(node.operands[j] == state.nodes[i].operands[j]);
                        }
                    }
                }
            }
            assert forall|i: int| 0 <= i < out.work.len() implies item_in_range(
                out.nodes,
                #[trigger] out.work[i],
            ) by {
                assert(item_in_range(state.nodes, state.work[i]));
            }
        }
    }
}

/// What an edit of a node may rely on: new elements are members of the graph,
/// and only a node with an elements operand gets some.
proof fn lemma_edit_in_range(nodes: Seq<NodeModel>, id: usize)
    requires
        graph::closed_graph(nodes),
        id < nodes.len(),
    ensures
        edit::node_edit(nodes, id).elements is Some ==> nodes[id as int].operands.len()
            > ELEMENTS_OPERAND,
        edit::node_edit(nodes, id).elements is Some ==> forall|i: int|
            0 <= i < edit::node_edit(nodes, id).elements->Some_0.len()
                ==> #[trigger] edit::node_edit(nodes, id).elements->Some_0[i] < nodes.len(),
        edit::node_edit(nodes, id).elements is Some ==> edit::node_edit(
            nodes,
            id,
        ).elements->Some_0.len() <= usize::MAX,
{
    let node = nodes[id as int];
    assert(graph::node_in_range(node, nodes.len()));
    if edit::is_structure(node.kind) {
        edit::lemma_structure_edit_in_range(nodes, node);
    }
}

proof fn lemma_enter_keeps_wf(state: SanitizerModel, id: usize)
    requires
        wf(state),
        id < state.nodes.len(),
        enter_node(state, id).nodes.len() <= usize::MAX,
    ensures
        wf(enter_node(state, id)),
{
    let out = enter_node(state, id);
    let change = edit::node_edit(state.nodes, id);
    lemma_edit_in_range(state.nodes, id);
    let node = state.nodes[id as int];
    assert(graph::node_in_range(node, state.nodes.len()));
    assert forall|i: int| 0 <= i < out.nodes.len() implies graph::node_in_range(
        #[trigger] out.nodes[i],
        out.nodes.len(),
    ) by {
        if i < state.nodes.len() {
            assert(graph::node_in_range(state.nodes[i], state.nodes.len()));
            let new = out.nodes[i];
            assert forall|j: int| 0 <= j < new.operands.len() implies graph::in_range(
                #[trigger] new.operands[j],
                out.nodes.len(),
            ) by {
                assert(graph::in_range(state.nodes[i].operands[j], state.nodes.len()));
            }
        } else {
            let members = change.elements->Some_0;
            let tuple = edit::tuple_node(members);
            assert(out.nodes[i] == tuple);
            assert forall|j: int| 0 <= j < tuple.operands.len() implies graph::in_range(
                #[trigger] tuple.operands[j],
                out.nodes.len(),
            ) by {
                assert(tuple.operands[j] == Some(members[j]));
            }
        }
    }
    let new = out.nodes[id as int];
    assert(graph::node_in_range(new, out.nodes.len()));
    let below = children(new, id).reverse();
    assert forall|i: int| 0 <= i < out.work.len() implies item_in_range(
        out.nodes,
        #[trigger] out.work[i],
    ) by {
        if i < state.work.len() {
            assert(out.work[i] == state.work[i]);
            assert(item_in_range(state.nodes, state.work[i]));
        } else {
            let j = below.len() - 1 - (i - state.work.len());
            assert(out.work[i] == children(new, id)[j]);
            if j < new.operands.len() {
                assert(graph::in_range(new.operands[j], out.nodes.len()));
            } else {
                assert(new.items[j - new.operands.len()] < out.nodes.len());
            }
        }
    }
    assert forall|i: int| 0 <= i < out.replace.len() implies graph::in_range(
        #[trigger] out.replace[i],
        out.nodes.len(),
    ) by {
        assert(graph::in_range(state.replace[i], state.nodes.len()));
    }
}

/// How much is left to do at most: a structure that has not been visited can
/// still add a tuple to the graph.
pub open spec fn pending(nodes: Seq<NodeModel>, visited: Seq<bool>, n: nat) -> nat
    decreases n,
{
    if n == 0 {
        0
    } else {
        pending(nodes, visited, (n - 1) as nat) + (if visited[n - 1] {
            0nat
        } else {
            node_weight(nodes[n - 1].kind)
        })
    }
}

pub open spec fn node_weight(kind: NodeKind) -> nat {
    if kind is Composite {
        2
    } else {
        1
    }
}

proof fn lemma_pending_same(
    nodes: Seq<NodeModel>,
    visited: Seq<bool>,
    nodes2: Seq<NodeModel>,
    visited2: Seq<bool>,
    n: nat,
)
    requires
        forall|i: int|
            0 <= i < n ==> #[trigger] nodes[i].kind == nodes2[i].kind && visited[i] == visited2[i],
    ensures
        pending(nodes, visited, n) == pending(nodes2, visited2, n),
    decreases n,
{
    if n > 0 {
        lemma_pending_same(nodes, visited, nodes2, visited2, (n - 1) as nat);
        assert(nodes[n - 1].kind == nodes2[n - 1].kind);
    }
}

proof fn lemma_pending_visit(nodes: Seq<NodeModel>, visited: Seq<bool>, id: int, n: nat)
    requires
        0 <= id < n <= visited.len(),
        !visited[id],
    ensures
        pending(nodes, visited.update(id, true), n) + node_weight(nodes[id].kind) == pending(
            nodes,
            visited,
            n,
        ),
    decreases n,
{
    if id == n - 1 {
        lemma_pending_same(nodes, visited, nodes, visited.update(id, true), (n - 1) as nat);
    } else {
        lemma_pending_visit(nodes, visited, id, (n - 1) as nat);
    }
}

/// How much is left to do at most in a state.
pub open spec fn work_left(state: SanitizerModel) -> nat {
    pending(state.nodes, state.visited, state.nodes.len())
}

/// No node counts for more than two.
pub proof fn lemma_pending_bound(nodes: Seq<NodeModel>, visited: Seq<bool>, n: nat)
    ensures
        pending(nodes, visited, n) <= 2 * n,
    decreases n,
{
    if n > 0 {
        lemma_pending_bound(nodes, visited, (n - 1) as nat);
    }
}

/// A step that visits a node leaves fewer nodes to visit; any other step only
/// shortens the list. A node that is added makes up for work that was done.
pub proof fn lemma_step_progress(state: SanitizerModel)
    requires
        wf(state),
        state.work.len() > 0,
    ensures
        work_left(step(state)) <= work_left(state),
        work_left(step(state)) == work_left(state) ==> step(state).work.len() < state.work.len(),
        step(state).nodes.len() + work_left(step(state)) <= state.nodes.len() + work_left(state),
{
    let item = state.work.last();
    assert(item_in_range(state.nodes, item));
    let popped = SanitizerModel { work: state.work.drop_last(), ..state };
    if item_value(item) is Some {
        let id = item_value(item)->Some_0;
        let replaced = replace_operand(popped, item);
        let n = state.nodes.len();
        lemma_pending_same(replaced.nodes, replaced.visited, state.nodes, state.visited, n);
        if !replaced.visited[id as int] {
            let out = enter_node(replaced, id);
            lemma_pending_visit(replaced.nodes, replaced.visited, id as int, n);
            lemma_pending_same(
                out.nodes,
                out.visited,
                replaced.nodes,
                replaced.visited.update(id as int, true),
                n,
            );
        }
    }
}

impl DISanitizer {
    /// Starts a walk over `nodes`, in which an operand that is node `i` becomes
    /// `replace[i]` where that is set.
    pub fn new(nodes: Vec<Node>, replace: Vec<Option<usize>>) -> (r: Self)
        ensures
            r@ == start(graph::models(nodes@), replace@, Seq::empty()),
    {
        let mut visited: Vec<bool> = Vec::new();
        let mut i: usize = 0;
        while i < nodes.len()
            invariant
                i <= nodes@.len(),
                visited@ =~= Seq::new(i as nat, |j: int| false),
            decreases nodes@.len() - i,
        {
            visited.push(false);
            i = i + 1;
        }
        let r = DISanitizer {
            nodes,
            visited,
            replace,
            work: Vec::new(),
            edits: Vec::new(),
            skipped: Vec::new(),
        };
        assert(r@ =~= start(graph::models(nodes@), replace@, Seq::empty()));
        r
    }

    /// Replaces an operand whose value has a replacement.
    fn replace_operand(&mut self, item: Item)
        requires
            wf(old(self)@),
            item_in_range(old(self)@.nodes, item),
        ensures
            final(self)@ == replace_operand(old(self)@, item),
    {
        if let Item::Operand { parent, index, value } = item {
            if let Some(value) = value {
                if value < self.replace.len() {
                    if let Some(new) = self.replace[value] {
                        let ghost before = self@;
                        assert(before.nodes[parent as int] == self.nodes@[parent as int]@);
                        self.nodes[parent].operands[index] = Some(new);
                        self.edits.push(Edit::Operand { parent, index, node: new });
                        assert(self@.nodes =~= replace_operand(before, item).nodes);
                        assert(self@.edits =~= replace_operand(before, item).edits);
                    }
                }
            }
        }
    }

    /// Puts what a node leads to on the list, the first at the end.
    fn push_children(&mut self, id: usize)
        requires
            id < old(self)@.nodes.len(),
        ensures
            final(self)@ == (SanitizerModel {
                work: old(self)@.work + children(old(self)@.nodes[id as int], id).reverse(),
                ..old(self)@
            }),
    {
        let ghost before = self@;
        let ghost node = before.nodes[id as int];
        let ghost all = children(node, id);
        assert(node == self.nodes@[id as int]@);
        let mut i: usize = self.nodes[id].items.len();
        assert(self.work@ =~= before.work + all.reverse().take(0));
        while i > 0
            invariant
                id < self.nodes@.len(),
                self@ == (SanitizerModel { work: self.work@, ..before }),
                node == before.nodes[id as int],
                node == self.nodes@[id as int]@,
                all == children(node, id),
                i <= node.items.len(),
                self.work@ =~= before.work + all.reverse().take(node.items.len() - i),
            decreases i,
        {
            i = i - 1;
            let item = Item::Value(self.nodes[id].items[i]);
            self.work.push(item);
            assert(all.reverse()[node.items.len() - i - 1] == item);
        }
        let mut j: usize = self.nodes[id].operands.len();
        while j > 0
            invariant
                id < self.nodes@.len(),
                self@ == (SanitizerModel { work: self.work@, ..before }),
                node == before.nodes[id as int],
                node == self.nodes@[id as int]@,
                all == children(node, id),
                j <= node.operands.len(),
                self.work@ =~= before.work + all.reverse().take(
                    node.items.len() + node.operands.len() - j,
                ),
            decreases j,
        {
            j = j - 1;
            let item = Item::Operand { parent: id, index: j, value: self.nodes[id].operands[j] };
            self.work.push(item);
            assert(all.reverse()[node.items.len() + node.operands.len() - j - 1] == item);
        }
        assert(all.reverse().take(all.len() as int) =~= all.reverse());
    }

    /// Visits a node for the first time.
    fn enter_node(&mut self, id: usize)
        requires
            wf(old(self)@),
            id < old(self)@.nodes.len(),
        ensures
            final(self)@ == enter_node(old(self)@, id),
    {
        let ghost before = self@;
        assert(before.nodes[id as int] == self.nodes@[id as int]@);
        self.visited.set(id, true);
        let change = visit_mdnode(&self.nodes, id);
        let ghost model = change@;
        let mut members: Vec<Option<usize>> = Vec::new();
        if let Some(elements) = &change.elements {
            let tuple: usize = self.nodes.len();
            let mut i: usize = 0;
            while i < elements.len()
                invariant
                    i <= elements@.len(),
                    members@ =~= edit::tuple_node(elements@).operands.take(i as int),
                decreases elements@.len() - i,
            {
                members.push(Some(elements[i]));
                i = i + 1;
            }
            self.nodes[id].operands[ELEMENTS_OPERAND] = Some(tuple);
            self.nodes.push(
                Node { kind: NodeKind::Other, name: None, operands: members, items: Vec::new() },
            );
            self.visited.push(false);
            assert(members@ =~= edit::tuple_node(elements@).operands);
            assert(self.nodes@.last()@.items =~= Seq::<usize>::empty());
            assert(self.nodes@.last()@ == edit::tuple_node(elements@));
        }
        let renamed: bool = change.name.is_some();
        if let Some(name) = &change.name {
            self.nodes[id].name = Some(bytes::copy(name.as_slice()));
        }
        if let Some(name) = &change.skipped {
            self.skipped.push(name.clone());
        }
        if change.elements.is_some() || renamed || change.skipped.is_some() {
            self.edits.push(Edit::Node { node: id, edit: change });
        }
        let ghost out = enter_node(before, id);
        assert(self@.nodes =~= out.nodes);
        assert(self@.edits =~= out.edits);
        assert(self@.skipped =~= out.skipped);
        assert(self@.visited =~= out.visited);
        self.push_children(id);
    }

    /// Takes the next item off the list and visits it.
    fn visit_item(&mut self)
        requires
            wf(old(self)@),
            old(self)@.work.len() > 0,
        ensures
            final(self)@ == step(old(self)@),
            wf(final(self)@),
    {
        let ghost before = self@;
        if let Some(item) = self.work.pop() {
            assert(item_in_range(before.nodes, before.work.last()));
            let ghost popped = SanitizerModel { work: before.work.drop_last(), ..before };
            assert(self@ =~= popped);
            proof {
                lemma_pop_keeps_wf(before);
                lemma_replace_keeps_wf(popped, item);
            }
            let value: Option<usize> = match item {
                Item::Operand { value, .. } => value,
                Item::Value(id) => Some(id),
            };
            if let Some(id) = value {
                self.replace_operand(item);
                if !self.visited[id] {
                    self.enter_node(id);
                }
            }
        }
        proof {
            assert(self@.nodes.len() == self.nodes@.len());
            assert(self.nodes.len() <= usize::MAX);
            lemma_step_keeps_wf(before);
        }
    }

    /// Visits everything that can be reached from `roots`, in depth-first
    /// order.
    pub fn run(self, roots: Vec<usize>) -> (r: Sanitized)
        requires
            self@.work.len() == 0,
            wf(self@),
            forall|i: int| 0 <= i < roots@.len() ==> #[trigger] roots@[i] < self@.nodes.len(),
        ensures
            exists|n: nat| #[trigger] ends_with(with_roots(self@, roots@), n, r),
    {
        let mut walk = self;
        let ghost init = with_roots(self@, roots@);
        let mut i: usize = roots.len();
        while i > 0
            invariant
                i <= roots@.len(),
                walk@ == (SanitizerModel { work: walk.work@, ..self@ }),
                walk.work@ =~= init.work.take(roots@.len() - i),
                init == with_roots(self@, roots@),
            decreases i,
        {
            i = i - 1;
            walk.work.push(Item::Value(roots[i]));
        }
        assert(walk@ =~= init);
        assert forall|k: int| 0 <= k < init.work.len() implies item_in_range(
            init.nodes,
            #[trigger] init.work[k],
        ) by {
            assert(init.work[k] == Item::Value(roots@[roots@.len() - 1 - k]));
        }
        let ghost mut n: nat = 0;
        while walk.work.len() > 0
            invariant
                wf(walk@),
                walk@ == steps(init, n),
            decreases work_left(walk@), walk.work@.len(),
        {
            proof {
                lemma_step_progress(walk@);
            }
            walk.visit_item();
            proof {
                n = n + 1;
            }
        }
        let r = Sanitized { nodes: walk.nodes, edits: walk.edits, skipped: walk.skipped };
        assert(ends_with(init, n, r));
        r
    }
}

/// The outcome of a walk: the graph, the changes in the order in which they were
/// made, and the types whose debug information was left out.
pub struct Sanitized {
    pub nodes: Vec<Node>,
    pub edits: Vec<Edit>,
    pub skipped: Vec<String>,
}

/// Whether a walk ends after `n` steps with an outcome.
pub open spec fn ends_with(state: SanitizerModel, n: nat, outcome: Sanitized) -> bool {
    let end = steps(state, n);
    &&& end.work.len() == 0
    &&& graph::models(outcome.nodes@) == end.nodes
    &&& outcome.edits@.map_values(|e: Edit| e@) == end.edits
    &&& outcome.skipped@.map_values(|s: String| s@) == end.skipped
}

proof fn lemma_steps_after_end(state: SanitizerModel, n: nat, m: nat)
    requires
        n <= m,
        steps(state, n).work.len() == 0,
    ensures
        steps(state, m) == steps(state, n),
    decreases m,
{
    if n < m {
        lemma_steps_after_end(state, n, (m - 1) as nat);
    }
}

/// A walk has one end: however many steps are taken to get there, the graph, the
/// changes and the types that were left out are the same.
pub proof fn walk_has_one_end(state: SanitizerModel, n: nat, m: nat)
    requires
        steps(state, n).work.len() == 0,
        steps(state, m).work.len() == 0,
    ensures
        steps(state, n) == steps(state, m),
{
    if n <= m {
        lemma_steps_after_end(state, n, m);
    } else {
        lemma_steps_after_end(state, m, n);
    }
}

/// A walk can start exactly if the graph is closed, and what stands for nodes and the nodes to
/// start from are nodes of it.
pub proof fn walk_starts_in_a_closed_graph(
    nodes: Seq<NodeModel>,
    replace: Seq<Option<usize>>,
    roots: Seq<usize>,
)
    ensures
        wf(start(nodes, replace, roots)) <==> {
            &&& graph::closed_graph(nodes)
            &&& forall|i: int|
                0 <= i < replace.len() && #[trigger] replace[i] is Some ==> replace[i]->Some_0
                    < nodes.len()
            &&& forall|i: int| 0 <= i < roots.len() ==> #[trigger] roots[i] < nodes.len()
        },
{
    let init = start(nodes, replace, roots);
    let items = roots.map_values(|id: usize| Item::Value(id));
    assert forall|i: int| 0 <= i < roots.len() implies init.work[roots.len() - 1 - i]
        == Item::Value(#[trigger] roots[i]) by {
        assert(items.reverse()[roots.len() - 1 - i] == items[i]);
    }
    assert forall|k: int| 0 <= k < init.work.len() implies #[trigger] init.work[k] == Item::Value(
        roots[roots.len() - 1 - k],
    ) by {
        assert(items.reverse()[k] == items[roots.len() - 1 - k]);
    }
    if wf(init) {
        assert forall|i: int|
            0 <= i < replace.len() && #[trigger] replace[i] is Some implies replace[i]->Some_0
            < nodes.len() by {
            assert(graph::in_range(init.replace[i], nodes.len()));
        }
        assert forall|i: int| 0 <= i < roots.len() implies #[trigger] roots[i] < nodes.len() by {
            assert(item_in_range(nodes, init.work[roots.len() - 1 - i]));
        }
    }
}

/// A walk starts with nothing visited and nothing changed, and meets the nodes it starts from
/// in their order; the next one to be met stands last on the list.
pub proof fn walk_meets_its_roots_in_order(
    state: SanitizerModel,
    nodes: Seq<NodeModel>,
    replace: Seq<Option<usize>>,
    roots: Seq<usize>,
    i: int,
)
    requires
        0 <= i < roots.len(),
    ensures
        ({
            let begin = start(nodes, replace, roots);
            &&& begin.nodes == nodes
            &&& begin.replace == replace
            &&& begin.visited.len() == nodes.len()
            &&& forall|k: int| 0 <= k < nodes.len() ==> !#[trigger] begin.visited[k]
            &&& begin.edits.len() == 0
            &&& begin.skipped.len() == 0
            &&& begin.work.len() == roots.len()
            &&& begin.work[roots.len() - 1 - i] == Item::Value(roots[i])
        }),
        ({
            let next = with_roots(state, roots);
            &&& next == (SanitizerModel { work: next.work, ..state })
            &&& next.work.len() == roots.len()
            &&& next.work[roots.len() - 1 - i] == Item::Value(roots[i])
        }),
{
    let items = roots.map_values(|id: usize| Item::Value(id));
    assert(items.reverse()[roots.len() - 1 - i] == items[i]);
}

} // verus!
