//! The debug information of a whole module: what the walk starts from, and what it
//! replaces.
use std::collections::HashMap;

use vstd::prelude::*;

use crate::di::graph;
use crate::di::graph::{ids_in_range, is_closed_graph, Node};
use crate::di::linkage;
use crate::di::linkage::LinkageFix;
use crate::di::sanitizer;
use crate::di::sanitizer::{DISanitizer, Sanitized, SanitizerModel};

verus! {

broadcast use vstd::std_specs::hash::group_hash_axioms;

/// A module: its values, the handle of each that is metadata, and the numbers of
/// its global values.
pub struct ModuleGraph {
    pub nodes: Vec<Node>,
    pub handles: Vec<Option<u64>>,
    pub globals: Vec<usize>,
    pub aliases: Vec<usize>,
    pub functions: Vec<usize>,
}

/// What stands for each old subprogram among the first `n` fixes, where node
/// `new_nodes[i]` is the new subprogram of fix `i`.
pub open spec fn replacements(fixes: Seq<LinkageFix>, new_nodes: Seq<usize>, n: nat) -> Map<
    u64,
    usize,
>
    decreases n,
{
    if n == 0 {
        Map::empty()
    } else {
        replacements(fixes, new_nodes, (n - 1) as nat).insert(fixes[n - 1].old, new_nodes[n - 1])
    }
}

/// What stands for a value with a handle.
pub open spec fn replacement_of(map: Map<u64, usize>, handle: Option<u64>) -> Option<usize> {
    match handle {
        Some(handle) => if map.contains_key(handle) {
            Some(map[handle])
        } else {
            None
        },
        None => None,
    }
}

/// What stands for each value of a module where it is an operand.
pub open spec fn replaced_operands(
    handles: Seq<Option<u64>>,
    fixes: Seq<LinkageFix>,
    new_nodes: Seq<usize>,
) -> Seq<Option<usize>> {
    handles.map_values(
        |handle: Option<u64>| replacement_of(replacements(fixes, new_nodes, fixes.len()), handle),
    )
}

/// A handle is replaced exactly if it is the old subprogram of a fix.
proof fn lemma_replacements(fixes: Seq<LinkageFix>, new_nodes: Seq<usize>, n: nat)
    requires
        n <= fixes.len(),
        linkage::are_distinct(fixes),
    ensures
        forall|i: int|
            0 <= i < n ==> replacements(fixes, new_nodes, n).contains_key(
                (#[trigger] fixes[i]).old,
            ) && replacements(fixes, new_nodes, n)[fixes[i].old] == new_nodes[i],
        forall|handle: u64| #[trigger]
            replacements(fixes, new_nodes, n).contains_key(handle) ==> exists|i: int|
                0 <= i < n && (#[trigger] fixes[i]).old == handle,
    decreases n,
{
    if n > 0 {
        let before = replacements(fixes, new_nodes, (n - 1) as nat);
        let map = replacements(fixes, new_nodes, n);
        lemma_replacements(fixes, new_nodes, (n - 1) as nat);
        assert forall|i: int| 0 <= i < n implies map.contains_key((#[trigger] fixes[i]).old)
            && map[fixes[i].old] == new_nodes[i] by {
            if i < n - 1 {
                assert(fixes[i].old != fixes[n - 1].old);
            }
        }
        assert forall|handle: u64| #[trigger] map.contains_key(handle) implies exists|i: int|
            0 <= i < n && (#[trigger] fixes[i]).old == handle by {
            if handle == fixes[n - 1].old {
                assert(0 <= n - 1 < n);
            } else {
                assert(before.contains_key(handle));
            }
        }
    }
}

/// Lists what stands for each value of a module where it is an operand: the new
/// subprogram for each old one, and nothing for any other value.
pub fn replace_operands(
    handles: &Vec<Option<u64>>,
    fixes: &Vec<LinkageFix>,
    new_nodes: &Vec<usize>,
) -> (r: Vec<Option<usize>>)
    requires
        fixes@.len() == new_nodes@.len(),
        linkage::are_distinct(fixes@),
    ensures
        r@ == replaced_operands(handles@, fixes@, new_nodes@),
        r@.len() == handles@.len(),
        forall|n: int, i: int|
            0 <= n < handles@.len() && 0 <= i < fixes@.len() && #[trigger] handles@[n] == Some(
                (#[trigger] fixes@[i]).old,
            ) ==> r@[n] == Some(new_nodes@[i]),
        forall|n: int|
            0 <= n < handles@.len() && (#[trigger] r@[n]) is Some ==> exists|i: int|
                0 <= i < fixes@.len() && handles@[n] == Some((#[trigger] fixes@[i]).old),
{
    let mut map: HashMap<u64, usize> = HashMap::new();
    let mut i: usize = 0;
    while i < fixes.len()
        invariant
            i <= fixes@.len(),
            fixes@.len() == new_nodes@.len(),
            map@ == replacements(fixes@, new_nodes@, i as nat),
        decreases fixes@.len() - i,
    {
        map.insert(fixes[i].old, new_nodes[i]);
        i = i + 1;
    }
    let ghost all = replaced_operands(handles@, fixes@, new_nodes@);
    let mut replace: Vec<Option<usize>> = Vec::new();
    let mut n: usize = 0;
    while n < handles.len()
        invariant
            n <= handles@.len(),
            map@ == replacements(fixes@, new_nodes@, fixes@.len()),
            all == replaced_operands(handles@, fixes@, new_nodes@),
            replace@ =~= all.take(n as int),
        decreases handles@.len() - n,
    {
        let new: Option<usize> = match handles[n] {
            Some(handle) => match map.get(&handle) {
                Some(new) => Some(*new),
                None => None,
            },
            None => None,
        };
        assert(new == all[n as int]);
        replace.push(new);
        n = n + 1;
    }
    assert(replace@ =~= all);
    proof {
        lemma_replacements(fixes@, new_nodes@, fixes@.len());
    }
    replace
}

/// The values that the walk starts from: the global variables, then the aliases,
/// then the functions.
pub fn walk_roots(globals: &Vec<usize>, aliases: &Vec<usize>, functions: &Vec<usize>) -> (r: Vec<
    usize,
>)
    ensures
        r@ == globals@ + aliases@ + functions@,
{
    let mut roots: Vec<usize> = Vec::new();
    append_ids(&mut roots, globals);
    append_ids(&mut roots, aliases);
    append_ids(&mut roots, functions);
    assert(roots@ =~= globals@ + aliases@ + functions@);
    roots
}

fn append_ids(list: &mut Vec<usize>, ids: &Vec<usize>)
    ensures
        final(list)@ == old(list)@ + ids@,
{
    let ghost before = list@;
    let mut i: usize = 0;
    while i < ids.len()
        invariant
            i <= ids@.len(),
            before == old(list)@,
            list@ =~= before + ids@.take(i as int),
        decreases ids@.len() - i,
    {
        list.push(ids[i]);
        i = i + 1;
    }
    assert(ids@.take(ids@.len() as int) =~= ids@);
}

/// Whether every number leads to a node.
pub open spec fn all_below(ids: Seq<usize>, len: nat) -> bool {
    forall|i: int| 0 <= i < ids.len() ==> #[trigger] ids[i] < len
}

/// Whether everything that a module and the new subprograms refer to exists.
pub open spec fn wf_module(module: ModuleGraph, new_nodes: Seq<usize>) -> bool {
    &&& graph::closed_graph(graph::models(module.nodes@))
    &&& all_below(module.globals@, module.nodes@.len())
    &&& all_below(module.aliases@, module.nodes@.len())
    &&& all_below(module.functions@, module.nodes@.len())
    &&& all_below(new_nodes, module.nodes@.len())
}

/// Decides whether everything that a module and the new subprograms refer to
/// exists.
pub fn is_module_wf(module: &ModuleGraph, new_nodes: &Vec<usize>) -> (r: bool)
    ensures
        r == wf_module(*module, new_nodes@),
{
    let len: usize = module.nodes.len();
    is_closed_graph(&module.nodes) && ids_in_range(&module.globals, len) && ids_in_range(
        &module.aliases,
        len,
    ) && ids_in_range(&module.functions, len) && ids_in_range(new_nodes, len)
}

/// Where the walk over a module begins.
pub open spec fn module_start(
    module: ModuleGraph,
    fixes: Seq<LinkageFix>,
    new_nodes: Seq<usize>,
) -> SanitizerModel {
    sanitizer::start(
        graph::models(module.nodes@),
        replaced_operands(module.handles@, fixes, new_nodes),
        module.globals@ + module.aliases@ + module.functions@,
    )
}

/// Sanitizes the debug information of a module whose linkage was fixed: old
/// subprograms are replaced by new ones, and everything that can be reached from
/// global variables, aliases and functions, in this order, is visited.
pub fn sanitize_module(
    module: ModuleGraph,
    fixes: &Vec<LinkageFix>,
    new_nodes: &Vec<usize>,
) -> (r: Sanitized)
    requires
        wf_module(module, new_nodes@),
        fixes@.len() == new_nodes@.len(),
        linkage::are_distinct(fixes@),
    ensures
        exists|n: nat| #[trigger]
            sanitizer::ends_with(module_start(module, fixes@, new_nodes@), n, r),
{
    let replace = replace_operands(&module.handles, fixes, new_nodes);
    let roots = walk_roots(&module.globals, &module.aliases, &module.functions);
    let ghost nodes = graph::models(module.nodes@);
    let ghost begin = module_start(module, fixes@, new_nodes@);
    proof {
        assert forall|i: int| 0 <= i < replace@.len() implies graph::in_range(
            #[trigger] replace@[i],
            nodes.len(),
        ) by {
            if replace@[i] is Some {
                let k = choose|k: int|
                    0 <= k < fixes@.len() && module.handles@[i] == Some((#[trigger] fixes@[k]).old);
                assert(replace@[i] == Some(new_nodes@[k]));
            }
        }
        assert forall|i: int| 0 <= i < roots@.len() implies #[trigger] roots@[i]
            < nodes.len() by {
            let a = module.globals@.len();
            let b = a + module.aliases@.len();
            if i < a {
                assert(roots@[i] == module.globals@[i]);
            } else if i < b {
                assert(roots@[i] == module.aliases@[i - a]);
            } else {
                assert(roots@[i] == module.functions@[i - b]);
            }
        }
    }
    let walk = DISanitizer::new(module.nodes, replace);
    assert(sanitizer::with_roots(walk@, roots@) =~= begin);
    let r = walk.run(roots);
    assert(exists|n: nat| #[trigger] sanitizer::ends_with(begin, n, r));
    r
}

/// Where a value is an operand, a new subprogram stands for it exactly if it is the old
/// subprogram of a fix: the new one of that fix.
pub proof fn old_subprograms_are_replaced(
    handles: Seq<Option<u64>>,
    fixes: Seq<LinkageFix>,
    new_nodes: Seq<usize>,
    n: int,
)
    requires
        fixes.len() == new_nodes.len(),
        forall|i: int, j: int|
            0 <= i < j < fixes.len() ==> (#[trigger] fixes[i]).old != (#[trigger] fixes[j]).old,
        0 <= n < handles.len(),
    ensures
        replaced_operands(handles, fixes, new_nodes).len() == handles.len(),
        forall|i: int|
            0 <= i < fixes.len() && handles[n] == Some((#[trigger] fixes[i]).old)
                ==> replaced_operands(handles, fixes, new_nodes)[n] == Some(new_nodes[i]),
        replaced_operands(handles, fixes, new_nodes)[n] is Some ==> exists|i: int|
            0 <= i < fixes.len() && handles[n] == Some((#[trigger] fixes[i]).old),
{
    lemma_replacements(fixes, new_nodes, fixes.len());
}

/// The walk over a module starts with nothing visited and nothing changed, and meets the
/// global variables first, then the aliases, then the functions.
pub proof fn walk_starts_at_the_global_values(
    module: ModuleGraph,
    fixes: Seq<LinkageFix>,
    new_nodes: Seq<usize>,
    i: int,
)
    ensures
        ({
            let begin = module_start(module, fixes, new_nodes);
            let a = module.globals@.len();
            let b = a + module.aliases@.len();
            let c = b + module.functions@.len();
            &&& begin.nodes == graph::models(module.nodes@)
            &&& begin.edits.len() == 0
            &&& begin.skipped.len() == 0
            &&& begin.visited.len() == module.nodes@.len()
            &&& 0 <= i < module.nodes@.len() ==> !begin.visited[i]
            &&& begin.work.len() == c
            &&& 0 <= i < a ==> begin.work[c - 1 - i] == sanitizer::Item::Value(module.globals@[i])
            &&& a <= i < b ==> begin.work[c - 1 - i] == sanitizer::Item::Value(
                module.aliases@[i - a],
            )
            &&& b <= i < c ==> begin.work[c - 1 - i] == sanitizer::Item::Value(
                module.functions@[i - b],
            )
        }),
{
    let begin = module_start(module, fixes, new_nodes);
    let roots = module.globals@ + module.aliases@ + module.functions@;
    let items = roots.map_values(|id: usize| sanitizer::Item::Value(id));
    if 0 <= i < roots.len() {
        assert(items.reverse()[roots.len() - 1 - i] == items[i]);
    }
}

/// A module can be sanitized exactly if its graph is closed, and its global variables,
/// aliases and functions and the new subprograms are nodes of it.
pub proof fn modules_mention_what_exists(module: ModuleGraph, new_nodes: Seq<usize>)
    ensures
        wf_module(module, new_nodes) <==> {
            let len = module.nodes@.len();
            &&& graph::closed_graph(graph::models(module.nodes@))
            &&& forall|i: int|
                0 <= i < module.globals@.len() ==> #[trigger] module.globals@[i] < len
            &&& forall|i: int|
                0 <= i < module.aliases@.len() ==> #[trigger] module.aliases@[i] < len
            &&& forall|i: int|
                0 <= i < module.functions@.len() ==> #[trigger] module.functions@[i] < len
            &&& forall|i: int| 0 <= i < new_nodes.len() ==> #[trigger] new_nodes[i] < len
        },
{
}

} // verus!
