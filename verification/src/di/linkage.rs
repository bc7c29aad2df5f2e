//! The linkage that debug information gives to functions.
use vstd::prelude::*;

use crate::bytes;
use crate::options::LinkerOptions;
use crate::symbols;
use crate::symbols::{export_symbols, ExportSymbols};

verus! {

/// The debug information of a function. Metadata is referred to by handles.
pub struct Subprogram {
    pub id: u64,
    pub scope: Option<u64>,
    pub name: Option<Vec<u8>>,
    pub linkage_name: Option<Vec<u8>>,
    pub file: u64,
    pub line: u32,
    pub ty: u64,
    pub type_flags: i32,
    pub unit: Option<u64>,
    pub retained_nodes: Option<u64>,
}

/// A function of a module.
pub struct FunctionInfo {
    pub name: Vec<u8>,
    pub num_blocks: u32,
    pub subprogram: Option<Subprogram>,
}

/// A subprogram to be created.
pub struct NewSubprogram {
    pub scope: u64,
    pub name: Option<Vec<u8>>,
    pub linkage_name: Option<Vec<u8>>,
    pub file: u64,
    pub line: u32,
    pub ty: u64,
    pub is_local_to_unit: bool,
    pub is_definition: bool,
    pub scope_line: u32,
    pub flags: i32,
    pub is_optimized: bool,
    pub unit: Option<u64>,
    pub retained_nodes: Option<u64>,
}

/// A change of the debug information of function number `function`: the
/// subprogram `old` is replaced by `new` and loses its retained nodes, which
/// `new` takes over.
pub struct LinkageFix {
    pub function: usize,
    pub old: u64,
    pub new: NewSubprogram,
}

/// A step in which a fix is made, once its new subprogram is created.
#[derive(Clone, Copy, Debug, PartialEq, Eq, Structural)]
pub enum LinkageEdit {
    /// Points a function to the new subprogram.
    SetSubprogram { function: usize },
    /// Gives the new subprogram a compile unit.
    SetUnit { unit: u64 },
    /// Gives the new subprogram retained nodes: its local variables.
    SetRetainedNodes { nodes: u64 },
    /// Takes all retained nodes from a subprogram.
    ClearRetainedNodes { subprogram: u64 },
}

/// The steps in which a fix is made: the function points to the new subprogram,
/// which gets the unit and the retained nodes that the old one has, and the old
/// one loses its retained nodes.
pub open spec fn edits_of(fix: LinkageFix) -> Seq<LinkageEdit> {
    let unit = match fix.new.unit {
        Some(unit) => seq![LinkageEdit::SetUnit { unit }],
        None => Seq::empty(),
    };
    let nodes = match fix.new.retained_nodes {
        Some(nodes) => seq![LinkageEdit::SetRetainedNodes { nodes }],
        None => Seq::empty(),
    };
    seq![LinkageEdit::SetSubprogram { function: fix.function }] + unit + nodes
        + seq![LinkageEdit::ClearRetainedNodes { subprogram: fix.old }]
}

/// Lists the steps in which a fix is made.
pub fn linkage_edits(fix: &LinkageFix) -> (r: Vec<LinkageEdit>)
    ensures
        r@ == edits_of(*fix),
        r@.contains(LinkageEdit::SetSubprogram { function: fix.function }),
        r@.contains(LinkageEdit::ClearRetainedNodes { subprogram: fix.old }),
{
    let mut edits: Vec<LinkageEdit> = Vec::new();
    edits.push(LinkageEdit::SetSubprogram { function: fix.function });
    if let Some(unit) = fix.new.unit {
        edits.push(LinkageEdit::SetUnit { unit });
    }
    if let Some(nodes) = fix.new.retained_nodes {
        edits.push(LinkageEdit::SetRetainedNodes { nodes });
    }
    edits.push(LinkageEdit::ClearRetainedNodes { subprogram: fix.old });
    assert(edits@ =~= edits_of(*fix));
    assert(edits@[0] == (LinkageEdit::SetSubprogram { function: fix.function }));
    assert(edits@.last() == (LinkageEdit::ClearRetainedNodes { subprogram: fix.old }));
    edits
}

/// Whether two optional byte strings are the same.
pub open spec fn same_bytes(a: Option<Vec<u8>>, b: Option<Vec<u8>>) -> bool {
    match (a, b) {
        (Some(x), Some(y)) => x@ == y@,
        (None, None) => true,
        _ => false,
    }
}

/// Whether a function gets new debug information: it is defined here, it is not
/// exported, and it has debug information.
pub open spec fn needs_fix(function: FunctionInfo, exports: Set<Seq<u8>>) -> bool {
    !exports.contains(function.name@) && function.num_blocks != 0 && function.subprogram is Some
}

/// Whether `new` is `old` as a definition that is local to its compile unit.
pub open spec fn is_local_copy(new: NewSubprogram, old: Subprogram) -> bool {
    &&& old.scope == Some(new.scope)
    &&& same_bytes(new.name, old.name)
    &&& same_bytes(new.linkage_name, old.linkage_name)
    &&& new.file == old.file
    &&& new.line == old.line
    &&& new.ty == old.ty
    &&& new.is_local_to_unit
    &&& new.is_definition
    &&& new.scope_line == old.line
    &&& new.flags == old.type_flags
    &&& new.is_optimized
    &&& new.unit == old.unit
    &&& new.retained_nodes == old.retained_nodes
}

/// The numbers of the functions below `n` that get new debug information.
pub open spec fn fixed_functions(
    functions: Seq<FunctionInfo>,
    exports: Set<Seq<u8>>,
    n: nat,
) -> Seq<usize>
    decreases n,
{
    if n == 0 {
        Seq::empty()
    } else {
        let before = fixed_functions(functions, exports, (n - 1) as nat);
        if needs_fix(functions[n - 1], exports) {
            before.push((n - 1) as usize)
        } else {
            before
        }
    }
}

/// Whether every function that gets new debug information has a scope, and no
/// two of them share a subprogram.
pub open spec fn is_fixable(functions: Seq<FunctionInfo>, exports: Set<Seq<u8>>) -> bool {
    &&& forall|i: int|
        0 <= i < functions.len() && needs_fix(#[trigger] functions[i], exports)
            ==> functions[i].subprogram->Some_0.scope is Some
    &&& forall|i: int, j: int|
        0 <= i < j < functions.len() && needs_fix(#[trigger] functions[i], exports) && needs_fix(
            #[trigger] functions[j],
            exports,
        ) ==> functions[i].subprogram->Some_0.id != functions[j].subprogram->Some_0.id
}

/// Whether no two fixes replace the same subprogram.
pub open spec fn are_distinct(fixes: Seq<LinkageFix>) -> bool {
    forall|i: int, j: int|
        0 <= i < j < fixes.len() ==> (#[trigger] fixes[i]).old != (#[trigger] fixes[j]).old
}

/// Whether `fixes` are the new debug information of `functions` where `exports`
/// stay visible.
pub open spec fn are_fixes(
    fixes: Seq<LinkageFix>,
    functions: Seq<FunctionInfo>,
    exports: Set<Seq<u8>>,
) -> bool {
    &&& fixes.map_values(|f: LinkageFix| f.function) == fixed_functions(
        functions,
        exports,
        functions.len(),
    )
    &&& forall|i: int|
        0 <= i < fixes.len() ==> {
            let fix = #[trigger] fixes[i];
            let old = functions[fix.function as int].subprogram->Some_0;
            fix.old == old.id && is_local_copy(fix.new, old)
        }
}

fn copy_name(name: &Option<Vec<u8>>) -> (r: Option<Vec<u8>>)
    ensures
        same_bytes(r, *name),
{
    match name {
        Some(bytes) => Some(bytes::copy(bytes.as_slice())),
        None => None,
    }
}

fn is_fixed(function: &FunctionInfo, exports: &ExportSymbols) -> (r: bool)
    ensures
        r == needs_fix(*function, exports@),
{
    !exports.contains(function.name.as_slice()) && function.num_blocks != 0
        && function.subprogram.is_some()
}

fn share_subprogram(a: &FunctionInfo, b: &FunctionInfo) -> (r: bool)
    ensures
        r == (a.subprogram is Some && b.subprogram is Some && a.subprogram->Some_0.id
            == b.subprogram->Some_0.id),
{
    match (&a.subprogram, &b.subprogram) {
        (Some(x), Some(y)) => x.id == y.id,
        _ => false,
    }
}

/// Decides whether new debug information can be planned.
pub fn can_fix_linkage(functions: &Vec<FunctionInfo>, exports: &ExportSymbols) -> (r: bool)
    ensures
        r == is_fixable(functions@, exports@),
{
    let mut j: usize = 0;
    while j < functions.len()
        invariant
            j <= functions@.len(),
            is_fixable(functions@.take(j as int), exports@),
        decreases functions@.len() - j,
    {
        let ghost before = functions@.take(j as int);
        let ghost next = functions@.take(j + 1);
        let function = &functions[j];
        if is_fixed(function, exports) {
            if let Some(subprogram) = &function.subprogram {
                if subprogram.scope.is_none() {
                    assert(needs_fix(functions@[j as int], exports@));
                    return false;
                }
            }
            let mut i: usize = 0;
            while i < j
                invariant
                    i <= j < functions@.len(),
                    *function == functions@[j as int],
                    needs_fix(*function, exports@),
                    forall|k: int|
                        0 <= k < i && needs_fix(#[trigger] functions@[k], exports@)
                            ==> functions@[k].subprogram->Some_0.id
                            != function.subprogram->Some_0.id,
                decreases j - i,
            {
                if is_fixed(&functions[i], exports) && share_subprogram(&functions[i], function) {
                    assert(needs_fix(functions@[i as int], exports@));
                    assert(needs_fix(functions@[j as int], exports@));
                    return false;
                }
                i = i + 1;
            }
        }
        assert(is_fixable(next, exports@)) by {
            assert forall|i: int|
                0 <= i < next.len() && needs_fix(#[trigger] next[i], exports@) implies
                next[i].subprogram->Some_0.scope is Some by {
                if i < j {
                    assert(before[i] == next[i]);
                }
            }
            assert forall|i: int, k: int|
                0 <= i < k < next.len() && needs_fix(#[trigger] next[i], exports@) && needs_fix(
                    #[trigger] next[k],
                    exports@,
                ) implies next[i].subprogram->Some_0.id != next[k].subprogram->Some_0.id by {
                assert(next[i] == functions@[i]);
                if k < j {
                    assert(before[i] == next[i]);
                    assert(before[k] == next[k]);
                }
            }
        }
        j = j + 1;
    }
    assert(functions@.take(functions@.len() as int) =~= functions@);
    true
}

/// Plans new debug information, so that only exported functions get global
/// linkage in BTF. Global functions are verified independently of their callers,
/// which makes them harder to verify.
pub fn fix_subprogram_linkage(functions: &Vec<FunctionInfo>, exports: &ExportSymbols) -> (r: Vec<
    LinkageFix,
>)
    requires
        is_fixable(functions@, exports@),
    ensures
        are_fixes(r@, functions@, exports@),
        are_distinct(r@),
{
    let mut fixes: Vec<LinkageFix> = Vec::new();
    let mut i: usize = 0;
    assert(fixes@.map_values(|f: LinkageFix| f.function) =~= Seq::<usize>::empty());
    while i < functions.len()
        invariant
            i <= functions@.len(),
            is_fixable(functions@, exports@),
            fixes@.map_values(|f: LinkageFix| f.function) == fixed_functions(
                functions@,
                exports@,
                i as nat,
            ),
            forall|j: int|
                0 <= j < fixes@.len() ==> {
                    let fix = #[trigger] fixes@[j];
                    let old = functions@[fix.function as int].subprogram->Some_0;
                    fix.old == old.id && is_local_copy(fix.new, old)
                },
        decreases functions@.len() - i,
    {
        let function = &functions[i];
        let ghost before = fixes@;
        if is_fixed(function, exports) {
            if let Some(old) = &function.subprogram {
                assert(needs_fix(functions@[i as int], exports@));
                if let Some(scope) = old.scope {
                    let new = NewSubprogram {
                        scope,
                        name: copy_name(&old.name),
                        linkage_name: copy_name(&old.linkage_name),
                        file: old.file,
                        line: old.line,
                        ty: old.ty,
                        is_local_to_unit: true,
                        is_definition: true,
                        scope_line: old.line,
                        flags: old.type_flags,
                        is_optimized: true,
                        unit: old.unit,
                        retained_nodes: old.retained_nodes,
                    };
                    fixes.push(LinkageFix { function: i, old: old.id, new });
                    assert(fixes@.map_values(|f: LinkageFix| f.function) =~= before.map_values(
                        |f: LinkageFix| f.function,
                    ).push(i));
                }
            }
        }
        i = i + 1;
    }
    proof {
        lemma_fixes_are_distinct(fixes@, functions@, exports@);
    }
    fixes
}

/// The numbers of the functions that get new debug information ascend, and each
/// of them needs it.
proof fn lemma_fixed_functions_ascend(
    functions: Seq<FunctionInfo>,
    exports: Set<Seq<u8>>,
    n: nat,
)
    requires
        n <= functions.len() <= usize::MAX,
    ensures
        ({
            let fixed = fixed_functions(functions, exports, n);
            &&& forall|i: int|
                0 <= i < fixed.len() ==> #[trigger] fixed[i] < n && needs_fix(
                    functions[fixed[i] as int],
                    exports,
                )
            &&& forall|i: int, j: int| 0 <= i < j < fixed.len() ==> fixed[i] < fixed[j]
        }),
    decreases n,
{
    if n > 0 {
        let before = fixed_functions(functions, exports, (n - 1) as nat);
        let fixed = fixed_functions(functions, exports, n);
        lemma_fixed_functions_ascend(functions, exports, (n - 1) as nat);
        assert forall|i: int| 0 <= i < fixed.len() implies #[trigger] fixed[i] < n && needs_fix(
            functions[fixed[i] as int],
            exports,
        ) by {
            if i < before.len() {
                assert(fixed[i] == before[i]);
            }
        }
        assert forall|i: int, j: int| 0 <= i < j < fixed.len() implies fixed[i] < fixed[j] by {
            assert(fixed[i] == before[i]);
            if j < before.len() {
                assert(fixed[j] == before[j]);
            }
        }
    }
}

proof fn lemma_fixes_are_distinct(
    fixes: Seq<LinkageFix>,
    functions: Seq<FunctionInfo>,
    exports: Set<Seq<u8>>,
)
    requires
        functions.len() <= usize::MAX,
        is_fixable(functions, exports),
        are_fixes(fixes, functions, exports),
    ensures
        are_distinct(fixes),
{
    let fixed = fixed_functions(functions, exports, functions.len());
    lemma_fixed_functions_ascend(functions, exports, functions.len());
    assert forall|i: int, j: int| 0 <= i < j < fixes.len() implies (#[trigger] fixes[i]).old != (
    #[trigger] fixes[j]).old by {
        let numbers = fixes.map_values(|f: LinkageFix| f.function);
        assert(numbers[i] == fixes[i].function && numbers[j] == fixes[j].function);
        assert(fixed[i] < fixed[j]);
        assert(needs_fix(functions[fixed[i] as int], exports));
        assert(needs_fix(functions[fixed[j] as int], exports));
    }
}

/// Plans new debug information with the options of a linker, where `names` were
/// asked to be exported; `None` where it cannot be planned.
pub fn plan_linkage(
    options: &LinkerOptions,
    names: &Vec<Vec<u8>>,
    functions: &Vec<FunctionInfo>,
) -> (r: Option<Vec<LinkageFix>>)
    ensures
        ({
            let exports = symbols::exported(names@, options.disable_memory_builtins);
            match r {
                Some(fixes) => {
                    &&& is_fixable(functions@, exports)
                    &&& are_fixes(fixes@, functions@, exports)
                    &&& are_distinct(fixes@)
                },
                None => !is_fixable(functions@, exports),
            }
        }),
{
    let exports = export_symbols(names, options.disable_memory_builtins);
    if can_fix_linkage(functions, &exports) {
        Some(fix_subprogram_linkage(functions, &exports))
    } else {
        None
    }
}

/// Exactly the functions that are defined, have debug information and are not
/// exported become local to their compile unit.
pub proof fn only_exported_functions_stay_global(
    functions: Seq<FunctionInfo>,
    exports: Set<Seq<u8>>,
    n: nat,
    i: usize,
)
    requires
        n <= functions.len() <= usize::MAX,
    ensures
        fixed_functions(functions, exports, n).contains(i) <==> i < n && needs_fix(
            functions[i as int],
            exports,
        ),
    decreases n,
{
    if n > 0 {
        let before = fixed_functions(functions, exports, (n - 1) as nat);
        let last = (n - 1) as usize;
        only_exported_functions_stay_global(functions, exports, (n - 1) as nat, i);
        if needs_fix(functions[n - 1], exports) {
            let all = before.push(last);
            if before.contains(i) {
                let k = choose|k: int| 0 <= k < before.len() && before[k] == i;
                assert(all[k] == i);
            }
            if i == last {
                assert(all[before.len() as int] == i);
            }
            if all.contains(i) {
                let k = choose|k: int| 0 <= k < all.len() && all[k] == i;
                if k < before.len() {
                    assert(before[k] == i);
                }
            }
        }
    }
}

/// Each fix replaces the subprogram of a function that is defined, has debug information
/// and is not exported by a definition that is local to its unit and otherwise says the
/// same. Every such function has one fix, in the order of the functions.
pub proof fn fixes_say_the_same_of_local_functions(
    fixes: Seq<LinkageFix>,
    functions: Seq<FunctionInfo>,
    exports: Set<Seq<u8>>,
)
    requires
        functions.len() <= usize::MAX,
        are_fixes(fixes, functions, exports),
    ensures
        forall|i: int, j: int|
            0 <= i < j < fixes.len() ==> (#[trigger] fixes[i]).function < (
            #[trigger] fixes[j]).function,
        forall|f: int|
            0 <= f < functions.len() ==> ((exists|i: int|
                0 <= i < fixes.len() && (#[trigger] fixes[i]).function == f) <==> (
            !exports.contains((#[trigger] functions[f]).name@) && functions[f].num_blocks > 0
                && functions[f].subprogram is Some)),
        forall|i: int|
            0 <= i < fixes.len() ==> {
                let fix = #[trigger] fixes[i];
                let new = fix.new;
                let old = functions[fix.function as int].subprogram->Some_0;
                &&& fix.function < functions.len()
                &&& fix.old == old.id
                &&& old.scope == Some(new.scope)
                &&& new.name is Some <==> old.name is Some
                &&& new.name is Some ==> new.name->Some_0@ == old.name->Some_0@
                &&& new.linkage_name is Some <==> old.linkage_name is Some
                &&& new.linkage_name is Some ==> new.linkage_name->Some_0@
                    == old.linkage_name->Some_0@
                &&& new.file == old.file
                &&& new.line == old.line
                &&& new.scope_line == old.line
                &&& new.ty == old.ty
                &&& new.flags == old.type_flags
                &&& new.unit == old.unit
                &&& new.retained_nodes == old.retained_nodes
                &&& new.is_local_to_unit
                &&& new.is_definition
                &&& new.is_optimized
            },
{
    let fixed = fixed_functions(functions, exports, functions.len());
    let numbers = fixes.map_values(|f: LinkageFix| f.function);
    lemma_fixed_functions_ascend(functions, exports, functions.len());
    assert forall|i: int| 0 <= i < fixes.len() implies (#[trigger] fixes[i]).function
        == fixed[i] by {
        assert(numbers[i] == fixes[i].function);
    }
    assert(fixes.len() == fixed.len());
    assert forall|i: int, j: int| 0 <= i < j < fixes.len() implies (#[trigger] fixes[i]).function
        < (#[trigger] fixes[j]).function by {
        assert(fixed[i] < fixed[j]);
    }
    assert forall|f: int| 0 <= f < functions.len() implies ((exists|i: int|
        0 <= i < fixes.len() && (#[trigger] fixes[i]).function == f) <==> (!exports.contains(
        (#[trigger] functions[f]).name@,
    ) && functions[f].num_blocks > 0 && functions[f].subprogram is Some)) by {
        only_exported_functions_stay_global(functions, exports, functions.len(), f as usize);
        if fixed.contains(f as usize) {
            let i = choose|i: int| 0 <= i < fixed.len() && fixed[i] == f as usize;
            assert(fixes[i].function == f);
        }
        if exists|i: int| 0 <= i < fixes.len() && (#[trigger] fixes[i]).function == f {
            let i = choose|i: int| 0 <= i < fixes.len() && (#[trigger] fixes[i]).function == f;
            assert(fixed[i] == f as usize);
        }
    }
}

/// A fix is made in two to four steps. The first points the function to the new
/// subprogram, the last takes the retained nodes from the old one. In between the new one
/// gets a unit and retained nodes, exactly if there are some.
pub proof fn fix_is_made_in_steps(fix: LinkageFix)
    ensures
        ({
            let steps = edits_of(fix);
            &&& steps[0] == (LinkageEdit::SetSubprogram { function: fix.function })
            &&& steps[steps.len() - 1] == (LinkageEdit::ClearRetainedNodes { subprogram: fix.old })
            &&& steps.len() == 2 + (if fix.new.unit is Some {
                1int
            } else {
                0
            }) + (if fix.new.retained_nodes is Some {
                1int
            } else {
                0
            })
            &&& fix.new.unit is Some ==> steps[1] == (LinkageEdit::SetUnit {
                unit: fix.new.unit->Some_0,
            })
            &&& fix.new.retained_nodes is Some ==> steps[steps.len() - 2] == (
            LinkageEdit::SetRetainedNodes { nodes: fix.new.retained_nodes->Some_0 })
        }),
{
}

/// New debug information can be planned exactly if every function that is defined, has
/// debug information and is not exported has a scope, and no two of them share their
/// debug information.
pub proof fn fixable_functions_have_scopes_of_their_own(
    functions: Seq<FunctionInfo>,
    exports: Set<Seq<u8>>,
)
    ensures
        is_fixable(functions, exports) <==> {
            &&& forall|i: int|
                0 <= i < functions.len() && !exports.contains((#[trigger] functions[i]).name@)
                    && functions[i].num_blocks > 0 && functions[i].subprogram is Some
                    ==> functions[i].subprogram->Some_0.scope is Some
            &&& forall|i: int, j: int|
                0 <= i < j < functions.len() && !exports.contains((#[trigger] functions[i]).name@)
                    && functions[i].num_blocks > 0 && functions[i].subprogram is Some
                    && !exports.contains((#[trigger] functions[j]).name@)
                    && functions[j].num_blocks > 0 && functions[j].subprogram is Some
                    ==> functions[i].subprogram->Some_0.id != functions[j].subprogram->Some_0.id
        },
{
    assert forall|i: int| 0 <= i < functions.len() implies needs_fix(functions[i], exports) == (
    !exports.contains((#[trigger] functions[i]).name@) && functions[i].num_blocks > 0
        && functions[i].subprogram is Some) by {}
    if is_fixable(functions, exports) {
        assert forall|i: int, j: int|
            0 <= i < j < functions.len() && !exports.contains((#[trigger] functions[i]).name@)
                && functions[i].num_blocks > 0 && functions[i].subprogram is Some
                && !exports.contains((#[trigger] functions[j]).name@) && functions[j].num_blocks > 0
                && functions[j].subprogram is Some implies functions[i].subprogram->Some_0.id
            != functions[j].subprogram->Some_0.id by {
            assert(needs_fix(functions[i], exports) && needs_fix(functions[j], exports));
        }
    }
}

} // verus!
