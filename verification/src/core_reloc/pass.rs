//! The relocation pass: accesses through known pointers are rewritten so that
//! they survive a change of the layout of the types they go through.
use std::collections::HashSet;

use vstd::prelude::*;

use crate::core_reloc::error::CoreRelocError;
use crate::core_reloc::gep::{Gep, IrType};
use crate::core_reloc::path::{Emitter, EmitterModel, ValueInfo};
use crate::core_reloc::rewrite;
use crate::core_reloc::rewrite::{are_values_wf, RewriteContext, RewriteModel};
use crate::core_reloc::seed;
use crate::core_reloc::seed::{is_instruction_in_range, InstructionInfo, SeedModel, Seeds};
use crate::core_reloc::types;
use crate::core_reloc::types::{are_types_wf, DiType};

verus! {

/// A function: the types of its return value and parameters where it has debug
/// information, its parameters, and the instructions of its blocks.
pub struct FunctionInfo {
    pub subroutine_types: Option<Vec<Option<usize>>>,
    pub params: Vec<usize>,
    pub instructions: Vec<InstructionInfo>,
}

/// What the pass reads of a module.
pub struct ModuleInfo {
    pub types: Vec<DiType>,
    pub ir_types: Vec<IrType>,
    pub geps: Vec<Gep>,
    pub preserve_access_types: HashSet<usize>,
    pub dbg_value_intrinsic_id: u32,
    pub functions: Vec<FunctionInfo>,
}

/// Whether what a function mentions exists.
pub open spec fn function_in_range(all: Seq<DiType>, function: FunctionInfo, values: nat) -> bool {
    &&& function.subroutine_types is Some ==> forall|i: int|
        0 <= i < function.subroutine_types->Some_0@.len() ==> types::in_range(
            all,
            #[trigger] function.subroutine_types->Some_0@[i],
        )
    &&& forall|i: int|
        0 <= i < function.instructions@.len() ==> seed::instruction_in_range(
            all,
            #[trigger] function.instructions@[i],
            values,
        )
}

/// Whether everything that a module mentions exists.
pub open spec fn wf_module(module: ModuleInfo, values: Seq<ValueInfo>) -> bool {
    &&& types::wf_types(module.types@)
    &&& rewrite::wf_geps(module.ir_types@, module.geps@)
    &&& rewrite::wf_values(values, module.geps@.len())
    &&& forall|i: int|
        0 <= i < module.functions@.len() ==> function_in_range(
            module.types@,
            #[trigger] module.functions@[i],
            values.len(),
        )
}

/// What is known about the pointers of a function before it is rewritten.
pub open spec fn known_pointers(
    module: ModuleInfo,
    values: Seq<ValueInfo>,
    function: FunctionInfo,
) -> Map<usize, usize> {
    let all = module.types@;
    let preserve = module.preserve_access_types@;
    let from_params = match function.subroutine_types {
        Some(list) => seed::seed_params(
            all,
            preserve,
            function.params@,
            list@,
            seed::param_count(function.params@, list@),
        ),
        None => Map::empty(),
    };
    seed::seed_instructions(
        all,
        preserve,
        module.dbg_value_intrinsic_id,
        values,
        SeedModel { pointers: from_params, declared: Map::empty(), pending: Seq::empty() },
        function.instructions@,
        function.instructions@.len(),
    ).pointers
}

/// Rewrites the first `n` instructions of a function, up to the first error.
pub open spec fn rewrite_instructions(
    module: ModuleInfo,
    state: RewriteModel,
    instructions: Seq<InstructionInfo>,
    n: nat,
) -> (RewriteModel, Result<(), CoreRelocError>)
    decreases n,
{
    if n == 0 {
        (state, Ok(()))
    } else {
        let (next, result) = rewrite_instructions(
            module,
            state,
            instructions,
            (n - 1) as nat,
        );
        if result is Err {
            (next, result)
        } else {
            rewrite::rewrite(
                module.types@,
                module.ir_types@,
                module.geps@,
                next,
                instructions[n - 1].value,
            )
        }
    }
}

/// Rewrites one function.
pub open spec fn run_function(
    module: ModuleInfo,
    emitter: EmitterModel,
    function: FunctionInfo,
) -> (EmitterModel, Result<(), CoreRelocError>) {
    let (next, result) = rewrite_instructions(
        module,
        RewriteModel { emitter, pointers: known_pointers(module, emitter.values, function) },
        function.instructions@,
        function.instructions@.len(),
    );
    (next.emitter, result)
}

/// Rewrites the first `n` functions of a module, up to the first error.
pub open spec fn run_functions(module: ModuleInfo, emitter: EmitterModel, n: nat) -> (
    EmitterModel,
    Result<(), CoreRelocError>,
)
    decreases n,
{
    if n == 0 {
        (emitter, Ok(()))
    } else {
        let (next, result) = run_functions(module, emitter, (n - 1) as nat);
        if result is Err {
            (next, result)
        } else {
            run_function(module, next, module.functions@[n - 1])
        }
    }
}

/// An error stays: nothing is rewritten after it.
proof fn lemma_instructions_stop(
    module: ModuleInfo,
    state: RewriteModel,
    instructions: Seq<InstructionInfo>,
    k: nat,
    n: nat,
)
    requires
        k <= n,
        rewrite_instructions(module, state, instructions, k).1 is Err,
    ensures
        rewrite_instructions(module, state, instructions, n) == rewrite_instructions(
            module,
            state,
            instructions,
            k,
        ),
    decreases n,
{
    if k < n {
        lemma_instructions_stop(module, state, instructions, k, (n - 1) as nat);
    }
}

proof fn lemma_functions_stop(module: ModuleInfo, emitter: EmitterModel, k: nat, n: nat)
    requires
        k <= n,
        run_functions(module, emitter, k).1 is Err,
    ensures
        run_functions(module, emitter, n) == run_functions(module, emitter, k),
    decreases n,
{
    if k < n {
        lemma_functions_stop(module, emitter, k, (n - 1) as nat);
    }
}

/// The pass over one module.
pub struct CoreRelocPass<'a> {
    pub module: &'a ModuleInfo,
    pub emitter: Emitter,
}

impl<'a> CoreRelocPass<'a> {
    pub fn new(module: &'a ModuleInfo, values: Vec<ValueInfo>) -> (r: Self)
        ensures
            r.module == module,
            r.emitter.values@ == values@,
            r.emitter.actions@ == Seq::<crate::core_reloc::path::Action>::empty(),
    {
        CoreRelocPass { module, emitter: Emitter { values, actions: Vec::new() } }
    }

    fn run_function(&mut self, index: usize) -> (r: Result<(), CoreRelocError>)
        requires
            wf_module(*old(self).module, old(self).emitter.values@),
            index < old(self).module.functions@.len(),
        ensures
            final(self).module == old(self).module,
            wf_module(*final(self).module, final(self).emitter.values@),
            (final(self).emitter@, r) == run_function(
                *old(self).module,
                old(self).emitter@,
                old(self).module.functions@[index as int],
            ),
    {
        let module: &'a ModuleInfo = self.module;
        let function = &module.functions[index];
        let ghost start = self.emitter@;
        assert(function_in_range(module.types@, module.functions@[index as int], start.values.len()));
        let mut seeds = Seeds::new();
        if let Some(list) = &function.subroutine_types {
            seeds.seed_params(
                &module.types,
                &module.preserve_access_types,
                &function.params,
                list,
            );
        }
        seeds.seed_instructions(
            &module.types,
            &module.preserve_access_types,
            module.dbg_value_intrinsic_id,
            &self.emitter.values,
            &function.instructions,
        );
        let mut pointers = seeds.pointers;
        assert(pointers@ == known_pointers(*module, start.values, *function));
        let ghost init = RewriteModel { emitter: start, pointers: pointers@ };
        let context = RewriteContext {
            types: &module.types,
            ir_types: &module.ir_types,
            geps: &module.geps,
        };
        let mut k: usize = 0;
        while k < function.instructions.len()
            invariant
                k <= function.instructions@.len(),
                self.module == module,
                module == old(self).module,
                *function == module.functions@[index as int],
                index < module.functions@.len(),
                start == old(self).emitter@,
                init.emitter == start,
                init.pointers == known_pointers(*module, start.values, *function),
                wf_module(*module, start.values),
                start.values.len() <= self.emitter.values@.len(),
                rewrite::wf_values(self.emitter.values@, module.geps@.len()),
                seed::are_composites(module.types@, pointers@),
                context.wf(),
                context.types@ == module.types@,
                context.ir_types@ == module.ir_types@,
                context.geps@ == module.geps@,
                rewrite_instructions(*module, init, function.instructions@, k as nat) == (
                    RewriteModel { emitter: self.emitter@, pointers: pointers@ },
                    Ok::<(), CoreRelocError>(()),
                ),
            decreases function.instructions@.len() - k,
        {
            let id: usize = function.instructions[k].value;
            assert(function_in_range(
                module.types@,
                module.functions@[index as int],
                start.values.len(),
            ));
            assert(seed::instruction_in_range(
                module.types@,
                function.instructions@[k as int],
                start.values.len(),
            ));
            let result = context.rewrite(&mut self.emitter, &mut pointers, id);
            k = k + 1;
            assert(rewrite_instructions(*module, init, function.instructions@, k as nat) == (
                RewriteModel { emitter: self.emitter@, pointers: pointers@ },
                result,
            ));
            if result.is_err() {
                proof {
                    lemma_instructions_stop(
                        *module,
                        init,
                        function.instructions@,
                        k as nat,
                        function.instructions@.len(),
                    );
                    lemma_module_extends(*module, start.values, self.emitter.values@);
                }
                return result;
            }
        }
        proof {
            lemma_module_extends(*module, start.values, self.emitter.values@);
        }
        Ok(())
    }

    /// Rewrites the functions of the module in order, up to the first error.
    pub fn run(&mut self) -> (r: Result<(), CoreRelocError>)
        requires
            wf_module(*old(self).module, old(self).emitter.values@),
        ensures
            final(self).module == old(self).module,
            (final(self).emitter@, r) == run_functions(
                *old(self).module,
                old(self).emitter@,
                old(self).module.functions@.len(),
            ),
    {
        let ghost module = *self.module;
        let ghost start = self.emitter@;
        let mut k: usize = 0;
        while k < self.module.functions.len()
            invariant
                k <= module.functions@.len(),
                *self.module == module,
                self.module == old(self).module,
                start == old(self).emitter@,
                wf_module(module, self.emitter.values@),
                run_functions(module, start, k as nat) == (
                    self.emitter@,
                    Ok::<(), CoreRelocError>(()),
                ),
            decreases module.functions@.len() - k,
        {
            let result = self.run_function(k);
            k = k + 1;
            if result.is_err() {
                proof {
                    lemma_functions_stop(module, start, k as nat, module.functions@.len());
                }
                return result;
            }
        }
        Ok(())
    }
}

/// Added values put no reference out of range.
proof fn lemma_module_extends(module: ModuleInfo, values: Seq<ValueInfo>, more: Seq<ValueInfo>)
    requires
        wf_module(module, values),
        values.len() <= more.len(),
        rewrite::wf_values(more, module.geps@.len()),
    ensures
        wf_module(module, more),
{
    assert forall|i: int| 0 <= i < module.functions@.len() implies function_in_range(
        module.types@,
        #[trigger] module.functions@[i],
        more.len(),
    ) by {
        let function = module.functions@[i];
        assert(function_in_range(module.types@, function, values.len()));
        assert forall|j: int|
            0 <= j < function.instructions@.len() implies seed::instruction_in_range(
            module.types@,
            #[trigger] function.instructions@[j],
            more.len(),
        ) by {
            assert(seed::instruction_in_range(
                module.types@,
                function.instructions@[j],
                values.len(),
            ));
        }
    }
}

fn is_function_in_range(all: &Vec<DiType>, function: &FunctionInfo, values: usize) -> (r: bool)
    ensures
        r == function_in_range(all@, *function, values as nat),
{
    if let Some(list) = &function.subroutine_types {
        let mut i: usize = 0;
        while i < list.len()
            invariant
                i <= list@.len(),
                function.subroutine_types == Some(*list),
                forall|j: int| 0 <= j < i ==> types::in_range(all@, #[trigger] list@[j]),
            decreases list@.len() - i,
        {
            if let Some(id) = list[i] {
                if id >= all.len() {
                    assert(!types::in_range(all@, function.subroutine_types->Some_0@[i as int]));
                    return false;
                }
            }
            i = i + 1;
        }
    }
    let mut k: usize = 0;
    while k < function.instructions.len()
        invariant
            k <= function.instructions@.len(),
            forall|j: int|
                0 <= j < k ==> seed::instruction_in_range(
                    all@,
                    #[trigger] function.instructions@[j],
                    values as nat,
                ),
            function.subroutine_types is Some ==> forall|i: int|
                0 <= i < function.subroutine_types->Some_0@.len() ==> types::in_range(
                    all@,
                    #[trigger] function.subroutine_types->Some_0@[i],
                ),
        decreases function.instructions@.len() - k,
    {
        if !is_instruction_in_range(all, &function.instructions[k], values) {
            assert(!seed::instruction_in_range(
                all@,
                function.instructions@[k as int],
                values as nat,
            ));
            return false;
        }
        k = k + 1;
    }
    true
}

/// Decides whether everything that a module mentions exists.
pub fn is_module_wf(module: &ModuleInfo, values: &Vec<ValueInfo>) -> (r: bool)
    ensures
        r == wf_module(*module, values@),
{
    if !are_types_wf(&module.types) || !are_values_wf(&module.ir_types, &module.geps, values) {
        return false;
    }
    let mut i: usize = 0;
    while i < module.functions.len()
        invariant
            i <= module.functions@.len(),
            types::wf_types(module.types@),
            rewrite::wf_geps(module.ir_types@, module.geps@),
            rewrite::wf_values(values@, module.geps@.len()),
            forall|j: int|
                0 <= j < i ==> function_in_range(
                    module.types@,
                    #[trigger] module.functions@[j],
                    values@.len(),
                ),
        decreases module.functions@.len() - i,
    {
        if !is_function_in_range(&module.types, &module.functions[i], values.len()) {
            assert(!function_in_range(
                module.types@,
                module.functions@[i as int],
                values@.len(),
            ));
            return false;
        }
        i = i + 1;
    }
    true
}

} // verus!
