//! Which pointers of a function are known, and how the pass goes through a module.
use vstd::prelude::*;

use crate::core_reloc::error::CoreRelocError;
use crate::core_reloc::pass;
use crate::core_reloc::pass::{FunctionInfo, ModuleInfo};
use crate::core_reloc::path::{EmitterModel, ValueInfo};
use crate::core_reloc::rewrite;
use crate::core_reloc::rewrite::RewriteModel;
use crate::core_reloc::seed;
use crate::core_reloc::seed::{CallInfo, DbgRecord, InstructionInfo, SeedModel, Variable};
use crate::core_reloc::types::DiType;

verus! {

/// Whether a type is a pointer to a composite type accesses to which are preserved.
pub open spec fn leads_to(
    all: Seq<DiType>,
    preserve: Set<usize>,
    ty: Option<usize>,
    composite: usize,
) -> bool {
    ty is Some && match all[ty->Some_0 as int] {
        DiType::Derived { tag, base, .. } => tag == 0x0f && base == Some(composite)
            && all[composite as int] is Composite && preserve.contains(composite),
        _ => false,
    }
}

/// Whether what is said about a variable is that it is a local one which points to a
/// composite type accesses to which are preserved.
pub open spec fn describes(
    all: Seq<DiType>,
    preserve: Set<usize>,
    variable: Option<Variable>,
    composite: usize,
) -> bool {
    variable is Some && variable->Some_0.is_local_variable && leads_to(
        all,
        preserve,
        variable->Some_0.ty,
        composite,
    )
}

proof fn lemma_describes(
    all: Seq<DiType>,
    preserve: Set<usize>,
    variable: Option<Variable>,
    ty: Option<usize>,
)
    ensures
        forall|c: usize|
            seed::variable_composite(all, preserve, variable) == Some(c) <==> #[trigger] describes(
                all,
                preserve,
                variable,
                c,
            ),
        forall|c: usize|
            seed::preserved_composite(all, preserve, ty) == Some(c) <==> #[trigger] leads_to(
                all,
                preserve,
                ty,
                c,
            ),
{
}

/// Only pointers to preserved composite types are of interest, and all of those are.
pub proof fn preserved_types_are_pointed_to(
    all: Seq<DiType>,
    preserve: Set<usize>,
    ty: Option<usize>,
    composite: usize,
)
    ensures
        seed::preserved_composite(all, preserve, ty) == Some(composite) <==> leads_to(
            all,
            preserve,
            ty,
            composite,
        ),
{
}

/// A record that gives a variable a value makes that value known where the variable
/// points to a preserved type, and does nothing else.
pub proof fn value_record_makes_its_value_known(
    all: Seq<DiType>,
    preserve: Set<usize>,
    known: SeedModel,
    value: usize,
    variable: Option<Variable>,
    composite: usize,
)
    ensures
        ({
            let next = seed::seed_record(
                all,
                preserve,
                known,
                DbgRecord::Value { value: Some(value), variable },
            );
            &&& next.declared == known.declared
            &&& next.pending == known.pending
            &&& describes(all, preserve, variable, composite) ==> next.pointers
                == known.pointers.insert(value, composite)
            &&& (forall|c: usize| !#[trigger] describes(all, preserve, variable, c))
                ==> next.pointers == known.pointers
        }),
        seed::seed_record(all, preserve, known, DbgRecord::Value { value: None, variable })
            == known,
        seed::seed_record(all, preserve, known, DbgRecord::Declare { slot: None, variable })
            == known,
        seed::seed_record(all, preserve, known, DbgRecord::Other) == known,
{
    lemma_describes(all, preserve, variable, None);
    if let Some(c) = seed::variable_composite(all, preserve, variable) {
        assert(describes(all, preserve, variable, c));
    }
}

proof fn lemma_pending(
    pointers: Map<usize, usize>,
    pending: Seq<(usize, usize)>,
    slot: usize,
    composite: usize,
    v: usize,
)
    ensures
        ({
            let after = seed::resolve_pending(pointers, pending, slot, composite);
            if pending.contains((slot, v)) {
                after.contains_key(v) && after[v] == composite
            } else {
                after.contains_key(v) == pointers.contains_key(v) && (pointers.contains_key(v)
                    ==> after[v] == pointers[v])
            }
        }),
        seed::other_pending(pending, slot) == pending.filter(|p: (usize, usize)| p.0 != slot),
    decreases pending.len(),
{
    reveal(Seq::filter);
    if pending.len() > 0 {
        let front = pending.drop_last();
        lemma_pending(pointers, front, slot, composite, v);
        if front.contains((slot, v)) {
            let i = choose|i: int| 0 <= i < front.len() && front[i] == (slot, v);
            assert(pending[i] == (slot, v));
        }
        if pending.contains((slot, v)) {
            let i = choose|i: int| 0 <= i < pending.len() && pending[i] == (slot, v);
            if i < front.len() {
                assert(front[i] == (slot, v));
            }
        }
        assert(pending[pending.len() - 1] == pending.last());
    }
}

/// A record that declares a slot for a variable which points to a preserved type makes
/// known every value that waits for the slot, and no other. These wait no longer; the
/// others do, in the order they had. A slot for any other variable changes nothing.
pub proof fn declaration_makes_waiting_values_known(
    all: Seq<DiType>,
    preserve: Set<usize>,
    known: SeedModel,
    slot: usize,
    variable: Option<Variable>,
    composite: usize,
    v: usize,
)
    ensures
        ({
            let next = seed::seed_record(
                all,
                preserve,
                known,
                DbgRecord::Declare { slot: Some(slot), variable },
            );
            &&& describes(all, preserve, variable, composite) ==> {
                &&& next.declared == known.declared.insert(slot, composite)
                &&& next.pending == known.pending.filter(|p: (usize, usize)| p.0 != slot)
                &&& if known.pending.contains((slot, v)) {
                    next.pointers.contains_key(v) && next.pointers[v] == composite
                } else {
                    &&& next.pointers.contains_key(v) == known.pointers.contains_key(v)
                    &&& known.pointers.contains_key(v) ==> next.pointers[v] == known.pointers[v]
                }
            }
            &&& (forall|c: usize| !#[trigger] describes(all, preserve, variable, c)) ==> next
                == known
        }),
{
    lemma_describes(all, preserve, variable, None);
    if let Some(c) = seed::variable_composite(all, preserve, variable) {
        assert(describes(all, preserve, variable, c));
        lemma_pending(known.pointers, known.pending, slot, c, v);
    }
}

/// A value that is stored to a declared slot is known; one that is stored to any other
/// waits for the slot behind all that wait already.
pub proof fn stored_value_is_known_or_waits(known: SeedModel, value: ValueInfo)
    ensures
        ({
            let next = seed::seed_store(known, value);
            match value {
                ValueInfo::Store { value: v, pointer: slot, .. } => {
                    &&& next.declared == known.declared
                    &&& known.declared.contains_key(slot) ==> next.pointers
                        == known.pointers.insert(v, known.declared[slot]) && next.pending
                        == known.pending
                    &&& !known.declared.contains_key(slot) ==> next.pointers == known.pointers
                        && next.pending == known.pending.push((slot, v))
                },
                _ => next == known,
            }
        }),
{
}

/// It does not matter whether a slot is declared before or after a value is stored to
/// it: the value is known either way, and points to the same type.
pub proof fn declaration_and_store_commute(
    all: Seq<DiType>,
    preserve: Set<usize>,
    known: SeedModel,
    slot: usize,
    variable: Option<Variable>,
    composite: usize,
    store: ValueInfo,
)
    requires
        describes(all, preserve, variable, composite),
        store is Store,
        store->Store_pointer == slot,
        !known.declared.contains_key(slot),
    ensures
        ({
            let record = DbgRecord::Declare { slot: Some(slot), variable };
            let v = store->Store_value;
            let declared_first = seed::seed_store(
                seed::seed_record(all, preserve, known, record),
                store,
            );
            let stored_first = seed::seed_record(
                all,
                preserve,
                seed::seed_store(known, store),
                record,
            );
            &&& declared_first.pointers.contains_key(v) && declared_first.pointers[v] == composite
            &&& stored_first.pointers.contains_key(v) && stored_first.pointers[v] == composite
            &&& declared_first.pointers =~= stored_first.pointers
            &&& declared_first.declared =~= stored_first.declared
            &&& declared_first.pending =~= stored_first.pending
        }),
{
    let record = DbgRecord::Declare { slot: Some(slot), variable };
    let v = store->Store_value;
    let waiting = known.pending.push((slot, v));
    lemma_describes(all, preserve, variable, None);
    assert(waiting.drop_last() =~= known.pending);
    assert(waiting[waiting.len() - 1] == (slot, v));
    lemma_pending(known.pointers, waiting, slot, composite, v);
    lemma_pending(known.pointers, known.pending, slot, composite, v);
}

/// A call of the intrinsic that describes a value counts as a record of that kind where
/// it has exactly two arguments that are values; any other call says nothing.
pub proof fn describing_call_counts_as_a_record(
    all: Seq<DiType>,
    preserve: Set<usize>,
    dbg_value: u32,
    known: SeedModel,
    call: CallInfo,
    value: usize,
)
    ensures
        call.intrinsic == Some(dbg_value) && call.args@.len() == 2 && call.args@[0].value == Some(
            value,
        ) && call.args@[1].value is Some ==> seed::seed_call(
            all,
            preserve,
            dbg_value,
            known,
            Some(call),
        ) == seed::seed_record(
            all,
            preserve,
            known,
            DbgRecord::Value { value: Some(value), variable: call.args@[1].variable },
        ),
        call.intrinsic != Some(dbg_value) || call.args@.len() != 2 || call.args@[0].value is None
            || call.args@[1].value is None ==> seed::seed_call(
            all,
            preserve,
            dbg_value,
            known,
            Some(call),
        ) == known,
        seed::seed_call(all, preserve, dbg_value, known, None) == known,
{
}

/// Whether no value occurs twice in a list.
pub open spec fn are_distinct(ids: Seq<usize>) -> bool {
    forall|i: int, j: int| 0 <= i < j < ids.len() ==> ids[i] != ids[j]
}

/// A parameter is known exactly if the list of types has, behind the return type, a
/// pointer to a preserved type at its place. Nothing but parameters is known that way.
pub proof fn parameters_are_known_by_their_types(
    all: Seq<DiType>,
    preserve: Set<usize>,
    params: Seq<usize>,
    list: Seq<Option<usize>>,
    n: nat,
    v: usize,
    composite: usize,
)
    requires
        are_distinct(params),
        n <= params.len(),
        n < list.len(),
    ensures
        ({
            let known = seed::seed_params(all, preserve, params, list, n);
            known.contains_key(v) && known[v] == composite <==> exists|i: int|
                0 <= i < n && #[trigger] params[i] == v && leads_to(
                    all,
                    preserve,
                    list[i + 1],
                    composite,
                )
        }),
    decreases n,
{
    if n > 0 {
        let m = (n - 1) as nat;
        parameters_are_known_by_their_types(all, preserve, params, list, m, v, composite);
        let before = seed::seed_params(all, preserve, params, list, m);
        let known = seed::seed_params(all, preserve, params, list, n);
        lemma_describes(all, preserve, None, list[n as int]);
        lemma_param_keys(all, preserve, params, list, m);
        if known.contains_key(v) && known[v] == composite {
            if v == params[m as int] {
                assert(leads_to(all, preserve, list[n as int], composite)) by {
                    if seed::preserved_composite(all, preserve, list[n as int]) is None {
                        let i = choose|i: int| 0 <= i < m && #[trigger] params[i] == v;
                        assert(params[i] != params[m as int]);
                    }
                }
            }
        }
        if exists|i: int|
            0 <= i < n && #[trigger] params[i] == v && leads_to(
                all,
                preserve,
                list[i + 1],
                composite,
            ) {
            let i = choose|i: int|
                0 <= i < n && #[trigger] params[i] == v && leads_to(
                    all,
                    preserve,
                    list[i + 1],
                    composite,
                );
            if i < m {
                assert(params[i] != params[m as int]);
            }
        }
    }
}

proof fn lemma_param_keys(
    all: Seq<DiType>,
    preserve: Set<usize>,
    params: Seq<usize>,
    list: Seq<Option<usize>>,
    n: nat,
)
    requires
        n <= params.len(),
    ensures
        forall|v: usize| #[trigger]
            seed::seed_params(all, preserve, params, list, n).contains_key(v) ==> exists|i: int|
                0 <= i < n && #[trigger] params[i] == v,
    decreases n,
{
    if n > 0 {
        lemma_param_keys(all, preserve, params, list, (n - 1) as nat);
        let known = seed::seed_params(all, preserve, params, list, n);
        assert forall|v: usize| #[trigger] known.contains_key(v) implies exists|i: int|
            0 <= i < n && #[trigger] params[i] == v by {
            if v == params[n - 1] {
                assert(params[n - 1] == v);
            } else {
                assert(seed::seed_params(all, preserve, params, list, (n - 1) as nat).contains_key(
                    v,
                ));
                let i = choose|i: int| 0 <= i < n - 1 && #[trigger] params[i] == v;
                assert(params[i] == v);
            }
        }
    }
}

/// As many parameters are looked at as there are types behind the return type, or as
/// there are parameters if these are fewer.
pub proof fn parameters_are_paired_with_types(params: Seq<usize>, list: Seq<Option<usize>>)
    ensures
        seed::param_count(params, list) <= params.len(),
        list.len() > 0 ==> seed::param_count(params, list) < list.len(),
        list.len() > 0 ==> seed::param_count(params, list) == params.len() || seed::param_count(
            params,
            list,
        ) == list.len() - 1,
        list.len() == 0 ==> seed::param_count(params, list) == 0,
{
}

/// What is known in front of the next record, call or store is all that was known before
/// and what those add, in their order: the records in front of an instruction, the
/// instruction as a call, and as a store.
pub proof fn instructions_are_looked_at_in_order(
    all: Seq<DiType>,
    preserve: Set<usize>,
    dbg_value: u32,
    values: Seq<ValueInfo>,
    known: SeedModel,
    instructions: Seq<InstructionInfo>,
    n: nat,
)
    requires
        n < instructions.len(),
    ensures
        seed::seed_instructions(all, preserve, dbg_value, values, known, instructions, 0) == known,
        ({
            let before = seed::seed_instructions(
                all,
                preserve,
                dbg_value,
                values,
                known,
                instructions,
                n,
            );
            let instruction = instructions[n as int];
            let recorded = instruction.records@.fold_left(
                before,
                |seen: SeedModel, record: DbgRecord|
                    seed::seed_record(all, preserve, seen, record),
            );
            let called = seed::seed_call(all, preserve, dbg_value, recorded, instruction.call);
            seed::seed_instructions(all, preserve, dbg_value, values, known, instructions, n + 1)
                == seed::seed_store(called, values[instruction.value as int])
        }),
{
    let before = seed::seed_instructions(
        all,
        preserve,
        dbg_value,
        values,
        known,
        instructions,
        n,
    );
    let records = instructions[n as int].records@;
    lemma_records(all, preserve, before, records, records.len());
    assert(records.take(records.len() as int) =~= records);
}

proof fn lemma_records(
    all: Seq<DiType>,
    preserve: Set<usize>,
    known: SeedModel,
    records: Seq<DbgRecord>,
    n: nat,
)
    requires
        n <= records.len(),
    ensures
        seed::seed_records(all, preserve, known, records, n) == records.take(n as int).fold_left(
            known,
            |seen: SeedModel, record: DbgRecord| seed::seed_record(all, preserve, seen, record),
        ),
    decreases n,
{
    let f = |seen: SeedModel, record: DbgRecord| seed::seed_record(all, preserve, seen, record);
    if n > 0 {
        lemma_records(all, preserve, known, records, (n - 1) as nat);
        let part = records.take(n as int);
        assert(part.drop_last() =~= records.take(n - 1));
        assert(part.last() == records[n - 1]);
        assert(part.fold_left(known, f) == f(part.drop_last().fold_left(known, f), part.last()));
    }
}

/// The instructions of a function are rewritten one after the other; the first error
/// ends that.
pub proof fn instructions_are_rewritten_in_order(
    module: ModuleInfo,
    state: RewriteModel,
    instructions: Seq<InstructionInfo>,
    n: nat,
)
    requires
        n < instructions.len(),
    ensures
        pass::rewrite_instructions(module, state, instructions, 0) == (
            state,
            Ok::<(), CoreRelocError>(()),
        ),
        ({
            let (before, result) = pass::rewrite_instructions(module, state, instructions, n);
            pass::rewrite_instructions(module, state, instructions, n + 1) == (if result is Err {
                (before, result)
            } else {
                rewrite::rewrite(
                    module.types@,
                    module.ir_types@,
                    module.geps@,
                    before,
                    instructions[n as int].value,
                )
            })
        }),
{
}

/// The functions of a module are rewritten one after the other, each with what is known
/// of its own pointers; the first error ends that.
pub proof fn functions_are_rewritten_in_order(module: ModuleInfo, emitter: EmitterModel, n: nat)
    requires
        n < module.functions@.len(),
    ensures
        pass::run_functions(module, emitter, 0) == (emitter, Ok::<(), CoreRelocError>(())),
        ({
            let (before, result) = pass::run_functions(module, emitter, n);
            let function = module.functions@[n as int];
            let (after, end) = pass::run_functions(module, emitter, n + 1);
            if result is Err {
                after == before && end == result
            } else {
                let whole = pass::rewrite_instructions(
                    module,
                    RewriteModel {
                        emitter: before,
                        pointers: pass::known_pointers(module, before.values, function),
                    },
                    function.instructions@,
                    function.instructions@.len(),
                );
                after == whole.0.emitter && end == whole.1
            }
        }),
{
}

/// What is known in front of the instructions of a function are its parameters, if it has
/// debug information; no slot is declared, and nothing waits.
pub proof fn function_starts_with_its_parameters(
    module: ModuleInfo,
    values: Seq<ValueInfo>,
    function: FunctionInfo,
)
    ensures
        ({
            let list = function.subroutine_types->Some_0@;
            let from_params = seed::seed_params(
                module.types@,
                module.preserve_access_types@,
                function.params@,
                list,
                seed::param_count(function.params@, list),
            );
            pass::known_pointers(module, values, function) == seed::seed_instructions(
                module.types@,
                module.preserve_access_types@,
                module.dbg_value_intrinsic_id,
                values,
                SeedModel {
                    pointers: if function.subroutine_types is Some {
                        from_params
                    } else {
                        Map::empty()
                    },
                    declared: Map::empty(),
                    pending: Seq::empty(),
                },
                function.instructions@,
                function.instructions@.len(),
            ).pointers
        }),
{
}

/// Whether a type that is mentioned exists.
pub open spec fn exists_type(all: Seq<DiType>, ty: Option<usize>) -> bool {
    ty is Some ==> ty->Some_0 < all.len()
}

/// Whether the type that is said of a variable exists, where one is.
pub open spec fn exists_variable(all: Seq<DiType>, variable: Option<Variable>) -> bool {
    variable is Some ==> exists_type(all, variable->Some_0.ty)
}

/// An instruction can be looked at exactly if its value exists, and every type that its
/// records and arguments mention.
pub proof fn instructions_mention_what_exists(
    all: Seq<DiType>,
    instruction: InstructionInfo,
    values: nat,
)
    ensures
        seed::instruction_in_range(all, instruction, values) <==> {
            &&& instruction.value < values
            &&& forall|i: int|
                0 <= i < instruction.records@.len() ==> match #[trigger] instruction.records@[i] {
                    DbgRecord::Value { variable, .. } => exists_variable(all, variable),
                    DbgRecord::Declare { variable, .. } => exists_variable(all, variable),
                    DbgRecord::Other => true,
                }
            &&& instruction.call is Some ==> forall|i: int|
                0 <= i < instruction.call->Some_0.args@.len() ==> exists_variable(
                    all,
                    (#[trigger] instruction.call->Some_0.args@[i]).variable,
                )
        },
{
    assert forall|i: int| 0 <= i < instruction.records@.len() implies seed::record_in_range(
        all,
        instruction.records@[i],
    ) == (match #[trigger] instruction.records@[i] {
        DbgRecord::Value { variable, .. } => exists_variable(all, variable),
        DbgRecord::Declare { variable, .. } => exists_variable(all, variable),
        DbgRecord::Other => true,
    }) by {}
    if instruction.call is Some {
        assert forall|i: int| 0 <= i < instruction.call->Some_0.args@.len() implies
            seed::variable_in_range(all, instruction.call->Some_0.args@[i].variable)
            == exists_variable(
            all,
            (#[trigger] instruction.call->Some_0.args@[i]).variable,
        ) by {}
    }
}

/// The pass can go through a module exactly if its types, address computations and values are
/// well-formed, and everything that its functions mention exists.
pub proof fn functions_mention_what_exists(module: ModuleInfo, values: Seq<ValueInfo>)
    ensures
        pass::wf_module(module, values) <==> {
            &&& crate::core_reloc::types::wf_types(module.types@)
            &&& rewrite::wf_geps(module.ir_types@, module.geps@)
            &&& rewrite::wf_values(values, module.geps@.len())
            &&& forall|f: int|
                0 <= f < module.functions@.len() ==> {
                    let function = #[trigger] module.functions@[f];
                    &&& function.subroutine_types is Some ==> forall|i: int|
                        0 <= i < function.subroutine_types->Some_0@.len() ==> exists_type(
                            module.types@,
                            #[trigger] function.subroutine_types->Some_0@[i],
                        )
                    &&& forall|i: int|
                        0 <= i < function.instructions@.len() ==> seed::instruction_in_range(
                            module.types@,
                            #[trigger] function.instructions@[i],
                            values.len(),
                        )
                }
        },
{
    assert forall|f: int| 0 <= f < module.functions@.len() implies pass::function_in_range(
        module.types@,
        module.functions@[f],
        values.len(),
    ) == ({
        let function = #[trigger] module.functions@[f];
        &&& function.subroutine_types is Some ==> forall|i: int|
            0 <= i < function.subroutine_types->Some_0@.len() ==> exists_type(
                module.types@,
                #[trigger] function.subroutine_types->Some_0@[i],
            )
        &&& forall|i: int|
            0 <= i < function.instructions@.len() ==> seed::instruction_in_range(
                module.types@,
                #[trigger] function.instructions@[i],
                values.len(),
            )
    }) by {
        let function = module.functions@[f];
        if function.subroutine_types is Some {
            let list = function.subroutine_types->Some_0@;
            assert forall|i: int| 0 <= i < list.len() implies crate::core_reloc::types::in_range(
                module.types@,
                list[i],
            ) == exists_type(module.types@, #[trigger] list[i]) by {}
        }
    }
}

} // verus!
