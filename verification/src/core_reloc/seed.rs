//! What is known about the pointers of a function from its debug information.
use std::collections::{HashMap, HashSet};

use vstd::prelude::*;

use crate::core_reloc::path::ValueInfo;
use crate::core_reloc::types;
use crate::core_reloc::types::{base_type, is_pointer_type, value_composite, DiType};

verus! {

broadcast use vstd::std_specs::hash::group_hash_axioms;

/// What a debug record says about a variable: whether it describes a local
/// variable, and the type of that.
#[derive(Clone, Copy, Debug, PartialEq, Eq, Structural)]
pub struct Variable {
    pub is_local_variable: bool,
    pub ty: Option<usize>,
}

/// A debug record. A value or slot that is not set is `None`.
#[derive(Clone, Copy, Debug, PartialEq, Eq, Structural)]
pub enum DbgRecord {
    Value { value: Option<usize>, variable: Option<Variable> },
    Declare { slot: Option<usize>, variable: Option<Variable> },
    Other,
}

/// An argument of a call, and what it says about a variable if it does.
#[derive(Clone, Copy, Debug, PartialEq, Eq, Structural)]
pub struct CallArg {
    pub value: Option<usize>,
    pub variable: Option<Variable>,
}

/// A call. A call without a known callee has no intrinsic number.
pub struct CallInfo {
    pub intrinsic: Option<u32>,
    pub args: Vec<CallArg>,
}

/// An instruction, with the debug records that stand before it.
pub struct InstructionInfo {
    pub value: usize,
    pub records: Vec<DbgRecord>,
    pub call: Option<CallInfo>,
}

/// What is known while the instructions of a function are looked at: the
/// composite type behind each pointer, the slots that were declared to hold such
/// a pointer, and the stores to slots that were not declared yet.
pub struct SeedModel {
    pub pointers: Map<usize, usize>,
    pub declared: Map<usize, usize>,
    pub pending: Seq<(usize, usize)>,
}

/// The composite type that a pointer type leads to, where accesses to it are to
/// be preserved.
pub open spec fn preserved_composite(
    all: Seq<DiType>,
    preserve: Set<usize>,
    ty: Option<usize>,
) -> Option<usize> {
    match ty {
        Some(id) => if types::is_pointer(all, id) {
            match types::composite_of(all, types::base_of(all, id)) {
                Some(composite) => if preserve.contains(composite) {
                    Some(composite)
                } else {
                    None
                },
                None => None,
            }
        } else {
            None
        },
        None => None,
    }
}

/// The composite type that a variable points to.
pub open spec fn variable_composite(
    all: Seq<DiType>,
    preserve: Set<usize>,
    variable: Option<Variable>,
) -> Option<usize> {
    match variable {
        Some(v) => if v.is_local_variable {
            preserved_composite(all, preserve, v.ty)
        } else {
            None
        },
        None => None,
    }
}

/// Whether the types that a debug record mentions exist.
pub open spec fn variable_in_range(all: Seq<DiType>, variable: Option<Variable>) -> bool {
    variable is Some ==> types::in_range(all, variable->Some_0.ty)
}

pub open spec fn record_in_range(all: Seq<DiType>, record: DbgRecord) -> bool {
    match record {
        DbgRecord::Value { variable, .. } => variable_in_range(all, variable),
        DbgRecord::Declare { variable, .. } => variable_in_range(all, variable),
        DbgRecord::Other => true,
    }
}

/// Whether what an instruction mentions exists.
pub open spec fn instruction_in_range(
    all: Seq<DiType>,
    instruction: InstructionInfo,
    values: nat,
) -> bool {
    &&& instruction.value < values
    &&& forall|i: int|
        0 <= i < instruction.records@.len() ==> record_in_range(
            all,
            #[trigger] instruction.records@[i],
        )
    &&& instruction.call is Some ==> forall|i: int|
        0 <= i < instruction.call->Some_0.args@.len() ==> variable_in_range(
            all,
            (#[trigger] instruction.call->Some_0.args@[i]).variable,
        )
}

/// The pointers after every value that was stored to `slot` is known to point to
/// `composite`.
pub open spec fn resolve_pending(
    pointers: Map<usize, usize>,
    pending: Seq<(usize, usize)>,
    slot: usize,
    composite: usize,
) -> Map<usize, usize>
    decreases pending.len(),
{
    if pending.len() == 0 {
        pointers
    } else {
        let before = resolve_pending(pointers, pending.drop_last(), slot, composite);
        if pending.last().0 == slot {
            before.insert(pending.last().1, composite)
        } else {
            before
        }
    }
}

/// The pending stores to other slots.
pub open spec fn other_pending(pending: Seq<(usize, usize)>, slot: usize) -> Seq<(usize, usize)>
    decreases pending.len(),
{
    if pending.len() == 0 {
        Seq::empty()
    } else {
        let before = other_pending(pending.drop_last(), slot);
        if pending.last().0 == slot {
            before
        } else {
            before.push(pending.last())
        }
    }
}

/// What a debug record adds.
pub open spec fn seed_record(
    all: Seq<DiType>,
    preserve: Set<usize>,
    seed: SeedModel,
    record: DbgRecord,
) -> SeedModel {
    match record {
        DbgRecord::Value { value: Some(value), variable } => match variable_composite(
            all,
            preserve,
            variable,
        ) {
            Some(composite) => SeedModel {
                pointers: seed.pointers.insert(value, composite),
                ..seed
            },
            None => seed,
        },
        DbgRecord::Declare { slot: Some(slot), variable } => match variable_composite(
            all,
            preserve,
            variable,
        ) {
            Some(composite) => SeedModel {
                pointers: resolve_pending(seed.pointers, seed.pending, slot, composite),
                declared: seed.declared.insert(slot, composite),
                pending: other_pending(seed.pending, slot),
            },
            None => seed,
        },
        _ => seed,
    }
}

/// What the first `n` of a list of debug records add.
pub open spec fn seed_records(
    all: Seq<DiType>,
    preserve: Set<usize>,
    seed: SeedModel,
    records: Seq<DbgRecord>,
    n: nat,
) -> SeedModel
    decreases n,
{
    if n == 0 {
        seed
    } else {
        seed_record(
            all,
            preserve,
            seed_records(all, preserve, seed, records, (n - 1) as nat),
            records[n - 1],
        )
    }
}

/// What a call of the intrinsic that describes a value adds. Only a call with
/// exactly two arguments is looked at.
pub open spec fn seed_call(
    all: Seq<DiType>,
    preserve: Set<usize>,
    dbg_value: u32,
    seed: SeedModel,
    call: Option<CallInfo>,
) -> SeedModel {
    match call {
        Some(call) => if call.intrinsic == Some(dbg_value) && call.args@.len() == 2
            && call.args@[0].value is Some && call.args@[1].value is Some {
            seed_record(
                all,
                preserve,
                seed,
                DbgRecord::Value {
                    value: call.args@[0].value,
                    variable: call.args@[1].variable,
                },
            )
        } else {
            seed
        },
        None => seed,
    }
}

/// What a store adds: the stored value is a known pointer if its slot was
/// declared.
pub open spec fn seed_store(seed: SeedModel, value: ValueInfo) -> SeedModel {
    match value {
        ValueInfo::Store { value, pointer, .. } => if seed.declared.contains_key(pointer) {
            SeedModel {
                pointers: seed.pointers.insert(value, seed.declared[pointer]),
                ..seed
            }
        } else {
            SeedModel { pending: seed.pending.push((pointer, value)), ..seed }
        },
        _ => seed,
    }
}

/// What an instruction adds.
pub open spec fn seed_instruction(
    all: Seq<DiType>,
    preserve: Set<usize>,
    dbg_value: u32,
    values: Seq<ValueInfo>,
    seed: SeedModel,
    instruction: InstructionInfo,
) -> SeedModel {
    let from_records = seed_records(
        all,
        preserve,
        seed,
        instruction.records@,
        instruction.records@.len(),
    );
    let from_call = seed_call(all, preserve, dbg_value, from_records, instruction.call);
    seed_store(from_call, values[instruction.value as int])
}

/// What the first `n` instructions add.
pub open spec fn seed_instructions(
    all: Seq<DiType>,
    preserve: Set<usize>,
    dbg_value: u32,
    values: Seq<ValueInfo>,
    seed: SeedModel,
    instructions: Seq<InstructionInfo>,
    n: nat,
) -> SeedModel
    decreases n,
{
    if n == 0 {
        seed
    } else {
        seed_instruction(
            all,
            preserve,
            dbg_value,
            values,
            seed_instructions(
                all,
                preserve,
                dbg_value,
                values,
                seed,
                instructions,
                (n - 1) as nat,
            ),
            instructions[n - 1],
        )
    }
}

/// What the parameters of a function add: parameter `i` has the type that
/// follows number `i` in the list of types, whose first entry is the return type.
pub open spec fn seed_params(
    all: Seq<DiType>,
    preserve: Set<usize>,
    params: Seq<usize>,
    list: Seq<Option<usize>>,
    n: nat,
) -> Map<usize, usize>
    decreases n,
{
    if n == 0 {
        Map::empty()
    } else {
        let before = seed_params(all, preserve, params, list, (n - 1) as nat);
        match preserved_composite(all, preserve, list[n as int]) {
            Some(composite) => before.insert(params[n - 1], composite),
            None => before,
        }
    }
}

/// Every known pointer leads to a composite type.
pub open spec fn are_composites(all: Seq<DiType>, pointers: Map<usize, usize>) -> bool {
    forall|v: usize| #[trigger]
        pointers.contains_key(v) ==> pointers[v] < all.len() && all[pointers[v] as int] is Composite
}

/// The composite type that a pointer type leads to, where accesses to it are to
/// be preserved.
pub fn pointer_composite_from_metadata(
    all: &Vec<DiType>,
    preserve: &HashSet<usize>,
    ty: Option<usize>,
) -> (r: Option<usize>)
    requires
        types::wf_types(all@),
        types::in_range(all@, ty),
    ensures
        r == preserved_composite(all@, preserve@, ty),
        r is Some ==> r->Some_0 < all@.len() && all@[r->Some_0 as int] is Composite,
{
    let id: usize = match ty {
        Some(id) => id,
        None => return None,
    };
    if !is_pointer_type(all, id) {
        return None;
    }
    let base: Option<usize> = base_type(all, id);
    match value_composite(all, base) {
        Some(composite) => if preserve.contains(&composite) {
            Some(composite)
        } else {
            None
        },
        None => None,
    }
}

/// The composite type that a variable points to.
pub fn pointer_composite_from_variable(
    all: &Vec<DiType>,
    preserve: &HashSet<usize>,
    variable: Option<Variable>,
) -> (r: Option<usize>)
    requires
        types::wf_types(all@),
        variable_in_range(all@, variable),
    ensures
        r == variable_composite(all@, preserve@, variable),
        r is Some ==> r->Some_0 < all@.len() && all@[r->Some_0 as int] is Composite,
{
    match variable {
        Some(v) => if v.is_local_variable {
            pointer_composite_from_metadata(all, preserve, v.ty)
        } else {
            None
        },
        None => None,
    }
}

/// Collects what is known about the pointers of a function.
pub struct Seeds {
    pub pointers: HashMap<usize, usize>,
    pub declared: HashMap<usize, usize>,
    pub pending: Vec<(usize, usize)>,
}

impl View for Seeds {
    type V = SeedModel;

    open spec fn view(&self) -> SeedModel {
        SeedModel {
            pointers: self.pointers@,
            declared: self.declared@,
            pending: self.pending@,
        }
    }
}

impl Seeds {
    /// Every pointer that is known, or will be, leads to a composite type.
    pub open spec fn wf(self, all: Seq<DiType>) -> bool {
        are_composites(all, self.pointers@) && are_composites(all, self.declared@)
    }

    pub fn new() -> (r: Self)
        ensures
            r@ == (SeedModel {
                pointers: Map::empty(),
                declared: Map::empty(),
                pending: Seq::empty(),
            }),
    {
        Seeds { pointers: HashMap::new(), declared: HashMap::new(), pending: Vec::new() }
    }

    /// Takes the types of the parameters from the type of the function.
    pub fn seed_params(
        &mut self,
        all: &Vec<DiType>,
        preserve: &HashSet<usize>,
        params: &Vec<usize>,
        list: &Vec<Option<usize>>,
    )
        requires
            types::wf_types(all@),
            old(self)@.pointers == Map::<usize, usize>::empty(),
            old(self).wf(all@),
            forall|i: int| 0 <= i < list@.len() ==> types::in_range(all@, #[trigger] list@[i]),
        ensures
            final(self).wf(all@),
            final(self)@ == (SeedModel {
                pointers: seed_params(
                    all@,
                    preserve@,
                    params@,
                    list@,
                    param_count(params@, list@),
                ),
                ..old(self)@
            }),
    {
        let mut i: usize = 0;
        while i < params.len() && i + 1 < list.len()
            invariant
                i <= param_count(params@, list@),
                types::wf_types(all@),
                self.wf(all@),
                forall|j: int| 0 <= j < list@.len() ==> types::in_range(all@, #[trigger] list@[j]),
                self@ == (SeedModel {
                    pointers: seed_params(all@, preserve@, params@, list@, i as nat),
                    ..old(self)@
                }),
            decreases params@.len() - i,
        {
            assert(types::in_range(all@, list@[i + 1]));
            if let Some(composite) = pointer_composite_from_metadata(all, preserve, list[i + 1]) {
                self.pointers.insert(params[i], composite);
            }
            i = i + 1;
        }
    }

    fn seed_pointer_type_from_variable(
        &mut self,
        all: &Vec<DiType>,
        preserve: &HashSet<usize>,
        value: Option<usize>,
        variable: Option<Variable>,
    )
        requires
            types::wf_types(all@),
            variable_in_range(all@, variable),
            old(self).wf(all@),
        ensures
            final(self).wf(all@),
            final(self)@ == seed_record(
                all@,
                preserve@,
                old(self)@,
                DbgRecord::Value { value, variable },
            ),
    {
        if let Some(value) = value {
            if let Some(composite) = pointer_composite_from_variable(all, preserve, variable) {
                self.pointers.insert(value, composite);
            }
        }
    }

    /// Declares that a slot holds a pointer to `composite`: every value that was
    /// stored there is such a pointer.
    fn declare_slot(&mut self, all: Ghost<Seq<DiType>>, slot: usize, composite: usize)
        requires
            old(self).wf(all@),
            composite < all@.len(),
            all@[composite as int] is Composite,
        ensures
            final(self).wf(all@),
            final(self)@ == (SeedModel {
                pointers: resolve_pending(
                    old(self)@.pointers,
                    old(self)@.pending,
                    slot,
                    composite,
                ),
                declared: old(self)@.declared.insert(slot, composite),
                pending: other_pending(old(self)@.pending, slot),
            }),
    {
        let ghost before = self@;
        self.declared.insert(slot, composite);
        let mut rest: Vec<(usize, usize)> = Vec::new();
        let mut i: usize = 0;
        while i < self.pending.len()
            invariant
                i <= self.pending@.len(),
                self.pending@ == before.pending,
                self.declared@ == before.declared.insert(slot, composite),
                self.wf(all@),
                composite < all@.len(),
                all@[composite as int] is Composite,
                self.pointers@ == resolve_pending(
                    before.pointers,
                    before.pending.take(i as int),
                    slot,
                    composite,
                ),
                rest@ == other_pending(before.pending.take(i as int), slot),
            decreases self.pending@.len() - i,
        {
            let entry: (usize, usize) = self.pending[i];
            assert(before.pending.take(i + 1).drop_last() =~= before.pending.take(i as int));
            if entry.0 == slot {
                self.pointers.insert(entry.1, composite);
            } else {
                rest.push(entry);
            }
            i = i + 1;
        }
        assert(before.pending.take(before.pending.len() as int) =~= before.pending);
        self.pending = rest;
    }

    fn seed_dbg_records(
        &mut self,
        all: &Vec<DiType>,
        preserve: &HashSet<usize>,
        records: &Vec<DbgRecord>,
    )
        requires
            types::wf_types(all@),
            old(self).wf(all@),
            forall|i: int|
                0 <= i < records@.len() ==> record_in_range(all@, #[trigger] records@[i]),
        ensures
            final(self).wf(all@),
            final(self)@ == seed_records(
                all@,
                preserve@,
                old(self)@,
                records@,
                records@.len(),
            ),
    {
        let mut i: usize = 0;
        while i < records.len()
            invariant
                i <= records@.len(),
                types::wf_types(all@),
                self.wf(all@),
                forall|j: int|
                    0 <= j < records@.len() ==> record_in_range(all@, #[trigger] records@[j]),
                self@ == seed_records(all@, preserve@, old(self)@, records@, i as nat),
            decreases records@.len() - i,
        {
            assert(record_in_range(all@, records@[i as int]));
            match records[i] {
                DbgRecord::Value { value, variable } => {
                    self.seed_pointer_type_from_variable(all, preserve, value, variable);
                },
                DbgRecord::Declare { slot, variable } => {
                    if let Some(slot) = slot {
                        if let Some(composite) = pointer_composite_from_variable(
                            all,
                            preserve,
                            variable,
                        ) {
                            self.declare_slot(Ghost(all@), slot, composite);
                        }
                    }
                },
                DbgRecord::Other => {},
            }
            i = i + 1;
        }
    }

    fn seed_dbg_value(
        &mut self,
        all: &Vec<DiType>,
        preserve: &HashSet<usize>,
        dbg_value: u32,
        call: &Option<CallInfo>,
    )
        requires
            types::wf_types(all@),
            old(self).wf(all@),
            call is Some ==> forall|i: int|
                0 <= i < call->Some_0.args@.len() ==> variable_in_range(
                    all@,
                    (#[trigger] call->Some_0.args@[i]).variable,
                ),
        ensures
            final(self).wf(all@),
            final(self)@ == seed_call(all@, preserve@, dbg_value, old(self)@, *call),
    {
        if let Some(call) = call {
            let describes_value: bool = match call.intrinsic {
                Some(id) => id == dbg_value,
                None => false,
            };
            if describes_value && call.args.len() == 2 {
                let value: Option<usize> = call.args[0].value;
                if value.is_some() && call.args[1].value.is_some() {
                    assert(variable_in_range(all@, call.args@[1].variable));
                    self.seed_pointer_type_from_variable(
                        all,
                        preserve,
                        value,
                        call.args[1].variable,
                    );
                }
            }
        }
    }

    fn seed_store_pointer_type(&mut self, all: Ghost<Seq<DiType>>, value: ValueInfo)
        requires
            old(self).wf(all@),
        ensures
            final(self).wf(all@),
            final(self)@ == seed_store(old(self)@, value),
    {
        if let ValueInfo::Store { value: stored, pointer, .. } = value {
            let known: Option<usize> = match self.declared.get(&pointer) {
                Some(composite) => Some(*composite),
                None => None,
            };
            match known {
                Some(composite) => {
                    self.pointers.insert(stored, composite);
                },
                None => {
                    self.pending.push((pointer, stored));
                },
            }
        }
    }

    /// Looks at all instructions of a function.
    pub fn seed_instructions(
        &mut self,
        all: &Vec<DiType>,
        preserve: &HashSet<usize>,
        dbg_value: u32,
        values: &Vec<ValueInfo>,
        instructions: &Vec<InstructionInfo>,
    )
        requires
            types::wf_types(all@),
            old(self).wf(all@),
            forall|i: int|
                0 <= i < instructions@.len() ==> instruction_in_range(
                    all@,
                    #[trigger] instructions@[i],
                    values@.len(),
                ),
        ensures
            final(self).wf(all@),
            final(self)@ == seed_instructions(
                all@,
                preserve@,
                dbg_value,
                values@,
                old(self)@,
                instructions@,
                instructions@.len(),
            ),
    {
        let mut i: usize = 0;
        while i < instructions.len()
            invariant
                i <= instructions@.len(),
                types::wf_types(all@),
                self.wf(all@),
                forall|j: int|
                    0 <= j < instructions@.len() ==> instruction_in_range(
                        all@,
                        #[trigger] instructions@[j],
                        values@.len(),
                    ),
                self@ == seed_instructions(
                    all@,
                    preserve@,
                    dbg_value,
                    values@,
                    old(self)@,
                    instructions@,
                    i as nat,
                ),
            decreases instructions@.len() - i,
        {
            let instruction = &instructions[i];
            assert(instruction_in_range(all@, instructions@[i as int], values@.len()));
            self.seed_dbg_records(all, preserve, &instruction.records);
            self.seed_dbg_value(all, preserve, dbg_value, &instruction.call);
            self.seed_store_pointer_type(Ghost(all@), values[instruction.value]);
            i = i + 1;
        }
    }
}

/// How many parameters have a type.
pub open spec fn param_count(params: Seq<usize>, list: Seq<Option<usize>>) -> nat {
    if list.len() == 0 {
        0
    } else if params.len() < list.len() - 1 {
        params.len()
    } else {
        (list.len() - 1) as nat
    }
}

fn is_variable_in_range(all: &Vec<DiType>, variable: Option<Variable>) -> (r: bool)
    ensures
        r == variable_in_range(all@, variable),
{
    match variable {
        Some(v) => match v.ty {
            Some(id) => id < all.len(),
            None => true,
        },
        None => true,
    }
}

fn are_records_in_range(all: &Vec<DiType>, records: &Vec<DbgRecord>) -> (r: bool)
    ensures
        r == (forall|i: int|
            0 <= i < records@.len() ==> record_in_range(all@, #[trigger] records@[i])),
{
    let mut i: usize = 0;
    while i < records.len()
        invariant
            i <= records@.len(),
            forall|j: int| 0 <= j < i ==> record_in_range(all@, #[trigger] records@[j]),
        decreases records@.len() - i,
    {
        let ok: bool = match records[i] {
            DbgRecord::Value { variable, .. } => is_variable_in_range(all, variable),
            DbgRecord::Declare { variable, .. } => is_variable_in_range(all, variable),
            DbgRecord::Other => true,
        };
        if !ok {
            assert(!record_in_range(all@, records@[i as int]));
            return false;
        }
        i = i + 1;
    }
    true
}

fn are_args_in_range(all: &Vec<DiType>, args: &Vec<CallArg>) -> (r: bool)
    ensures
        r == (forall|i: int|
            0 <= i < args@.len() ==> variable_in_range(all@, (#[trigger] args@[i]).variable)),
{
    let mut i: usize = 0;
    while i < args.len()
        invariant
            i <= args@.len(),
            forall|j: int|
                0 <= j < i ==> variable_in_range(all@, (#[trigger] args@[j]).variable),
        decreases args@.len() - i,
    {
        if !is_variable_in_range(all, args[i].variable) {
            assert(!variable_in_range(all@, args@[i as int].variable));
            return false;
        }
        i = i + 1;
    }
    true
}

/// Decides whether what an instruction mentions exists.
pub fn is_instruction_in_range(
    all: &Vec<DiType>,
    instruction: &InstructionInfo,
    values: usize,
) -> (r: bool)
    ensures
        r == instruction_in_range(all@, *instruction, values as nat),
{
    if instruction.value >= values {
        return false;
    }
    if !are_records_in_range(all, &instruction.records) {
        return false;
    }
    match &instruction.call {
        Some(call) => are_args_in_range(all, &call.args),
        None => true,
    }
}

} // verus!
