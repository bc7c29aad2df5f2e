//! Loads, stores and address computations that go through known pointers.
use std::collections::HashMap;

use vstd::prelude::*;

use crate::core_reloc::error::{CoreRelocError, GepOffsetError};
use crate::core_reloc::gep;
use crate::core_reloc::gep::{constant_gep_offset, Gep, IrType};
use crate::core_reloc::path;
use crate::core_reloc::path::{AccessPath, Action, Emitter, EmitterModel, ValueInfo};
use crate::core_reloc::seed;
use crate::core_reloc::types;
use crate::core_reloc::types::{DiType, ValueType};
use crate::dwarf;

verus! {

broadcast use vstd::std_specs::hash::group_hash_axioms;

/// A value that only passes on the pointer it is made from.
pub open spec fn passes_pointer(value: ValueInfo) -> bool {
    value is Cast || value is Gep
}

/// How many steps a pointer can be followed back at most.
pub open spec fn chain_length(values: Seq<ValueInfo>, id: usize) -> nat {
    if passes_pointer(values[id as int]) {
        id as nat + 1
    } else {
        0
    }
}

/// Whether what a value refers to exists. A value that passes on a pointer comes
/// after the one it is made from, unless that passes on nothing.
pub open spec fn wf_value(values: Seq<ValueInfo>, geps: nat, id: int) -> bool {
    match values[id] {
        ValueInfo::Load { pointer, .. } => pointer < values.len(),
        ValueInfo::Store { value, pointer, .. } => value < values.len() && pointer < values.len(),
        ValueInfo::Cast { operand } => operand < values.len() && chain_length(values, operand)
            <= id,
        ValueInfo::Gep { base, gep } => base < values.len() && chain_length(values, base) <= id
            && gep < geps,
        ValueInfo::Other => true,
    }
}

pub open spec fn wf_values(values: Seq<ValueInfo>, geps: nat) -> bool {
    forall|i: int| 0 <= i < values.len() ==> #[trigger] wf_value(values, geps, i)
}

/// Every address computation starts at a type of the list.
pub open spec fn wf_geps(ir_types: Seq<IrType>, geps: Seq<Gep>) -> bool {
    &&& gep::wf_types(ir_types)
    &&& forall|i: int|
        0 <= i < geps.len() ==> (#[trigger] geps[i]).source_type < ir_types.len()
}

/// A pointer that was followed back: the known pointer it comes from, the
/// composite type behind that, and the distance to it.
#[derive(Clone, Copy, Debug, PartialEq, Eq, Structural)]
pub struct ResolvedAccess {
    pub base: usize,
    pub composite_type: usize,
    pub offset_bytes: u64,
}

/// Follows a pointer back to one whose composite type is known.
pub open spec fn resolve(
    ir_types: Seq<IrType>,
    geps: Seq<Gep>,
    values: Seq<ValueInfo>,
    pointers: Map<usize, usize>,
    id: usize,
) -> Result<Option<ResolvedAccess>, CoreRelocError>
    decreases chain_length(values, id),
{
    if pointers.contains_key(id) {
        Ok(Some(ResolvedAccess { base: id, composite_type: pointers[id], offset_bytes: 0 }))
    } else {
        match values[id as int] {
            ValueInfo::Cast { operand } => if chain_length(values, operand) < chain_length(
                values,
                id,
            ) {
                resolve(ir_types, geps, values, pointers, operand)
            } else {
                Ok(None)
            },
            ValueInfo::Gep { base, gep } => if chain_length(values, base) < chain_length(
                values,
                id,
            ) {
                match resolve(ir_types, geps, values, pointers, base) {
                    Err(e) => Err(e),
                    Ok(None) => Ok(None),
                    Ok(Some(known)) => match gep::gep_offset(ir_types, geps[gep as int]) {
                        Err(e) => Err(CoreRelocError::GepOffset(e)),
                        Ok(distance) => if known.offset_bytes + distance > u64::MAX {
                            Err(CoreRelocError::GepOffset(GepOffsetError::OffsetOverflow))
                        } else {
                            Ok(
                                Some(
                                    ResolvedAccess {
                                        offset_bytes: (known.offset_bytes + distance) as u64,
                                        ..known
                                    },
                                ),
                            )
                        },
                    },
                }
            } else {
                Ok(None)
            },
            _ => Ok(None),
        }
    }
}

/// The state of the pass in one function.
pub struct RewriteModel {
    pub emitter: EmitterModel,
    pub pointers: Map<usize, usize>,
}

/// Builds the access path for an access that was followed back.
pub open spec fn path_of(
    all: Seq<DiType>,
    emitter: EmitterModel,
    before: usize,
    known: ResolvedAccess,
    expected: Option<ValueType>,
) -> (EmitterModel, Result<Option<AccessPath>, CoreRelocError>) {
    path::access_path(
        all,
        emitter,
        before,
        known.base,
        known.composite_type,
        known.offset_bytes,
        expected,
    )
}

/// Uses `new` wherever a value uses `old`.
pub open spec fn replace_use(value: ValueInfo, old: usize, new: usize) -> ValueInfo {
    let swap = |id: usize| if id == old { new } else { id };
    match value {
        ValueInfo::Load { pointer, ty } => ValueInfo::Load { pointer: swap(pointer), ty },
        ValueInfo::Store { value, pointer, ty } => ValueInfo::Store {
            value: swap(value),
            pointer: swap(pointer),
            ty,
        },
        ValueInfo::Cast { operand } => ValueInfo::Cast { operand: swap(operand) },
        ValueInfo::Gep { base, gep } => ValueInfo::Gep { base: swap(base), gep },
        ValueInfo::Other => ValueInfo::Other,
    }
}

/// What is done with an access path: a load or store uses its pointer; an
/// address computation is replaced by it. The pointer that results is known
/// where a composite type lies behind it.
pub open spec fn use_path(
    emitter: EmitterModel,
    pointers: Map<usize, usize>,
    id: usize,
    path: AccessPath,
) -> RewriteModel {
    match emitter.values[id as int] {
        ValueInfo::Load { ty, .. } => RewriteModel {
            emitter: EmitterModel {
                values: emitter.values.update(
                    id as int,
                    ValueInfo::Load { pointer: path.ptr, ty },
                ),
                actions: emitter.actions.push(
                    Action::SetLoadPointer { load: id, pointer: path.ptr },
                ),
            },
            pointers: if ty == ValueType::Pointer && path.nested_composite is Some {
                pointers.insert(id, path.nested_composite->Some_0)
            } else {
                pointers
            },
        },
        ValueInfo::Store { value, ty, .. } => RewriteModel {
            emitter: EmitterModel {
                values: emitter.values.update(
                    id as int,
                    ValueInfo::Store { value, pointer: path.ptr, ty },
                ),
                actions: emitter.actions.push(
                    Action::SetStorePointer { store: id, pointer: path.ptr },
                ),
            },
            pointers,
        },
        _ => RewriteModel {
            emitter: EmitterModel {
                values: emitter.values.map_values(|v: ValueInfo| replace_use(v, id, path.ptr)),
                actions: emitter.actions.push(Action::ReplaceGep { gep: id, pointer: path.ptr }),
            },
            pointers: if path.nested_composite is Some {
                pointers.insert(path.ptr, path.nested_composite->Some_0)
            } else {
                pointers
            },
        },
    }
}

/// The pointer that an instruction accesses, and the type of the value that is
/// read or written there.
pub open spec fn access_of(values: Seq<ValueInfo>, id: usize) -> Option<(usize, Option<ValueType>)> {
    match values[id as int] {
        ValueInfo::Load { pointer, ty } => Some((pointer, Some(ty))),
        ValueInfo::Store { pointer, ty, .. } => Some((pointer, Some(ty))),
        ValueInfo::Gep { .. } => Some((id, None)),
        _ => None,
    }
}

/// Whether an address computation is left alone: it does not move the pointer,
/// and the pointer does not lead to an array.
pub open spec fn is_trivial_gep(
    all: Seq<DiType>,
    expected: Option<ValueType>,
    known: ResolvedAccess,
) -> bool {
    expected is None && known.offset_bytes == 0 && !types::is_array(all, known.composite_type)
}

/// Rewrites one instruction.
pub open spec fn rewrite(
    all: Seq<DiType>,
    ir_types: Seq<IrType>,
    geps: Seq<Gep>,
    state: RewriteModel,
    id: usize,
) -> (RewriteModel, Result<(), CoreRelocError>) {
    match access_of(state.emitter.values, id) {
        None => (state, Ok(())),
        Some((pointer, expected)) => match resolve(
            ir_types,
            geps,
            state.emitter.values,
            state.pointers,
            pointer,
        ) {
            Err(e) => (state, Err(e)),
            Ok(None) => (state, Ok(())),
            Ok(Some(known)) => if is_trivial_gep(all, expected, known) {
                (state, Ok(()))
            } else {
                let (emitter, path) = path_of(all, state.emitter, id, known, expected);
                match path {
                    Err(e) => (RewriteModel { emitter, ..state }, Err(e)),
                    Ok(None) => (RewriteModel { emitter, ..state }, Ok(())),
                    Ok(Some(path)) => (use_path(emitter, state.pointers, id, path), Ok(())),
                }
            },
        },
    }
}

/// An access path only adds values that pass on nothing, and ends in one of
/// them; the composite type behind it exists.
pub proof fn lemma_path_extends(
    all: Seq<DiType>,
    state: EmitterModel,
    before: usize,
    base: usize,
    composite: usize,
    offset_bytes: u64,
    expected: Option<ValueType>,
)
    requires
        types::wf_types(all),
        composite < all.len(),
        all[composite as int] is Composite,
    ensures
        ({
            let (next, path) = path::access_path(
                all,
                state,
                before,
                base,
                composite,
                offset_bytes,
                expected,
            );
            &&& state.values.len() <= next.values.len()
            &&& forall|i: int|
                0 <= i < state.values.len() ==> #[trigger] next.values[i] == state.values[i]
            &&& forall|i: int|
                state.values.len() <= i < next.values.len() ==> #[trigger] next.values[i]
                    == ValueInfo::Other
            &&& path is Ok && path->Ok_0 is Some && next.values.len() <= usize::MAX ==> {
                let p = path->Ok_0->Some_0;
                &&& state.values.len() <= p.ptr < next.values.len()
                &&& p.nested_composite is Some ==> p.nested_composite->Some_0 < all.len()
                    && all[p.nested_composite->Some_0 as int] is Composite
            }
        }),
    decreases composite,
{
    assert(types::wf_type(all, composite as int));
    let elements = types::elements_of(all, composite);
    if types::is_array(all, composite) {
        let element = types::base_of(all, composite);
        let nested = types::composite_of(all, element);
        if let Ok((index, remainder)) = path::array_index(all, composite, offset_bytes) {
            let declared = path::declare(state, path::AccessKind::Array, base);
            let called = path::call(
                declared,
                path::AccessKind::Array,
                before,
                base,
                composite,
                index,
            );
            if remainder != 0 && nested is Some && nested->Some_0 < composite {
                lemma_path_extends(
                    all,
                    called,
                    before,
                    path::next_value(state),
                    nested->Some_0,
                    remainder,
                    expected,
                );
            }
        }
    } else {
        match types::field_at(all, composite, offset_bytes, expected) {
            Some(k) => {
                lemma_field_member(
                    all,
                    elements,
                    0,
                    (offset_bytes * 8) as nat,
                    expected,
                );
                let member = elements[k as int];
                assert(types::wf_type(all, member as int));
                if let Some(inner) = types::base_of(all, member) {
                    assert(types::wf_type(all, inner as int));
                }
            },
            None => {
                if let Some(inner) = types::containing_at(all, composite, offset_bytes) {
                    types::lemma_containing_is_composite(
                        all,
                        elements,
                        0,
                        (offset_bytes * 8) as nat,
                    );
                    let (next, ptr) = path::preserve_access(
                        all,
                        state,
                        before,
                        base,
                        composite,
                        inner.member_index,
                    );
                    if ptr is Some && inner.nested_composite < composite {
                        lemma_path_extends(
                            all,
                            next,
                            before,
                            ptr->Some_0,
                            inner.nested_composite,
                            inner.remainder_bytes,
                            expected,
                        );
                    }
                }
            },
        }
    }
}

/// A matched field is an element of the list.
proof fn lemma_field_member(
    all: Seq<DiType>,
    elements: Seq<usize>,
    k: nat,
    offset_bits: nat,
    expected: Option<ValueType>,
)
    ensures
        match types::find_field(all, elements, k, offset_bits, expected) {
            Some(i) => i < elements.len(),
            None => true,
        },
    decreases elements.len() - k,
{
    if k < elements.len() {
        lemma_field_member(all, elements, k + 1, offset_bits, expected);
    }
}

/// What is read of a module while its functions are rewritten.
pub struct RewriteContext<'a> {
    pub types: &'a Vec<DiType>,
    pub ir_types: &'a Vec<IrType>,
    pub geps: &'a Vec<Gep>,
}

impl<'a> RewriteContext<'a> {
    pub open spec fn wf(self) -> bool {
        types::wf_types(self.types@) && wf_geps(self.ir_types@, self.geps@)
    }

    /// Follows a pointer back to one whose composite type is known.
    pub fn resolve_access(
        &self,
        values: &Vec<ValueInfo>,
        pointers: &HashMap<usize, usize>,
        id: usize,
    ) -> (r: Result<Option<ResolvedAccess>, CoreRelocError>)
        requires
            self.wf(),
            wf_values(values@, self.geps@.len()),
            seed::are_composites(self.types@, pointers@),
            id < values@.len(),
        ensures
            r == resolve(self.ir_types@, self.geps@, values@, pointers@, id),
            r is Ok && r->Ok_0 is Some ==> {
                let composite = r->Ok_0->Some_0.composite_type;
                composite < self.types@.len() && self.types@[composite as int] is Composite
            },
        decreases chain_length(values@, id),
    {
        assert(wf_value(values@, self.geps@.len(), id as int));
        if let Some(composite) = pointers.get(&id) {
            return Ok(
                Some(ResolvedAccess { base: id, composite_type: *composite, offset_bytes: 0 }),
            );
        }
        match values[id] {
            ValueInfo::Cast { operand } => self.resolve_access(values, pointers, operand),
            ValueInfo::Gep { base, gep } => {
                let known: ResolvedAccess = match self.resolve_access(values, pointers, base) {
                    Ok(Some(known)) => known,
                    Ok(None) => return Ok(None),
                    Err(e) => return Err(e),
                };
                let distance: u64 = match constant_gep_offset(self.ir_types, &self.geps[gep]) {
                    Ok(distance) => distance,
                    Err(e) => return Err(CoreRelocError::GepOffset(e)),
                };
                match known.offset_bytes.checked_add(distance) {
                    Some(offset_bytes) => Ok(Some(ResolvedAccess { offset_bytes, ..known })),
                    None => Err(CoreRelocError::GepOffset(GepOffsetError::OffsetOverflow)),
                }
            },
            _ => Ok(None),
        }
    }

    /// Rewrites a load.
    fn rewrite_load(
        &self,
        emitter: &mut Emitter,
        pointers: &mut HashMap<usize, usize>,
        id: usize,
    ) -> (r: Result<(), CoreRelocError>)
        requires
            self.wf(),
            wf_values(old(emitter).values@, self.geps@.len()),
            seed::are_composites(self.types@, old(pointers)@),
            id < old(emitter).values@.len(),
            old(emitter).values@[id as int] is Load,
        ensures
            (RewriteModel { emitter: final(emitter)@, pointers: final(pointers)@ }, r) == rewrite(
                self.types@,
                self.ir_types@,
                self.geps@,
                (RewriteModel { emitter: old(emitter)@, pointers: old(pointers)@ }),
                id,
            ),
    {
        assert(wf_value(emitter.values@, self.geps@.len(), id as int));
        if let ValueInfo::Load { pointer, ty } = emitter.values[id] {
            let known: ResolvedAccess = match self.resolve_access(
                &emitter.values,
                pointers,
                pointer,
            ) {
                Ok(Some(known)) => known,
                Ok(None) => return Ok(()),
                Err(e) => return Err(e),
            };
            proof {
                lemma_path_extends(
                    self.types@,
                    emitter@,
                    id,
                    known.base,
                    known.composite_type,
                    known.offset_bytes,
                    Some(ty),
                );
            }
            let path: AccessPath = match emitter.build_access_path(
                self.types,
                id,
                known.base,
                known.composite_type,
                known.offset_bytes,
                Some(ty),
            ) {
                Ok(Some(path)) => path,
                Ok(None) => return Ok(()),
                Err(e) => return Err(e),
            };
            emitter.values.set(id, ValueInfo::Load { pointer: path.ptr, ty });
            emitter.actions.push(Action::SetLoadPointer { load: id, pointer: path.ptr });
            let loads_pointer: bool = match ty {
                ValueType::Pointer => true,
                _ => false,
            };
            if loads_pointer {
                if let Some(pointee) = path.nested_composite {
                    pointers.insert(id, pointee);
                }
            }
        }
        Ok(())
    }

    /// Rewrites a store.
    fn rewrite_store(
        &self,
        emitter: &mut Emitter,
        pointers: &HashMap<usize, usize>,
        id: usize,
    ) -> (r: Result<(), CoreRelocError>)
        requires
            self.wf(),
            wf_values(old(emitter).values@, self.geps@.len()),
            seed::are_composites(self.types@, pointers@),
            id < old(emitter).values@.len(),
            old(emitter).values@[id as int] is Store,
        ensures
            (RewriteModel { emitter: final(emitter)@, pointers: pointers@ }, r) == rewrite(
                self.types@,
                self.ir_types@,
                self.geps@,
                (RewriteModel { emitter: old(emitter)@, pointers: pointers@ }),
                id,
            ),
    {
        assert(wf_value(emitter.values@, self.geps@.len(), id as int));
        if let ValueInfo::Store { value, pointer, ty } = emitter.values[id] {
            let known: ResolvedAccess = match self.resolve_access(
                &emitter.values,
                pointers,
                pointer,
            ) {
                Ok(Some(known)) => known,
                Ok(None) => return Ok(()),
                Err(e) => return Err(e),
            };
            proof {
                lemma_path_extends(
                    self.types@,
                    emitter@,
                    id,
                    known.base,
                    known.composite_type,
                    known.offset_bytes,
                    Some(ty),
                );
            }
            let path: AccessPath = match emitter.build_access_path(
                self.types,
                id,
                known.base,
                known.composite_type,
                known.offset_bytes,
                Some(ty),
            ) {
                Ok(Some(path)) => path,
                Ok(None) => return Ok(()),
                Err(e) => return Err(e),
            };
            emitter.values.set(id, ValueInfo::Store { value, pointer: path.ptr, ty });
            emitter.actions.push(Action::SetStorePointer { store: id, pointer: path.ptr });
        }
        Ok(())
    }

    /// Rewrites an address computation.
    fn rewrite_gep(
        &self,
        emitter: &mut Emitter,
        pointers: &mut HashMap<usize, usize>,
        id: usize,
    ) -> (r: Result<(), CoreRelocError>)
        requires
            self.wf(),
            wf_values(old(emitter).values@, self.geps@.len()),
            seed::are_composites(self.types@, old(pointers)@),
            id < old(emitter).values@.len(),
            old(emitter).values@[id as int] is Gep,
        ensures
            (RewriteModel { emitter: final(emitter)@, pointers: final(pointers)@ }, r) == rewrite(
                self.types@,
                self.ir_types@,
                self.geps@,
                (RewriteModel { emitter: old(emitter)@, pointers: old(pointers)@ }),
                id,
            ),
    {
        let known: ResolvedAccess = match self.resolve_access(&emitter.values, pointers, id) {
            Ok(Some(known)) => known,
            Ok(None) => return Ok(()),
            Err(e) => return Err(e),
        };
        let is_array: bool = match &self.types[known.composite_type] {
            DiType::Composite { tag, .. } => *tag == dwarf::dw_tag_array_type(),
            _ => false,
        };
        if known.offset_bytes == 0 && !is_array {
            return Ok(());
        }
        proof {
            lemma_path_extends(
                self.types@,
                emitter@,
                id,
                known.base,
                known.composite_type,
                known.offset_bytes,
                None,
            );
        }
        let path: AccessPath = match emitter.build_access_path(
            self.types,
            id,
            known.base,
            known.composite_type,
            known.offset_bytes,
            None,
        ) {
            Ok(Some(path)) => path,
            Ok(None) => return Ok(()),
            Err(e) => return Err(e),
        };
        if let Some(nested) = path.nested_composite {
            pointers.insert(path.ptr, nested);
        }
        replace_all_uses(&mut emitter.values, id, path.ptr);
        emitter.actions.push(Action::ReplaceGep { gep: id, pointer: path.ptr });
        Ok(())
    }

    /// Rewrites an instruction if it accesses memory or computes an address.
    pub fn rewrite(
        &self,
        emitter: &mut Emitter,
        pointers: &mut HashMap<usize, usize>,
        id: usize,
    ) -> (r: Result<(), CoreRelocError>)
        requires
            self.wf(),
            wf_values(old(emitter).values@, self.geps@.len()),
            seed::are_composites(self.types@, old(pointers)@),
            id < old(emitter).values@.len(),
        ensures
            (RewriteModel { emitter: final(emitter)@, pointers: final(pointers)@ }, r) == rewrite(
                self.types@,
                self.ir_types@,
                self.geps@,
                (RewriteModel { emitter: old(emitter)@, pointers: old(pointers)@ }),
                id,
            ),
            wf_values(final(emitter).values@, self.geps@.len()),
            seed::are_composites(self.types@, final(pointers)@),
            old(emitter).values@.len() <= final(emitter).values@.len(),
    {
        let ghost before = RewriteModel { emitter: emitter@, pointers: pointers@ };
        let r = match emitter.values[id] {
            ValueInfo::Load { .. } => self.rewrite_load(emitter, pointers, id),
            ValueInfo::Store { .. } => self.rewrite_store(emitter, pointers, id),
            ValueInfo::Gep { .. } => self.rewrite_gep(emitter, pointers, id),
            _ => Ok(()),
        };
        proof {
            assert(emitter.values.len() <= usize::MAX);
            self.lemma_rewrite_keeps_wf(before, id);
        }
        r
    }

    /// A rewritten function keeps its references in order.
    proof fn lemma_rewrite_keeps_wf(&self, state: RewriteModel, id: usize)
        requires
            self.wf(),
            wf_values(state.emitter.values, self.geps@.len()),
            seed::are_composites(self.types@, state.pointers),
            id < state.emitter.values.len(),
            rewrite(self.types@, self.ir_types@, self.geps@, state, id).0.emitter.values.len()
                <= usize::MAX,
        ensures
            ({
                let next = rewrite(self.types@, self.ir_types@, self.geps@, state, id).0;
                &&& wf_values(next.emitter.values, self.geps@.len())
                &&& seed::are_composites(self.types@, next.pointers)
                &&& state.emitter.values.len() <= next.emitter.values.len()
            }),
    {
        let all = self.types@;
        let values = state.emitter.values;
        assert(wf_value(values, self.geps@.len(), id as int));
        if let Some((pointer, expected)) = access_of(values, id) {
            self.lemma_resolved_is_composite(values, state.pointers, pointer);
            if let Ok(Some(known)) = resolve(
                self.ir_types@,
                self.geps@,
                values,
                state.pointers,
                pointer,
            ) {
                if !is_trivial_gep(all, expected, known) {
                    let (emitter, path) = path_of(all, state.emitter, id, known, expected);
                    lemma_path_extends(
                        all,
                        state.emitter,
                        id,
                        known.base,
                        known.composite_type,
                        known.offset_bytes,
                        expected,
                    );
                    lemma_extended_values(values, emitter.values, self.geps@.len());
                    if let Ok(Some(path)) = path {
                        let next = use_path(emitter, state.pointers, id, path);
                        assert(next.emitter.values.len() == emitter.values.len());
                        lemma_used_path(emitter.values, next.emitter.values, self.geps@.len(), id, path);
                    }
                }
            }
        }
    }

    proof fn lemma_resolved_is_composite(
        &self,
        values: Seq<ValueInfo>,
        pointers: Map<usize, usize>,
        id: usize,
    )
        requires
            seed::are_composites(self.types@, pointers),
        ensures
            match resolve(self.ir_types@, self.geps@, values, pointers, id) {
                Ok(Some(known)) => known.composite_type < self.types@.len()
                    && self.types@[known.composite_type as int] is Composite,
                _ => true,
            },
        decreases chain_length(values, id),
    {
        if !pointers.contains_key(id) {
            match values[id as int] {
                ValueInfo::Cast { operand } => if chain_length(values, operand) < chain_length(
                    values,
                    id,
                ) {
                    self.lemma_resolved_is_composite(values, pointers, operand);
                },
                ValueInfo::Gep { base, .. } => if chain_length(values, base) < chain_length(
                    values,
                    id,
                ) {
                    self.lemma_resolved_is_composite(values, pointers, base);
                },
                _ => {},
            }
        }
    }
}

/// Values that pass on nothing can be added.
proof fn lemma_extended_values(values: Seq<ValueInfo>, more: Seq<ValueInfo>, geps: nat)
    requires
        wf_values(values, geps),
        values.len() <= more.len(),
        forall|i: int| 0 <= i < values.len() ==> #[trigger] more[i] == values[i],
        forall|i: int| values.len() <= i < more.len() ==> #[trigger] more[i] == ValueInfo::Other,
    ensures
        wf_values(more, geps),
{
    assert forall|i: int| 0 <= i < more.len() implies #[trigger] wf_value(more, geps, i) by {
        if i < values.len() {
            assert(wf_value(values, geps, i));
            assert(more[i] == values[i]);
            match values[i] {
                ValueInfo::Cast { operand } => {
                    assert(more[operand as int] == values[operand as int]);
                },
                ValueInfo::Gep { base, .. } => {
                    assert(more[base as int] == values[base as int]);
                },
                _ => {},
            }
        } else {
            assert(more[i] == ValueInfo::Other);
        }
    }
}

/// The end of an access path can take the place of any pointer.
proof fn lemma_used_path(
    values: Seq<ValueInfo>,
    next: Seq<ValueInfo>,
    geps: nat,
    id: usize,
    path: AccessPath,
)
    requires
        wf_values(values, geps),
        id < values.len(),
        access_of(values, id) is Some,
        path.ptr < values.len(),
        values[path.ptr as int] == ValueInfo::Other,
        next == use_path(
            (EmitterModel { values, actions: Seq::empty() }),
            Map::empty(),
            id,
            path,
        ).emitter.values,
    ensures
        wf_values(next, geps),
{
    assert forall|i: int| 0 <= i < next.len() implies #[trigger] wf_value(next, geps, i) by {
        assert(wf_value(values, geps, i));
        assert(forall|j: int|
            0 <= j < values.len() ==> passes_pointer(#[trigger] next[j]) == passes_pointer(
                values[j],
            ));
        match next[i] {
            ValueInfo::Cast { operand } => {
                assert(passes_pointer(next[operand as int]) == passes_pointer(
                    values[operand as int],
                ));
            },
            ValueInfo::Gep { base, .. } => {
                assert(passes_pointer(next[base as int]) == passes_pointer(values[base as int]));
            },
            _ => {},
        }
    }
}

/// Uses `new` wherever a value uses `old_id`.
fn replace_all_uses(values: &mut Vec<ValueInfo>, old_id: usize, new: usize)
    ensures
        final(values)@ == old(values)@.map_values(|v: ValueInfo| replace_use(v, old_id, new)),
{
    let ghost before = values@;
    let mut i: usize = 0;
    while i < values.len()
        invariant
            i <= values@.len(),
            values@.len() == before.len(),
            before == old(values)@,
            forall|j: int| 0 <= j < i ==> #[trigger] values@[j] == replace_use(before[j], old_id, new),
            forall|j: int| i <= j < before.len() ==> #[trigger] values@[j] == before[j],
        decreases values@.len() - i,
    {
        let value: ValueInfo = values[i];
        let replaced: ValueInfo = match value {
            ValueInfo::Load { pointer, ty } => ValueInfo::Load {
                pointer: if pointer == old_id {
                    new
                } else {
                    pointer
                },
                ty,
            },
            ValueInfo::Store { value, pointer, ty } => ValueInfo::Store {
                value: if value == old_id {
                    new
                } else {
                    value
                },
                pointer: if pointer == old_id {
                    new
                } else {
                    pointer
                },
                ty,
            },
            ValueInfo::Cast { operand } => ValueInfo::Cast {
                operand: if operand == old_id {
                    new
                } else {
                    operand
                },
            },
            ValueInfo::Gep { base, gep } => ValueInfo::Gep {
                base: if base == old_id {
                    new
                } else {
                    base
                },
                gep,
            },
            ValueInfo::Other => ValueInfo::Other,
        };
        values.set(i, replaced);
        i = i + 1;
    }
    assert(values@ =~= before.map_values(|v: ValueInfo| replace_use(v, old_id, new)));
}

fn steps_back(values: &Vec<ValueInfo>, id: usize, from: usize) -> (r: bool)
    requires
        from < values@.len(),
    ensures
        r == (id < values@.len() && chain_length(values@, id) <= from),
{
    if id >= values.len() {
        return false;
    }
    match values[id] {
        ValueInfo::Cast { .. } | ValueInfo::Gep { .. } => id < from,
        _ => true,
    }
}

/// Decides whether values and address computations refer to what exists, and
/// pointers lead back to where they come from.
pub fn are_values_wf(ir_types: &Vec<IrType>, geps: &Vec<Gep>, values: &Vec<ValueInfo>) -> (r: bool)
    ensures
        r == (wf_geps(ir_types@, geps@) && wf_values(values@, geps@.len())),
{
    if !gep::are_types_wf(ir_types) {
        return false;
    }
    let mut k: usize = 0;
    while k < geps.len()
        invariant
            k <= geps@.len(),
            forall|j: int| 0 <= j < k ==> (#[trigger] geps@[j]).source_type < ir_types@.len(),
        decreases geps@.len() - k,
    {
        if geps[k].source_type >= ir_types.len() {
            assert(!(geps@[k as int].source_type < ir_types@.len()));
            return false;
        }
        k = k + 1;
    }
    let len: usize = values.len();
    let mut i: usize = 0;
    while i < values.len()
        invariant
            i <= values@.len(),
            len == values@.len(),
            wf_geps(ir_types@, geps@),
            forall|j: int| 0 <= j < i ==> #[trigger] wf_value(values@, geps@.len(), j),
        decreases values@.len() - i,
    {
        let ok: bool = match values[i] {
            ValueInfo::Load { pointer, .. } => pointer < len,
            ValueInfo::Store { value, pointer, .. } => value < len && pointer < len,
            ValueInfo::Cast { operand } => steps_back(values, operand, i),
            ValueInfo::Gep { base, gep } => steps_back(values, base, i) && gep < geps.len(),
            ValueInfo::Other => true,
        };
        if !ok {
            assert(!wf_value(values@, geps@.len(), i as int));
            return false;
        }
        assert(wf_value(values@, geps@.len(), i as int));
        i = i + 1;
    }
    true
}

/// Values are well-formed exactly if what they refer to exists, and what a cast or an address
/// computation starts from stands in front of it if it is itself one of those.
pub proof fn pointers_are_passed_on_in_order(values: Seq<ValueInfo>, geps: nat)
    requires
        values.len() <= usize::MAX,
    ensures
        wf_values(values, geps) <==> forall|i: int|
            0 <= i < values.len() ==> match #[trigger] values[i] {
                ValueInfo::Load { pointer, .. } => pointer < values.len(),
                ValueInfo::Store { value, pointer, .. } => value < values.len() && pointer
                    < values.len(),
                ValueInfo::Cast { operand } => operand < values.len() && (operand < i || !(
                values[operand as int] is Cast || values[operand as int] is Gep)),
                ValueInfo::Gep { base, gep } => gep < geps && base < values.len() && (base < i || !(
                values[base as int] is Cast || values[base as int] is Gep)),
                ValueInfo::Other => true,
            },
{
    if wf_values(values, geps) {
        assert forall|i: int| 0 <= i < values.len() implies match #[trigger] values[i] {
            ValueInfo::Load { pointer, .. } => pointer < values.len(),
            ValueInfo::Store { value, pointer, .. } => value < values.len() && pointer
                < values.len(),
            ValueInfo::Cast { operand } => operand < values.len() && (operand < i || !(
            values[operand as int] is Cast || values[operand as int] is Gep)),
            ValueInfo::Gep { base, gep } => gep < geps && base < values.len() && (base < i || !(
            values[base as int] is Cast || values[base as int] is Gep)),
            ValueInfo::Other => true,
        } by {
            assert(wf_value(values, geps, i));
        }
    } else {
        let i = choose|i: int| 0 <= i < values.len() && !#[trigger] wf_value(values, geps, i);
        let value = values[i];
        assert(!wf_value(values, geps, i));
    }
}

/// Address computations are well-formed exactly if the types are, and each starts at one.
pub proof fn computations_start_at_listed_types(ir_types: Seq<IrType>, geps: Seq<Gep>)
    ensures
        wf_geps(ir_types, geps) <==> gep::wf_types(ir_types) && forall|i: int|
            0 <= i < geps.len() ==> (#[trigger] geps[i]).source_type < ir_types.len(),
{
}

} // verus!
