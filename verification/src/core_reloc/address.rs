//! Which addresses pointers stand for, before and after the pass.
use vstd::prelude::*;

use crate::core_reloc::chain;
use crate::core_reloc::error::{CoreRelocError, GepOffsetError};
use crate::core_reloc::gep;
use crate::core_reloc::gep::{Gep, IrType, IrTypeKind};
use crate::core_reloc::path;
use crate::core_reloc::path::{Action, EmitterModel, ValueInfo};
use crate::core_reloc::rewrite;
use crate::core_reloc::rewrite::RewriteModel;
use crate::core_reloc::seed;
use crate::core_reloc::types;
use crate::core_reloc::types::{DiType, ValueType};

verus! {

/// Where the indices of an address computation lead: how many bytes behind its base,
/// and to a value of which type. The first index counts values of the type that the
/// base points to, each further one picks a part of what was reached.
pub open spec fn lead(types: Seq<IrType>, ty: usize, indices: Seq<Option<u64>>) -> Option<
    (int, usize),
>
    decreases indices.len(),
{
    if indices.len() == 0 {
        Some((0, ty))
    } else {
        match (lead(types, ty, indices.drop_last()), indices.last()) {
            (Some((bytes, reached)), Some(index)) => if indices.len() == 1 {
                Some((index * types[ty as int].abi_size, ty))
            } else {
                match types[reached as int].kind {
                    IrTypeKind::Struct { fields } => if index < fields@.len() && index
                        <= 0xffff_ffff {
                        Some((bytes + fields@[index as int].offset, fields@[index as int].ty))
                    } else {
                        None
                    },
                    IrTypeKind::Array { element } => Some(
                        (bytes + index * types[element as int].abi_size, element),
                    ),
                    IrTypeKind::Vector { element } => Some(
                        (bytes + index * types[element as int].abi_size, element),
                    ),
                    IrTypeKind::Other => None,
                }
            },
            _ => None,
        }
    }
}

/// No index leads back, and none is passed over.
proof fn lemma_lead_grows(types: Seq<IrType>, ty: usize, indices: Seq<Option<u64>>, k: int)
    requires
        0 <= k <= indices.len(),
        lead(types, ty, indices) is Some,
    ensures
        lead(types, ty, indices.take(k)) is Some,
        0 <= lead(types, ty, indices.take(k))->Some_0.0 <= lead(types, ty, indices)->Some_0.0,
    decreases indices.len(),
{
    if k == indices.len() {
        assert(indices.take(k) =~= indices);
        if k > 0 {
            lemma_lead_grows(types, ty, indices.drop_last(), 0);
            lemma_lead_grows(types, ty, indices.drop_last(), k - 1);
            lemma_products(types, ty, indices);
        }
    } else {
        lemma_lead_grows(types, ty, indices.drop_last(), k);
        assert(indices.drop_last().take(k) =~= indices.take(k));
        lemma_products(types, ty, indices);
    }
}

proof fn lemma_products(types: Seq<IrType>, ty: usize, indices: Seq<Option<u64>>)
    requires
        indices.len() > 0,
        lead(types, ty, indices) is Some,
    ensures
        lead(types, ty, indices)->Some_0.0 >= lead(types, ty, indices.drop_last())->Some_0.0,
{
    let index = indices.last()->Some_0;
    if indices.len() == 1 {
        assert(lead(types, ty, indices.drop_last()) == Some((0int, ty)));
        let size = types[ty as int].abi_size;
        assert(index * size >= 0) by (nonlinear_arith);
    } else {
        let reached = lead(types, ty, indices.drop_last())->Some_0.1;
        match types[reached as int].kind {
            IrTypeKind::Array { element } | IrTypeKind::Vector { element } => {
                let size = types[element as int].abi_size;
                assert(index * size >= 0) by (nonlinear_arith);
            },
            _ => {},
        }
    }
}

/// One step of an address computation goes where the next index leads.
proof fn lemma_step(types: Seq<IrType>, ty: usize, indices: Seq<Option<u64>>, k: int)
    requires
        0 <= k < indices.len(),
        lead(types, ty, indices.take(k)) is Some,
    ensures
        ({
            let (bytes, reached) = lead(types, ty, indices.take(k))->Some_0;
            let next = lead(types, ty, indices.take(k + 1));
            match gep::gep_step(types, reached, indices[k], k == 0) {
                Ok((distance, part)) => next == Some((bytes + distance, part)),
                Err(_) => next is None,
            }
        }),
{
    assert(indices.take(k + 1).drop_last() =~= indices.take(k));
    assert(indices.take(k + 1).last() == indices[k]);
    assert(indices.take(k + 1).len() == k + 1);
    if k == 0 {
        assert(lead(types, ty, indices.take(0)) == Some((0int, ty)));
    }
}

proof fn lemma_offset(types: Seq<IrType>, ty: usize, indices: Seq<Option<u64>>, k: int)
    requires
        0 <= k <= indices.len(),
        lead(types, ty, indices.take(k)) is Some,
        0 <= lead(types, ty, indices.take(k))->Some_0.0 <= u64::MAX,
    ensures
        ({
            let (bytes, reached) = lead(types, ty, indices.take(k))->Some_0;
            let end = lead(types, ty, indices);
            match gep::gep_offset_from(types, reached, indices, k as nat, bytes as nat) {
                Ok(offset) => offset <= u64::MAX && end is Some && end->Some_0.0 == offset,
                Err(_) => end is None || end->Some_0.0 > u64::MAX,
            }
        }),
    decreases indices.len() - k,
{
    let (bytes, reached) = lead(types, ty, indices.take(k))->Some_0;
    if k == indices.len() {
        assert(indices.take(k) =~= indices);
    } else {
        lemma_step(types, ty, indices, k);
        match gep::gep_step(types, reached, indices[k], k == 0) {
            Err(_) => {
                if lead(types, ty, indices) is Some {
                    lemma_lead_grows(types, ty, indices, k + 1);
                }
            },
            Ok((distance, _)) => {
                if bytes + distance > u64::MAX {
                    if lead(types, ty, indices) is Some {
                        lemma_lead_grows(types, ty, indices, k + 1);
                    }
                } else {
                    lemma_offset(types, ty, indices, k + 1);
                }
            },
        }
    }
}

/// The offset of an address computation is where its indices lead, if they all lead
/// somewhere and the offset fits 64 bits; otherwise there is none.
pub proof fn offset_is_where_the_indices_lead(types: Seq<IrType>, gep: Gep)
    ensures
        ({
            let end = lead(types, gep.source_type, gep.indices@);
            match gep::gep_offset(types, gep) {
                Ok(offset) => end is Some && end->Some_0.0 == offset && offset <= u64::MAX,
                Err(_) => end is None || end->Some_0.0 > u64::MAX,
            }
        }),
{
    assert(gep.indices@.take(0).len() == 0);
    lemma_offset(types, gep.source_type, gep.indices@, 0);
}

/// The first index that leads nowhere, or too far, decides what is reported of an
/// address computation: an index that is no constant, a member that a structure does
/// not have, a type without parts, or an offset that does not fit 64 bits.
pub proof fn first_bad_index_is_reported(types: Seq<IrType>, gep: Gep, k: int)
    requires
        0 <= k < gep.indices@.len(),
        lead(types, gep.source_type, gep.indices@.take(k)) is Some,
        lead(types, gep.source_type, gep.indices@.take(k))->Some_0.0 <= u64::MAX,
        lead(types, gep.source_type, gep.indices@.take(k + 1)) is None || lead(
            types,
            gep.source_type,
            gep.indices@.take(k + 1),
        )->Some_0.0 > u64::MAX,
    ensures
        ({
            let (bytes, reached) = lead(types, gep.source_type, gep.indices@.take(k))->Some_0;
            let next = lead(types, gep.source_type, gep.indices@.take(k + 1));
            gep::gep_offset(types, gep) == Err::<nat, GepOffsetError>(
                if next is Some {
                    GepOffsetError::OffsetOverflow
                } else if gep.indices@[k] is None {
                    GepOffsetError::NonConstantIndex
                } else if types[reached as int].kind is Struct {
                    GepOffsetError::BadStructIndex
                } else {
                    GepOffsetError::UnsupportedTypeKind
                },
            )
        }),
{
    lemma_failure(types, gep.source_type, gep.indices@, 0, k);
}

proof fn lemma_failure(types: Seq<IrType>, ty: usize, indices: Seq<Option<u64>>, from: int, k: int)
    requires
        0 <= from <= k < indices.len(),
        lead(types, ty, indices.take(k)) is Some,
        lead(types, ty, indices.take(k))->Some_0.0 <= u64::MAX,
        lead(types, ty, indices.take(k + 1)) is None || lead(
            types,
            ty,
            indices.take(k + 1),
        )->Some_0.0 > u64::MAX,
    ensures
        ({
            let start = lead(types, ty, indices.take(from))->Some_0;
            let reached = lead(types, ty, indices.take(k))->Some_0.1;
            &&& lead(types, ty, indices.take(from)) is Some
            &&& gep::gep_offset_from(types, start.1, indices, from as nat, start.0 as nat) == Err::<
                nat,
                GepOffsetError,
            >(
                if lead(types, ty, indices.take(k + 1)) is Some {
                    GepOffsetError::OffsetOverflow
                } else if indices[k] is None {
                    GepOffsetError::NonConstantIndex
                } else if types[reached as int].kind is Struct {
                    GepOffsetError::BadStructIndex
                } else {
                    GepOffsetError::UnsupportedTypeKind
                },
            )
        }),
    decreases k - from,
{
    lemma_lead_grows(types, ty, indices.take(k), from);
    assert(indices.take(k).take(from) =~= indices.take(from));
    lemma_step(types, ty, indices, from);
    if from < k {
        lemma_lead_grows(types, ty, indices.take(k), from + 1);
        assert(indices.take(k).take(from + 1) =~= indices.take(from + 1));
        lemma_failure(types, ty, indices, from + 1, k);
    } else if from == 0 {
        assert(lead(types, ty, indices.take(0)) == Some((0int, ty)));
    }
}

/// Goes back from a pointer, through casts and address computations, to one that is
/// known: which that is, and how many bytes in front of the pointer. `None` where there
/// is none, or an address computation on the way leads nowhere.
pub open spec fn origin(
    ir_types: Seq<IrType>,
    geps: Seq<Gep>,
    values: Seq<ValueInfo>,
    pointers: Map<usize, usize>,
    id: usize,
    steps: nat,
) -> Option<(usize, int)>
    decreases steps,
{
    if pointers.contains_key(id) {
        Some((id, 0))
    } else if steps == 0 {
        None
    } else {
        match values[id as int] {
            ValueInfo::Cast { operand } => origin(
                ir_types,
                geps,
                values,
                pointers,
                operand,
                (steps - 1) as nat,
            ),
            ValueInfo::Gep { base, gep } => {
                let before = origin(ir_types, geps, values, pointers, base, (steps - 1) as nat);
                let end = lead(ir_types, geps[gep as int].source_type, geps[gep as int].indices@);
                if before is Some && end is Some {
                    Some((before->Some_0.0, before->Some_0.1 + end->Some_0.0))
                } else {
                    None
                }
            },
            _ => None,
        }
    }
}

/// A pointer is followed back to a known one through casts, which do not move it, and
/// address computations, whose offsets add up. The composite type is the one that is
/// known behind that pointer.
pub proof fn pointer_is_followed_to_its_origin(
    ir_types: Seq<IrType>,
    geps: Seq<Gep>,
    values: Seq<ValueInfo>,
    pointers: Map<usize, usize>,
    id: usize,
)
    requires
        rewrite::wf_values(values, geps.len()),
        id < values.len(),
    ensures
        ({
            let found = origin(ir_types, geps, values, pointers, id, id as nat + 1);
            match rewrite::resolve(ir_types, geps, values, pointers, id) {
                Ok(Some(known)) => {
                    &&& pointers.contains_key(known.base)
                    &&& known.composite_type == pointers[known.base]
                    &&& found == Some((known.base, known.offset_bytes as int))
                },
                Ok(None) => found is None,
                Err(_) => found is None || found->Some_0.1 > u64::MAX,
            }
        }),
{
    lemma_origin(ir_types, geps, values, pointers, id, id as nat + 1);
}

proof fn lemma_origin(
    ir_types: Seq<IrType>,
    geps: Seq<Gep>,
    values: Seq<ValueInfo>,
    pointers: Map<usize, usize>,
    id: usize,
    steps: nat,
)
    requires
        rewrite::wf_values(values, geps.len()),
        id < values.len(),
        rewrite::chain_length(values, id) <= steps,
    ensures
        ({
            let found = origin(ir_types, geps, values, pointers, id, steps);
            &&& found is Some ==> found->Some_0.1 >= 0
            &&& match rewrite::resolve(ir_types, geps, values, pointers, id) {
                Ok(Some(known)) => {
                    &&& pointers.contains_key(known.base)
                    &&& known.composite_type == pointers[known.base]
                    &&& found == Some((known.base, known.offset_bytes as int))
                },
                Ok(None) => found is None,
                Err(_) => found is None || found->Some_0.1 > u64::MAX,
            }
        }),
    decreases steps,
{
    assert(rewrite::wf_value(values, geps.len(), id as int));
    if !pointers.contains_key(id) {
        match values[id as int] {
            ValueInfo::Cast { operand } => {
                lemma_origin(ir_types, geps, values, pointers, operand, (steps - 1) as nat);
            },
            ValueInfo::Gep { base, gep } => {
                lemma_origin(ir_types, geps, values, pointers, base, (steps - 1) as nat);
                let end = lead(ir_types, geps[gep as int].source_type, geps[gep as int].indices@);
                offset_is_where_the_indices_lead(ir_types, geps[gep as int]);
                if end is Some {
                    lemma_lead_grows(
                        ir_types,
                        geps[gep as int].source_type,
                        geps[gep as int].indices@,
                        0,
                    );
                }
            },
            _ => {},
        }
    }
}

/// A known pointer is not followed any further.
pub proof fn known_pointer_is_its_own_origin(
    ir_types: Seq<IrType>,
    geps: Seq<Gep>,
    values: Seq<ValueInfo>,
    pointers: Map<usize, usize>,
    id: usize,
)
    requires
        pointers.contains_key(id),
    ensures
        rewrite::resolve(ir_types, geps, values, pointers, id) is Ok,
        rewrite::resolve(ir_types, geps, values, pointers, id)->Ok_0 is Some,
        ({
            let known = rewrite::resolve(ir_types, geps, values, pointers, id)->Ok_0->Some_0;
            known.base == id && known.composite_type == pointers[id] && known.offset_bytes == 0
        }),
{
}

/// A pointer that is used in place of another.
pub open spec fn renamed(id: usize, from: usize, to: usize) -> usize {
    if id == from {
        to
    } else {
        id
    }
}

/// Whether a value is another one in which a pointer is used in place of `from`.
pub open spec fn is_renamed(before: ValueInfo, after: ValueInfo, from: usize, to: usize) -> bool {
    match before {
        ValueInfo::Load { pointer, ty } => after == (ValueInfo::Load {
            pointer: renamed(pointer, from, to),
            ty,
        }),
        ValueInfo::Store { value, pointer, ty } => after == (ValueInfo::Store {
            value: renamed(value, from, to),
            pointer: renamed(pointer, from, to),
            ty,
        }),
        ValueInfo::Cast { operand } => after == (ValueInfo::Cast {
            operand: renamed(operand, from, to),
        }),
        ValueInfo::Gep { base, gep } => after == (ValueInfo::Gep {
            base: renamed(base, from, to),
            gep,
        }),
        ValueInfo::Other => after == ValueInfo::Other,
    }
}

proof fn lemma_path_values(
    all: Seq<DiType>,
    state: EmitterModel,
    before: usize,
    base: usize,
    composite: usize,
    offset_bytes: u64,
    expected: Option<ValueType>,
)
    requires
        types::wf_types(all),
        composite < all.len(),
        all[composite as int] is Composite,
    ensures
        ({
            let (next, path) = path::access_path(
                all,
                state,
                before,
                base,
                composite,
                offset_bytes,
                expected,
            );
            &&& state.values.len() <= next.values.len()
            &&& forall|i: int|
                0 <= i < state.values.len() ==> #[trigger] next.values[i] == state.values[i]
            &&& forall|i: int|
                state.values.len() <= i < next.values.len() ==> #[trigger] next.values[i]
                    == ValueInfo::Other
        }),
{
    rewrite::lemma_path_extends(all, state, before, base, composite, offset_bytes, expected);
}

/// A load or store of which the origin is known, and for which an access path can be
/// built, goes through the end of that path. That is the same address: followed back
/// through the calls in front of it, the new pointer ends at the same origin and, where every
/// member starts at a whole byte, is as far behind it as the old one was. The access itself,
/// and every other value, stays what it is. A pointer that is loaded is known from then on where the path says what lies behind it.
pub proof fn access_keeps_its_address(
    all: Seq<DiType>,
    ir_types: Seq<IrType>,
    geps: Seq<Gep>,
    state: RewriteModel,
    id: usize,
    pointer: usize,
    ty: ValueType,
)
    requires
        types::wf_types(all),
        rewrite::wf_values(state.emitter.values, geps.len()),
        seed::are_composites(all, state.pointers),
        id < state.emitter.values.len(),
        match state.emitter.values[id as int] {
            ValueInfo::Load { pointer: p, ty: t } => p == pointer && t == ty,
            ValueInfo::Store { pointer: p, ty: t, .. } => p == pointer && t == ty,
            _ => false,
        },
    ensures
        ({
            let (next, result) = rewrite::rewrite(all, ir_types, geps, state, id);
            let old_values = state.emitter.values;
            let values = next.emitter.values;
            let known = rewrite::resolve(ir_types, geps, old_values, state.pointers, pointer);
            let (emitter, path) = path::access_path(
                all,
                state.emitter,
                id,
                known->Ok_0->Some_0.base,
                known->Ok_0->Some_0.composite_type,
                known->Ok_0->Some_0.offset_bytes,
                Some(ty),
            );
            if known is Err {
                next == state && result is Err && result->Err_0 == known->Err_0
            } else if known->Ok_0 is None {
                next == state && result is Ok
            } else if path is Err {
                &&& next.emitter == emitter
                &&& next.pointers == state.pointers
                &&& result is Err
                &&& result->Err_0 == path->Err_0
            } else if path->Ok_0 is None {
                next.emitter == emitter && next.pointers == state.pointers && result is Ok
            } else {
                let new = path->Ok_0->Some_0.ptr;
                let nested = path->Ok_0->Some_0.nested_composite;
                let is_load = old_values[id as int] is Load;
                let calls = emitter.actions.skip(state.emitter.actions.len() as int);
                &&& result is Ok
                &&& chain::follow(all, calls, new).0 == known->Ok_0->Some_0.base
                &&& chain::is_byte_aligned(all) ==> chain::follow(all, calls, new).1 == 8
                    * known->Ok_0->Some_0.offset_bytes
                &&& next.emitter.actions == emitter.actions.push(
                    if is_load {
                        Action::SetLoadPointer { load: id, pointer: new }
                    } else {
                        Action::SetStorePointer { store: id, pointer: new }
                    },
                )
                &&& values[id as int] == (match old_values[id as int] {
                    ValueInfo::Store { value, .. } => ValueInfo::Store { value, pointer: new, ty },
                    _ => ValueInfo::Load { pointer: new, ty },
                })
                &&& values.len() >= old_values.len()
                &&& forall|i: int|
                    0 <= i < old_values.len() && i != id ==> #[trigger] values[i] == old_values[i]
                &&& next.pointers == (if is_load && ty == ValueType::Pointer && nested is Some {
                    state.pointers.insert(id, nested->Some_0)
                } else {
                    state.pointers
                })
            }
        }),
{
    let values = state.emitter.values;
    assert(rewrite::wf_value(values, geps.len(), id as int));
    lemma_origin(
        ir_types,
        geps,
        values,
        state.pointers,
        pointer,
        rewrite::chain_length(values, pointer),
    );
    if let Ok(Some(known)) = rewrite::resolve(ir_types, geps, values, state.pointers, pointer) {
        assert(state.pointers.contains_key(known.base));
        chain::access_path_is_a_chain(
            all,
            state.emitter,
            id,
            known.base,
            known.composite_type,
            known.offset_bytes,
            Some(ty),
        );
        if chain::is_byte_aligned(all) {
            chain::access_path_goes_to_the_offset(
                all,
                state.emitter,
                id,
                known.base,
                known.composite_type,
                known.offset_bytes,
                Some(ty),
            );
        }
        lemma_path_values(
            all,
            state.emitter,
            id,
            known.base,
            known.composite_type,
            known.offset_bytes,
            Some(ty),
        );
    }
}

/// An address computation that moves a known pointer, or starts at an array, is replaced
/// by an access path to the same address, in every value that uses it. What lies behind
/// that is known from then on where the path says so.
pub proof fn computation_keeps_its_address(
    all: Seq<DiType>,
    ir_types: Seq<IrType>,
    geps: Seq<Gep>,
    state: RewriteModel,
    id: usize,
)
    requires
        types::wf_types(all),
        rewrite::wf_values(state.emitter.values, geps.len()),
        seed::are_composites(all, state.pointers),
        id < state.emitter.values.len(),
        state.emitter.values[id as int] is Gep,
    ensures
        ({
            let (next, result) = rewrite::rewrite(all, ir_types, geps, state, id);
            let old_values = state.emitter.values;
            let values = next.emitter.values;
            let known = rewrite::resolve(ir_types, geps, old_values, state.pointers, id);
            let origin = known->Ok_0->Some_0;
            let (emitter, path) = path::access_path(
                all,
                state.emitter,
                id,
                origin.base,
                origin.composite_type,
                origin.offset_bytes,
                None,
            );
            if known is Err {
                next == state && result is Err && result->Err_0 == known->Err_0
            } else if known->Ok_0 is None {
                next == state && result is Ok
            } else if origin.offset_bytes == 0 && !chain::has_elements(
                all,
                origin.composite_type,
            ) {
                next == state && result is Ok
            } else if path is Err {
                &&& next.emitter == emitter
                &&& next.pointers == state.pointers
                &&& result is Err
                &&& result->Err_0 == path->Err_0
            } else if path->Ok_0 is None {
                next.emitter == emitter && next.pointers == state.pointers && result is Ok
            } else {
                let new = path->Ok_0->Some_0.ptr;
                let nested = path->Ok_0->Some_0.nested_composite;
                let calls = emitter.actions.skip(state.emitter.actions.len() as int);
                &&& result is Ok
                &&& chain::follow(all, calls, new).0 == origin.base
                &&& chain::is_byte_aligned(all) ==> chain::follow(all, calls, new).1 == 8
                    * origin.offset_bytes
                &&& next.emitter.actions == emitter.actions.push(
                    Action::ReplaceGep { gep: id, pointer: new },
                )
                &&& values.len() >= old_values.len()
                &&& forall|i: int|
                    0 <= i < old_values.len() ==> is_renamed(
                        old_values[i],
                        #[trigger] values[i],
                        id,
                        new,
                    )
                &&& next.pointers == (if nested is Some {
                    state.pointers.insert(new, nested->Some_0)
                } else {
                    state.pointers
                })
            }
        }),
{
    let values = state.emitter.values;
    lemma_origin(
        ir_types,
        geps,
        values,
        state.pointers,
        id,
        rewrite::chain_length(values, id),
    );
    if let Ok(Some(known)) = rewrite::resolve(ir_types, geps, values, state.pointers, id) {
        assert(state.pointers.contains_key(known.base));
        assert(all[known.composite_type as int] is Composite);
        chain::access_path_is_a_chain(
            all,
            state.emitter,
            id,
            known.base,
            known.composite_type,
            known.offset_bytes,
            None,
        );
        if chain::is_byte_aligned(all) {
            chain::access_path_goes_to_the_offset(
                all,
                state.emitter,
                id,
                known.base,
                known.composite_type,
                known.offset_bytes,
                None,
            );
        }
        lemma_path_values(
            all,
            state.emitter,
            id,
            known.base,
            known.composite_type,
            known.offset_bytes,
            None,
        );
    }
}

/// Every other value is left as it is.
pub proof fn other_values_are_left(
    all: Seq<DiType>,
    ir_types: Seq<IrType>,
    geps: Seq<Gep>,
    state: RewriteModel,
    id: usize,
)
    requires
        state.emitter.values[id as int] is Cast || state.emitter.values[id as int] is Other,
    ensures
        rewrite::rewrite(all, ir_types, geps, state, id) == (
            state,
            Ok::<(), CoreRelocError>(()),
        ),
{
}

} // verus!
