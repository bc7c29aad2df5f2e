//! Accesses that keep track of the members they go through.
use vstd::prelude::*;

use crate::core_reloc::error::{ArrayAccessError, CoreRelocError};
use crate::core_reloc::synthetic;
use crate::core_reloc::synthetic::{synthetic_llvm_type, synthetic_struct_type};
use crate::core_reloc::types;
use crate::core_reloc::types::{
    base_type, match_containing_member, match_field, member_pointee_composite,
    metadata_matches_llvm_type, metadata_size_in_bits, value_composite, DiType, ValueType,
    BITS_PER_BYTE,
};
use crate::dwarf;

verus! {

/// A value of a module, as far as the pass reads it. Values refer to each other
/// by their index, and an address computation to its indices.
#[derive(Clone, Copy, Debug, PartialEq, Eq, Structural)]
pub enum ValueInfo {
    Load { pointer: usize, ty: ValueType },
    Store { value: usize, pointer: usize, ty: ValueType },
    Cast { operand: usize },
    Gep { base: usize, gep: usize },
    Other,
}

/// The intrinsic that an access goes through.
#[derive(Clone, Copy, Debug, PartialEq, Eq, Structural)]
pub enum AccessKind {
    Struct,
    Union,
    Array,
}

/// A change to the module.
#[derive(Clone, Copy, Debug, PartialEq, Eq, Structural)]
pub enum Action {
    /// Declares an intrinsic for the type of `base`.
    Declare { kind: AccessKind, base: usize },
    /// Calls an intrinsic before another value. The call is annotated with the
    /// composite type; for a structure the element type is that of the structure,
    /// for an array that of its elements.
    Call {
        kind: AccessKind,
        before: usize,
        base: usize,
        composite: usize,
        index: u32,
        result: usize,
    },
    /// Makes a load read from another pointer.
    SetLoadPointer { load: usize, pointer: usize },
    /// Makes a store write to another pointer.
    SetStorePointer { store: usize, pointer: usize },
    /// Uses `pointer` in place of an address computation, which is removed.
    ReplaceGep { gep: usize, pointer: usize },
}

/// Where an access leads: the pointer, and the composite type behind it.
#[derive(Clone, Copy, Debug, PartialEq, Eq, Structural)]
pub struct AccessPath {
    pub ptr: usize,
    pub nested_composite: Option<usize>,
}

/// The values of a module and the changes made to it.
pub struct Emitter {
    pub values: Vec<ValueInfo>,
    pub actions: Vec<Action>,
}

/// The mathematical content of an `Emitter`.
pub struct EmitterModel {
    pub values: Seq<ValueInfo>,
    pub actions: Seq<Action>,
}

impl View for Emitter {
    type V = EmitterModel;

    open spec fn view(&self) -> EmitterModel {
        EmitterModel { values: self.values@, actions: self.actions@ }
    }
}

/// Declares an intrinsic.
pub open spec fn declare(state: EmitterModel, kind: AccessKind, base: usize) -> EmitterModel {
    EmitterModel { actions: state.actions.push(Action::Declare { kind, base }), ..state }
}

/// The value that the next call yields.
pub open spec fn next_value(state: EmitterModel) -> usize {
    state.values.len() as usize
}

/// Calls an intrinsic. The call is a new value.
pub open spec fn call(
    state: EmitterModel,
    kind: AccessKind,
    before: usize,
    base: usize,
    composite: usize,
    index: u32,
) -> EmitterModel {
    EmitterModel {
        values: state.values.push(ValueInfo::Other),
        actions: state.actions.push(
            Action::Call { kind, before, base, composite, index, result: next_value(state) },
        ),
    }
}

/// The access of a member. That of a union needs no element type; a structure
/// without one cannot be accessed.
pub open spec fn preserve_access(
    all: Seq<DiType>,
    state: EmitterModel,
    before: usize,
    base: usize,
    composite: usize,
    index: u32,
) -> (EmitterModel, Option<usize>) {
    if types::is_union(all, composite) {
        let declared = declare(state, AccessKind::Union, base);
        (
            call(declared, AccessKind::Union, before, base, composite, index),
            Some(next_value(state)),
        )
    } else {
        let declared = declare(state, AccessKind::Struct, base);
        if synthetic::is_synthesizable(all, composite) {
            (
                call(declared, AccessKind::Struct, before, base, composite, index),
                Some(next_value(state)),
            )
        } else {
            (declared, None)
        }
    }
}

/// The element of an array that an offset falls into, and what is left of the
/// offset.
pub open spec fn array_index(all: Seq<DiType>, composite: usize, offset_bytes: u64) -> Result<
    (u32, u64),
    ArrayAccessError,
> {
    match types::size_of(all, types::base_of(all, composite)) {
        None => Err(ArrayAccessError::MissingElementType),
        Some(bits) => if bits % 8 != 0 {
            Err(ArrayAccessError::NonByteAlignedElementSize)
        } else if bits / 8 == 0 {
            Err(ArrayAccessError::ZeroSizedElement)
        } else if offset_bytes / (bits / 8) > u32::MAX {
            Err(ArrayAccessError::IndexOverflow)
        } else {
            Ok(((offset_bytes / (bits / 8)) as u32, offset_bytes % (bits / 8)))
        },
    }
}

/// The composite type behind an accessed member.
pub open spec fn member_composite(
    all: Seq<DiType>,
    member: usize,
    expected: Option<ValueType>,
) -> Option<usize> {
    if expected == Some(ValueType::Pointer) {
        types::pointee_composite(all, member)
    } else {
        types::composite_of(all, types::base_of(all, member))
    }
}

/// What the access of an offset in a composite type does and yields. Composite
/// types that are held by value are gone through until a member starts at the
/// offset.
pub open spec fn access_path(
    all: Seq<DiType>,
    state: EmitterModel,
    before: usize,
    base: usize,
    composite: usize,
    offset_bytes: u64,
    expected: Option<ValueType>,
) -> (EmitterModel, Result<Option<AccessPath>, CoreRelocError>)
    decreases composite,
{
    if types::is_array(all, composite) {
        let element = types::base_of(all, composite);
        let nested = types::composite_of(all, element);
        match array_index(all, composite, offset_bytes) {
            Err(e) => (state, Err(CoreRelocError::ArrayAccess(e))),
            Ok((index, remainder)) => {
                let declared = declare(state, AccessKind::Array, base);
                let called = call(declared, AccessKind::Array, before, base, composite, index);
                let ptr = next_value(state);
                if !synthetic::is_synthesizable(all, element->Some_0) {
                    (declared, Ok(None))
                } else if remainder == 0 {
                    if expected is Some && !types::matches_value_type(
                        all,
                        element,
                        expected->Some_0,
                    ) {
                        (called, Ok(None))
                    } else {
                        (called, Ok(Some(AccessPath { ptr, nested_composite: nested })))
                    }
                } else if nested is None || nested->Some_0 >= composite {
                    (called, Ok(None))
                } else {
                    access_path(all, called, before, ptr, nested->Some_0, remainder, expected)
                }
            },
        }
    } else {
        match types::field_at(all, composite, offset_bytes, expected) {
            Some(k) => {
                let member = types::elements_of(all, composite)[k as int];
                let (next, ptr) = preserve_access(all, state, before, base, composite, k as u32);
                match ptr {
                    None => (next, Ok(None)),
                    Some(ptr) => (
                        next,
                        Ok(
                            Some(
                                AccessPath {
                                    ptr,
                                    nested_composite: member_composite(all, member, expected),
                                },
                            ),
                        ),
                    ),
                }
            },
            None => match types::containing_at(all, composite, offset_bytes) {
                None => (state, Ok(None)),
                Some(inner) => {
                    let (next, ptr) = preserve_access(
                        all,
                        state,
                        before,
                        base,
                        composite,
                        inner.member_index,
                    );
                    if ptr is None || inner.nested_composite >= composite {
                        (next, Ok(None))
                    } else {
                        access_path(
                            all,
                            next,
                            before,
                            ptr->Some_0,
                            inner.nested_composite,
                            inner.remainder_bytes,
                            expected,
                        )
                    }
                },
            },
        }
    }
}

impl Emitter {
    fn declare(&mut self, kind: AccessKind, base: usize)
        ensures
            final(self)@ == declare(old(self)@, kind, base),
    {
        self.actions.push(Action::Declare { kind, base });
    }

    fn call(
        &mut self,
        kind: AccessKind,
        before: usize,
        base: usize,
        composite: usize,
        index: u32,
    ) -> (r: usize)
        ensures
            final(self)@ == call(old(self)@, kind, before, base, composite, index),
            r == next_value(old(self)@),
    {
        let result: usize = self.values.len();
        self.values.push(ValueInfo::Other);
        self.actions.push(Action::Call { kind, before, base, composite, index, result });
        result
    }

    /// Emits the access of a member of a structure or union.
    pub fn build_preserve_access(
        &mut self,
        all: &Vec<DiType>,
        before: usize,
        base: usize,
        composite: usize,
        index: u32,
    ) -> (r: Option<usize>)
        requires
            types::wf_types(all@),
            composite < all@.len(),
            all@[composite as int] is Composite,
            !types::is_array(all@, composite),
        ensures
            (final(self)@, r) == preserve_access(
                all@,
                old(self)@,
                before,
                base,
                composite,
                index,
            ),
    {
        let is_union: bool = match &all[composite] {
            DiType::Composite { tag, .. } => *tag == dwarf::dw_tag_union_type(),
            _ => false,
        };
        if is_union {
            self.declare(AccessKind::Union, base);
            Some(self.call(AccessKind::Union, before, base, composite, index))
        } else {
            self.declare(AccessKind::Struct, base);
            match synthetic_struct_type(all, composite) {
                None => None,
                Some(_) => Some(self.call(AccessKind::Struct, before, base, composite, index)),
            }
        }
    }

    /// Emits the accesses that lead to an offset in a composite type.
    pub fn build_access_path(
        &mut self,
        all: &Vec<DiType>,
        before: usize,
        base: usize,
        composite: usize,
        offset_bytes: u64,
        expected: Option<ValueType>,
    ) -> (r: Result<Option<AccessPath>, CoreRelocError>)
        requires
            types::wf_types(all@),
            composite < all@.len(),
            all@[composite as int] is Composite,
        ensures
            (final(self)@, r) == access_path(
                all@,
                old(self)@,
                before,
                base,
                composite,
                offset_bytes,
                expected,
            ),
        decreases composite, 1nat,
    {
        let is_array: bool = match &all[composite] {
            DiType::Composite { tag, .. } => *tag == dwarf::dw_tag_array_type(),
            _ => false,
        };
        if is_array {
            return self.build_array_access_path(
                all,
                before,
                base,
                composite,
                offset_bytes,
                expected,
            );
        }
        assert(types::wf_type(all@, composite as int));
        if let Some(index) = match_field(all, composite, offset_bytes, expected) {
            if let DiType::Composite { elements, .. } = &all[composite] {
                let member: usize = elements[index as usize];
                match self.build_preserve_access(all, before, base, composite, index) {
                    None => return Ok(None),
                    Some(ptr) => {
                        let reads_pointer: bool = match expected {
                            Some(ValueType::Pointer) => true,
                            _ => false,
                        };
                        let nested_composite: Option<usize> = if reads_pointer {
                            member_pointee_composite(all, member)
                        } else {
                            value_composite(all, base_type(all, member))
                        };
                        return Ok(Some(AccessPath { ptr, nested_composite }));
                    },
                }
            }
        }
        match match_containing_member(all, composite, offset_bytes) {
            None => Ok(None),
            Some(inner) => {
                match self.build_preserve_access(
                    all,
                    before,
                    base,
                    composite,
                    inner.member_index,
                ) {
                    None => Ok(None),
                    Some(ptr) => self.build_access_path(
                        all,
                        before,
                        ptr,
                        inner.nested_composite,
                        inner.remainder_bytes,
                        expected,
                    ),
                }
            },
        }
    }

    /// Emits the access of an array element and what lies behind it.
    fn build_array_access_path(
        &mut self,
        all: &Vec<DiType>,
        before: usize,
        base: usize,
        composite: usize,
        offset_bytes: u64,
        expected: Option<ValueType>,
    ) -> (r: Result<Option<AccessPath>, CoreRelocError>)
        requires
            types::wf_types(all@),
            composite < all@.len(),
            types::is_array(all@, composite),
        ensures
            (final(self)@, r) == access_path(
                all@,
                old(self)@,
                before,
                base,
                composite,
                offset_bytes,
                expected,
            ),
        decreases composite, 0nat,
    {
        assert(types::wf_type(all@, composite as int));
        let element: Option<usize> = base_type(all, composite);
        let element_size_bits: u64 = match metadata_size_in_bits(all, element) {
            Some(bits) => bits,
            None => return Err(CoreRelocError::ArrayAccess(ArrayAccessError::MissingElementType)),
        };
        if element_size_bits % BITS_PER_BYTE != 0 {
            return Err(CoreRelocError::ArrayAccess(ArrayAccessError::NonByteAlignedElementSize));
        }
        let element_size_bytes: u64 = element_size_bits / BITS_PER_BYTE;
        if element_size_bytes == 0 {
            return Err(CoreRelocError::ArrayAccess(ArrayAccessError::ZeroSizedElement));
        }
        let wide_index: u64 = offset_bytes / element_size_bytes;
        let remainder_bytes: u64 = offset_bytes % element_size_bytes;
        if wide_index > u32::MAX as u64 {
            return Err(CoreRelocError::ArrayAccess(ArrayAccessError::IndexOverflow));
        }
        let index: u32 = wide_index as u32;
        let ptr: usize = match self.build_preserve_array_access(
            all,
            before,
            base,
            composite,
            index,
        ) {
            Some(ptr) => ptr,
            None => return Ok(None),
        };
        let nested: Option<usize> = value_composite(all, element);
        if remainder_bytes == 0 {
            if let Some(expected) = expected {
                if !metadata_matches_llvm_type(all, element, expected) {
                    return Ok(None);
                }
            }
            return Ok(Some(AccessPath { ptr, nested_composite: nested }));
        }
        match nested {
            None => Ok(None),
            Some(nested) => self.build_access_path(
                all,
                before,
                ptr,
                nested,
                remainder_bytes,
                expected,
            ),
        }
    }

    /// Emits the access of an array element.
    fn build_preserve_array_access(
        &mut self,
        all: &Vec<DiType>,
        before: usize,
        base: usize,
        composite: usize,
        index: u32,
    ) -> (r: Option<usize>)
        requires
            types::wf_types(all@),
            composite < all@.len(),
            types::base_of(all@, composite) is Some,
        ensures
            ({
                let declared = declare(old(self)@, AccessKind::Array, base);
                let element = types::base_of(all@, composite)->Some_0;
                if synthetic::is_synthesizable(all@, element) {
                    &&& r == Some(next_value(old(self)@))
                    &&& final(self)@ == call(
                        declared,
                        AccessKind::Array,
                        before,
                        base,
                        composite,
                        index,
                    )
                } else {
                    &&& r is None
                    &&& final(self)@ == declared
                }
            }),
    {
        self.declare(AccessKind::Array, base);
        let element: usize = match base_type(all, composite) {
            Some(element) => element,
            None => return None,
        };
        match synthetic_llvm_type(all, element) {
            None => None,
            Some(_) => Some(self.call(AccessKind::Array, before, base, composite, index)),
        }
    }
}

/// How far an access goes, in bits.
pub open spec fn access_bits(all: Seq<DiType>, action: Action) -> int {
    match action {
        Action::Call { kind: AccessKind::Array, composite, index, .. } => index * types::size_of(
            all,
            types::base_of(all, composite),
        )->Some_0,
        Action::Call { composite, index, .. } => types::member_offset(
            all,
            types::elements_of(all, composite)[index as int],
        ) as int,
        _ => 0,
    }
}

/// How far a list of accesses goes, in bits.
pub open spec fn total_bits(all: Seq<DiType>, actions: Seq<Action>) -> int
    decreases actions.len(),
{
    if actions.len() == 0 {
        0
    } else {
        total_bits(all, actions.drop_last()) + access_bits(all, actions.last())
    }
}

/// Whether every member starts at a whole byte.
pub open spec fn has_byte_offsets(all: Seq<DiType>) -> bool {
    forall|i: int|
        0 <= i < all.len() && (#[trigger] all[i]) is Derived ==> types::member_offset(
            all,
            i as usize,
        ) % 8 == 0
}

proof fn lemma_total_push(all: Seq<DiType>, actions: Seq<Action>, action: Action)
    ensures
        total_bits(all, actions.push(action)) == total_bits(all, actions) + access_bits(
            all,
            action,
        ),
{
    assert(actions.push(action).drop_last() =~= actions);
}

proof fn lemma_preserve_total(
    all: Seq<DiType>,
    state: EmitterModel,
    before: usize,
    base: usize,
    composite: usize,
    index: u32,
)
    ensures
        ({
            let (next, ptr) = preserve_access(all, state, before, base, composite, index);
            ptr is Some ==> total_bits(all, next.actions) == total_bits(all, state.actions)
                + types::member_offset(all, types::elements_of(all, composite)[index as int])
        }),
{
    let kind = if types::is_union(all, composite) {
        AccessKind::Union
    } else {
        AccessKind::Struct
    };
    let declared = declare(state, kind, base);
    lemma_total_push(all, state.actions, Action::Declare { kind, base });
    lemma_total_push(
        all,
        declared.actions,
        Action::Call { kind, before, base, composite, index, result: next_value(state) },
    );
}

/// The member that starts at an offset starts there.
proof fn lemma_field_offset(
    all: Seq<DiType>,
    elements: Seq<usize>,
    k: nat,
    offset_bits: nat,
    expected: Option<ValueType>,
)
    ensures
        match types::find_field(all, elements, k, offset_bits, expected) {
            Some(i) => k <= i < elements.len() && types::member_offset(all, elements[i as int])
                == offset_bits,
            None => true,
        },
    decreases elements.len() - k,
{
    if k < elements.len() && !types::is_field_at(all, elements, k, offset_bits, expected) {
        lemma_field_offset(all, elements, k + 1, offset_bits, expected);
    }
}

/// What is left of an offset behind a containing member makes up for the rest.
proof fn lemma_containing_offset(
    all: Seq<DiType>,
    elements: Seq<usize>,
    k: nat,
    offset_bits: nat,
)
    requires
        elements.len() <= u32::MAX,
        offset_bits <= u64::MAX,
        offset_bits % 8 == 0,
        forall|j: int|
            0 <= j < elements.len() ==> (all[(#[trigger] elements[j]) as int] is Derived
                ==> types::member_offset(all, elements[j]) % 8 == 0),
    ensures
        match types::find_containing(all, elements, k, offset_bits) {
            Some(inner) => inner.member_index < elements.len() && types::member_offset(
                all,
                elements[inner.member_index as int],
            ) + 8 * inner.remainder_bytes == offset_bits,
            None => true,
        },
    decreases elements.len() - k,
{
    if k < elements.len() {
        lemma_containing_offset(all, elements, k + 1, offset_bits);
    }
}

/// The accesses that lead to an offset add up to that offset: a rewritten access
/// reads and writes at the same place.
pub proof fn access_path_keeps_offset(
    all: Seq<DiType>,
    state: EmitterModel,
    before: usize,
    base: usize,
    composite: usize,
    offset_bytes: u64,
    expected: Option<ValueType>,
)
    requires
        types::wf_types(all),
        has_byte_offsets(all),
        composite < all.len(),
        all[composite as int] is Composite,
    ensures
        ({
            let (next, path) = access_path(
                all,
                state,
                before,
                base,
                composite,
                offset_bytes,
                expected,
            );
            path is Ok && path->Ok_0 is Some ==> total_bits(all, next.actions) == total_bits(
                all,
                state.actions,
            ) + 8 * offset_bytes
        }),
    decreases composite,
{
    assert(types::wf_type(all, composite as int));
    let elements = types::elements_of(all, composite);
    if types::is_array(all, composite) {
        let element = types::base_of(all, composite);
        let nested = types::composite_of(all, element);
        if let Ok((index, remainder)) = array_index(all, composite, offset_bytes) {
            let declared = declare(state, AccessKind::Array, base);
            let called = call(declared, AccessKind::Array, before, base, composite, index);
            let ptr = next_value(state);
            let bits = types::size_of(all, element)->Some_0;
            lemma_total_push(
                all,
                state.actions,
                Action::Declare { kind: AccessKind::Array, base },
            );
            lemma_total_push(
                all,
                declared.actions,
                Action::Call {
                    kind: AccessKind::Array,
                    before,
                    base,
                    composite,
                    index,
                    result: ptr,
                },
            );
            assert(index * bits + 8 * remainder == 8 * offset_bytes) by {
                let bytes = (bits / 8) as int;
                vstd::arithmetic::div_mod::lemma_fundamental_div_mod(offset_bytes as int, bytes);
                assert(index * (8 * bytes) == 8 * (bytes * index)) by (nonlinear_arith);
            }
            if remainder != 0 && nested is Some && nested->Some_0 < composite {
                access_path_keeps_offset(
                    all,
                    called,
                    before,
                    ptr,
                    nested->Some_0,
                    remainder,
                    expected,
                );
            }
        }
    } else if offset_bytes * 8 <= u64::MAX {
        let offset_bits = (offset_bytes * 8) as nat;
        lemma_field_offset(all, elements, 0, offset_bits, expected);
        assert forall|j: int|
            0 <= j < elements.len() && all[(#[trigger] elements[j]) as int] is Derived implies
            types::member_offset(all, elements[j]) % 8 == 0 by {
            let e = elements[j];
            assert(all[e as int] is Derived);
        }
        match types::field_at(all, composite, offset_bytes, expected) {
            Some(k) => {
                lemma_preserve_total(all, state, before, base, composite, k as u32);
            },
            None => {
                lemma_containing_offset(all, elements, 0, offset_bits);
                if let Some(inner) = types::containing_at(all, composite, offset_bytes) {
                    lemma_preserve_total(
                        all,
                        state,
                        before,
                        base,
                        composite,
                        inner.member_index,
                    );
                    let (next, ptr) = preserve_access(
                        all,
                        state,
                        before,
                        base,
                        composite,
                        inner.member_index,
                    );
                    if ptr is Some && inner.nested_composite < composite {
                        types::lemma_containing_is_composite(all, elements, 0, offset_bits);
                        access_path_keeps_offset(
                            all,
                            next,
                            before,
                            ptr->Some_0,
                            inner.nested_composite,
                            inner.remainder_bytes,
                            expected,
                        );
                    }
                }
            },
        }
    }
}

} // verus!
