//! Where the accesses that the pass emits lead.
use vstd::prelude::*;

use crate::core_reloc::error::{ArrayAccessError, CoreRelocError};
use crate::core_reloc::path;
use crate::core_reloc::path::{AccessKind, AccessPath, Action, EmitterModel, ValueInfo};
use crate::core_reloc::synthetic;
use crate::core_reloc::types;
use crate::core_reloc::types::{DiType, ValueType};

verus! {

/// The size of a type in bits, where it has one.
pub open spec fn bits_of(all: Seq<DiType>, ty: Option<usize>) -> Option<u64> {
    if ty is None {
        None
    } else {
        match all[ty->Some_0 as int] {
            DiType::Basic { size_in_bits } => Some(size_in_bits),
            DiType::Derived { size_in_bits, .. } => Some(size_in_bits),
            DiType::Composite { size_in_bits, .. } => Some(size_in_bits),
            DiType::Other => None,
        }
    }
}

/// Whether a type is a pointer.
pub open spec fn points(all: Seq<DiType>, ty: Option<usize>) -> bool {
    ty is Some && match all[ty->Some_0 as int] {
        DiType::Derived { tag, .. } => tag == 0x0f,
        _ => false,
    }
}

/// Whether a composite type is an array.
pub open spec fn has_elements(all: Seq<DiType>, composite: usize) -> bool {
    all[composite as int]->Composite_tag == 0x01
}

/// The members of a structure, and whatever else it lists.
pub open spec fn listed(all: Seq<DiType>, composite: usize) -> Seq<usize> {
    all[composite as int]->Composite_elements@
}

/// Whether a type suits a value that is read or written; any type does where it is
/// not known what that is.
pub open spec fn suits(all: Seq<DiType>, ty: Option<usize>, expected: Option<ValueType>) -> bool {
    match expected {
        None => true,
        Some(ValueType::Pointer) => points(all, ty),
        Some(ValueType::Integer { width }) => bits_of(all, ty) == Some(width as u64),
        Some(ValueType::Other) => !points(all, ty),
    }
}

/// How far a call moves a pointer, in bits: to a member by its offset, to an element
/// by the size of those in front of it.
pub open spec fn step_bits(all: Seq<DiType>, call: Action) -> int {
    match call {
        Action::Call { composite, index, .. } => if has_elements(all, composite) {
            index * bits_of(all, all[composite as int]->Composite_base)->Some_0
        } else {
            all[listed(all, composite)[index as int] as int]->Derived_offset_in_bits as int
        },
        _ => 0,
    }
}

/// The type of what a call leads to.
pub open spec fn step_type(all: Seq<DiType>, call: Action) -> Option<usize> {
    let composite = call->Call_composite;
    if has_elements(all, composite) {
        all[composite as int]->Composite_base
    } else {
        all[listed(all, composite)[call->Call_index as int] as int]->Derived_base
    }
}

/// Follows a pointer back through the calls that yield it: where it ends up, and how
/// far the calls on the way move it, in bits.
pub open spec fn follow(all: Seq<DiType>, actions: Seq<Action>, ptr: usize) -> (usize, int)
    decreases actions.len(),
{
    if actions.len() == 0 {
        (ptr, 0)
    } else {
        match actions.last() {
            Action::Call { base, result, .. } => if result == ptr {
                let (origin, bits) = follow(all, actions.drop_last(), base);
                (origin, bits + step_bits(all, actions.last()))
            } else {
                follow(all, actions.drop_last(), ptr)
            },
            _ => follow(all, actions.drop_last(), ptr),
        }
    }
}

/// Whether actions are calls, each declared in front of it, that start at a pointer
/// to a composite type, and of which each goes on from what the one before yields and
/// in the type that this leads to.
pub open spec fn is_chain(
    all: Seq<DiType>,
    actions: Seq<Action>,
    before: usize,
    base: usize,
    composite: usize,
    values: nat,
) -> bool
    decreases actions.len(),
{
    actions.len() == 0 || {
        &&& actions.len() >= 2
        &&& match actions[1] {
            Action::Call { kind, before: at, base: from, composite: ty, result, .. } => {
                &&& actions[0] == (Action::Declare { kind, base })
                &&& at == before
                &&& from == base
                &&& ty == composite
                &&& result == values as usize
                &&& kind == (if all[composite as int]->Composite_tag == 0x01 {
                    AccessKind::Array
                } else if all[composite as int]->Composite_tag == 0x17 {
                    AccessKind::Union
                } else {
                    AccessKind::Struct
                })
                &&& actions.len() > 2 ==> step_type(all, actions[1]) is Some && is_chain(
                    all,
                    actions.skip(2),
                    before,
                    result,
                    step_type(all, actions[1])->Some_0,
                    values + 1,
                )
            },
            _ => false,
        }
    }
}

/// Whether every member starts at a whole byte.
pub open spec fn is_byte_aligned(all: Seq<DiType>) -> bool {
    forall|i: int|
        0 <= i < all.len() && (#[trigger] all[i]) is Derived ==> all[i]->Derived_offset_in_bits % 8
            == 0
}

/// The composite type behind a pointer that leads to a value of type `ty`, where the
/// value itself is no pointer that is read.
pub open spec fn held_composite(all: Seq<DiType>, ty: Option<usize>) -> Option<usize> {
    if ty is Some && all[ty->Some_0 as int] is Composite {
        ty
    } else {
        None
    }
}

/// The composite type that is known behind what is accessed: of a member that is
/// read as a pointer the one it points to, otherwise the one that is held.
pub open spec fn known_composite(
    all: Seq<DiType>,
    ty: Option<usize>,
    expected: Option<ValueType>,
) -> Option<usize> {
    if expected != Some(ValueType::Pointer) {
        held_composite(all, ty)
    } else if points(all, ty) {
        held_composite(all, all[ty->Some_0 as int]->Derived_base)
    } else {
        None
    }
}

/// Whether a member starts at a bit offset and suits what is read or written.
pub open spec fn starts_at(
    all: Seq<DiType>,
    member: usize,
    bits: int,
    expected: Option<ValueType>,
) -> bool {
    match all[member as int] {
        DiType::Derived { offset_in_bits, base, .. } => offset_in_bits == bits && suits(
            all,
            base,
            expected,
        ),
        _ => false,
    }
}

/// The bit at which the composite type that a member holds ends.
pub open spec fn end_of(all: Seq<DiType>, member: usize) -> int {
    let base = all[member as int]->Derived_base->Some_0;
    all[member as int]->Derived_offset_in_bits + all[base as int]->Composite_size_in_bits
}

/// Whether a member holds a composite type in which a bit lies, or one whose end
/// cannot be told.
pub open spec fn reaches(all: Seq<DiType>, member: usize, bits: int) -> bool {
    match all[member as int] {
        DiType::Derived { offset_in_bits, base: Some(base), .. } => {
            &&& all[base as int] is Composite
            &&& offset_in_bits <= bits
            &&& bits < end_of(all, member) || end_of(all, member) > u64::MAX
        },
        _ => false,
    }
}

/// The state after a call was declared and emitted.
pub open spec fn after_call(
    state: EmitterModel,
    kind: AccessKind,
    before: usize,
    base: usize,
    composite: usize,
    index: u32,
) -> EmitterModel {
    EmitterModel {
        values: state.values + seq![ValueInfo::Other],
        actions: state.actions + seq![
            Action::Declare { kind, base },
            Action::Call {
                kind,
                before,
                base,
                composite,
                index,
                result: state.values.len() as usize,
            },
        ],
    }
}

/// The state after a call was only declared.
pub open spec fn after_declaration(
    state: EmitterModel,
    kind: AccessKind,
    base: usize,
) -> EmitterModel {
    EmitterModel { actions: state.actions + seq![Action::Declare { kind, base }], ..state }
}

/// The kind of call that accesses a member.
pub open spec fn member_kind(all: Seq<DiType>, composite: usize) -> AccessKind {
    if all[composite as int]->Composite_tag == 0x17 {
        AccessKind::Union
    } else {
        AccessKind::Struct
    }
}

/// Whether the members of a structure or union can be accessed: a structure needs an
/// IR type for that, a union does not.
pub open spec fn is_accessible(all: Seq<DiType>, composite: usize) -> bool {
    all[composite as int]->Composite_tag == 0x17 || synthetic::is_synthesizable(all, composite)
}

proof fn lemma_follow_concat(all: Seq<DiType>, a: Seq<Action>, b: Seq<Action>, ptr: usize)
    ensures
        ({
            let (middle, far) = follow(all, b, ptr);
            let (origin, near) = follow(all, a, middle);
            follow(all, a + b, ptr) == (origin, near + far)
        }),
    decreases b.len(),
{
    if b.len() == 0 {
        assert(a + b =~= a);
    } else {
        assert((a + b).drop_last() =~= a + b.drop_last());
        assert((a + b).last() == b.last());
        match b.last() {
            Action::Call { base, result, .. } => if result == ptr {
                lemma_follow_concat(all, a, b.drop_last(), base);
            } else {
                lemma_follow_concat(all, a, b.drop_last(), ptr);
            },
            _ => {
                lemma_follow_concat(all, a, b.drop_last(), ptr);
            },
        }
    }
}

proof fn lemma_follow_call(all: Seq<DiType>, actions: Seq<Action>, ptr: usize)
    requires
        actions.len() == 2,
        actions[0] is Declare,
        actions[1] is Call,
        actions[1]->Call_result == ptr,
    ensures
        follow(all, actions, ptr) == (actions[1]->Call_base, step_bits(all, actions[1])),
{
    let first = actions.drop_last();
    let none = first.drop_last();
    assert(first.len() == 1 && first.last() == actions[0]);
    assert(none.len() == 0);
    let base = actions[1]->Call_base;
    assert(follow(all, none, base) == (base, 0int));
    assert(follow(all, first, base) == (base, 0int));
}

proof fn lemma_suits(all: Seq<DiType>, ty: Option<usize>, expected: ValueType)
    ensures
        types::matches_value_type(all, ty, expected) == suits(all, ty, Some(expected)),
        types::size_of(all, ty) == bits_of(all, ty),
{
}

proof fn lemma_find_field(
    all: Seq<DiType>,
    elements: Seq<usize>,
    k: nat,
    at: int,
    bits: nat,
    expected: Option<ValueType>,
)
    requires
        k <= at <= elements.len(),
        forall|j: int|
            k <= j < at ==> !starts_at(all, #[trigger] elements[j], bits as int, expected),
        at < elements.len() ==> starts_at(all, elements[at], bits as int, expected),
    ensures
        types::find_field(all, elements, k, bits, expected) == (if at < elements.len() {
            Some(at as nat)
        } else {
            None
        }),
    decreases elements.len() - k,
{
    if k < elements.len() {
        let e = elements[k as int];
        if expected is Some {
            lemma_suits(all, types::base_of(all, e), expected->Some_0);
        }
        assert(types::is_field_at(all, elements, k, bits, expected) == starts_at(
            all,
            e,
            bits as int,
            expected,
        ));
        if k < at {
            lemma_find_field(all, elements, k + 1, at, bits, expected);
        }
    }
}

proof fn lemma_find_containing(all: Seq<DiType>, elements: Seq<usize>, k: nat, at: int, bits: nat)
    requires
        k <= at <= elements.len(),
        forall|j: int| k <= j < at ==> !reaches(all, #[trigger] elements[j], bits as int),
        at < elements.len() ==> reaches(all, elements[at], bits as int),
    ensures
        ({
            let found = types::find_containing(all, elements, k, bits);
            if at == elements.len() || end_of(all, elements[at]) > u64::MAX {
                found is None
            } else {
                let member = elements[at];
                &&& found is Some
                &&& found->Some_0.member_index == at as u32
                &&& found->Some_0.nested_composite == all[member as int]->Derived_base->Some_0
                &&& found->Some_0.remainder_bytes == ((bits
                    - all[member as int]->Derived_offset_in_bits) / 8) as u64
            }
        }),
    decreases elements.len() - k,
{
    if k < elements.len() {
        let e = elements[k as int];
        if k < at {
            assert(!reaches(all, elements[k as int], bits as int));
            lemma_find_containing(all, elements, k + 1, at, bits);
        }
    }
}

proof fn lemma_preserve(
    all: Seq<DiType>,
    state: EmitterModel,
    before: usize,
    base: usize,
    composite: usize,
    index: u32,
)
    requires
        all[composite as int] is Composite,
    ensures
        path::preserve_access(all, state, before, base, composite, index) == (if is_accessible(
            all,
            composite,
        ) {
            (
                after_call(state, member_kind(all, composite), before, base, composite, index),
                Some(state.values.len() as usize),
            )
        } else {
            (after_declaration(state, AccessKind::Struct, base), None)
        }),
{
    let (next, _) = path::preserve_access(all, state, before, base, composite, index);
    let called = after_call(state, member_kind(all, composite), before, base, composite, index);
    let declared = after_declaration(state, AccessKind::Struct, base);
    if is_accessible(all, composite) {
        assert(next.actions =~= called.actions);
        assert(next.values =~= called.values);
    } else {
        assert(next.actions =~= declared.actions);
    }
}

/// A member that starts at the offset, and suits what is read or written there, is
/// accessed by one call with its number: the first such member, in a structure that
/// has an IR type and in any union.
pub proof fn member_at_the_offset_is_accessed(
    all: Seq<DiType>,
    state: EmitterModel,
    before: usize,
    base: usize,
    composite: usize,
    offset_bytes: u64,
    expected: Option<ValueType>,
    k: int,
)
    requires
        types::wf_types(all),
        composite < all.len(),
        all[composite as int] is Composite,
        !has_elements(all, composite),
        offset_bytes * 8 <= u64::MAX,
        0 <= k < listed(all, composite).len(),
        starts_at(all, listed(all, composite)[k], offset_bytes * 8, expected),
        forall|j: int|
            0 <= j < k ==> !starts_at(
                all,
                #[trigger] listed(all, composite)[j],
                offset_bytes * 8,
                expected,
            ),
    ensures
        path::access_path(all, state, before, base, composite, offset_bytes, expected) == (
        if is_accessible(all, composite) {
            (
                after_call(state, member_kind(all, composite), before, base, composite, k as u32),
                Ok::<Option<AccessPath>, CoreRelocError>(
                    Some(
                        AccessPath {
                            ptr: state.values.len() as usize,
                            nested_composite: known_composite(
                                all,
                                all[listed(all, composite)[k] as int]->Derived_base,
                                expected,
                            ),
                        },
                    ),
                ),
            )
        } else {
            (
                after_declaration(state, AccessKind::Struct, base),
                Ok::<Option<AccessPath>, CoreRelocError>(None),
            )
        }),
{
    lemma_find_field(all, listed(all, composite), 0, k, (offset_bytes * 8) as nat, expected);
    lemma_preserve(all, state, before, base, composite, k as u32);
}

/// Where no member starts at the offset, the first member that holds a composite type
/// around it is accessed, and the rest of the offset is looked for in that type from
/// there on. The search ends where the end of such a member cannot be told.
pub proof fn member_around_the_offset_is_entered(
    all: Seq<DiType>,
    state: EmitterModel,
    before: usize,
    base: usize,
    composite: usize,
    offset_bytes: u64,
    expected: Option<ValueType>,
    k: int,
)
    requires
        types::wf_types(all),
        composite < all.len(),
        all[composite as int] is Composite,
        !has_elements(all, composite),
        offset_bytes * 8 <= u64::MAX,
        0 <= k < listed(all, composite).len(),
        forall|j: int|
            0 <= j < listed(all, composite).len() ==> !starts_at(
                all,
                #[trigger] listed(all, composite)[j],
                offset_bytes * 8,
                expected,
            ),
        reaches(all, listed(all, composite)[k], offset_bytes * 8),
        forall|j: int|
            0 <= j < k ==> !reaches(all, #[trigger] listed(all, composite)[j], offset_bytes * 8),
    ensures
        ({
            let member = listed(all, composite)[k];
            let nothing = Ok::<Option<AccessPath>, CoreRelocError>(None);
            path::access_path(all, state, before, base, composite, offset_bytes, expected) == (
            if end_of(all, member) > u64::MAX {
                (state, nothing)
            } else if is_accessible(all, composite) {
                path::access_path(
                    all,
                    after_call(
                        state,
                        member_kind(all, composite),
                        before,
                        base,
                        composite,
                        k as u32,
                    ),
                    before,
                    state.values.len() as usize,
                    all[member as int]->Derived_base->Some_0,
                    ((offset_bytes * 8 - all[member as int]->Derived_offset_in_bits) / 8) as u64,
                    expected,
                )
            } else {
                (after_declaration(state, AccessKind::Struct, base), nothing)
            })
        }),
{
    let elements = listed(all, composite);
    let bits = (offset_bytes * 8) as nat;
    lemma_find_field(all, elements, 0, elements.len() as int, bits, expected);
    lemma_find_containing(all, elements, 0, k, bits);
    lemma_preserve(all, state, before, base, composite, k as u32);
    assert(types::wf_type(all, composite as int));
    let member = elements[k];
    assert(types::embeds_earlier(all, types::base_of(all, member), composite as int));
}

/// An offset at which no member starts, and around which none holds a composite type,
/// is not accessed, nor one that has too many bits.
pub proof fn offset_outside_of_members_is_left(
    all: Seq<DiType>,
    state: EmitterModel,
    before: usize,
    base: usize,
    composite: usize,
    offset_bytes: u64,
    expected: Option<ValueType>,
)
    requires
        types::wf_types(all),
        composite < all.len(),
        all[composite as int] is Composite,
        !has_elements(all, composite),
        offset_bytes * 8 > u64::MAX || forall|j: int|
            0 <= j < listed(all, composite).len() ==> !starts_at(
                all,
                #[trigger] listed(all, composite)[j],
                offset_bytes * 8,
                expected,
            ) && !reaches(all, listed(all, composite)[j], offset_bytes * 8),
    ensures
        path::access_path(all, state, before, base, composite, offset_bytes, expected) == (
            state,
            Ok::<Option<AccessPath>, CoreRelocError>(None),
        ),
{
    if offset_bytes * 8 <= u64::MAX {
        let elements = listed(all, composite);
        let bits = (offset_bytes * 8) as nat;
        lemma_find_field(all, elements, 0, elements.len() as int, bits, expected);
        lemma_find_containing(all, elements, 0, elements.len() as int, bits);
    }
}

/// The size of the elements of an array has to be known, a whole number of bytes and
/// not zero. Nothing is emitted where it is not.
pub proof fn element_size_has_to_be_known(
    all: Seq<DiType>,
    state: EmitterModel,
    before: usize,
    base: usize,
    composite: usize,
    offset_bytes: u64,
    expected: Option<ValueType>,
)
    requires
        types::wf_types(all),
        composite < all.len(),
        all[composite as int] is Composite,
        has_elements(all, composite),
    ensures
        ({
            let size = bits_of(all, all[composite as int]->Composite_base);
            let (next, result) = path::access_path(
                all,
                state,
                before,
                base,
                composite,
                offset_bytes,
                expected,
            );
            let failed = |e: ArrayAccessError|
                next == state && result == Err::<Option<AccessPath>, CoreRelocError>(
                    CoreRelocError::ArrayAccess(e),
                );
            if size is None {
                failed(ArrayAccessError::MissingElementType)
            } else if size->Some_0 % 8 != 0 {
                failed(ArrayAccessError::NonByteAlignedElementSize)
            } else {
                size->Some_0 == 0 ==> failed(ArrayAccessError::ZeroSizedElement)
            }
        }),
{
    assert(types::wf_type(all, composite as int));
    let element = types::base_of(all, composite);
    assert(types::size_of(all, element) == bits_of(all, element));
}

/// In an array the element is accessed in which the offset lies, if its number fits 32
/// bits. It must start at the offset and suit what is read or written; otherwise the
/// rest of the offset is looked for in it, where it is a composite type.
pub proof fn element_at_the_offset_is_accessed(
    all: Seq<DiType>,
    state: EmitterModel,
    before: usize,
    base: usize,
    composite: usize,
    offset_bytes: u64,
    expected: Option<ValueType>,
    index: int,
    rest: int,
)
    requires
        types::wf_types(all),
        composite < all.len(),
        all[composite as int] is Composite,
        has_elements(all, composite),
        bits_of(all, all[composite as int]->Composite_base) is Some,
        bits_of(all, all[composite as int]->Composite_base)->Some_0 % 8 == 0,
        0 <= 8 * rest < bits_of(all, all[composite as int]->Composite_base)->Some_0,
        index * bits_of(all, all[composite as int]->Composite_base)->Some_0 + 8 * rest == 8
            * offset_bytes,
    ensures
        ({
            let element = all[composite as int]->Composite_base;
            let ptr = state.values.len() as usize;
            let nothing = Ok::<Option<AccessPath>, CoreRelocError>(None);
            let called = after_call(
                state,
                AccessKind::Array,
                before,
                base,
                composite,
                index as u32,
            );
            path::access_path(all, state, before, base, composite, offset_bytes, expected) == (
            if index > u32::MAX {
                (
                    state,
                    Err::<Option<AccessPath>, CoreRelocError>(
                        CoreRelocError::ArrayAccess(ArrayAccessError::IndexOverflow),
                    ),
                )
            } else if !synthetic::is_synthesizable(all, element->Some_0) {
                (after_declaration(state, AccessKind::Array, base), nothing)
            } else if rest == 0 && suits(all, element, expected) {
                (
                    called,
                    Ok::<Option<AccessPath>, CoreRelocError>(
                        Some(AccessPath { ptr, nested_composite: held_composite(all, element) }),
                    ),
                )
            } else if rest == 0 || held_composite(all, element) is None {
                (called, nothing)
            } else {
                path::access_path(
                    all,
                    called,
                    before,
                    ptr,
                    element->Some_0,
                    rest as u64,
                    expected,
                )
            })
        }),
{
    assert(types::wf_type(all, composite as int));
    let element = types::base_of(all, composite);
    let size = bits_of(all, element)->Some_0;
    assert(types::size_of(all, element) == Some(size));
    let bytes = (size / 8) as int;
    let declared = after_declaration(state, AccessKind::Array, base);
    assert(path::declare(state, AccessKind::Array, base).actions =~= declared.actions);
    assert(index * size == 8 * (index * bytes)) by (nonlinear_arith)
        requires
            size == 8 * bytes,
    ;
    assert(offset_bytes == index * bytes + rest);
    vstd::arithmetic::div_mod::lemma_fundamental_div_mod_converse(
        offset_bytes as int,
        bytes,
        index,
        rest,
    );
    let a = path::call(
        path::declare(state, AccessKind::Array, base),
        AccessKind::Array,
        before,
        base,
        composite,
        index as u32,
    );
    let b = after_call(state, AccessKind::Array, before, base, composite, index as u32);
    assert(a.actions =~= b.actions);
    assert(a.values =~= b.values);
    if expected is Some {
        lemma_suits(all, element, expected->Some_0);
    }
}

proof fn lemma_field_found(
    all: Seq<DiType>,
    elements: Seq<usize>,
    k: nat,
    bits: nat,
    expected: Option<ValueType>,
)
    ensures
        match types::find_field(all, elements, k, bits, expected) {
            Some(i) => k <= i < elements.len() && starts_at(
                all,
                elements[i as int],
                bits as int,
                expected,
            ),
            None => true,
        },
    decreases elements.len() - k,
{
    if k < elements.len() {
        let e = elements[k as int];
        if expected is Some {
            lemma_suits(all, types::base_of(all, e), expected->Some_0);
        }
        lemma_field_found(all, elements, k + 1, bits, expected);
    }
}

proof fn lemma_containing_found(all: Seq<DiType>, elements: Seq<usize>, k: nat, bits: nat)
    requires
        elements.len() <= u32::MAX,
        bits <= u64::MAX,
    ensures
        match types::find_containing(all, elements, k, bits) {
            Some(inner) => {
                let member = elements[inner.member_index as int];
                &&& k <= inner.member_index < elements.len()
                &&& all[member as int] is Derived
                &&& all[member as int]->Derived_base == Some(inner.nested_composite)
                &&& all[inner.nested_composite as int] is Composite
                &&& all[member as int]->Derived_offset_in_bits <= bits
                &&& inner.remainder_bytes == (bits - all[member as int]->Derived_offset_in_bits)
                    / 8
            },
            None => true,
        },
    decreases elements.len() - k,
{
    if k < elements.len() {
        lemma_containing_found(all, elements, k + 1, bits);
    }
}

/// What the emitted actions and the result of an access have to do with each other.
spec fn is_led(
    all: Seq<DiType>,
    state: EmitterModel,
    next: EmitterModel,
    before: usize,
    base: usize,
    composite: usize,
    offset_bytes: u64,
    expected: Option<ValueType>,
    path: AccessPath,
) -> bool {
    let calls = next.actions.skip(state.actions.len() as int);
    let reached = step_type(all, calls.last());
    let (origin, bits) = follow(all, calls, path.ptr);
    &&& calls.len() >= 2
    &&& is_chain(all, calls, before, base, composite, state.values.len())
    &&& calls.last()->Call_result == path.ptr
    &&& next.values.len() == state.values.len() + calls.len() / 2
    &&& calls.len() % 2 == 0
    &&& origin == base
    &&& is_byte_aligned(all) ==> bits == 8 * offset_bytes
    &&& 0 <= 8 * offset_bytes - bits <= 7 * (calls.len() / 2 - 1)
    &&& suits(all, reached, expected)
    &&& path.nested_composite == (if has_elements(all, calls.last()->Call_composite) {
        held_composite(all, reached)
    } else {
        known_composite(all, reached, expected)
    })
}

/// One more call in front of a chain of calls.
#[verifier::rlimit(40)]
#[verifier::spinoff_prover]
proof fn lemma_one_more(
    all: Seq<DiType>,
    state: EmitterModel,
    kind: AccessKind,
    before: usize,
    base: usize,
    composite: usize,
    index: u32,
    nested: usize,
    rest: u64,
    offset_bytes: u64,
    expected: Option<ValueType>,
    end: EmitterModel,
    path: AccessPath,
)
    requires
        ({
            let next = after_call(state, kind, before, base, composite, index);
            let call = next.actions.last();
            &&& step_type(all, call) == Some(nested)
            &&& kind == (if has_elements(all, composite) {
                AccessKind::Array
            } else {
                member_kind(all, composite)
            })
            &&& is_byte_aligned(all) ==> step_bits(all, call) + 8 * rest == 8 * offset_bytes
            &&& 0 <= 8 * offset_bytes - (step_bits(all, call) + 8 * rest) <= 7
            &&& end.actions.len() >= next.actions.len()
            &&& end.actions.take(next.actions.len() as int) == next.actions
            &&& is_led(
                all,
                next,
                end,
                before,
                state.values.len() as usize,
                nested,
                rest,
                expected,
                path,
            )
        }),
    ensures
        end.actions.take(state.actions.len() as int) == state.actions,
        is_led(all, state, end, before, base, composite, offset_bytes, expected, path),
{
    let next = after_call(state, kind, before, base, composite, index);
    let later = end.actions.skip(next.actions.len() as int);
    let calls = end.actions.skip(state.actions.len() as int);
    let first = next.actions.skip(state.actions.len() as int);
    let n = state.actions.len() as int;
    assert forall|i: int| 0 <= i < next.actions.len() implies #[trigger] end.actions[i]
        == next.actions[i] by {
        assert(end.actions.take(next.actions.len() as int)[i] == end.actions[i]);
    }
    assert(end.actions.take(n) =~= state.actions);
    assert(first.len() == 2);
    assert(first[0] == next.actions[n] && first[1] == next.actions[n + 1]);
    assert(calls =~= first + later);
    assert(calls.skip(2) =~= later);
    assert(calls[0] == first[0] && calls[1] == first[1]);
    assert(next.actions.last() == first[1]);
    lemma_follow_call(all, first, state.values.len() as usize);
    lemma_follow_concat(all, first, later, path.ptr);
    assert(calls.last() == later.last());
    assert(next.values.len() == state.values.len() + 1);
}

/// A single call.
proof fn lemma_only_one(
    all: Seq<DiType>,
    state: EmitterModel,
    kind: AccessKind,
    before: usize,
    base: usize,
    composite: usize,
    index: u32,
    offset_bytes: u64,
    expected: Option<ValueType>,
    path: AccessPath,
)
    requires
        ({
            let next = after_call(state, kind, before, base, composite, index);
            let call = next.actions.last();
            let reached = step_type(all, call);
            &&& kind == (if has_elements(all, composite) {
                AccessKind::Array
            } else {
                member_kind(all, composite)
            })
            &&& step_bits(all, call) == 8 * offset_bytes
            &&& suits(all, reached, expected)
            &&& path.ptr == state.values.len() as usize
            &&& path.nested_composite == (if has_elements(all, composite) {
                held_composite(all, reached)
            } else {
                known_composite(all, reached, expected)
            })
        }),
    ensures
        ({
            let next = after_call(state, kind, before, base, composite, index);
            &&& next.actions.take(state.actions.len() as int) == state.actions
            &&& is_led(all, state, next, before, base, composite, offset_bytes, expected, path)
        }),
{
    let next = after_call(state, kind, before, base, composite, index);
    let calls = next.actions.skip(state.actions.len() as int);
    let n = state.actions.len() as int;
    assert(calls.len() == 2);
    assert(calls[0] == next.actions[n] && calls[1] == next.actions[n + 1]);
    assert(next.actions.take(n) =~= state.actions);
    assert(next.actions.last() == calls[1]);
    lemma_follow_call(all, calls, path.ptr);
}

#[verifier::rlimit(40)]
#[verifier::spinoff_prover]
proof fn lemma_led(
    all: Seq<DiType>,
    state: EmitterModel,
    before: usize,
    base: usize,
    composite: usize,
    offset_bytes: u64,
    expected: Option<ValueType>,
)
    requires
        types::wf_types(all),
        composite < all.len(),
        all[composite as int] is Composite,
    ensures
        ({
            let (next, path) = path::access_path(
                all,
                state,
                before,
                base,
                composite,
                offset_bytes,
                expected,
            );
            path is Ok && path->Ok_0 is Some ==> {
                &&& next.actions.len() >= state.actions.len()
                &&& next.actions.take(state.actions.len() as int) == state.actions
                &&& is_led(
                    all,
                    state,
                    next,
                    before,
                    base,
                    composite,
                    offset_bytes,
                    expected,
                    path->Ok_0->Some_0,
                )
            }
        }),
    decreases composite,
{
    assert(types::wf_type(all, composite as int));
    let (end, path) = path::access_path(
        all,
        state,
        before,
        base,
        composite,
        offset_bytes,
        expected,
    );
    let element = all[composite as int]->Composite_base;
    if has_elements(all, composite) {
        element_size_has_to_be_known(
            all,
            state,
            before,
            base,
            composite,
            offset_bytes,
            expected,
        );
        let size = bits_of(all, element);
        if size is Some && size->Some_0 % 8 == 0 && size->Some_0 != 0 {
            let bytes = (size->Some_0 / 8) as int;
            let index = offset_bytes as int / bytes;
            let rest = offset_bytes as int % bytes;
            vstd::arithmetic::div_mod::lemma_fundamental_div_mod(offset_bytes as int, bytes);
            assert(index * size->Some_0 == 8 * (bytes * index)) by (nonlinear_arith)
                requires
                    size->Some_0 == 8 * bytes,
            ;
            assert(index >= 0) by (nonlinear_arith)
                requires
                    index == offset_bytes as int / bytes,
                    bytes > 0,
            ;
            element_at_the_offset_is_accessed(
                all,
                state,
                before,
                base,
                composite,
                offset_bytes,
                expected,
                index,
                rest,
            );
            if index <= u32::MAX && synthetic::is_synthesizable(all, element->Some_0) {
                let called = after_call(
                    state,
                    AccessKind::Array,
                    before,
                    base,
                    composite,
                    index as u32,
                );
                if rest == 0 && suits(all, element, expected) {
                    lemma_only_one(
                        all,
                        state,
                        AccessKind::Array,
                        before,
                        base,
                        composite,
                        index as u32,
                        offset_bytes,
                        expected,
                        path->Ok_0->Some_0,
                    );
                } else if rest != 0 && held_composite(all, element) is Some {
                    let ptr = state.values.len() as usize;
                    lemma_led(
                        all,
                        called,
                        before,
                        ptr,
                        element->Some_0,
                        rest as u64,
                        expected,
                    );
                    if path is Ok && path->Ok_0 is Some {
                        lemma_one_more(
                            all,
                            state,
                            AccessKind::Array,
                            before,
                            base,
                            composite,
                            index as u32,
                            element->Some_0,
                            rest as u64,
                            offset_bytes,
                            expected,
                            end,
                            path->Ok_0->Some_0,
                        );
                    }
                }
            }
        }
    } else if offset_bytes * 8 <= u64::MAX {
        let elements = listed(all, composite);
        let bits = (offset_bytes * 8) as nat;
        lemma_field_found(all, elements, 0, bits, expected);
        match types::field_at(all, composite, offset_bytes, expected) {
            Some(k) => {
                lemma_preserve(all, state, before, base, composite, k as u32);
                if is_accessible(all, composite) {
                    lemma_only_one(
                        all,
                        state,
                        member_kind(all, composite),
                        before,
                        base,
                        composite,
                        k as u32,
                        offset_bytes,
                        expected,
                        path->Ok_0->Some_0,
                    );
                }
            },
            None => {
                lemma_containing_found(all, elements, 0, bits);
                if let Some(inner) = types::containing_at(all, composite, offset_bytes) {
                    let k = inner.member_index;
                    lemma_preserve(all, state, before, base, composite, k);
                    let member = elements[k as int];
                    assert(types::embeds_earlier(
                        all,
                        types::base_of(all, member),
                        composite as int,
                    ));
                    if is_accessible(all, composite) {
                        let called = after_call(
                            state,
                            member_kind(all, composite),
                            before,
                            base,
                            composite,
                            k,
                        );
                        lemma_led(
                            all,
                            called,
                            before,
                            state.values.len() as usize,
                            inner.nested_composite,
                            inner.remainder_bytes,
                            expected,
                        );
                        assert(all[member as int] is Derived);
                        if path is Ok && path->Ok_0 is Some {
                            lemma_one_more(
                                all,
                                state,
                                member_kind(all, composite),
                                before,
                                base,
                                composite,
                                k,
                                inner.nested_composite,
                                inner.remainder_bytes,
                                offset_bytes,
                                expected,
                                end,
                                path->Ok_0->Some_0,
                            );
                        }
                    }
                }
            },
        }
    }
}

/// Where an access path is built, the emitted calls form a chain: each goes on from
/// what the one before it yields, and in the type that this leads to. Followed back
/// from the pointer that is returned, the chain ends at the pointer that was passed in. The
/// offsets of the calls on it fall short of the offset that was asked for by less than a byte
/// for each call but the last. What the last call leads to suits what is read or written.
pub proof fn access_path_is_a_chain(
    all: Seq<DiType>,
    state: EmitterModel,
    before: usize,
    base: usize,
    composite: usize,
    offset_bytes: u64,
    expected: Option<ValueType>,
)
    requires
        types::wf_types(all),
        composite < all.len(),
        all[composite as int] is Composite,
    ensures
        ({
            let (next, result) = path::access_path(
                all,
                state,
                before,
                base,
                composite,
                offset_bytes,
                expected,
            );
            let calls = next.actions.skip(state.actions.len() as int);
            let reached = step_type(all, calls.last());
            result is Ok && result->Ok_0 is Some ==> {
                let path = result->Ok_0->Some_0;
                &&& next.actions.len() >= state.actions.len() + 2
                &&& next.actions.take(state.actions.len() as int) == state.actions
                &&& is_chain(all, calls, before, base, composite, state.values.len())
                &&& calls.last()->Call_result == path.ptr
                &&& follow(all, calls, path.ptr).0 == base
                &&& 0 <= 8 * offset_bytes - follow(all, calls, path.ptr).1 <= 7 * (calls.len() / 2
                    - 1)
                &&& next.values.len() == state.values.len() + calls.len() / 2
                &&& suits(all, reached, expected)
                &&& path.nested_composite == (if has_elements(
                    all,
                    calls.last()->Call_composite,
                ) {
                    held_composite(all, reached)
                } else {
                    known_composite(all, reached, expected)
                })
            }
        }),
{
    lemma_led(all, state, before, base, composite, offset_bytes, expected);
}

/// Where every member starts at a whole byte, the offsets of the calls on the way from
/// the pointer that was passed in to the one that is returned add up to the offset that
/// was asked for.
pub proof fn access_path_goes_to_the_offset(
    all: Seq<DiType>,
    state: EmitterModel,
    before: usize,
    base: usize,
    composite: usize,
    offset_bytes: u64,
    expected: Option<ValueType>,
)
    requires
        types::wf_types(all),
        is_byte_aligned(all),
        composite < all.len(),
        all[composite as int] is Composite,
    ensures
        ({
            let (next, result) = path::access_path(
                all,
                state,
                before,
                base,
                composite,
                offset_bytes,
                expected,
            );
            let calls = next.actions.skip(state.actions.len() as int);
            result is Ok && result->Ok_0 is Some ==> follow(all, calls, result->Ok_0->Some_0.ptr)
                == (base, 8 * offset_bytes)
        }),
{
    lemma_led(all, state, before, base, composite, offset_bytes, expected);
}

/// An IR type can be made up for a basic type and for a pointer; for an array whose
/// elements have one and a size; for any other composite type all of whose members
/// have one.
pub proof fn types_of_known_parts_are_made_up(all: Seq<DiType>, id: usize)
    requires
        types::wf_types(all),
        id < all.len(),
    ensures
        synthetic::is_synthesizable(all, id) == (match all[id as int] {
            DiType::Basic { .. } => true,
            DiType::Derived { tag, .. } => tag == 0x0f,
            DiType::Composite { tag, base, elements, .. } => if tag == 0x01 {
                &&& base is Some
                &&& synthetic::is_synthesizable(all, base->Some_0)
                &&& bits_of(all, base) is Some
                &&& bits_of(all, base)->Some_0 != 0
            } else {
                forall|j: int|
                    0 <= j < elements@.len() && all[(#[trigger] elements@[j]) as int] is Derived
                        ==> {
                        let part = all[elements@[j] as int]->Derived_base;
                        part is Some && synthetic::is_synthesizable(all, part->Some_0)
                    }
            },
            DiType::Other => false,
        }),
{
    assert(types::wf_type(all, id as int));
    if let DiType::Composite { tag, elements, .. } = all[id as int] {
        if tag != 0x01 {
            lemma_members_are_made_up(all, id, elements@.len());
        }
    }
}

proof fn lemma_members_are_made_up(all: Seq<DiType>, id: usize, n: nat)
    requires
        types::wf_types(all),
        id < all.len(),
        all[id as int] is Composite,
        n <= listed(all, id).len(),
    ensures
        synthetic::are_synthesizable(all, id, n) == (forall|j: int|
            0 <= j < n && all[(#[trigger] listed(all, id)[j]) as int] is Derived ==> {
                let part = all[listed(all, id)[j] as int]->Derived_base;
                part is Some && synthetic::is_synthesizable(all, part->Some_0)
            }),
    decreases n,
{
    assert(types::wf_type(all, id as int));
    if n > 0 {
        lemma_members_are_made_up(all, id, (n - 1) as nat);
        let e = listed(all, id)[n - 1];
        assert(all[e as int] is Derived ==> types::embeds_earlier(
            all,
            types::base_of(all, e),
            id as int,
        ));
    }
}

/// The members among the elements of a structure.
pub open spec fn held_members(all: Seq<DiType>, id: usize) -> Seq<usize> {
    listed(all, id).filter(|e: usize| all[e as int] is Derived)
}

proof fn lemma_held_members(all: Seq<DiType>, id: usize, n: nat)
    requires
        all[id as int] is Composite,
        n <= listed(all, id).len(),
    ensures
        synthetic::members_of(all, id, n) == listed(all, id).take(n as int).filter(
            |e: usize| all[e as int] is Derived,
        ),
    decreases n,
{
    reveal(Seq::filter);
    if n > 0 {
        lemma_held_members(all, id, (n - 1) as nat);
        let part = listed(all, id).take(n as int);
        assert(part.drop_last() =~= listed(all, id).take(n - 1));
        assert(part.last() == listed(all, id)[n - 1]);
    }
}

proof fn lemma_described(
    all: Seq<DiType>,
    fields: Seq<synthetic::SyntheticType>,
    members: Seq<usize>,
)
    requires
        synthetic::describes_members(all, fields, members),
    ensures
        fields.len() == members.len(),
        forall|i: int|
            0 <= i < fields.len() ==> types::base_of(all, #[trigger] members[i]) is Some
                && synthetic::describes(
                all,
                fields[i],
                types::base_of(all, members[i])->Some_0,
            ),
    decreases fields.len(),
{
    if fields.len() > 0 && members.len() > 0 {
        let front = fields.drop_last();
        let before = members.drop_last();
        lemma_described(all, front, before);
        assert forall|i: int| 0 <= i < fields.len() implies types::base_of(
            all,
            #[trigger] members[i],
        ) is Some && synthetic::describes(
            all,
            fields[i],
            types::base_of(all, members[i])->Some_0,
        ) by {
            if i < front.len() {
                assert(before[i] == members[i]);
                assert(front[i] == fields[i]);
            }
        }
    }
}

/// The IR type that is made up mirrors the debug information: a basic type is an integer of
/// its size, a pointer a pointer; an array has as many elements as fit its size, and a
/// structure a field for each of its members, each of the type that mirrors theirs.
pub proof fn made_up_types_mirror_the_debug_information(
    all: Seq<DiType>,
    ty: synthetic::SyntheticType,
    id: usize,
)
    requires
        types::wf_types(all),
        id < all.len(),
        synthetic::describes(all, ty, id),
    ensures
        match all[id as int] {
            DiType::Basic { size_in_bits } => ty matches synthetic::SyntheticType::Int { width }
                && width == size_in_bits,
            DiType::Derived { tag, .. } => tag == 0x0f && ty is Pointer,
            DiType::Composite { tag, size_in_bits, base, .. } => if tag == 0x01 {
                &&& ty is Array
                &&& base is Some
                &&& bits_of(all, base) is Some
                &&& synthetic::describes(all, *ty->Array_element, base->Some_0)
                &&& ty->Array_count * bits_of(all, base)->Some_0 <= size_in_bits
                &&& (ty->Array_count + 1) * bits_of(all, base)->Some_0 > size_in_bits
            } else {
                let members = held_members(all, id);
                &&& ty is Struct
                &&& ty->Struct_fields@.len() == members.len()
                &&& forall|i: int|
                    0 <= i < members.len() ==> all[(#[trigger] members[i]) as int]->Derived_base
                        is Some && synthetic::describes(
                        all,
                        ty->Struct_fields@[i],
                        all[members[i] as int]->Derived_base->Some_0,
                    )
            },
            DiType::Other => false,
        },
{
    assert(types::wf_type(all, id as int));
    if let DiType::Composite { tag, size_in_bits, base, elements } = all[id as int] {
        if tag == 0x01 {
            let size = bits_of(all, base)->Some_0 as int;
            let count = ty->Array_count as int;
            assert(types::size_of(all, base) == bits_of(all, base));
            vstd::arithmetic::div_mod::lemma_fundamental_div_mod(size_in_bits as int, size);
            vstd::arithmetic::div_mod::lemma_mod_bound(size_in_bits as int, size);
            assert(count == size_in_bits as int / size);
            assert(count * size == size * count) by (nonlinear_arith);
            assert((count + 1) * size == size * count + size) by (nonlinear_arith);
        } else {
            let members = held_members(all, id);
            let n = elements@.len();
            lemma_held_members(all, id, n);
            assert(listed(all, id).take(n as int) =~= listed(all, id));
            lemma_described(all, ty->Struct_fields@, members);
            assert forall|i: int| 0 <= i < members.len() implies all[(
            #[trigger] members[i]) as int] is Derived by {
                listed(all, id).lemma_filter_pred(|e: usize| all[e as int] is Derived, i);
            }
        }
    }
}

} // verus!
