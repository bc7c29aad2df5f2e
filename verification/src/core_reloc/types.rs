//! Types in debug information, as far as the relocation of accesses reads them.
use vstd::prelude::*;

use crate::dwarf;

verus! {

pub const BITS_PER_BYTE: u64 = 8;

/// A type in debug information. Types refer to each other by their index.
pub enum DiType {
    Basic { size_in_bits: u64 },
    Derived { tag: u16, size_in_bits: u64, offset_in_bits: u64, base: Option<usize> },
    Composite { tag: u16, size_in_bits: u64, base: Option<usize>, elements: Vec<usize> },
    Other,
}

/// The type of a value that is read or written.
#[derive(Clone, Copy, Debug, PartialEq, Eq, Structural)]
pub enum ValueType {
    Pointer,
    Integer { width: u32 },
    Other,
}

/// A base type that is a composite type.
pub open spec fn composite_of(types: Seq<DiType>, base: Option<usize>) -> Option<usize> {
    match base {
        Some(id) => if types[id as int] is Composite {
            Some(id)
        } else {
            None
        },
        None => None,
    }
}

/// The base of a derived type.
pub open spec fn base_of(types: Seq<DiType>, id: usize) -> Option<usize> {
    match types[id as int] {
        DiType::Derived { base, .. } => base,
        DiType::Composite { base, .. } => base,
        _ => None,
    }
}

/// The elements of a composite type.
pub open spec fn elements_of(types: Seq<DiType>, id: usize) -> Seq<usize> {
    match types[id as int] {
        DiType::Composite { elements, .. } => elements@,
        _ => Seq::empty(),
    }
}

/// The tag of a derived or composite type.
pub open spec fn has_tag(types: Seq<DiType>, id: usize, wanted: u16) -> bool {
    match types[id as int] {
        DiType::Derived { tag, .. } => tag == wanted,
        DiType::Composite { tag, .. } => tag == wanted,
        _ => false,
    }
}

pub open spec fn is_array(types: Seq<DiType>, id: usize) -> bool {
    types[id as int] is Composite && has_tag(types, id, dwarf::array_type())
}

pub open spec fn is_union(types: Seq<DiType>, id: usize) -> bool {
    types[id as int] is Composite && has_tag(types, id, dwarf::union_type())
}

pub open spec fn is_pointer(types: Seq<DiType>, id: usize) -> bool {
    types[id as int] is Derived && has_tag(types, id, dwarf::pointer_type())
}

/// The offset of a member in bits.
pub open spec fn member_offset(types: Seq<DiType>, id: usize) -> u64 {
    match types[id as int] {
        DiType::Derived { offset_in_bits, .. } => offset_in_bits,
        _ => 0,
    }
}

/// The size of a type in bits, where it has one.
pub open spec fn size_of(types: Seq<DiType>, id: Option<usize>) -> Option<u64> {
    match id {
        None => None,
        Some(id) => match types[id as int] {
            DiType::Basic { size_in_bits } => Some(size_in_bits),
            DiType::Derived { size_in_bits, .. } => Some(size_in_bits),
            DiType::Composite { size_in_bits, .. } => Some(size_in_bits),
            DiType::Other => None,
        },
    }
}

/// Whether an optional reference leads to a type.
pub open spec fn in_range(types: Seq<DiType>, id: Option<usize>) -> bool {
    match id {
        Some(i) => i < types.len(),
        None => true,
    }
}

/// Whether a composite type that `base` refers to comes before type `id`.
pub open spec fn embeds_earlier(types: Seq<DiType>, base: Option<usize>, id: int) -> bool {
    match composite_of(types, base) {
        Some(inner) => inner < id,
        None => true,
    }
}

/// Whether one type refers to types of the list only, its numbers are in the
/// range that LLVM accepts, and composite types that it holds by value come
/// before it: a type cannot contain itself.
pub open spec fn wf_type(types: Seq<DiType>, id: int) -> bool {
    match types[id] {
        DiType::Basic { size_in_bits } => size_in_bits <= u32::MAX,
        DiType::Derived { base, .. } => in_range(types, base),
        DiType::Composite { base, elements, .. } => {
            &&& in_range(types, base)
            &&& embeds_earlier(types, base, id)
            &&& elements@.len() <= u32::MAX
            &&& forall|j: int|
                0 <= j < elements@.len() ==> {
                    let e = #[trigger] elements@[j];
                    e < types.len() && (types[e as int] is Derived ==> embeds_earlier(
                        types,
                        base_of(types, e),
                        id,
                    ))
                }
        },
        DiType::Other => true,
    }
}

pub open spec fn wf_types(types: Seq<DiType>) -> bool {
    forall|i: int| 0 <= i < types.len() ==> #[trigger] wf_type(types, i)
}

/// Whether a type fits a value that is read or written.
pub open spec fn matches_value_type(
    types: Seq<DiType>,
    id: Option<usize>,
    expected: ValueType,
) -> bool {
    let pointer = id is Some && is_pointer(types, id->Some_0);
    match expected {
        ValueType::Pointer => pointer,
        ValueType::Integer { width } => size_of(types, id) == Some(width as u64),
        ValueType::Other => !pointer,
    }
}

/// Whether element number `k` is a member at `offset_bits` that fits `expected`.
pub open spec fn is_field_at(
    types: Seq<DiType>,
    elements: Seq<usize>,
    k: nat,
    offset_bits: nat,
    expected: Option<ValueType>,
) -> bool {
    let e = elements[k as int];
    &&& types[e as int] is Derived
    &&& member_offset(types, e) == offset_bits
    &&& expected is Some ==> matches_value_type(types, base_of(types, e), expected->Some_0)
}

/// The number of the first member at `offset_bits`, from `k` on, that fits.
pub open spec fn find_field(
    types: Seq<DiType>,
    elements: Seq<usize>,
    k: nat,
    offset_bits: nat,
    expected: Option<ValueType>,
) -> Option<nat>
    decreases elements.len() - k,
{
    if k >= elements.len() {
        None
    } else if is_field_at(types, elements, k, offset_bits, expected) {
        Some(k)
    } else {
        find_field(types, elements, k + 1, offset_bits, expected)
    }
}

/// The member of a composite type that starts at a byte offset and fits
/// `expected`. A bit offset beyond 64 bits is in no type.
pub open spec fn field_at(
    types: Seq<DiType>,
    id: usize,
    offset_bytes: u64,
    expected: Option<ValueType>,
) -> Option<nat> {
    if offset_bytes * 8 > u64::MAX {
        None
    } else {
        find_field(types, elements_of(types, id), 0, (offset_bytes * 8) as nat, expected)
    }
}

/// A member that holds a composite type by value, and what is left of an offset
/// that falls into it.
pub struct ContainingMember {
    pub member_index: u32,
    pub nested_composite: usize,
    pub remainder_bytes: u64,
}

/// The first member from `k` on that holds a composite type which covers
/// `offset_bits`. The search ends at a member whose end exceeds 64 bits.
pub open spec fn find_containing(
    types: Seq<DiType>,
    elements: Seq<usize>,
    k: nat,
    offset_bits: nat,
) -> Option<ContainingMember>
    decreases elements.len() - k,
{
    if k >= elements.len() {
        None
    } else {
        let e = elements[k as int];
        let nested = composite_of(types, base_of(types, e));
        if !(types[e as int] is Derived) || offset_bits < member_offset(types, e) || nested
            is None {
            find_containing(types, elements, k + 1, offset_bits)
        } else {
            let end = member_offset(types, e) + size_of(types, nested)->Some_0;
            if end > u64::MAX {
                None
            } else if offset_bits >= end {
                find_containing(types, elements, k + 1, offset_bits)
            } else {
                Some(
                    ContainingMember {
                        member_index: k as u32,
                        nested_composite: nested->Some_0,
                        remainder_bytes: ((offset_bits - member_offset(types, e)) / 8) as u64,
                    },
                )
            }
        }
    }
}

/// The member of a composite type that contains a byte offset in a composite
/// type of its own.
pub open spec fn containing_at(types: Seq<DiType>, id: usize, offset_bytes: u64) -> Option<
    ContainingMember,
> {
    if offset_bytes * 8 > u64::MAX {
        None
    } else {
        find_containing(types, elements_of(types, id), 0, (offset_bytes * 8) as nat)
    }
}

/// The composite type that a member points to.
pub open spec fn pointee_composite(types: Seq<DiType>, member: usize) -> Option<usize> {
    match base_of(types, member) {
        Some(base) => if is_pointer(types, base) {
            composite_of(types, base_of(types, base))
        } else {
            None
        },
        None => None,
    }
}

/// The size of a type in bits.
pub fn metadata_size_in_bits(types: &Vec<DiType>, id: Option<usize>) -> (r: Option<u64>)
    requires
        in_range(types@, id),
    ensures
        r == size_of(types@, id),
{
    match id {
        None => None,
        Some(id) => match &types[id] {
            DiType::Basic { size_in_bits } => Some(*size_in_bits),
            DiType::Derived { size_in_bits, .. } => Some(*size_in_bits),
            DiType::Composite { size_in_bits, .. } => Some(*size_in_bits),
            DiType::Other => None,
        },
    }
}

/// Whether a type is a pointer.
pub fn is_pointer_type(types: &Vec<DiType>, id: usize) -> (r: bool)
    requires
        id < types@.len(),
    ensures
        r == is_pointer(types@, id),
{
    match &types[id] {
        DiType::Derived { tag, .. } => *tag == dwarf::dw_tag_pointer_type(),
        _ => false,
    }
}

/// Whether a type fits a value that is read or written.
pub fn metadata_matches_llvm_type(
    types: &Vec<DiType>,
    id: Option<usize>,
    expected: ValueType,
) -> (r: bool)
    requires
        in_range(types@, id),
    ensures
        r == matches_value_type(types@, id, expected),
{
    match expected {
        ValueType::Pointer => match id {
            Some(id) => is_pointer_type(types, id),
            None => false,
        },
        ValueType::Integer { width } => match metadata_size_in_bits(types, id) {
            Some(size) => size == width as u64,
            None => false,
        },
        ValueType::Other => match id {
            Some(id) => !is_pointer_type(types, id),
            None => true,
        },
    }
}

/// The composite type that a base type is.
pub fn value_composite(types: &Vec<DiType>, base: Option<usize>) -> (r: Option<usize>)
    requires
        in_range(types@, base),
    ensures
        r == composite_of(types@, base),
{
    match base {
        Some(id) => match &types[id] {
            DiType::Composite { .. } => Some(id),
            _ => None,
        },
        None => None,
    }
}

/// The base of a derived or composite type.
pub fn base_type(types: &Vec<DiType>, id: usize) -> (r: Option<usize>)
    requires
        wf_types(types@),
        id < types@.len(),
    ensures
        r == base_of(types@, id),
        in_range(types@, r),
{
    assert(wf_type(types@, id as int));
    match &types[id] {
        DiType::Derived { base, .. } => *base,
        DiType::Composite { base, .. } => *base,
        _ => None,
    }
}

/// The composite type that a member points to.
pub fn member_pointee_composite(types: &Vec<DiType>, member: usize) -> (r: Option<usize>)
    requires
        wf_types(types@),
        member < types@.len(),
    ensures
        r == pointee_composite(types@, member),
{
    match base_type(types, member) {
        Some(base) => if is_pointer_type(types, base) {
            let inner: Option<usize> = base_type(types, base);
            value_composite(types, inner)
        } else {
            None
        },
        None => None,
    }
}

/// Finds the member of a composite type that starts at a byte offset and fits
/// `expected`.
pub fn match_field(
    types: &Vec<DiType>,
    id: usize,
    offset_bytes: u64,
    expected: Option<ValueType>,
) -> (r: Option<u32>)
    requires
        wf_types(types@),
        id < types@.len(),
    ensures
        match field_at(types@, id, offset_bytes, expected) {
            Some(k) => r == Some(k as u32) && k < elements_of(types@, id).len() && k <= u32::MAX,
            None => r is None,
        },
{
    let offset_bits: u64 = match offset_bytes.checked_mul(BITS_PER_BYTE) {
        Some(bits) => bits,
        None => return None,
    };
    assert(wf_type(types@, id as int));
    if let DiType::Composite { elements, .. } = &types[id] {
        let mut k: usize = 0;
        while k < elements.len()
            invariant
                k <= elements@.len(),
                wf_types(types@),
                wf_type(types@, id as int),
                id < types@.len(),
                types@[id as int] is Composite,
                elements@ == elements_of(types@, id),
                offset_bits == offset_bytes * 8,
                field_at(types@, id, offset_bytes, expected) == find_field(
                    types@,
                    elements@,
                    k as nat,
                    offset_bits as nat,
                    expected,
                ),
            decreases elements@.len() - k,
        {
            let e: usize = elements[k];
            if let DiType::Derived { offset_in_bits, base, .. } = &types[e] {
                assert(wf_type(types@, e as int));
                if *offset_in_bits == offset_bits {
                    let fits: bool = match expected {
                        Some(expected) => metadata_matches_llvm_type(types, *base, expected),
                        None => true,
                    };
                    if fits {
                        assert(is_field_at(
                            types@,
                            elements@,
                            k as nat,
                            offset_bits as nat,
                            expected,
                        ));
                        return Some(k as u32);
                    }
                }
            }
            k = k + 1;
        }
    }
    None
}

/// Finds the member of a composite type that contains a byte offset in a
/// composite type of its own.
pub fn match_containing_member(types: &Vec<DiType>, id: usize, offset_bytes: u64) -> (r: Option<
    ContainingMember,
>)
    requires
        wf_types(types@),
        id < types@.len(),
    ensures
        r == containing_at(types@, id, offset_bytes),
        r is Some ==> {
            &&& r->Some_0.nested_composite < id
            &&& types@[r->Some_0.nested_composite as int] is Composite
            &&& r->Some_0.member_index < elements_of(types@, id).len()
        },
{
    let offset_bits: u64 = match offset_bytes.checked_mul(BITS_PER_BYTE) {
        Some(bits) => bits,
        None => return None,
    };
    assert(wf_type(types@, id as int));
    if let DiType::Composite { elements, .. } = &types[id] {
        let mut k: usize = 0;
        while k < elements.len()
            invariant
                k <= elements@.len(),
                wf_types(types@),
                wf_type(types@, id as int),
                id < types@.len(),
                types@[id as int] is Composite,
                elements@ == elements_of(types@, id),
                offset_bits == offset_bytes * 8,
                containing_at(types@, id, offset_bytes) == find_containing(
                    types@,
                    elements@,
                    k as nat,
                    offset_bits as nat,
                ),
            decreases elements@.len() - k,
        {
            let e: usize = elements[k];
            assert(e < types@.len());
            if let DiType::Derived { offset_in_bits, base, .. } = &types[e] {
                assert(wf_type(types@, e as int));
                let member_offset_bits: u64 = *offset_in_bits;
                if offset_bits >= member_offset_bits {
                    if let Some(nested) = value_composite(types, *base) {
                        let size: u64 = match &types[nested] {
                            DiType::Composite { size_in_bits, .. } => *size_in_bits,
                            _ => 0,
                        };
                        assert(size_of(types@, Some(nested)) == Some(size));
                        match member_offset_bits.checked_add(size) {
                            None => return None,
                            Some(end) => if offset_bits < end {
                                return Some(
                                    ContainingMember {
                                        member_index: k as u32,
                                        nested_composite: nested,
                                        remainder_bytes: (offset_bits - member_offset_bits)
                                            / BITS_PER_BYTE,
                                    },
                                );
                            },
                        }
                    }
                }
            }
            k = k + 1;
        }
    }
    None
}

/// A containing member holds a composite type.
pub proof fn lemma_containing_is_composite(
    types: Seq<DiType>,
    elements: Seq<usize>,
    k: nat,
    offset_bits: nat,
)
    ensures
        match find_containing(types, elements, k, offset_bits) {
            Some(inner) => types[inner.nested_composite as int] is Composite,
            None => true,
        },
    decreases elements.len() - k,
{
    if k < elements.len() {
        lemma_containing_is_composite(types, elements, k + 1, offset_bits);
    }
}

fn is_in_range(types: &Vec<DiType>, id: Option<usize>) -> (r: bool)
    ensures
        r == in_range(types@, id),
{
    match id {
        Some(i) => i < types.len(),
        None => true,
    }
}

fn is_earlier(types: &Vec<DiType>, base: Option<usize>, id: usize) -> (r: bool)
    requires
        in_range(types@, base),
    ensures
        r == embeds_earlier(types@, base, id as int),
{
    match value_composite(types, base) {
        Some(inner) => inner < id,
        None => true,
    }
}

fn are_base_types_in_range(types: &Vec<DiType>) -> (r: bool)
    ensures
        r == (forall|i: int|
            0 <= i < types@.len() ==> #[trigger] in_range(types@, base_of(types@, i as usize))),
{
    let mut i: usize = 0;
    while i < types.len()
        invariant
            i <= types@.len(),
            forall|j: int|
                0 <= j < i ==> #[trigger] in_range(types@, base_of(types@, j as usize)),
        decreases types@.len() - i,
    {
        let base: Option<usize> = match &types[i] {
            DiType::Derived { base, .. } => *base,
            DiType::Composite { base, .. } => *base,
            _ => None,
        };
        assert(base == base_of(types@, i));
        if !is_in_range(types, base) {
            assert(!in_range(types@, base_of(types@, (i as int) as usize)));
            return false;
        }
        i = i + 1;
    }
    true
}

fn are_elements_wf(types: &Vec<DiType>, elements: &Vec<usize>, id: usize) -> (r: bool)
    requires
        forall|i: int|
            0 <= i < types@.len() ==> #[trigger] in_range(types@, base_of(types@, i as usize)),
    ensures
        r == (forall|j: int|
            0 <= j < elements@.len() ==> {
                let e = #[trigger] elements@[j];
                e < types@.len() && (types@[e as int] is Derived ==> embeds_earlier(
                    types@,
                    base_of(types@, e),
                    id as int,
                ))
            }),
{
    let mut j: usize = 0;
    while j < elements.len()
        invariant
            j <= elements@.len(),
            forall|i: int|
                0 <= i < types@.len() ==> #[trigger] in_range(types@, base_of(types@, i as usize)),
            forall|k: int|
                0 <= k < j ==> {
                    let e = #[trigger] elements@[k];
                    e < types@.len() && (types@[e as int] is Derived ==> embeds_earlier(
                        types@,
                        base_of(types@, e),
                        id as int,
                    ))
                },
        decreases elements@.len() - j,
    {
        let e: usize = elements[j];
        if e >= types.len() {
            assert(!(elements@[j as int] < types@.len()));
            return false;
        }
        if let DiType::Derived { base, .. } = &types[e] {
            assert(in_range(types@, base_of(types@, (e as int) as usize)));
            if !is_earlier(types, *base, id) {
                assert(elements@[j as int] == e);
                return false;
            }
        }
        j = j + 1;
    }
    true
}

/// Decides whether a list of types is well-formed.
pub fn are_types_wf(types: &Vec<DiType>) -> (r: bool)
    ensures
        r == wf_types(types@),
{
    if !are_base_types_in_range(types) {
        proof {
            let i = choose|i: int|
                0 <= i < types@.len() && !#[trigger] in_range(types@, base_of(types@, i as usize));
            assert(!wf_type(types@, i));
        }
        return false;
    }
    let mut i: usize = 0;
    while i < types.len()
        invariant
            i <= types@.len(),
            forall|j: int|
                0 <= j < types@.len() ==> #[trigger] in_range(types@, base_of(types@, j as usize)),
            forall|j: int| 0 <= j < i ==> #[trigger] wf_type(types@, j),
        decreases types@.len() - i,
    {
        assert(in_range(types@, base_of(types@, (i as int) as usize)));
        match &types[i] {
            DiType::Basic { size_in_bits } => {
                if *size_in_bits > u32::MAX as u64 {
                    assert(!wf_type(types@, i as int));
                    return false;
                }
            },
            DiType::Composite { base, elements, .. } => {
                let base_ok: bool = is_earlier(types, *base, i);
                let elements_ok: bool = are_elements_wf(types, elements, i);
                if !base_ok || elements.len() as u64 > u32::MAX as u64 || !elements_ok {
                    assert(!wf_type(types@, i as int));
                    return false;
                }
            },
            _ => {},
        }
        assert(wf_type(types@, i as int));
        i = i + 1;
    }
    true
}

/// A list of types is well-formed exactly if its references lead to types, basic types and
/// lists of elements are not larger than LLVM accepts, and a composite type comes behind the
/// composite types that it is an array of or that its members hold.
pub proof fn types_are_listed_behind_their_parts(types: Seq<DiType>)
    ensures
        wf_types(types) <==> forall|i: int|
            0 <= i < types.len() ==> match #[trigger] types[i] {
                DiType::Basic { size_in_bits } => size_in_bits <= 0xffff_ffff,
                DiType::Derived { base, .. } => base is Some ==> base->Some_0 < types.len(),
                DiType::Composite { base, elements, .. } => {
                    &&& base is Some ==> base->Some_0 < types.len()
                    &&& base is Some && types[base->Some_0 as int] is Composite ==> base->Some_0
                        < i
                    &&& elements@.len() <= 0xffff_ffff
                    &&& forall|j: int|
                        0 <= j < elements@.len() ==> {
                            let e = #[trigger] elements@[j];
                            &&& e < types.len()
                            &&& match types[e as int] {
                                DiType::Derived { base: Some(held), .. } => types[held as int]
                                    is Composite ==> held < i,
                                _ => true,
                            }
                        }
                },
                DiType::Other => true,
            },
{
    if wf_types(types) {
        assert forall|i: int| 0 <= i < types.len() implies match #[trigger] types[i] {
            DiType::Basic { size_in_bits } => size_in_bits <= 0xffff_ffff,
            DiType::Derived { base, .. } => base is Some ==> base->Some_0 < types.len(),
            DiType::Composite { base, elements, .. } => {
                &&& base is Some ==> base->Some_0 < types.len()
                &&& base is Some && types[base->Some_0 as int] is Composite ==> base->Some_0 < i
                &&& elements@.len() <= 0xffff_ffff
                &&& forall|j: int|
                    0 <= j < elements@.len() ==> {
                        let e = #[trigger] elements@[j];
                        &&& e < types.len()
                        &&& match types[e as int] {
                            DiType::Derived { base: Some(held), .. } => types[held as int]
                                is Composite ==> held < i,
                            _ => true,
                        }
                    }
            },
            DiType::Other => true,
        } by {
            assert(wf_type(types, i));
        }
    } else {
        let i = choose|i: int| 0 <= i < types.len() && !#[trigger] wf_type(types, i);
        assert(!wf_type(types, i));
        let ty = types[i];
        if let DiType::Composite { base, elements, .. } = ty {
            if in_range(types, base) && embeds_earlier(types, base, i) && elements@.len()
                <= u32::MAX {
                let j = choose|j: int|
                    0 <= j < elements@.len() && !({
                        let e = #[trigger] elements@[j];
                        e < types.len() && (types[e as int] is Derived ==> embeds_earlier(
                            types,
                            base_of(types, e),
                            i,
                        ))
                    });
                assert(0 <= j < elements@.len());
                let e = elements@[j];
            }
        }
    }
}

} // verus!
