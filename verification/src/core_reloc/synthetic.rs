//! IR types that are made up from debug information.
use vstd::prelude::*;

use crate::core_reloc::types;
use crate::core_reloc::types::{base_type, metadata_size_in_bits, DiType};
use crate::dwarf;

verus! {

/// The IR type that stands for a type in debug information.
pub enum SyntheticType {
    Pointer,
    Int { width: u32 },
    Struct { fields: Vec<SyntheticType> },
    Array { element: Box<SyntheticType>, count: u64 },
}

/// How deep composite types can nest in a type at most.
pub open spec fn depth(all: Seq<DiType>, id: usize) -> nat {
    if all[id as int] is Composite {
        id as nat + 1
    } else {
        0
    }
}

/// Whether an IR type can be made up for a type: pointers and basic types have
/// one, and composite types whose parts have one.
pub open spec fn is_synthesizable(all: Seq<DiType>, id: usize) -> bool
    decreases depth(all, id), 1nat, 0nat,
{
    match all[id as int] {
        DiType::Basic { .. } => true,
        DiType::Derived { .. } => types::is_pointer(all, id),
        DiType::Composite { base, elements, .. } => if types::is_array(all, id) {
            match base {
                Some(element) => depth(all, element) < depth(all, id) && is_synthesizable(
                    all,
                    element,
                ) && types::size_of(all, base) is Some && types::size_of(all, base)->Some_0 != 0,
                None => false,
            }
        } else {
            are_synthesizable(all, id, elements@.len())
        },
        DiType::Other => false,
    }
}

/// Whether the members among the first `n` elements of a structure have an IR
/// type.
pub open spec fn are_synthesizable(all: Seq<DiType>, id: usize, n: nat) -> bool
    decreases depth(all, id), 0nat, n,
{
    if n == 0 || !(all[id as int] is Composite) {
        true
    } else {
        let e = types::elements_of(all, id)[n - 1];
        are_synthesizable(all, id, (n - 1) as nat) && (all[e as int] is Derived
            ==> match types::base_of(all, e) {
            Some(base) => depth(all, base) < depth(all, id) && is_synthesizable(all, base),
            None => false,
        })
    }
}

/// The members among the first `n` elements of a structure.
pub open spec fn members_of(all: Seq<DiType>, id: usize, n: nat) -> Seq<usize>
    decreases n,
{
    if n == 0 {
        Seq::empty()
    } else {
        let e = types::elements_of(all, id)[n - 1];
        let before = members_of(all, id, (n - 1) as nat);
        if all[e as int] is Derived {
            before.push(e)
        } else {
            before
        }
    }
}

/// Whether `ty` is the IR type of type `id`.
pub open spec fn describes(all: Seq<DiType>, ty: SyntheticType, id: usize) -> bool
    decreases ty,
{
    match all[id as int] {
        DiType::Basic { size_in_bits } => ty == (SyntheticType::Int { width: size_in_bits as u32 }),
        DiType::Derived { .. } => types::is_pointer(all, id) && ty == SyntheticType::Pointer,
        DiType::Composite { size_in_bits, base, elements, .. } => if types::is_array(all, id) {
            match ty {
                SyntheticType::Array { element, count } => {
                    &&& base is Some
                    &&& describes(all, *element, base->Some_0)
                    &&& types::size_of(all, base) is Some
                    &&& types::size_of(all, base)->Some_0 != 0
                    &&& count == size_in_bits / types::size_of(all, base)->Some_0
                },
                _ => false,
            }
        } else {
            match ty {
                SyntheticType::Struct { fields } => describes_members(
                    all,
                    fields@,
                    members_of(all, id, elements@.len()),
                ),
                _ => false,
            }
        },
        DiType::Other => false,
    }
}

/// Whether `fields` are the IR types of the types of `members`, one for one.
pub open spec fn describes_members(
    all: Seq<DiType>,
    fields: Seq<SyntheticType>,
    members: Seq<usize>,
) -> bool
    decreases fields,
{
    if fields.len() == 0 || members.len() == 0 {
        fields.len() == members.len()
    } else {
        let base = types::base_of(all, members.last());
        describes_members(all, fields.drop_last(), members.drop_last()) && base is Some
            && describes(all, fields[fields.len() - 1], base->Some_0)
    }
}

/// Makes up the IR type of a type.
pub fn synthetic_llvm_type(all: &Vec<DiType>, id: usize) -> (r: Option<SyntheticType>)
    requires
        types::wf_types(all@),
        id < all@.len(),
    ensures
        r is Some <==> is_synthesizable(all@, id),
        r is Some ==> describes(all@, r->Some_0, id),
    decreases depth(all@, id), 1nat,
{
    assert(types::wf_type(all@, id as int));
    match &all[id] {
        DiType::Basic { size_in_bits } => Some(
            SyntheticType::Int { width: *size_in_bits as u32 },
        ),
        DiType::Derived { tag, .. } => if *tag == dwarf::dw_tag_pointer_type() {
            Some(SyntheticType::Pointer)
        } else {
            None
        },
        DiType::Composite { tag, .. } => if *tag == dwarf::dw_tag_array_type() {
            synthetic_array_type(all, id)
        } else {
            synthetic_struct_type(all, id)
        },
        DiType::Other => None,
    }
}

/// Makes up the IR type of an array.
pub fn synthetic_array_type(all: &Vec<DiType>, id: usize) -> (r: Option<SyntheticType>)
    requires
        types::wf_types(all@),
        id < all@.len(),
        types::is_array(all@, id),
    ensures
        r is Some <==> is_synthesizable(all@, id),
        r is Some ==> describes(all@, r->Some_0, id),
    decreases depth(all@, id), 0nat,
{
    assert(types::wf_type(all@, id as int));
    let base: Option<usize> = base_type(all, id);
    let element_id: usize = match base {
        Some(element) => element,
        None => return None,
    };
    assert(depth(all@, element_id) < depth(all@, id));
    let element: SyntheticType = match synthetic_llvm_type(all, element_id) {
        Some(element) => element,
        None => return None,
    };
    let base_size_bits: u64 = match metadata_size_in_bits(all, base) {
        Some(size) => size,
        None => return None,
    };
    if base_size_bits == 0 {
        return None;
    }
    let size: u64 = match metadata_size_in_bits(all, Some(id)) {
        Some(size) => size,
        None => return None,
    };
    Some(SyntheticType::Array { element: Box::new(element), count: size / base_size_bits })
}

/// Makes up the IR type of a structure from those of its members.
pub fn synthetic_struct_type(all: &Vec<DiType>, id: usize) -> (r: Option<SyntheticType>)
    requires
        types::wf_types(all@),
        id < all@.len(),
        all@[id as int] is Composite,
        !types::is_array(all@, id),
    ensures
        r is Some <==> is_synthesizable(all@, id),
        r is Some ==> describes(all@, r->Some_0, id),
    decreases depth(all@, id), 0nat,
{
    assert(types::wf_type(all@, id as int));
    let mut fields: Vec<SyntheticType> = Vec::new();
    if let DiType::Composite { elements, .. } = &all[id] {
        let mut k: usize = 0;
        while k < elements.len()
            invariant
                k <= elements@.len(),
                types::wf_types(all@),
                types::wf_type(all@, id as int),
                id < all@.len(),
                all@[id as int] is Composite,
                !types::is_array(all@, id),
                elements@ == types::elements_of(all@, id),
                are_synthesizable(all@, id, k as nat),
                describes_members(all@, fields@, members_of(all@, id, k as nat)),
            decreases elements@.len() - k,
        {
            let e: usize = elements[k];
            assert(e < all@.len());
            let ghost before = fields@;
            if let DiType::Derived { base, .. } = &all[e] {
                assert(types::wf_type(all@, e as int));
                let base_id: usize = match *base {
                    Some(base_id) => base_id,
                    None => {
                        proof {
                            lemma_not_synthesizable(all@, id, k as nat);
                        }
                        return None;
                    },
                };
                assert(depth(all@, base_id) < depth(all@, id));
                match synthetic_llvm_type(all, base_id) {
                    Some(field) => {
                        fields.push(field);
                        assert(fields@.drop_last() =~= before);
                        let ghost members = members_of(all@, id, k as nat);
                        assert(members.push(e).drop_last() =~= members);
                    },
                    None => {
                        proof {
                            lemma_not_synthesizable(all@, id, k as nat);
                        }
                        return None;
                    },
                }
            }
            k = k + 1;
        }
    }
    Some(SyntheticType::Struct { fields })
}

/// A structure has no IR type when one of its members has none.
proof fn lemma_not_synthesizable(all: Seq<DiType>, id: usize, k: nat)
    requires
        all[id as int] is Composite,
        !types::is_array(all, id),
        k < types::elements_of(all, id).len(),
        !are_synthesizable(all, id, k + 1),
    ensures
        !is_synthesizable(all, id),
{
    lemma_not_all_synthesizable(all, id, k + 1, types::elements_of(all, id).len());
}

proof fn lemma_not_all_synthesizable(all: Seq<DiType>, id: usize, k: nat, n: nat)
    requires
        all[id as int] is Composite,
        k <= n,
        !are_synthesizable(all, id, k),
    ensures
        !are_synthesizable(all, id, n),
    decreases n,
{
    if k < n {
        lemma_not_all_synthesizable(all, id, k, (n - 1) as nat);
    }
}

} // verus!
