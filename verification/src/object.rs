//! Bitcode inside object files.
use vstd::prelude::*;

use crate::bytes;
use crate::text;

verus! {

/// Whether a section holds bitcode. A section can be without a name.
pub open spec fn is_bitcode_section(name: Option<Vec<u8>>) -> bool {
    name is Some && name->Some_0@ == bytes::ascii(".llvmbc"@)
}

/// The number of the first section from `k` on that holds bitcode.
pub open spec fn first_bitcode_section(names: Seq<Option<Vec<u8>>>, k: nat) -> Option<nat>
    decreases names.len() - k,
{
    if k >= names.len() {
        None
    } else if is_bitcode_section(names[k as int]) {
        Some(k)
    } else {
        first_bitcode_section(names, k + 1)
    }
}

/// Finds the section of an object file that holds bitcode.
pub fn find_embedded_bitcode(names: &Vec<Option<Vec<u8>>>) -> (r: Option<usize>)
    ensures
        match first_bitcode_section(names@, 0) {
            Some(k) => r == Some(k as usize) && k < names@.len(),
            None => r is None,
        },
{
    proof {
        reveal_strlit(".llvmbc");
    }
    let mut k: usize = 0;
    while k < names.len()
        invariant
            k <= names@.len(),
            ".llvmbc".is_ascii(),
            first_bitcode_section(names@, 0) == first_bitcode_section(names@, k as nat),
        decreases names@.len() - k,
    {
        if let Some(name) = &names[k] {
            if bytes::equal(name.as_slice(), bytes::literal(".llvmbc")) {
                return Some(k);
            }
        }
        k = k + 1;
    }
    None
}

/// The text of a message that LLVM may not have set.
pub fn message_text(message: Option<&[u8]>) -> (r: String)
    ensures
        r@ == (match message {
            Some(bytes) => text::lossy_utf8(bytes@),
            None => "<null>"@,
        }),
{
    match message {
        Some(bytes) => text::string_from_utf8_lossy(bytes),
        None => String::from_str("<null>"),
    }
}

/// The first section called `.llvmbc` holds the bitcode, and no other section does.
pub proof fn first_named_section_holds_the_bitcode(names: Seq<Option<Vec<u8>>>, k: int)
    requires
        0 <= k <= names.len(),
        forall|i: int|
            0 <= i < k ==> !((#[trigger] names[i]) is Some && names[i]->Some_0@ == bytes::ascii(
                ".llvmbc"@,
            )),
        k < names.len() ==> names[k] is Some && names[k]->Some_0@ == bytes::ascii(".llvmbc"@),
    ensures
        first_bitcode_section(names, 0) == (if k < names.len() {
            Some(k as nat)
        } else {
            None
        }),
{
    lemma_first_section(names, 0, k);
}

proof fn lemma_first_section(names: Seq<Option<Vec<u8>>>, from: nat, k: int)
    requires
        from <= k <= names.len(),
        forall|i: int|
            from <= i < k ==> !((#[trigger] names[i]) is Some && names[i]->Some_0@ == bytes::ascii(
                ".llvmbc"@,
            )),
        k < names.len() ==> names[k] is Some && names[k]->Some_0@ == bytes::ascii(".llvmbc"@),
    ensures
        first_bitcode_section(names, from) == (if k < names.len() {
            Some(k as nat)
        } else {
            None
        }),
    decreases k - from,
{
    if from < k {
        assert(!is_bitcode_section(names[from as int]));
        lemma_first_section(names, from + 1, k);
    }
}

} // verus!
