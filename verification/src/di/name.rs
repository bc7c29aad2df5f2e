//! Names that are valid in C.
use std::collections::hash_map::DefaultHasher;
use std::hash::Hasher;

use vstd::prelude::*;
use vstd::std_specs::hash::DefaultHasherAdditionalSpecFns;

use crate::bytes;

verus! {

/// The shortest `KSYM_NAME_LEN` found across kernel versions.
pub const MAX_KSYM_NAME_LEN: usize = 128;

/// What is left of a name that is too long: room for an underscore and the
/// sixteen digits of a hash is kept free.
pub const TRIMMED_NAME_LEN: usize = 111;

/// A byte that may stand in a C type name.
pub open spec fn is_name_byte(b: u8) -> bool {
    0x30 <= b <= 0x39 || 0x41 <= b <= 0x5a || 0x61 <= b <= 0x7a || b == 0x5f
}

/// A name that consists of bytes that are valid in C.
pub open spec fn is_c_name(name: Seq<u8>) -> bool {
    forall|i: int| 0 <= i < name.len() ==> is_name_byte(#[trigger] name[i])
}

/// A valid byte stands for itself; any other is written in upper-case
/// hexadecimal between underscores.
pub open spec fn escaped_byte(b: u8) -> Seq<u8> {
    if is_name_byte(b) {
        seq![b]
    } else {
        seq![0x5fu8] + bytes::hex(b as nat, 0x41) + seq![0x5fu8]
    }
}

/// A name with every byte escaped.
pub open spec fn escaped(name: Seq<u8>) -> Seq<u8>
    decreases name.len(),
{
    if name.len() == 0 {
        Seq::empty()
    } else {
        escaped(name.drop_last()) + escaped_byte(name.last())
    }
}

/// The hash that stands for the cut part of a long name.
pub open spec fn name_hash(name: Seq<u8>) -> u64 {
    DefaultHasher::spec_finish(seq![name])
}

/// The escaped name; one that is too long is cut and ends in the hash of the
/// whole escaped name.
pub open spec fn sanitized(name: Seq<u8>) -> Seq<u8> {
    let full = escaped(name);
    if full.len() <= MAX_KSYM_NAME_LEN {
        full
    } else {
        full.take(TRIMMED_NAME_LEN as int) + seq![0x5fu8] + bytes::hex(
            name_hash(full) as nat,
            0x61,
        )
    }
}

/// Makes a Rust type name a valid C type name.
pub fn sanitize_type_name(name: &[u8]) -> (r: Vec<u8>)
    ensures
        r@ == sanitized(name@),
{
    let mut full: Vec<u8> = Vec::new();
    let mut i: usize = 0;
    assert(name@.take(0) =~= Seq::<u8>::empty());
    while i < name.len()
        invariant
            i <= name@.len(),
            full@ == escaped(name@.take(i as int)),
        decreases name@.len() - i,
    {
        let byte: u8 = name[i];
        let ghost before = full@;
        if (0x30 <= byte && byte <= 0x39) || (0x41 <= byte && byte <= 0x5a) || (0x61 <= byte
            && byte <= 0x7a) || byte == 0x5f {
            full.push(byte);
        } else {
            full.push(0x5f);
            bytes::append_hex(&mut full, byte as u64, 0x41);
            full.push(0x5f);
        }
        i = i + 1;
        assert(full@ =~= before + escaped_byte(byte));
        assert(name@.take(i as int).drop_last() =~= name@.take(i - 1));
    }
    assert(name@.take(name@.len() as int) =~= name@);
    if full.len() > MAX_KSYM_NAME_LEN {
        let mut hasher = DefaultHasher::new();
        hasher.write(full.as_slice());
        let hash: u64 = hasher.finish();
        assert(hasher@ =~= seq![full@]);
        let ghost whole = full@;
        full.truncate(TRIMMED_NAME_LEN);
        full.push(0x5f);
        bytes::append_hex(&mut full, hash, 0x61);
        assert(full@ =~= whole.take(TRIMMED_NAME_LEN as int) + seq![0x5fu8] + bytes::hex(
            hash as nat,
            0x61,
        ));
    }
    full
}

/// Escaping leaves only bytes that are valid in C.
proof fn lemma_escaped_is_c_name(name: Seq<u8>)
    ensures
        is_c_name(escaped(name)),
    decreases name.len(),
{
    if name.len() > 0 {
        lemma_escaped_is_c_name(name.drop_last());
        bytes::hex_digits(name.last() as nat, 0x41);
        let tail = escaped_byte(name.last());
        assert forall|i: int| 0 <= i < tail.len() implies is_name_byte(#[trigger] tail[i]) by {
            let digits = bytes::hex(name.last() as nat, 0x41);
            if !is_name_byte(name.last()) && 0 < i < tail.len() - 1 {
                assert(tail[i] == digits[i - 1]);
            }
        }
    }
}

/// Whatever a type is called, its sanitized name is a valid C name that fits
/// the kernel's limit.
pub proof fn sanitized_name_is_valid(name: Seq<u8>)
    ensures
        is_c_name(sanitized(name)),
        sanitized(name).len() <= MAX_KSYM_NAME_LEN,
{
    lemma_escaped_is_c_name(name);
    let full = escaped(name);
    let h = name_hash(full) as nat;
    bytes::hex_digits(h, 0x61);
    assert(h < vstd::arithmetic::power::pow(16, 16)) by {
        vstd::arithmetic::power2::lemma2_to64_rest();
        vstd::arithmetic::power2::lemma_pow2(64);
        vstd::arithmetic::power2::lemma_pow2(4);
        vstd::arithmetic::power2::lemma2_to64();
        vstd::arithmetic::power::lemma_pow_multiplies(2, 4, 16);
    }
    bytes::hex_length(h, 0x61, 16);
}

/// A valid name that is short enough keeps its spelling.
pub proof fn valid_name_is_kept(name: Seq<u8>)
    requires
        is_c_name(name),
        name.len() <= MAX_KSYM_NAME_LEN,
    ensures
        sanitized(name) == name,
{
    lemma_escaped_keeps_c_name(name);
}

proof fn lemma_escaped_keeps_c_name(name: Seq<u8>)
    requires
        is_c_name(name),
    ensures
        escaped(name) == name,
    decreases name.len(),
{
    if name.len() > 0 {
        assert(is_name_byte(name.last()));
        assert forall|i: int| 0 <= i < name.drop_last().len() implies is_name_byte(
            #[trigger] name.drop_last()[i],
        ) by {
            assert(name.drop_last()[i] == name[i]);
        }
        lemma_escaped_keeps_c_name(name.drop_last());
        assert(name =~= name.drop_last() + seq![name.last()]);
    }
}

/// Sanitizing a sanitized name changes nothing.
pub proof fn sanitizing_is_idempotent(name: Seq<u8>)
    ensures
        sanitized(sanitized(name)) == sanitized(name),
{
    sanitized_name_is_valid(name);
    valid_name_is_kept(sanitized(name));
}

/// Every byte is escaped on its own: escaping two names in a row gives their
/// escaped names in a row.
pub proof fn escaping_goes_byte_by_byte(a: Seq<u8>, b: Seq<u8>)
    ensures
        escaped(a + b) == escaped(a) + escaped(b),
    decreases b.len(),
{
    if b.len() == 0 {
        assert(a + b =~= a);
        assert(escaped(a) + escaped(b) =~= escaped(a));
    } else {
        assert((a + b).drop_last() =~= a + b.drop_last());
        assert((a + b).last() == b.last());
        escaping_goes_byte_by_byte(a, b.drop_last());
        assert(escaped(a) + (escaped(b.drop_last()) + escaped_byte(b.last())) =~= (escaped(a)
            + escaped(b.drop_last())) + escaped_byte(b.last()));
    }
}

proof fn lemma_escaped_single(b: u8)
    ensures
        escaped(seq![b]) == escaped_byte(b),
{
    let front = seq![b].drop_last();
    assert(front.len() == 0);
    assert(escaped(front) =~= Seq::<u8>::empty());
    assert(escaped(seq![b]) =~= escaped_byte(b));
}

/// A letter, a digit or an underscore stands for itself. Any other byte, whichever
/// it is, becomes an underscore, one or two upper-case hexadecimal digits whose
/// value is that byte, and an underscore.
pub proof fn escaped_byte_names_the_byte(b: u8)
    ensures
        ({
            let e = escaped(seq![b]);
            if 0x30 <= b <= 0x39 || 0x41 <= b <= 0x5a || 0x61 <= b <= 0x7a || b == 0x5f {
                e == seq![b]
            } else {
                &&& e.len() == (if b < 16 {
                    3int
                } else {
                    4int
                })
                &&& e[0] == 0x5f
                &&& e.last() == 0x5f
                &&& forall|i: int|
                    0 < i < e.len() - 1 ==> (0x30 <= #[trigger] e[i] <= 0x39 || 0x41 <= e[i]
                        <= 0x46)
                &&& bytes::hex_value(e.subrange(1, e.len() - 1)) == b
            }
        }),
{
    let e = escaped(seq![b]);
    lemma_escaped_single(b);
    if !is_name_byte(b) {
        let digits = bytes::hex(b as nat, 0x41);
        bytes::hex_reads_back(b as nat, 0x41);
        assert(e.subrange(1, e.len() - 1) =~= digits);
        assert(digits.len() == if b < 16 {
            1int
        } else {
            2int
        }) by {
            reveal_with_fuel(bytes::hex, 2);
        }
        assert forall|i: int| 0 < i < e.len() - 1 implies (0x30 <= #[trigger] e[i] <= 0x39 || 0x41
            <= e[i] <= 0x46) by {
            assert(e[i] == digits[i - 1]);
        }
    }
}

/// No byte is lost: an escaped name is at least as long as the name, and longer
/// exactly if a byte of it had to be escaped.
pub proof fn escaping_loses_nothing(name: Seq<u8>)
    ensures
        escaped(name).len() >= name.len(),
        escaped(name).len() == name.len() <==> forall|i: int|
            0 <= i < name.len() ==> (0x30 <= #[trigger] name[i] <= 0x39 || 0x41 <= name[i] <= 0x5a
                || 0x61 <= name[i] <= 0x7a || name[i] == 0x5f),
    decreases name.len(),
{
    if name.len() > 0 {
        let front = name.drop_last();
        let b = name.last();
        escaping_loses_nothing(front);
        escaped_byte_names_the_byte(b);
        lemma_escaped_single(b);
        assert forall|i: int| 0 <= i < front.len() implies front[i] == name[i] by {}
        assert(name[name.len() - 1] == b);
        if escaped(name).len() == name.len() {
            assert forall|i: int| 0 <= i < name.len() implies (0x30 <= #[trigger] name[i] <= 0x39
                || 0x41 <= name[i] <= 0x5a || 0x61 <= name[i] <= 0x7a || name[i] == 0x5f) by {
                if i < front.len() {
                    assert(front[i] == name[i]);
                }
            }
        } else if escaped_byte(b).len() == 1 {
            let i = choose|i: int|
                0 <= i < front.len() && !(0x30 <= #[trigger] front[i] <= 0x39 || 0x41 <= front[i]
                    <= 0x5a || 0x61 <= front[i] <= 0x7a || front[i] == 0x5f);
            assert(name[i] == front[i]);
        }
    }
}

/// A name whose escaped form fits the kernel's limit gets that form. A longer one
/// keeps the first bytes of it, and then has an underscore and the lower-case
/// hexadecimal digits, without zeros in front, of the hash of the whole of it.
pub proof fn long_names_are_cut_and_hashed(name: Seq<u8>)
    ensures
        ({
            let full = escaped(name);
            let r = sanitized(name);
            if full.len() <= 128 {
                r == full
            } else {
                let digits = r.skip(112);
                &&& 113 <= r.len() <= 128
                &&& r.take(111) == full.take(111)
                &&& r[111] == 0x5f
                &&& bytes::hex_value(digits) == DefaultHasher::spec_finish(seq![full])
                &&& digits[0] == 0x30 ==> digits.len() == 1
                &&& forall|i: int|
                    0 <= i < digits.len() ==> (0x30 <= #[trigger] digits[i] <= 0x39 || 0x61
                        <= digits[i] <= 0x66)
            }
        }),
{
    let full = escaped(name);
    let r = sanitized(name);
    sanitized_name_is_valid(name);
    if full.len() > 128 {
        let h = name_hash(full) as nat;
        bytes::hex_reads_back(h, 0x61);
        assert(r.skip(112) =~= bytes::hex(h, 0x61));
        assert(r.take(111) =~= full.take(111));
    }
}

} // verus!
