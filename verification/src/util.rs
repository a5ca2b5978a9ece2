use vstd::prelude::*;

verus! {

/// Size in bytes of one page of the backing store.
pub const PAGE_SIZE: usize = 4096;

/// Number of pages the backing file is pre-extended to before it is mapped.
pub const MIN_PAGES: usize = 100;

/// Rounds `value` up to the next multiple of `alignment`, which must be a
/// power of two. The sum `value + alignment` must fit in a `usize`.
pub fn align_to(value: usize, alignment: usize) -> (r: usize)
    requires
        vstd::arithmetic::power2::is_pow2(alignment as int),
        alignment > 0,
        value + alignment <= usize::MAX,
    ensures
        r % alignment == 0,
        value <= r < value + alignment,
{
    let s = value + alignment - 1;
    let q = s / alignment;
    proof {
        vstd::arithmetic::div_mod::lemma_fundamental_div_mod(s as int, alignment as int);
        vstd::arithmetic::div_mod::lemma_mod_multiples_basic(
            s as int / alignment as int,
            alignment as int,
        );
    }
    q * alignment
}

/// The little-endian four-byte image of a 32-bit value.
pub fn u32_to_bytes_le(value: u32) -> (r: [u8; 4])
    ensures
        r@ == vstd::bytes::spec_u32_to_le_bytes(value),
{
    proof {
        vstd::bytes::lemma_auto_spec_u32_to_from_le_bytes();
    }
    let v = vstd::bytes::u32_to_le_bytes(value);
    let r: [u8; 4] = [v[0], v[1], v[2], v[3]];
    proof {
        assert(r@ =~= v@);
    }
    r
}

/// The 32-bit value stored little-endian in the first four bytes of `bytes`.
pub fn bytes_to_u32_le(bytes: &[u8]) -> (r: u32)
    requires
        bytes@.len() >= 4,
    ensures
        r == vstd::bytes::spec_u32_from_le_bytes(bytes@.subrange(0, 4)),
{
    let first: &[u8] = &bytes[0..4];
    vstd::bytes::u32_from_le_bytes(first)
}

} // verus!
