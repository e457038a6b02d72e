//! Splitting a memory address into tag, set index and block offset.
use vstd::prelude::*;

verus! {

use vstd::arithmetic::power2::{pow2, lemma_pow2_pos, lemma_pow2_adds};
use vstd::arithmetic::div_mod::{
    lemma_fundamental_div_mod,
    lemma_fundamental_div_mod_converse,
    lemma_div_denominator,
    lemma_mod_bound,
};
use vstd::bits::{
    low_bits_mask,
    lemma_u64_shl_is_mul,
    lemma_u64_shr_is_div,
    lemma_u64_low_bits_mask_is_mod,
    lemma_u64_pow2_no_overflow,
};

/// The block offset of `address` when blocks hold `2^b` bytes.
pub open spec fn offset_of(address: nat, b: nat) -> nat {
    address % pow2(b)
}

/// The set index of `address` in a cache of `2^s` sets of `2^b`-byte blocks.
pub open spec fn set_index_of(address: nat, s: nat, b: nat) -> nat {
    (address / pow2(b)) % pow2(s)
}

/// The tag of `address`: what is left above the set index and block offset.
pub open spec fn tag_of(address: nat, s: nat, b: nat) -> nat {
    address / pow2(s + b)
}

/// The address whose tag, set index and offset are the given ones.
pub open spec fn join_address(tag: nat, set_index: nat, offset: nat, s: nat, b: nat) -> nat {
    tag * pow2(s + b) + set_index * pow2(b) + offset
}

/// Every address is the join of its own tag, set index and offset.
pub proof fn lemma_split_join(address: nat, s: nat, b: nat)
    ensures
        set_index_of(address, s, b) < pow2(s),
        offset_of(address, b) < pow2(b),
        join_address(
            tag_of(address, s, b),
            set_index_of(address, s, b),
            offset_of(address, b),
            s,
            b,
        ) == address,
{
    let pb = pow2(b) as int;
    let ps = pow2(s) as int;
    lemma_pow2_pos(b);
    lemma_pow2_pos(s);
    lemma_pow2_adds(s, b);
    let q = address as int / pb;
    lemma_fundamental_div_mod(address as int, pb);
    lemma_fundamental_div_mod(q, ps);
    lemma_div_denominator(address as int, pb, ps);
    lemma_mod_bound(q, ps);
    lemma_mod_bound(address as int, pb);
    let t = q / ps;
    let i = q % ps;
    let o = address as int % pb;
    assert(address == pb * (ps * t + i) + o);
    assert(pb * (ps * t + i) == t * (ps * pb) + i * pb) by (nonlinear_arith);
    assert(pb * ps == ps * pb) by (nonlinear_arith);
}

/// Splitting the join of a tag, a set index below `2^s` and an offset below
/// `2^b` gives those three parts back.
pub proof fn lemma_join_split(tag: nat, set_index: nat, offset: nat, s: nat, b: nat)
    requires
        set_index < pow2(s),
        offset < pow2(b),
    ensures
        tag_of(join_address(tag, set_index, offset, s, b), s, b) == tag,
        set_index_of(join_address(tag, set_index, offset, s, b), s, b) == set_index,
        offset_of(join_address(tag, set_index, offset, s, b), b) == offset,
{
    let pb = pow2(b) as int;
    let ps = pow2(s) as int;
    lemma_pow2_pos(b);
    lemma_pow2_pos(s);
    lemma_pow2_adds(s, b);
    let a = join_address(tag, set_index, offset, s, b) as int;
    let q = tag * ps + set_index;
    assert(a == q * pb + offset) by (nonlinear_arith)
        requires
            a == tag * (ps * pb) + set_index * pb + offset,
            q == tag * ps + set_index,
    ;
    lemma_fundamental_div_mod_converse(a, pb, q, offset as int);
    lemma_fundamental_div_mod_converse(q, ps, tag as int, set_index as int);
    lemma_div_denominator(a, pb, ps);
    assert(pb * ps == ps * pb) by (nonlinear_arith);
}

/// Returns a mask with the lowest `bits` bits set: `2^bits - 1`, all ones
/// for the full 64 bits.
///
/// The mask isolates the block offset and the set index of an address.
pub fn low_mask(bits: usize) -> (mask: u64)
    requires
        bits <= 64,
    ensures
        mask == pow2(bits as nat) - 1,
        mask == low_bits_mask(bits as nat),
{
    if bits == 0 {
        proof {
            vstd::arithmetic::power2::lemma2_to64();
        }
        0
    } else if bits == 64 {
        proof {
            vstd::arithmetic::power2::lemma2_to64();
        }
        u64::MAX
    } else {
        let shift: u64 = bits as u64;
        proof {
            lemma_u64_pow2_no_overflow(bits as nat);
            vstd::arithmetic::power2::lemma2_to64();
            lemma_u64_shl_is_mul(1, shift);
        }
        (1u64 << shift) - 1
    }
}

/// Splits `address` into `(tag, set_index, block_offset)` for a cache of
/// `2^s` sets of `2^b`-byte blocks: the address reads
/// `[ tag | s set index bits | b block offset bits ]`.
pub fn parse_address(address: u64, s: usize, b: usize) -> (parts: (u64, usize, u64))
    requires
        s + b < 64,
        s < usize::BITS,
    ensures
        parts.0 == tag_of(address as nat, s as nat, b as nat),
        parts.1 == set_index_of(address as nat, s as nat, b as nat),
        parts.2 == offset_of(address as nat, b as nat),
        parts.1 < pow2(s as nat),
        parts.2 < pow2(b as nat),
        join_address(parts.0 as nat, parts.1 as nat, parts.2 as nat, s as nat, b as nat)
            == address,
        ((parts.0 << ((s + b) as u64)) | ((parts.1 as u64) << (b as u64)) | parts.2) == address,
{
    let block_mask = low_mask(b);
    let set_mask = low_mask(s);
    let block_offset = address & block_mask;
    let shifted = address >> (b as u64);
    let set_index_bits = shifted & set_mask;
    let tag = address >> ((s + b) as u64);
    proof {
        lemma_u64_low_bits_mask_is_mod(address, b as nat);
        lemma_u64_low_bits_mask_is_mod(shifted, s as nat);
        lemma_u64_shr_is_div(address, b as u64);
        lemma_u64_shr_is_div(address, (s + b) as u64);
        lemma_u64_pow2_no_overflow(b as nat);
        lemma_u64_pow2_no_overflow(s as nat);
        lemma_split_join(address as nat, s as nat, b as nat);
        let sh: u64 = b as u64;
        let k: u64 = (s + b) as u64;
        let ms: u64 = set_mask;
        let mb: u64 = block_mask;
        assert(ms == (1u64 << (s as u64)) - 1) by {
            lemma_u64_shl_is_mul(1, s as u64);
        }
        assert(mb == (1u64 << sh) - 1) by {
            lemma_u64_shl_is_mul(1, sh);
        }
        let ss: u64 = s as u64;
        assert((((address >> k) << k) | (((address >> sh) & ms) << sh) | (address & mb)) == address)
            by (bit_vector)
            requires
                k == ss + sh,
                k < 64,
                ms == (1u64 << ss) - 1,
                mb == (1u64 << sh) - 1,
        ;
    }
    assert(set_index_bits < pow2(s as nat));
    proof {
        vstd::bits::lemma_usize_pow2_no_overflow(s as nat);
    }
    let set_index = set_index_bits as usize;
    (tag, set_index, block_offset)
}

/// The address of a block, with offset zero, computed as the cache does it:
/// the tag shifted above the set index, or-ed with the shifted set index.
pub proof fn lemma_block_address_bits(tag: u64, set_index: u64, s: u64, b: u64)
    requires
        s + b < 64,
        set_index < pow2(s as nat),
        tag < pow2((64 - s - b) as nat),
    ensures
        ((tag << ((s + b) as u64)) | (set_index << b)) == join_address(
            tag as nat,
            set_index as nat,
            0,
            s as nat,
            b as nat,
        ),
        join_address(tag as nat, set_index as nat, 0, s as nat, b as nat) <= u64::MAX,
{
    let k: u64 = (s + b) as u64;
    let rest: nat = (64 - s - b) as nat;
    lemma_pow2_pos(k as nat);
    lemma_pow2_pos(b as nat);
    lemma_pow2_adds(rest, k as nat);
    lemma_pow2_adds(s as nat, b as nat);
    vstd::arithmetic::power2::lemma2_to64();
    assert(rest + k == 64);
    assert(tag * pow2(k as nat) < pow2(64)) by (nonlinear_arith)
        requires
            tag < pow2(rest),
            pow2(64) == pow2(rest) * pow2(k as nat),
            pow2(k as nat) > 0,
    ;
    assert(set_index * pow2(b as nat) + pow2(b as nat) <= pow2(k as nat)) by (nonlinear_arith)
        requires
            set_index < pow2(s as nat),
            pow2(k as nat) == pow2(s as nat) * pow2(b as nat),
            pow2(b as nat) > 0,
    ;
    lemma_u64_pow2_no_overflow(s as nat);
    lemma_u64_pow2_no_overflow(k as nat);
    lemma_u64_shl_is_mul(tag, k);
    lemma_u64_shl_is_mul(set_index, b);
    lemma_u64_shl_is_mul(1, s);
    assert(set_index < (1u64 << s));
    assert((tag << k) | (set_index << b) == (tag << k) + (set_index << b)) by (bit_vector)
        requires
            k == s + b,
            k < 64,
            set_index < (1u64 << s),
    ;
}

/// The block number of `address` for `2^b`-byte blocks: the address without
/// its offset.
pub open spec fn block_of(address: nat, b: nat) -> nat {
    address / pow2(b)
}

/// Two addresses share tag and set index exactly when they lie in the same
/// block: tag and set index together are the block number.
pub proof fn lemma_same_block(x: nat, y: nat, s: nat, b: nat)
    ensures
        (tag_of(x, s, b) == tag_of(y, s, b) && set_index_of(x, s, b) == set_index_of(y, s, b))
            <==> block_of(x, b) == block_of(y, b),
{
    let pb = pow2(b) as int;
    let ps = pow2(s) as int;
    lemma_pow2_pos(b);
    lemma_pow2_pos(s);
    lemma_pow2_adds(s, b);
    lemma_div_denominator(x as int, pb, ps);
    lemma_div_denominator(y as int, pb, ps);
    assert(pb * ps == ps * pb) by (nonlinear_arith);
    let qx = x as int / pb;
    let qy = y as int / pb;
    lemma_fundamental_div_mod(qx, ps);
    lemma_fundamental_div_mod(qy, ps);
}

} // verus!
