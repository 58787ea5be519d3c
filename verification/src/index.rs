//! Index arithmetic of a ring of `2^C` bytes addressed by 16-bit indices.

use crate::ring::wrap_index;
use vstd::arithmetic::div_mod::{lemma_div_multiples_vanish, lemma_fundamental_div_mod, lemma_mod_add_multiples_vanish, lemma_mod_sub_multiples_vanish, lemma_small_mod};
use vstd::arithmetic::mul::lemma_mul_is_commutative;
use vstd::arithmetic::power2::{lemma_pow2_adds, lemma2_to64, lemma_pow2_pos, pow2};
use vstd::bits::{lemma_u16_low_bits_mask_is_mod, lemma_u16_pow2_no_overflow, lemma_u16_shr_is_div, lemma_u16_shl_is_mul, lemma_u32_shl_is_mul};
use vstd::prelude::*;

verus! {

/// Width of the chunks that a compressed index counts in, for a queue of
/// `queue_bitwidth` bits.
pub open spec fn spec_chunk_width(queue_bitwidth: nat) -> nat {
    if queue_bitwidth <= 16 {
        0
    } else {
        (queue_bitwidth - 16) as nat
    }
}

/// An index compressed: the number of whole chunks below it.
pub open spec fn spec_compress(tail: nat, queue_bitwidth: nat) -> nat {
    tail / pow2(spec_chunk_width(queue_bitwidth))
}

/// A compressed index decompressed: the first index of the chunk it counts,
/// in 16 bits.
pub open spec fn spec_decompress(tail: nat, queue_bitwidth: nat) -> nat {
    (tail * pow2(spec_chunk_width(queue_bitwidth))) % 0x10000
}

/// Width of chunks, given a queue's bitwidth. Any queue of at most 16 bits
/// can be addressed precisely by a 16-bit index; for a larger queue the
/// remaining bits give the size of the chunks that a compressed index counts.
pub fn chunk_width(queue_bitwidth: usize) -> (w: usize)
    ensures
        w == spec_chunk_width(queue_bitwidth as nat),
        queue_bitwidth <= 16 ==> w == 0,
        queue_bitwidth > 16 ==> w + 16 == queue_bitwidth,
{
    if queue_bitwidth <= 16 {
        return 0;
    }
    queue_bitwidth - 16
}

/// Compresses an index: the number of whole chunks below it.
pub fn compress(tail: u16, queue_bitwidth: usize) -> (c: u16)
    requires
        queue_bitwidth < 32,
    ensures
        c == spec_compress(tail as nat, queue_bitwidth as nat),
{
    let w = chunk_width(queue_bitwidth);
    let w16: u16 = w as u16;
    proof {
        lemma_u16_shr_is_div(tail, w16);
    }
    tail >> w16
}

/// Shifting a 16-bit value left drops the bits that leave the word.
proof fn lemma_u16_shl_wraps(x: u16, s: u16)
    requires
        s < 16,
    ensures
        (x << s) as nat == (x as nat * pow2(s as nat)) % 0x10000,
{
    let wide: u32 = x as u32;
    let s32: u32 = s as u32;
    assert((x << s) == (((wide << s32) & 0xffff) as u16)) by (bit_vector)
        requires
            wide == x as u32,
            s32 == s as u32,
            s < 16,
    ;
    lemma_u16_pow2_no_overflow(s as nat);
    lemma2_to64();
    assert(wide * pow2(s32 as nat) <= u32::MAX) by (nonlinear_arith)
        requires
            wide <= 0xffff,
            pow2(s32 as nat) <= 0xffff,
    ;
    lemma_u32_shl_is_mul(wide, s32);
    let shifted: u32 = wide << s32;
    assert(shifted & 0xffff == shifted % 0x10000) by (bit_vector);
}

/// Decompresses an index: the first index of the chunk it counts.
pub fn decompress(tail: u16, queue_bitwidth: usize) -> (d: u16)
    requires
        queue_bitwidth < 32,
    ensures
        d == spec_decompress(tail as nat, queue_bitwidth as nat),
{
    let w = chunk_width(queue_bitwidth);
    let w16: u16 = w as u16;
    proof {
        lemma_u16_shl_wraps(tail, w16);
    }
    tail << w16
}

/// Returns `2^B - 1`, the mask of the `B` low bits.
pub fn fmask_udefault<const B: usize>() -> (m: u16)
    requires
        B < 16,
    ensures
        m == pow2(B as nat) - 1,
{
    let b16: u16 = B as u16;
    proof {
        lemma_u16_pow2_no_overflow(B as nat);
        lemma_u16_shl_is_mul(1, b16);
        lemma_pow2_pos(B as nat);
    }
    (1u16 << b16) - 1
}

/// The number of free slots that the ring code computes from a head index
/// `h` and a tail index `t` in a ring of `2^c` slots.
pub open spec fn spec_leftover_capacity(c: nat, h: int, t: int) -> int {
    if h >= t {
        pow2(c) - (h - t)
    } else {
        t - h
    }
}

/// The number of elements in a ring of `2^c` slots with head `h` and tail `t`.
pub open spec fn spec_element_count(c: nat, h: int, t: int) -> int {
    pow2(c) - spec_leftover_capacity(c, h, t)
}

/// For indices inside the ring, the free slots are the ring size minus the
/// cyclic distance from tail to head.
pub proof fn lemma_leftover_capacity_in_ring(c: nat, h: int, t: int)
    requires
        0 <= h < pow2(c),
        0 <= t < pow2(c),
    ensures
        spec_leftover_capacity(c, h, t) == pow2(c) - (h - t) % (pow2(c) as int),
        spec_element_count(c, h, t) == (h - t) % (pow2(c) as int),
        1 <= spec_leftover_capacity(c, h, t) <= pow2(c),
        0 <= spec_element_count(c, h, t) < pow2(c),
{
    let l = pow2(c) as int;
    if h >= t {
        lemma_small_mod((h - t) as nat, l as nat);
    } else {
        lemma_small_mod((h - t + l) as nat, l as nat);
        lemma_mod_add_multiples_vanish(h - t, l);
    }
}

/// Computes the remaining capacity of a ring buffer for a given head index,
/// tail index and bit width of the queue (i.e. the total capacity).
pub fn queue_leftover_capacity<const C: usize>(h: u16, t: u16) -> (r: u16)
    requires
        C < 16,
        h >= t ==> h - t <= pow2(C as nat),
    ensures
        r == spec_leftover_capacity(C as nat, h as int, t as int),
        h < pow2(C as nat) && t < pow2(C as nat) ==> r == pow2(C as nat) - (h - t) % (pow2(
            C as nat,
        ) as int),
{
    let c16: u16 = C as u16;
    proof {
        lemma_u16_pow2_no_overflow(C as nat);
        lemma_u16_shl_is_mul(1, c16);
        if h < pow2(C as nat) && t < pow2(C as nat) {
            lemma_leftover_capacity_in_ring(C as nat, h as int, t as int);
        }
    }
    if h >= t {
        (1u16 << c16) - (h - t)
    } else {
        t - h
    }
}

/// Computes the element count of a ring buffer for a given head index, tail
/// index and bit width of the queue (i.e. the total capacity).
pub fn queue_element_count<const C: usize>(h: u16, t: u16) -> (r: u16)
    requires
        C < 16,
        h >= t ==> h - t <= pow2(C as nat),
        h < t ==> t - h <= pow2(C as nat),
    ensures
        r == spec_element_count(C as nat, h as int, t as int),
        h < pow2(C as nat) && t < pow2(C as nat) ==> r == (h - t) % (pow2(C as nat) as int),
{
    let c16: u16 = C as u16;
    proof {
        lemma_u16_pow2_no_overflow(C as nat);
        lemma_u16_shl_is_mul(1, c16);
        if h < pow2(C as nat) && t < pow2(C as nat) {
            lemma_leftover_capacity_in_ring(C as nat, h as int, t as int);
        }
    }
    (1u16 << c16) - queue_leftover_capacity::<C>(h, t)
}

/// Masking an index below twice the ring size with the ring's low-bit mask
/// wraps it round the ring once.
pub proof fn lemma_mask_wraps(x: u16, c: nat)
    requires
        c < 16,
        x < 2 * pow2(c),
    ensures
        x & ((pow2(c) - 1) as u16) == wrap_index(x as int, pow2(c) as int),
{
    lemma_u16_pow2_no_overflow(c);
    lemma_pow2_pos(c);
    lemma_u16_low_bits_mask_is_mod(x, c);
    let l = pow2(c) as int;
    if x < l {
        lemma_small_mod(x as nat, l as nat);
    } else {
        lemma_mod_sub_multiples_vanish(x as int, l);
        lemma_small_mod((x - l) as nat, l as nat);
    }
}

/// A queue of at most 16 bits has chunks of one index: compression and
/// decompression leave every index unchanged.
pub proof fn law_small_queue_uncompressed(x: u16, queue_bitwidth: nat)
    requires
        queue_bitwidth <= 16,
    ensures
        spec_compress(x as nat, queue_bitwidth) == x,
        spec_decompress(x as nat, queue_bitwidth) == x,
{
    lemma2_to64();
    assert(x as nat / 1 == x) by (nonlinear_arith);
    assert((x as nat * 1) % 0x10000 == x) by (nonlinear_arith)
        requires
            x < 0x10000,
    ;
}

/// Decompressing a compressed index gives it back where it starts a chunk.
pub proof fn law_compress_round_trip(x: u16, queue_bitwidth: nat)
    requires
        queue_bitwidth < 32,
        x as nat % pow2(spec_chunk_width(queue_bitwidth)) == 0,
    ensures
        spec_decompress(spec_compress(x as nat, queue_bitwidth), queue_bitwidth) == x,
{
    let p = pow2(spec_chunk_width(queue_bitwidth)) as int;
    lemma_pow2_pos(spec_chunk_width(queue_bitwidth));
    lemma_fundamental_div_mod(x as int, p);
    lemma_mul_is_commutative(p, x as int / p);
    lemma_small_mod(x as nat, 0x10000);
}

/// Compressing a decompressed index gives it back where no bit was lost.
pub proof fn law_decompress_round_trip(y: u16, queue_bitwidth: nat)
    requires
        queue_bitwidth < 32,
        y as nat * pow2(spec_chunk_width(queue_bitwidth)) < 0x10000,
    ensures
        spec_compress(spec_decompress(y as nat, queue_bitwidth), queue_bitwidth) == y,
{
    let p = pow2(spec_chunk_width(queue_bitwidth)) as int;
    lemma_pow2_pos(spec_chunk_width(queue_bitwidth));
    lemma_small_mod((y as nat * p) as nat, 0x10000);
    lemma_mul_is_commutative(p, y as int);
    lemma_div_multiples_vanish(y as int, p);
}

/// A queue of more than 16 bits is cut into `2^16` chunks, one for each
/// 16-bit index, of `2^w` slots each, `w` being the chunk width: the chunk
/// width is the number of bits beyond 16. A queue of at most 16 bits has
/// chunks of one slot.
pub proof fn law_chunks_cover_queue(queue_bitwidth: nat)
    ensures
        queue_bitwidth <= 16 ==> spec_chunk_width(queue_bitwidth) == 0,
        queue_bitwidth > 16 ==> spec_chunk_width(queue_bitwidth) + 16 == queue_bitwidth,
        queue_bitwidth >= 16 ==> pow2(queue_bitwidth) == 0x10000 * pow2(
            spec_chunk_width(queue_bitwidth),
        ),
{
    if queue_bitwidth >= 16 {
        lemma2_to64();
        lemma_pow2_adds(16, (queue_bitwidth - 16) as nat);
    }
}

} // verus!
