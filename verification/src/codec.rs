//! The block layer of the codec: one 2x2 pixel block is stored as one 32-bit
//! word holding six fields at fixed positions, and blocks are laid out
//! row-major over the even-truncated image.
//!
//! Field layout of a compressed word, bit positions counted from the least
//! significant bit: the 9-bit unsigned average-luma coefficient at 23, three
//! 5-bit signed detail coefficients at 18, 13 and 8, and two 4-bit unsigned
//! chroma indices at 4 and 0.
use vstd::prelude::*;

verus! {

use vstd::arithmetic::power2::{pow2, lemma2_to64, lemma2_to64_rest};
use vstd::arithmetic::div_mod::{
    lemma_div_basics,
    lemma_small_div_converse,
    lemma_fundamental_div_mod_converse,
    lemma_mod_bound,
    lemma_multiply_divide_lt,
};
use crate::bitpack::{
    field_of,
    sign_extend,
    to_unsigned,
    getu,
    geti,
    newu,
    newi,
    lemma_set_field_properties,
    lemma_field_preserved_above,
    lemma_sign_extend_to_unsigned,
};

/// The average-luma coefficient of a compressed word.
pub open spec fn a_of(word: nat) -> nat {
    field_of(word, 9, 23)
}

/// The first detail coefficient of a compressed word.
pub open spec fn b_of(word: nat) -> int {
    sign_extend(field_of(word, 5, 18), 5)
}

/// The second detail coefficient of a compressed word.
pub open spec fn c_of(word: nat) -> int {
    sign_extend(field_of(word, 5, 13), 5)
}

/// The third detail coefficient of a compressed word.
pub open spec fn d_of(word: nat) -> int {
    sign_extend(field_of(word, 5, 8), 5)
}

/// The chroma index of the averaged pb channel of a compressed word.
pub open spec fn pb_of(word: nat) -> nat {
    field_of(word, 4, 4)
}

/// The chroma index of the averaged pr channel of a compressed word.
pub open spec fn pr_of(word: nat) -> nat {
    field_of(word, 4, 0)
}

/// Packs the six quantized block values into one 32-bit compressed word:
/// each value lands exactly in its field and the word has no bits above the
/// low 32.
pub fn pack(a: u64, b: i64, c: i64, d: i64, pb: u64, pr: u64) -> (word: u64)
    requires
        a < 512,
        -16 <= b && b < 16,
        -16 <= c && c < 16,
        -16 <= d && d < 16,
        pb < 16,
        pr < 16,
    ensures
        word < 0x1_0000_0000,
        a_of(word as nat) == a as nat,
        b_of(word as nat) == b as int,
        c_of(word as nat) == c as int,
        d_of(word as nat) == d as int,
        pb_of(word as nat) == pb as nat,
        pr_of(word as nat) == pr as nat,
{
    proof {
        lemma2_to64();
        lemma2_to64_rest();
        lemma_sign_extend_to_unsigned(b as int, 5);
        lemma_sign_extend_to_unsigned(c as int, 5);
        lemma_sign_extend_to_unsigned(d as int, 5);
    }
    let w1 = newu(0u64, 9, 23, a).unwrap();
    let w2 = newi(w1, 5, 18, b).unwrap();
    let w3 = newi(w2, 5, 13, c).unwrap();
    let w4 = newi(w3, 5, 8, d).unwrap();
    let w5 = newu(w4, 4, 4, pb).unwrap();
    let w6 = newu(w5, 4, 0, pr).unwrap();
    proof {
        let tb = to_unsigned(b as int, 5);
        let tc = to_unsigned(c as int, 5);
        let td = to_unsigned(d as int, 5);
        lemma_set_field_properties(0, 9, 23, a as nat);
        lemma_set_field_properties(w1 as nat, 5, 18, tb);
        lemma_set_field_properties(w2 as nat, 5, 13, tc);
        lemma_set_field_properties(w3 as nat, 5, 8, td);
        lemma_set_field_properties(w4 as nat, 4, 4, pb as nat);
        lemma_set_field_properties(w5 as nat, 4, 0, pr as nat);
        // every later write sits wholly below each earlier field
        lemma_field_preserved_above(w1 as nat, 5, 18, tb, 9, 23);
        lemma_field_preserved_above(w2 as nat, 5, 13, tc, 9, 23);
        lemma_field_preserved_above(w2 as nat, 5, 13, tc, 5, 18);
        lemma_field_preserved_above(w3 as nat, 5, 8, td, 9, 23);
        lemma_field_preserved_above(w3 as nat, 5, 8, td, 5, 18);
        lemma_field_preserved_above(w3 as nat, 5, 8, td, 5, 13);
        lemma_field_preserved_above(w4 as nat, 4, 4, pb as nat, 9, 23);
        lemma_field_preserved_above(w4 as nat, 4, 4, pb as nat, 5, 18);
        lemma_field_preserved_above(w4 as nat, 4, 4, pb as nat, 5, 13);
        lemma_field_preserved_above(w4 as nat, 4, 4, pb as nat, 5, 8);
        lemma_field_preserved_above(w5 as nat, 4, 0, pr as nat, 9, 23);
        lemma_field_preserved_above(w5 as nat, 4, 0, pr as nat, 5, 18);
        lemma_field_preserved_above(w5 as nat, 4, 0, pr as nat, 5, 13);
        lemma_field_preserved_above(w5 as nat, 4, 0, pr as nat, 5, 8);
        lemma_field_preserved_above(w5 as nat, 4, 0, pr as nat, 4, 4);
        // no bits above the low 32: the first write fills places below 2^32
        // and every later write keeps the places at or above 2^32
        lemma_div_basics(pow2(32) as int);
        assert(w1 as nat / pow2(32) == 0);
        assert(w6 as nat / pow2(32) == 0);
        lemma_small_div_converse(w6 as int, pow2(32) as int);
    }
    w6
}

/// Unpacks a compressed word into the six quantized block values, each read
/// from its field.
pub fn unpack(word: u64) -> (r: (u64, i64, i64, i64, u64, u64))
    ensures
        r.0 as nat == a_of(word as nat),
        r.1 as int == b_of(word as nat),
        r.2 as int == c_of(word as nat),
        r.3 as int == d_of(word as nat),
        r.4 as nat == pb_of(word as nat),
        r.5 as nat == pr_of(word as nat),
{
    let a = getu(word, 9, 23);
    let b = geti(word, 5, 18);
    let c = geti(word, 5, 13);
    let d = geti(word, 5, 8);
    let pb = getu(word, 4, 4);
    let pr = getu(word, 4, 0);
    (a, b, c, d, pb, pr)
}

/// Largest even number at or below `x`: an image dimension is truncated down
/// to even before the image is cut into 2x2 blocks.
pub fn even_floor(x: u32) -> (r: u32)
    ensures
        r as int == x - (x % 2),
        r % 2 == 0,
        r <= x,
{
    proof {
        assert(x & !1u32 == x - (x % 2)) by (bit_vector);
    }
    x & !1u32
}

/// Number of 2x2 blocks in an image of even dimensions: a quarter of the
/// pixel count.
pub fn block_count(width: u32, height: u32) -> (n: u32)
    requires
        width % 2 == 0,
        height % 2 == 0,
        width as int * height as int <= u32::MAX,
    ensures
        n as int == (width as int / 2) * (height as int / 2),
        n as int == (width as int * height as int) / 4,
{
    proof {
        assert((width as int / 2) * (height as int / 2) * 4 == width as int * height as int)
            by (nonlinear_arith)
            requires
                width as int % 2 == 0,
                height as int % 2 == 0,
        ;
        lemma_fundamental_div_mod_converse(
            width as int * height as int,
            4,
            (width as int / 2) * (height as int / 2),
            0,
        );
    }
    (width / 2) * (height / 2)
}

/// Index of the top-left pixel of block `num` in the row-major 2x2 blocking
/// of the even-truncated `width` x `height` part of a pixel buffer whose rows
/// are `row_len` pixels long (`row_len` exceeds `width` when an odd trailing
/// column was dropped); the block's four pixels sit at `tlc`, `tlc + 1`,
/// `tlc + row_len` and `tlc + row_len + 1`, all inside the first `height`
/// buffer rows.
pub fn block_top_left(num: u32, width: u32, height: u32, row_len: u32) -> (tlc: u32)
    requires
        width % 2 == 0,
        height % 2 == 0,
        2 <= width,
        2 <= height,
        width <= row_len,
        (num as int) < (width as int / 2) * (height as int / 2),
        row_len as int * height as int <= u32::MAX,
    ensures
        tlc as int == (num as int / (width as int / 2)) * (2 * row_len as int) + (num as int % (
        width as int / 2)) * 2,
        tlc as int + row_len + 1 < row_len as int * height as int,
{
    let half_w = width / 2;
    let row = num / half_w;
    let col = num % half_w;
    proof {
        let wi = width as int;
        let hi = height as int;
        let li = row_len as int;
        lemma_multiply_divide_lt(num as int, wi / 2, hi / 2);
        lemma_mod_bound(num as int, wi / 2);
        assert(row < hi / 2);
        assert(col < wi / 2);
        assert(2 * li <= li * hi) by (nonlinear_arith)
            requires
                2 <= hi,
                0 <= li,
        ;
        assert(row as int * (2 * li) + col as int * 2 + li + 1 < li * hi) by (nonlinear_arith)
            requires
                row as int <= hi / 2 - 1,
                col as int <= wi / 2 - 1,
                wi <= li,
                wi % 2 == 0,
                hi % 2 == 0,
                2 <= wi,
                2 <= hi,
        ;
    }
    row * (2 * row_len) + col * 2
}

} // verus!
