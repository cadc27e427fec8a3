//! Bit-field packing: reading and writing signed or unsigned integers of
//! width 1 to 64 at an arbitrary least-significant-bit offset inside a
//! 64-bit word.
//!
//! The mathematical model speaks of a word as a natural number below 2^64.
//! The field of `width` bits at offset `lsb` holds the digits of the word
//! between place 2^lsb and place 2^(lsb+width).
use vstd::prelude::*;

verus! {

use vstd::arithmetic::power2::{
    pow2,
    lemma_pow2_adds,
    lemma_pow2_pos,
    lemma_pow2_strictly_increases,
    lemma_pow2_unfold,
    lemma2_to64,
    lemma2_to64_rest,
};
use vstd::arithmetic::div_mod::{
    lemma_fundamental_div_mod,
    lemma_fundamental_div_mod_converse,
    lemma_small_mod,
    lemma_mod_add_multiples_vanish,
    lemma_mod_bound,
    lemma_mod_multiples_vanish,
    lemma_div_denominator,
    lemma_div_basics,
};
use vstd::bits::{
    low_bits_mask,
    lemma_u64_shr_is_div,
    lemma_u64_shl_is_mul,
    lemma_u64_pow2_no_overflow,
    lemma_u64_low_bits_mask_is_mod,
};

/// A (width, lsb) pair addresses a structurally valid field of a 64-bit word.
pub open spec fn valid_field(width: u64, lsb: u64) -> bool {
    1 <= width <= 64 && width + lsb <= 64
}

/// The unsigned content of the `width`-bit field of `word` at offset `lsb`:
/// the digits of `word` between place 2^lsb and place 2^(lsb+width).
pub open spec fn field_of(word: nat, width: u64, lsb: u64) -> nat {
    (word / pow2(lsb as nat)) % pow2(width as nat)
}

/// Reads an unsigned `width`-bit field value as a `width`-bit two's-complement
/// integer: values at or above 2^(width-1) stand for negatives.
pub open spec fn sign_extend(u: nat, width: u64) -> int
    recommends
        1 <= width <= 64,
        u < pow2(width as nat),
{
    if u < pow2((width - 1) as nat) {
        u as int
    } else {
        u - pow2(width as nat)
    }
}

/// The low `width` bits of the two's-complement representation of `n`:
/// `n` reduced modulo 2^width into [0, 2^width).
pub open spec fn to_unsigned(n: int, width: u64) -> nat {
    (n % (pow2(width as nat) as int)) as nat
}

/// `n` is representable as an unsigned `width`-bit value.
pub open spec fn fits_unsigned(n: u64, width: u64) -> bool {
    (n as nat) < pow2(width as nat)
}

/// `n` is representable as a signed two's-complement `width`-bit value.
pub open spec fn fits_signed(n: i64, width: u64) -> bool {
    -(pow2((width - 1) as nat) as int) <= n as int && (n as int) < pow2((width - 1) as nat)
}

/// `word` with the `width`-bit field at `lsb` replaced by `v`:
/// the old digits of that field are taken out and `v` is put in their place.
pub open spec fn set_field(word: nat, width: u64, lsb: u64, v: nat) -> nat
    recommends
        valid_field(width, lsb),
        v < pow2(width as nat),
{
    (word - field_of(word, width, lsb) * pow2(lsb as nat) + v * pow2(lsb as nat)) as nat
}

/// True iff `n` fits in a signed two's-complement field of `width` bits.
pub fn fitsi(n: i64, width: u64) -> (r: bool)
    requires
        1 <= width <= 64,
    ensures
        r == fits_signed(n, width),
{
    if width == 64 {
        proof {
            lemma2_to64_rest();
        }
        true
    } else {
        proof {
            lemma_u64_pow2_no_overflow((width - 1) as nat);
            lemma_u64_shl_is_mul(1u64, (width - 1) as u64);
            lemma_pow2_strictly_increases((width - 1) as nat, 63);
            lemma2_to64_rest();
        }
        let half = 1u64 << (width - 1);
        let half_i = half as i64;
        -half_i <= n && n < half_i
    }
}

/// True iff `n` fits in an unsigned field of `width` bits.
pub fn fitsu(n: u64, width: u64) -> (r: bool)
    requires
        1 <= width <= 64,
    ensures
        r == fits_unsigned(n, width),
{
    if width == 64 {
        proof {
            lemma2_to64_rest();
        }
        true
    } else {
        proof {
            lemma_u64_pow2_no_overflow(width as nat);
            lemma_u64_shl_is_mul(1u64, width);
        }
        n < (1u64 << width)
    }
}

/// Extracts the unsigned `width`-bit field of `word` at offset `lsb`,
/// zero-filling the high bits.
pub fn getu(word: u64, width: u64, lsb: u64) -> (r: u64)
    requires
        valid_field(width, lsb),
    ensures
        r as nat == field_of(word as nat, width, lsb),
{
    if width == 64 {
        proof {
            lemma2_to64();
            lemma2_to64_rest();
            lemma_div_basics(word as int);
            lemma_small_mod(word as nat, pow2(64));
            assert(word as nat == field_of(word as nat, width, lsb));
        }
        word
    } else {
        let shifted = word >> lsb;
        proof {
            lemma_u64_pow2_no_overflow(width as nat);
            lemma_u64_shl_is_mul(1u64, width);
            lemma_pow2_pos(width as nat);
        }
        let m = (1u64 << width) - 1;
        proof {
            lemma_u64_shr_is_div(word, lsb);
            lemma_u64_low_bits_mask_is_mod(shifted, width as nat);
            lemma_pow2_pos(width as nat);
            lemma_pow2_pos(lsb as nat);
            assert(m == low_bits_mask(width as nat));
            assert(shifted as nat == word as nat / pow2(lsb as nat));
            assert((shifted & m) as nat == shifted as nat % pow2(width as nat));
            assert((shifted & m) as nat == field_of(word as nat, width, lsb));
        }
        shifted & m
    }
}

/// Extracts the `width`-bit field of `word` at offset `lsb` and reads it as a
/// signed two's-complement value, filling the high bits with the sign bit.
pub fn geti(word: u64, width: u64, lsb: u64) -> (r: i64)
    requires
        valid_field(width, lsb),
    ensures
        r as int == sign_extend(field_of(word as nat, width, lsb), width),
{
    let u = getu(word, width, lsb);
    proof {
        lemma_pow2_pos(lsb as nat);
        lemma_pow2_pos(width as nat);
    }
    if width == 64 {
        proof {
            lemma2_to64_rest();
        }
        if u <= 0x7fff_ffff_ffff_ffffu64 {
            u as i64
        } else {
            proof {
                assert(!u == 0xffff_ffff_ffff_ffffu64 - u) by (bit_vector);
            }
            -((!u) as i64) - 1
        }
    } else {
        proof {
            lemma_u64_pow2_no_overflow((width - 1) as nat);
            lemma_u64_pow2_no_overflow(width as nat);
            lemma_u64_shl_is_mul(1u64, (width - 1) as u64);
            lemma_u64_shl_is_mul(1u64, width);
            lemma_pow2_strictly_increases((width - 1) as nat, 63);
            lemma_pow2_unfold(width as nat);
            lemma2_to64_rest();
        }
        let half = 1u64 << (width - 1);
        if u < half {
            u as i64
        } else {
            -(((1u64 << width) - u) as i64)
        }
    }
}

/// A fitting value scaled into place stays below 2^(w+l), and so below 2^64.
proof fn lemma_scaled_fits(v: nat, w: nat, l: nat)
    requires
        v < pow2(w),
        w + l <= 64,
    ensures
        v * pow2(l) + pow2(l) <= pow2(w + l),
        pow2(w + l) <= pow2(64),
        v * pow2(l) < pow2(w + l),
{
    lemma_pow2_pos(l);
    lemma_pow2_pos(w);
    lemma_pow2_adds(w, l);
    assert(v * pow2(l) + pow2(l) <= pow2(w) * pow2(l)) by (nonlinear_arith)
        requires
            v + 1 <= pow2(w),
            pow2(l) > 0,
    ;
    if w + l < 64 {
        lemma_pow2_strictly_increases(w + l, 64);
    }
}

/// Every word below 2^64 splits into the part above the field, the field
/// itself, and the part below the field, each in its place.
pub proof fn lemma_place_value(word: nat, width: u64, lsb: u64)
    requires
        valid_field(width, lsb),
    ensures
        word == (word / pow2((width + lsb) as nat)) * pow2((width + lsb) as nat)
            + field_of(word, width, lsb) * pow2(lsb as nat) + word % pow2(lsb as nat),
        field_of(word, width, lsb) < pow2(width as nat),
        word % pow2(lsb as nat) < pow2(lsb as nat),
{
    let l = lsb as nat;
    let w = width as nat;
    lemma_pow2_pos(l);
    lemma_pow2_pos(w);
    lemma_pow2_adds(w, l);
    let q = word / pow2(l);
    lemma_fundamental_div_mod(word as int, pow2(l) as int);
    lemma_fundamental_div_mod(q as int, pow2(w) as int);
    lemma_mod_bound(word as int, pow2(l) as int);
    lemma_mod_bound(q as int, pow2(w) as int);
    lemma_div_denominator(word as int, pow2(l) as int, pow2(w) as int);
    lemma_pow2_adds(l, w);
    assert(q / pow2(w) == word / pow2(w + l));
    let hi = word / pow2(w + l);
    let f = field_of(word, width, lsb);
    assert(word == pow2(l) * (pow2(w) * hi + f) + word % pow2(l));
    assert(pow2(l) * (pow2(w) * hi + f) == hi * (pow2(w) * pow2(l)) + f * pow2(l))
        by (nonlinear_arith);
}

/// Setting a field keeps the word below 2^64, puts exactly the value into the
/// field, and leaves the places below `lsb` and at or above `lsb + width`
/// unchanged.
pub proof fn lemma_set_field_properties(word: nat, width: u64, lsb: u64, v: nat)
    requires
        valid_field(width, lsb),
        word < pow2(64),
        v < pow2(width as nat),
    ensures
        set_field(word, width, lsb, v) < pow2(64),
        field_of(set_field(word, width, lsb, v), width, lsb) == v,
        set_field(word, width, lsb, v) % pow2(lsb as nat) == word % pow2(lsb as nat),
        forall|k: nat|
            (width + lsb) as nat <= k <= 64 ==> set_field(word, width, lsb, v) / #[trigger] pow2(
                k,
            ) == word / pow2(k),
{
    let l = lsb as nat;
    let w = width as nat;
    let f = field_of(word, width, lsb);
    let lo = word % pow2(l);
    let hi = word / pow2(w + l);
    let s = set_field(word, width, lsb, v);
    lemma_pow2_pos(l);
    lemma_pow2_pos(w);
    lemma_pow2_pos(w + l);
    lemma_pow2_adds(w, l);
    lemma_place_value(word, width, lsb);
    assert(s == hi * pow2(w + l) + v * pow2(l) + lo);
    lemma_scaled_fits(v, w, l);
    lemma_scaled_fits(f, w, l);
    // the word stays below 2^64
    assert(hi < pow2((64 - w - l) as nat)) by {
        lemma_pow2_adds((64 - w - l) as nat, w + l);
        assert(word < pow2((64 - w - l) as nat) * pow2(w + l) && word == hi * pow2(w + l) + f
            * pow2(l) + lo && f * pow2(l) + lo < pow2(w + l) ==> hi < pow2((64 - w - l) as nat))
            by (nonlinear_arith);
    }
    assert(s < pow2(64)) by {
        lemma_pow2_adds((64 - w - l) as nat, w + l);
        assert(hi + 1 <= pow2((64 - w - l) as nat) && v * pow2(l) + lo < pow2(w + l) ==> hi * pow2(
            w + l,
        ) + v * pow2(l) + lo < pow2((64 - w - l) as nat) * pow2(w + l)) by (nonlinear_arith);
    }
    // the field of the new word is v, and the low places are unchanged
    assert(s == (hi * pow2(w) + v) * pow2(l) + lo) by (nonlinear_arith)
        requires
            s == hi * pow2(w + l) + v * pow2(l) + lo,
            pow2(w + l) == pow2(w) * pow2(l),
    ;
    lemma_fundamental_div_mod_converse(
        s as int,
        pow2(l) as int,
        (hi * pow2(w) + v) as int,
        lo as int,
    );
    assert(s / pow2(l) == hi * pow2(w) + v);
    assert(s % pow2(l) == lo);
    lemma_mod_multiples_vanish(hi as int, v as int, pow2(w) as int);
    lemma_small_mod(v, pow2(w));
    assert(field_of(s, width, lsb) == v);
    // the high places are unchanged
    lemma_fundamental_div_mod_converse(
        s as int,
        pow2(w + l) as int,
        hi as int,
        (v * pow2(l) + lo) as int,
    );
    assert(s / pow2(w + l) == hi);
    assert forall|k: nat| (width + lsb) as nat <= k <= 64 implies s / #[trigger] pow2(k) == word
        / pow2(k) by {
        lemma_pow2_adds(w + l, (k - w - l) as nat);
        lemma_pow2_pos((k - w - l) as nat);
        lemma_div_denominator(s as int, pow2(w + l) as int, pow2((k - w - l) as nat) as int);
        lemma_div_denominator(word as int, pow2(w + l) as int, pow2((k - w - l) as nat) as int);
    }
}

/// Law: reducing a fitting signed value to its low `width` bits and reading
/// them back as two's complement yields the value again.
pub proof fn lemma_sign_extend_to_unsigned(n: int, width: u64)
    requires
        1 <= width <= 64,
        -(pow2((width - 1) as nat) as int) <= n < pow2((width - 1) as nat),
    ensures
        to_unsigned(n, width) < pow2(width as nat),
        sign_extend(to_unsigned(n, width), width) == n,
{
    let w = width as nat;
    lemma_pow2_pos(w);
    lemma_pow2_pos((w - 1) as nat);
    lemma_pow2_unfold(w);
    lemma_pow2_strictly_increases((w - 1) as nat, w);
    if n >= 0 {
        lemma_small_mod(n as nat, pow2(w));
    } else {
        lemma_mod_add_multiples_vanish(n, pow2(w) as int);
        lemma_small_mod((pow2(w) + n) as nat, pow2(w));
    }
}

/// Law: a write to one field leaves every other field of the word unchanged,
/// provided the other field lies wholly above the written one.
pub proof fn lemma_field_preserved_above(
    word: nat,
    width: u64,
    lsb: u64,
    v: nat,
    width2: u64,
    lsb2: u64,
)
    requires
        valid_field(width, lsb),
        valid_field(width2, lsb2),
        word < pow2(64),
        v < pow2(width as nat),
        width + lsb <= lsb2,
    ensures
        field_of(set_field(word, width, lsb, v), width2, lsb2) == field_of(word, width2, lsb2),
{
    lemma_set_field_properties(word, width, lsb, v);
    assert(set_field(word, width, lsb, v) / pow2(lsb2 as nat) == word / pow2(lsb2 as nat));
}

/// Law: writing a fitting unsigned value into a field and then reading the
/// same field yields the value back, and every bit outside the field keeps
/// the value it had: the places below `lsb` and the places at or above
/// `lsb + width` are unchanged.
pub proof fn lemma_unsigned_set_get_roundtrip(word: u64, width: u64, lsb: u64, n: u64)
    requires
        valid_field(width, lsb),
        fits_unsigned(n, width),
    ensures
        field_of(set_field(word as nat, width, lsb, n as nat), width, lsb) == n as nat,
        set_field(word as nat, width, lsb, n as nat) % pow2(lsb as nat) == (word as nat) % pow2(
            lsb as nat,
        ),
        set_field(word as nat, width, lsb, n as nat) / pow2((width + lsb) as nat) == (word as nat)
            / pow2((width + lsb) as nat),
{
    lemma2_to64();
    lemma2_to64_rest();
    lemma_set_field_properties(word as nat, width, lsb, n as nat);
}

/// Law: writing a fitting signed value into a field as two's complement and
/// then reading the same field with sign extension yields the value back,
/// and every bit outside the field keeps the value it had.
pub proof fn lemma_signed_set_get_roundtrip(word: u64, width: u64, lsb: u64, n: i64)
    requires
        valid_field(width, lsb),
        fits_signed(n, width),
    ensures
        sign_extend(
            field_of(set_field(word as nat, width, lsb, to_unsigned(n as int, width)), width, lsb),
            width,
        ) == n as int,
        set_field(word as nat, width, lsb, to_unsigned(n as int, width)) % pow2(lsb as nat) == (
        word as nat) % pow2(lsb as nat),
        set_field(word as nat, width, lsb, to_unsigned(n as int, width)) / pow2(
            (width + lsb) as nat,
        ) == (word as nat) / pow2((width + lsb) as nat),
{
    lemma2_to64();
    lemma2_to64_rest();
    lemma_sign_extend_to_unsigned(n as int, width);
    lemma_set_field_properties(word as nat, width, lsb, to_unsigned(n as int, width));
}

/// Writes `value` into the unsigned `width`-bit field of `word` at offset
/// `lsb`, leaving every bit outside the field unchanged; refuses a value that
/// does not fit the field.
pub fn newu(word: u64, width: u64, lsb: u64, value: u64) -> (r: Option<u64>)
    requires
        valid_field(width, lsb),
    ensures
        r is Some <==> fits_unsigned(value, width),
        r matches Some(out) ==> out as nat == set_field(word as nat, width, lsb, value as nat),
{
    if !fitsu(value, width) {
        return None;
    }
    if width == 64 {
        // the field is the whole word
        proof {
            lemma2_to64();
            lemma2_to64_rest();
            lemma_div_basics(word as int);
            lemma_small_mod(word as nat, pow2(64));
            assert(field_of(word as nat, width, lsb) == word as nat);
            assert(set_field(word as nat, width, lsb, value as nat) == value as nat);
        }
        Some(value)
    } else {
        proof {
            lemma_u64_pow2_no_overflow(width as nat);
            lemma_u64_shl_is_mul(1u64, width);
            lemma_pow2_pos(width as nat);
        }
        let m = (1u64 << width) - 1;
        proof {
            lemma2_to64_rest();
            lemma_scaled_fits(m as nat, width as nat, lsb as nat);
            lemma_u64_shl_is_mul(m, lsb);
            lemma_scaled_fits(value as nat, width as nat, lsb as nat);
            lemma_u64_shl_is_mul(value, lsb);
        }
        let sm = m << lsb;
        let sv = value << lsb;
        let cleared = word & !sm;
        let out = cleared | sv;
        proof {
            let l = lsb as nat;
            let w = width as nat;
            let f = field_of(word as nat, width, lsb);
            lemma_u64_shr_is_div(word, lsb);
            lemma_u64_low_bits_mask_is_mod(word >> lsb, w);
            assert((word >> lsb) & m == f);
            assert(word & sm == ((word >> lsb) & m) << lsb) by (bit_vector)
                requires
                    sm == m << lsb,
            ;
            lemma_place_value(word as nat, width, lsb);
            lemma_scaled_fits(f, w, l);
            lemma_u64_shl_is_mul((word >> lsb) & m, lsb);
            assert(word & sm == f * pow2(l));
            assert(out == word - (word & sm) + sv) by (bit_vector)
                requires
                    1 <= width < 64,
                    lsb + width <= 64,
                    m == (1u64 << width) - 1,
                    sm == m << lsb,
                    value < (1u64 << width),
                    sv == value << lsb,
                    cleared == word & !sm,
                    out == cleared | sv,
            ;
            assert(out as nat == set_field(word as nat, width, lsb, value as nat));
        }
        Some(out)
    }
}

/// Writes the two's-complement representation of `value` into the `width`-bit
/// field of `word` at offset `lsb`, leaving every bit outside the field
/// unchanged; refuses a value that does not fit the field.
pub fn newi(word: u64, width: u64, lsb: u64, value: i64) -> (r: Option<u64>)
    requires
        valid_field(width, lsb),
    ensures
        r is Some <==> fits_signed(value, width),
        r matches Some(out) ==> out as nat == set_field(
            word as nat,
            width,
            lsb,
            to_unsigned(value as int, width),
        ),
{
    if !fitsi(value, width) {
        return None;
    }
    proof {
        lemma_pow2_pos(width as nat);
        lemma_pow2_pos((width - 1) as nat);
        lemma_pow2_unfold(width as nat);
        lemma2_to64_rest();
    }
    let uval: u64 = if value >= 0 {
        proof {
            lemma_pow2_strictly_increases((width - 1) as nat, width as nat);
            lemma_small_mod(value as nat, pow2(width as nat));
        }
        value as u64
    } else if width == 64 {
        proof {
            lemma_mod_add_multiples_vanish(value as int, pow2(64) as int);
            lemma_small_mod((pow2(64) + value) as nat, pow2(64));
        }
        u64::MAX - ((-(value + 1)) as u64)
    } else {
        proof {
            lemma_u64_pow2_no_overflow(width as nat);
            lemma_u64_shl_is_mul(1u64, width);
            lemma_mod_add_multiples_vanish(value as int, pow2(width as nat) as int);
            lemma_small_mod((pow2(width as nat) + value) as nat, pow2(width as nat));
        }
        (1u64 << width) - ((-value) as u64)
    };
    proof {
        assert(uval as nat == to_unsigned(value as int, width));
    }
    newu(word, width, lsb, uval)
}

} // verus!
