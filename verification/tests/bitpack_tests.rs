use rpeg::bitpack::{fitsi, fitsu, geti, getu, newi, newu};

// fitsi: 8-bit fields hold exactly -128..=127
#[test]
fn fitsi_lower_bound() {
    assert!(fitsi(-128, 8));
    assert!(!fitsi(-129, 8));
}

#[test]
fn fitsi_upper_bound() {
    assert!(fitsi(127, 8));
    assert!(!fitsi(128, 8));
}

// fitsu: 8-bit fields hold exactly 0..=255
#[test]
fn fitsu_lower_wound() {
    assert!(fitsu(0, 8));
}

#[test]
fn fitsu_upper_bound() {
    assert!(fitsu(255, 8));
    assert!(!fitsu(256, 8));
}

#[test]
fn build_word() {
    // eight 4-bit fields written over a word whose low 32 bits start as ones;
    // each write clears its field before putting the value in
    let mut word: u64 = !0_u32 as u64;
    word = newi(word, 4, 28, -3).unwrap();
    word = newu(word, 4, 24, 4).unwrap();
    word = newu(word, 4, 20, 1).unwrap();
    word = newu(word, 4, 16, 15).unwrap();
    word = newu(word, 4, 12, 2).unwrap();
    word = newu(word, 4, 8, 6).unwrap();
    word = newi(word, 4, 4, -8).unwrap();
    word = newi(word, 4, 0, -1).unwrap();

    assert_eq!(word, 0xD41F268F);
}

#[test]
fn get_word() {
    let word: u64 = 0xD41F268F;
    assert_eq!(geti(word, 4, 28), -3);
    assert_eq!(getu(word, 4, 24), 4);
    assert_eq!(getu(word, 4, 20), 1);
    assert_eq!(getu(word, 4, 16), 15);
    assert_eq!(getu(word, 4, 12), 2);
    assert_eq!(getu(word, 4, 8), 6);
    assert_eq!(geti(word, 4, 4), -8);
    assert_eq!(geti(word, 4, 0), -1);
}

// the full-word edge case: width 64, lsb 0
#[test]
fn newu_bounds() {
    let mut word: u64 = 0;
    word = newu(word, 64, 0, !0_u64).unwrap();
    assert_eq!(word, !0_u64);
}

#[test]
fn newi_bounds() {
    let mut word: u64 = 0;
    word = newi(word, 64, 0, -1_i64).unwrap();
    assert_eq!(word, !0_u64);
}

#[test]
fn getu_bounds() {
    let word: u64 = !0_u64;
    assert_eq!(getu(word, 64, 0), !0_u64);
}

#[test]
fn geti_bounds() {
    let word: u64 = !0_u64;
    assert_eq!(geti(word, 64, 0), -1_i64);
}

// a write that does not fit is refused and nothing is changed
#[test]
fn new_refuses_unfit_values() {
    assert_eq!(newu(0, 4, 0, 16), None);
    assert_eq!(newu(0xABCD, 4, 0, 15), Some(0xABCF));
    assert_eq!(newi(0, 4, 0, 8), None);
    assert_eq!(newi(0, 4, 0, -9), None);
    assert_eq!(newi(0, 4, 0, 7), Some(7));
    assert_eq!(newi(0, 4, 0, -8), Some(8));
}

// width 1: the narrowest fields
#[test]
fn width_one_fields() {
    assert!(fitsu(1, 1));
    assert!(!fitsu(2, 1));
    assert!(fitsi(0, 1));
    assert!(fitsi(-1, 1));
    assert!(!fitsi(1, 1));
    assert_eq!(newu(0, 1, 63, 1).unwrap(), 0x8000_0000_0000_0000);
    assert_eq!(geti(0x8000_0000_0000_0000, 1, 63), -1);
    assert_eq!(getu(0x8000_0000_0000_0000, 1, 63), 1);
}

// a signed write then read at a high offset round-trips and leaves the rest
#[test]
fn signed_roundtrip_high_offset() {
    let word: u64 = 0x0123_4567_89AB_CDEF;
    for n in -16..=15_i64 {
        let w = newi(word, 5, 59, n).unwrap();
        assert_eq!(geti(w, 5, 59), n);
        // everything below the field is untouched
        assert_eq!(w & 0x07FF_FFFF_FFFF_FFFF, word & 0x07FF_FFFF_FFFF_FFFF);
    }
}

// an unsigned write then read round-trips over every width
#[test]
fn unsigned_roundtrip_all_widths() {
    for width in 1..=63_u64 {
        let top = (1u64 << width) - 1;
        let w = newu(0, width, 0, top).unwrap();
        assert_eq!(getu(w, width, 0), top);
        assert_eq!(newu(0, width, 0, top + 1), None);
    }
}
