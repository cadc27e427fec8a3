use rpeg::codec::{block_count, block_top_left, even_floor, pack, unpack};

// the six fields land at their documented positions
#[test]
fn pack_exact_layout() {
    // a = 511 at (9,23); b = -15, c = 15, d = -1 at (5,18), (5,13), (5,8);
    // pb = 0 at (4,4); pr = 15 at (4,0)
    let word = pack(511, -15, 15, -1, 0, 15);
    assert_eq!(word, 0xFFC5_FF0F);
}

#[test]
fn pack_then_unpack_returns_the_values() {
    let word = pack(300, -3, 4, -16, 15, 0);
    assert_eq!(unpack(word), (300, -3, 4, -16, 15, 0));
    let word = pack(0, 15, -16, 0, 0, 0);
    assert_eq!(unpack(word), (0, 15, -16, 0, 0, 0));
    let word = pack(511, -1, -1, -1, 15, 15);
    assert_eq!(unpack(word), (511, -1, -1, -1, 15, 15));
}

#[test]
fn unpack_of_zero_word() {
    assert_eq!(unpack(0), (0, 0, 0, 0, 0, 0));
}

#[test]
fn pack_stays_in_32_bits() {
    assert!(pack(511, -16, -16, -16, 15, 15) <= u32::MAX as u64);
}

#[test]
fn even_floor_drops_an_odd_edge() {
    assert_eq!(even_floor(0), 0);
    assert_eq!(even_floor(1), 0);
    assert_eq!(even_floor(4), 4);
    assert_eq!(even_floor(5), 4);
    assert_eq!(even_floor(u32::MAX), u32::MAX - 1);
}

#[test]
fn block_count_quarters_the_pixels() {
    assert_eq!(block_count(2, 2), 1);
    assert_eq!(block_count(4, 6), 6);
    assert_eq!(block_count(640, 480), 76800);
}

#[test]
fn block_top_left_walks_row_major() {
    // a 4x4 image has four blocks with top-left corners 0, 2, 8, 10
    assert_eq!(block_top_left(0, 4, 4, 4), 0);
    assert_eq!(block_top_left(1, 4, 4, 4), 2);
    assert_eq!(block_top_left(2, 4, 4, 4), 8);
    assert_eq!(block_top_left(3, 4, 4, 4), 10);
    // a 6x2 image has three blocks, all in one row
    assert_eq!(block_top_left(0, 6, 2, 6), 0);
    assert_eq!(block_top_left(1, 6, 2, 6), 2);
    assert_eq!(block_top_left(2, 6, 2, 6), 4);
}

#[test]
fn block_top_left_skips_a_dropped_column() {
    // a 5-wide buffer truncated to width 4: rows of the buffer stay 5 long,
    // so the second block row starts at pixel 10
    assert_eq!(block_top_left(0, 4, 4, 5), 0);
    assert_eq!(block_top_left(1, 4, 4, 5), 2);
    assert_eq!(block_top_left(2, 4, 4, 5), 10);
    assert_eq!(block_top_left(3, 4, 4, 5), 12);
}
