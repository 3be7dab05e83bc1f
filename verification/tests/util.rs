use hibitset::iter::{lowest_bit, BitIter};
use hibitset::util::{bits, mask, offset, offsets, row, shift, width, LAYERS, MAX_EID};
use hibitset::{BitSet, BitSetLike};

#[test]
fn bits_is_the_logarithm_of_the_word_width() {
    assert_eq!(1u32 << bits(), usize::BITS);
    assert_eq!(width(), usize::BITS as usize);
    assert_eq!(LAYERS, 4);
    assert_eq!(MAX_EID, (1 << 20) - 1);
}

#[test]
fn shifts_are_multiples_of_bits() {
    assert_eq!(shift(0), 0);
    assert_eq!(shift(1), bits());
    assert_eq!(shift(2), 2 * bits());
    assert_eq!(shift(3), 3 * bits());
}

#[test]
fn offset_is_a_right_shift() {
    assert_eq!(offset(1_000, 0), 1_000);
    assert_eq!(offset(1_000, 5), 31);
    assert_eq!(offset(1_000, 6), 15);
    assert_eq!(offset(0xF_FFFF, 18), 3);
    assert_eq!(offset(0xF_FFFF, 15), 31);
    assert_eq!(offset(u32::MAX, 31), 1);
}

#[test]
fn row_is_the_bit_within_the_word() {
    let w = usize::BITS as usize;
    assert_eq!(row(1_000, 0), 1_000 % w);
    assert_eq!(row(1_000, shift(1)), (1_000 / w) % w);
    assert_eq!(row(1_000_000, shift(2)), (1_000_000 / w / w) % w);
    assert_eq!(row(1_000_000, shift(3)), (1_000_000 / w / w / w) % w);
    assert_eq!(row(0, 0), 0);
    assert_eq!(row(u32::MAX, 0), w - 1);
}

#[test]
fn mask_has_the_one_bit_of_the_row() {
    assert_eq!(mask(0, 0), 1);
    assert_eq!(mask(5, 0), 32);
    assert_eq!(mask(31, 0), 1 << 31);
    assert_eq!(mask(1_000, shift(1)), 1 << row(1_000, shift(1)));
    assert_eq!(mask(1_000_000, shift(3)).count_ones(), 1);
}

#[test]
fn offsets_are_the_three_word_positions() {
    let w = usize::BITS as usize;
    let id = 777_777u32;
    let i = id as usize;
    assert_eq!(offsets(id), (i / w, i / w / w, i / w / w / w));
    assert_eq!(offsets(0), (0, 0, 0));
    if usize::BITS == 64 {
        assert_eq!(offsets(1_000_000), (15_625, 244, 3));
    } else {
        assert_eq!(offsets(1_000_000), (31_250, 976, 30));
    }
}

#[test]
fn lowest_bit_finds_the_least_set_bit() {
    assert_eq!(lowest_bit(1), 0);
    assert_eq!(lowest_bit(0b1010_0000), 5);
    assert_eq!(lowest_bit(usize::MAX), 0);
    assert_eq!(lowest_bit(1 << (usize::BITS - 1)), usize::BITS - 1);
}

#[test]
fn iterator_built_by_hand_like_iter() {
    let mut c = BitSet::new();
    c.add(64);
    c.add(65);
    c.add(200_000);
    let top = BitSetLike::layer3(&c);
    let mut it = BitIter::new(&c, [0, 0, 0, top], [0, 0, 0]);
    assert_eq!(it.next(), Some(64));
    assert_eq!(it.next(), Some(65));
    assert_eq!(it.next(), Some(200_000));
    assert_eq!(it.next(), None);
}
