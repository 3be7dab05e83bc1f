//! Index arithmetic: where an index lives in each layer of the hierarchy.
//!
//! A layer is addressed by the number of bits its rows are shifted by:
//! `shift(0)` for the ground layer up to `shift(3)` for the top word. For an
//! index `id`, `row(id, shift(n))` is the bit that stands for `id` in its word
//! of layer `n`, and `offset(id, shift(n + 1))` is the position of that word.

use vstd::prelude::*;

verus! {

/// A member of a bit set.
pub type Index = u32;

/// The number of layers of the hierarchy.
pub const LAYERS: usize = 4;

/// The largest index an owned or atomic set can hold.
pub const MAX_EID: Index = 0xF_FFFF;

/// Base-two logarithm of the width of a machine word.
pub open spec fn spec_bits() -> usize {
    if usize::BITS == 64 {
        6
    } else {
        5
    }
}

/// Base-two logarithm of the width of a machine word: 6 for 64-bit words, 5
/// for 32-bit words.
#[verifier::when_used_as_spec(spec_bits)]
pub fn bits() -> (b: usize)
    ensures
        b == spec_bits(),
{
    if usize::BITS == 64 {
        6
    } else {
        5
    }
}

/// The width of a machine word in bits.
pub fn width() -> (w: usize)
    ensures
        w == usize::BITS,
{
    usize::BITS as usize
}

/// The shift that addresses layer `layer`.
pub open spec fn spec_shift(layer: usize) -> usize {
    (layer * spec_bits()) as usize
}

/// The shift that addresses layer `layer`: `layer` times `bits()`.
#[verifier::when_used_as_spec(spec_shift)]
pub fn shift(layer: usize) -> (s: usize)
    requires
        layer < LAYERS,
    ensures
        s == spec_shift(layer),
        s <= 18,
{
    layer * bits()
}

/// Whether bit `r` of the word `w` is set.
pub open spec fn has_bit(w: usize, r: usize) -> bool {
    w & (1usize << r) != 0
}

/// The row of `id` under `shift`, as a number below the word width.
pub open spec fn spec_row(id: Index, shift: usize) -> usize {
    ((id >> shift) as usize) & ((usize::BITS - 1) as usize)
}

/// The row of `id` under `shift`: the bit that stands for `id` in a word of
/// the layer that `shift` addresses.
#[verifier::when_used_as_spec(spec_row)]
pub fn row(id: Index, shift: usize) -> (r: usize)
    requires
        shift < 32,
    ensures
        r == spec_row(id, shift),
        r < usize::BITS,
{
    proof {
        lemma_row_is_small(id, shift);
    }
    ((id >> shift) as usize) & ((usize::BITS - 1) as usize)
}

/// The offset of `id` under `shift`.
pub open spec fn spec_offset(id: Index, shift: usize) -> usize {
    (id >> shift) as usize
}

/// The offset of `id` under `shift`: the position of the word that holds
/// `id` in the layer below the one that `shift` addresses.
#[verifier::when_used_as_spec(spec_offset)]
pub fn offset(id: Index, shift: usize) -> (p: usize)
    requires
        shift < 32,
    ensures
        p == spec_offset(id, shift),
{
    (id >> shift) as usize
}

/// The mask of `id` under `shift`.
pub open spec fn spec_mask(id: Index, shift: usize) -> usize {
    1usize << spec_row(id, shift)
}

/// The mask of `id` under `shift`: the word with only the bit
/// `row(id, shift)` set.
#[verifier::when_used_as_spec(spec_mask)]
pub fn mask(id: Index, shift: usize) -> (m: usize)
    requires
        shift < 32,
    ensures
        m == spec_mask(id, shift),
        m != 0,
{
    let r = row(id, shift);
    proof {
        lemma_single_bit(r);
    }
    1usize << r
}

/// The positions of the words that hold `id` in layers 0, 1 and 2.
pub open spec fn spec_offsets(id: Index) -> (usize, usize, usize) {
    (spec_offset(id, spec_shift(1)), spec_offset(id, spec_shift(2)), spec_offset(id, spec_shift(3)))
}

/// The positions of the words that hold `id` in layers 0, 1 and 2.
#[verifier::when_used_as_spec(spec_offsets)]
pub fn offsets(id: Index) -> (p: (usize, usize, usize))
    ensures
        p == spec_offsets(id),
{
    (offset(id, shift(1)), offset(id, shift(2)), offset(id, shift(3)))
}

/// Whether bit `row(id, shift)` of the word `w` is set: whether `w` holds
/// the bit that stands for `id` in the layer that `shift` addresses.
pub fn holds(w: usize, id: Index, shift: usize) -> (r: bool)
    requires
        shift < 32,
    ensures
        r == has_bit(w, spec_row(id, shift)),
{
    w & mask(id, shift) != 0
}

/// Whether the word `w` is zero but for bit `row(id, shift)`: whether
/// clearing the bit that stands for `id` leaves, or has left, `w` empty.
pub fn only_holds(w: usize, id: Index, shift: usize) -> (r: bool)
    requires
        shift < 32,
    ensures
        r == (w & !spec_mask(id, shift) == 0),
{
    w & !mask(id, shift) == 0
}

/// The position of the summary word above word `k`, and the bit of it that
/// stands for word `k`.
pub fn above_word(k: usize) -> (p: (usize, usize))
    ensures
        p.0 == k >> spec_bits(),
        p.1 == k & ((usize::BITS - 1) as usize),
        p.1 < usize::BITS,
{
    let r = k & ((usize::BITS - 1) as usize);
    proof {
        lemma_slot_is_small(k);
    }
    (k >> bits(), r)
}

/// The low bits of a position are a bit position of a word.
pub proof fn lemma_slot_is_small(k: usize)
    by (bit_vector)
    ensures
        k & ((usize::BITS - 1) as usize) < usize::BITS,
{
}

/// A row is a bit position of a word.
pub proof fn lemma_row_is_small(id: Index, shift: usize)
    by (bit_vector)
    ensures
        spec_row(id, shift) < usize::BITS,
{
}

/// A word with one bit set is not zero, and holds that bit and no other.
pub proof fn lemma_single_bit(r: usize)
    by (bit_vector)
    requires
        r < usize::BITS,
    ensures
        1usize << r != 0,
        has_bit(1usize << r, r),
{
}

} // verus!
