//! Facts about single bits of a word and about the path of an index through
//! the layers, each settled by bit-level reasoning.

use vstd::prelude::*;
use crate::util::{has_bit, spec_bits, spec_offset, spec_row, spec_shift, Index, MAX_EID};

verus! {

/// The position of the summary word that stands above word `k` of the layer
/// below.
pub open spec fn parent(k: usize) -> usize {
    k >> spec_bits()
}

/// The bit that stands for word `k` in its summary word.
pub open spec fn slot(k: usize) -> usize {
    k & ((usize::BITS - 1) as usize)
}

/// The word `w` with bit `r` set.
pub open spec fn with_bit(w: usize, r: usize) -> usize {
    w | (1usize << r)
}

/// The word `w` with bit `r` cleared.
pub open spec fn without_bit(w: usize, r: usize) -> usize {
    w & !(1usize << r)
}

/// Setting bit `r` changes bit `r` and no other, and leaves a word that is
/// not zero.
pub proof fn lemma_with_bit(w: usize, r: usize, q: usize)
    by (bit_vector)
    requires
        r < usize::BITS,
        q < usize::BITS,
    ensures
        has_bit(with_bit(w, r), q) == (q == r || has_bit(w, q)),
        with_bit(w, r) != 0,
{
}

/// Clearing bit `r` changes bit `r` and no other.
pub proof fn lemma_without_bit(w: usize, r: usize, q: usize)
    by (bit_vector)
    requires
        r < usize::BITS,
        q < usize::BITS,
    ensures
        has_bit(without_bit(w, r), q) == (q != r && has_bit(w, q)),
{
}

/// The zero word has no bit, and a word with a bit is not zero.
pub proof fn lemma_zero_word(w: usize, r: usize)
    by (bit_vector)
    requires
        r < usize::BITS,
    ensures
        !has_bit(0usize, r),
        has_bit(w, r) ==> w != 0,
{
}

/// Two different words under one summary word stand at different bits of it.
pub proof fn lemma_siblings(k: usize, j: usize)
    by (bit_vector)
    ensures
        slot(k) < usize::BITS,
        parent(k) <= k,
        k != j && parent(k) == parent(j) ==> slot(k) != slot(j),
        k <= j ==> parent(k) <= parent(j),
        k < usize::BITS ==> slot(k) == k,
{
}

/// The offsets and rows of an index are those of a walk up the hierarchy:
/// each offset is the parent of the offset below, and each row is the slot
/// of the offset below.
pub proof fn lemma_path(id: Index)
    by (bit_vector)
    ensures
        spec_offset(id, spec_shift(1)) == parent(id as usize),
        spec_offset(id, spec_shift(2)) == parent(spec_offset(id, spec_shift(1))),
        spec_offset(id, spec_shift(3)) == parent(spec_offset(id, spec_shift(2))),
        spec_row(id, spec_shift(0)) == slot(id as usize),
        spec_row(id, spec_shift(1)) == slot(spec_offset(id, spec_shift(1))),
        spec_row(id, spec_shift(2)) == slot(spec_offset(id, spec_shift(2))),
        spec_row(id, spec_shift(3)) == slot(spec_offset(id, spec_shift(3))),
{
}

/// Two different indices in one ground word stand at different bits of it.
pub proof fn lemma_rows_differ(id: Index, other: Index)
    by (bit_vector)
    requires
        id != other,
        spec_offset(id, spec_shift(1)) == spec_offset(other, spec_shift(1)),
    ensures
        spec_row(id, spec_shift(0)) != spec_row(other, spec_shift(0)),
{
}

/// An index within the limit has offsets within those of the limit, and its
/// top offset is a bit of the top word.
pub proof fn lemma_offsets_in_range(id: Index)
    by (bit_vector)
    requires
        id <= MAX_EID,
    ensures
        spec_offset(id, spec_shift(1)) <= spec_offset(MAX_EID, spec_shift(1)),
        spec_offset(id, spec_shift(2)) <= spec_offset(MAX_EID, spec_shift(2)),
        spec_offset(id, spec_shift(3)) <= spec_offset(MAX_EID, spec_shift(3)),
        spec_offset(MAX_EID, spec_shift(1)) < 0x8000,
        spec_offset(MAX_EID, spec_shift(2)) < 0x400,
        spec_offset(MAX_EID, spec_shift(3)) < usize::BITS,
{
}

/// An index beyond the limit, and a ground word beyond the ground word of
/// the limit, lie under a word of layer 1 beyond that of the limit.
pub proof fn lemma_beyond_limit(id: Index, k: usize)
    by (bit_vector)
    ensures
        id > MAX_EID ==> spec_offset(id, spec_shift(2)) > spec_offset(MAX_EID, spec_shift(2)),
        k > spec_offset(MAX_EID, spec_shift(1)) ==> parent(k) > spec_offset(
            MAX_EID,
            spec_shift(2),
        ),
{
}

/// The bits of an intersection, of a union and of a complement of words, and
/// when a union is zero.
pub proof fn lemma_combined(a: usize, b: usize, r: usize)
    by (bit_vector)
    requires
        r < usize::BITS,
    ensures
        has_bit(a & b, r) == (has_bit(a, r) && has_bit(b, r)),
        has_bit(a | b, r) == (has_bit(a, r) || has_bit(b, r)),
        has_bit(!a, r) == !has_bit(a, r),
        has_bit(!0usize, r),
        (a | b != 0) == (a != 0 || b != 0),
{
}

/// Whether every bit of `m` is a bit of `w`.
pub open spec fn sub_word(m: usize, w: usize) -> bool {
    m & !w == 0
}

/// Whether `m` has no bit at `r` or under it.
pub open spec fn above(m: usize, r: usize) -> bool {
    m & !((!0usize << r) << 1) == 0
}

/// Whether `m` has no bit under `r`.
pub open spec fn not_under(m: usize, r: usize) -> bool {
    m & !(!0usize << r) == 0
}

/// Whether the row of `q` under the ground shift is zero.
pub open spec fn aligned(q: Index) -> bool {
    q & ((usize::BITS - 1) as u32) == 0
}

/// The bits of a word that lies within another are bits of the other, and
/// stand where the first says it has bits.
pub proof fn lemma_sub_word(m: usize, w: usize, r: usize, t: usize)
    by (bit_vector)
    requires
        r < usize::BITS,
        t < usize::BITS,
    ensures
        sub_word(m, m),
        sub_word(m, w) && has_bit(m, r) ==> has_bit(w, r),
        sub_word(m, w) ==> sub_word(without_bit(m, t), w),
        above(m, t) && has_bit(m, r) ==> r > t,
        not_under(m, t) && has_bit(m, r) ==> r >= t,
        not_under(m, t) ==> above(without_bit(m, t), t),
        above(m, t) ==> above(without_bit(m, r), t),
        has_bit(m, t) ==> without_bit(m, t) < m,
{
}

/// The number of trailing zeros of a word that is not zero, counted in its
/// 64-bit form, is the place of its lowest bit.
pub proof fn lemma_lowest(w: usize, t: u32)
    by (bit_vector)
    requires
        t < 64,
        ((w as u64) >> (t as u64)) & 1u64 == 1u64,
        (w as u64) << ((64 - t) as u64) == 0,
    ensures
        t < usize::BITS,
        has_bit(w, t as usize),
        not_under(w, t as usize),
{
}

/// Joining an aligned prefix and a bit gives the position whose parent is
/// the cursor of the prefix and whose slot is the bit. Shifted by the width
/// of a row it is an aligned prefix whose cursor is that position.
pub proof fn lemma_join(q: Index, bit: u32)
    by (bit_vector)
    requires
        aligned(q),
        bit < usize::BITS,
        q < 0x4_0000,
    ensures
        parent((q | bit) as usize) == spec_offset(q, spec_shift(1)),
        slot((q | bit) as usize) == bit,
        aligned((q | bit) << spec_bits()),
        spec_offset((q | bit) << spec_bits(), spec_shift(1)) == (q | bit) as usize,
{
}

/// An aligned prefix is below the width of a word, squared, if its cursor
/// is below the width, and below the width cubed if the parent of its
/// cursor is below the width.
pub proof fn lemma_prefix_bound(q: Index, bit: u32)
    by (bit_vector)
    requires
        bit < usize::BITS,
    ensures
        aligned(bit << spec_bits()),
        spec_offset(bit << spec_bits(), spec_shift(1)) == bit as usize,
        spec_offset(q, spec_shift(1)) < usize::BITS ==> q < 0x1000,
        parent(spec_offset(q, spec_shift(1))) < usize::BITS ==> q < 0x4_0000,
        aligned(0u32),
{
}

/// An index made of an aligned prefix and a bit lies in the word at the
/// cursor of the prefix, at that bit.
pub proof fn lemma_index(q: Index, bit: u32)
    by (bit_vector)
    requires
        aligned(q),
        bit < usize::BITS,
    ensures
        spec_offset(q | bit, spec_shift(1)) == spec_offset(q, spec_shift(1)),
        spec_row(q | bit, spec_shift(0)) == bit,
{
}

/// Indices are ordered as their paths through the layers are: by the top
/// row first and by the ground row last.
pub proof fn lemma_order(j: Index, id: Index)
    by (bit_vector)
    ensures
        spec_offset(j, spec_shift(1)) == spec_offset(id, spec_shift(1)) && spec_row(
            j,
            spec_shift(0),
        ) >= spec_row(id, spec_shift(0)) ==> j >= id,
        spec_offset(j, spec_shift(2)) == spec_offset(id, spec_shift(2)) && spec_row(
            j,
            spec_shift(1),
        ) > spec_row(id, spec_shift(1)) ==> j > id,
        spec_offset(j, spec_shift(3)) == spec_offset(id, spec_shift(3)) && spec_row(
            j,
            spec_shift(2),
        ) > spec_row(id, spec_shift(2)) ==> j > id,
        spec_offset(j, spec_shift(3)) < usize::BITS && spec_offset(id, spec_shift(3))
            < usize::BITS && spec_row(j, spec_shift(3)) > spec_row(id, spec_shift(3)) ==> j > id,
{
}

} // verus!
