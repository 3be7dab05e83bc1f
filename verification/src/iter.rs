//! Iteration over the indices of a layered bit set.
//!
//! The iterator walks down the layers. For each layer it caches the word it
//! is in, with the bits it has already passed cleared, and keeps a cursor
//! that tells which word that is. A word of the ground layer is only read
//! when its summary bits say that it is not zero.

use vstd::prelude::*;
use crate::bits::{
    above, aligned, lemma_index, lemma_join, lemma_lowest, lemma_order, lemma_path,
    lemma_prefix_bound, lemma_rows_differ, lemma_siblings, lemma_sub_word, lemma_without_bit,
    lemma_zero_word, not_under, parent, slot, sub_word, without_bit,
};
use crate::util::{bits, has_bit, spec_bits, spec_offset, spec_row, spec_shift, Index};
use crate::{members, visible, BitSetLike};

verus! {

/// An iterator over the indices of a layered bit set, in ascending order.
pub struct BitIter<T> {
    set: T,
    masks: [usize; 4],
    prefix: [u32; 3],
}

/// The place of the lowest bit of a word that is not zero.
pub fn lowest_bit(w: usize) -> (t: u32)
    requires
        w != 0,
    ensures
        t < usize::BITS,
        has_bit(w, t as usize),
        not_under(w, t as usize),
{
    let t = (w as u64).trailing_zeros();
    proof {
        vstd::std_specs::bits::axiom_u64_trailing_zeros(w as u64);
        lemma_lowest(w, t);
    }
    t
}

impl<T> BitIter<T> {
    /// The set that is iterated.
    pub closed spec fn source(&self) -> T {
        self.set
    }

    /// The cached words, from the ground layer up to the top layer, each
    /// without the bits that the iterator has passed.
    pub closed spec fn masks(&self) -> Seq<usize> {
        self.masks@
    }

    /// The prefixes of layers 0, 1 and 2: the position of the cached word of
    /// the layer, shifted by the width of a row.
    pub closed spec fn prefix(&self) -> Seq<Index> {
        self.prefix@
    }

    /// The position of the cached word of layer `layer` (0, 1 or 2).
    pub open spec fn cursor(&self, layer: int) -> usize {
        spec_offset(self.prefix()[layer], spec_shift(1))
    }

    /// Whether the walk has yet to come to `id`: a cached word holds a bit
    /// on the path of `id`, in the word that the path goes through.
    pub open spec fn pending(&self, id: Index) -> bool {
        ||| self.masks()[0] != 0 && spec_offset(id, spec_shift(1)) == self.cursor(0) && has_bit(
            self.masks()[0],
            spec_row(id, spec_shift(0)),
        )
        ||| self.masks()[1] != 0 && spec_offset(id, spec_shift(2)) == self.cursor(1) && has_bit(
            self.masks()[1],
            spec_row(id, spec_shift(1)),
        )
        ||| self.masks()[2] != 0 && spec_offset(id, spec_shift(3)) == self.cursor(2) && has_bit(
            self.masks()[2],
            spec_row(id, spec_shift(2)),
        )
        ||| has_bit(self.masks()[3], spec_row(id, spec_shift(3)))
    }

    /// Whether the iterator is at its start: the cursors are zero and no
    /// word below the top word is cached.
    pub open spec fn fresh(&self) -> bool {
        &&& self.prefix().len() == 3
        &&& self.prefix()[0] == 0 && self.prefix()[1] == 0 && self.prefix()[2] == 0
        &&& self.masks().len() == 4
        &&& self.masks()[0] == 0 && self.masks()[1] == 0 && self.masks()[2] == 0
    }

    /// An iterator over `set` in the state that `masks` and `prefix` give.
    pub fn new(set: T, masks: [usize; 4], prefix: [u32; 3]) -> (it: BitIter<T>)
        ensures
            it.source() == set,
            it.masks() == masks@,
            it.prefix() == prefix@,
    {
        BitIter { set, masks, prefix }
    }
}

impl<T: BitSetLike> BitIter<T> {
    /// The indices that the iterator has yet to yield: the members of the
    /// source that the walk has yet to come to.
    pub open spec fn remaining(&self) -> Set<Index> {
        Set::new(|id: Index| visible(&self.source(), id) && self.pending(id))
    }

    /// Whether the cached word of layer `layer` lies within the word of the
    /// source at the cursor, the cursor continues the cursor of the layer
    /// above, and the cached word above has no bit left at the slot of the
    /// cursor or under it.
    pub open spec fn settled(&self, layer: int) -> bool {
        let s = self.source();
        let m = self.masks();
        if layer == 2 {
            &&& aligned(self.prefix()[2])
            &&& self.cursor(2) < usize::BITS
            &&& sub_word(m[2], s.layer2_word(self.cursor(2)))
            &&& above(m[3], self.cursor(2))
            &&& has_bit(s.layer3_word(), self.cursor(2))
        } else if layer == 1 {
            &&& aligned(self.prefix()[1])
            &&& parent(self.cursor(1)) == self.cursor(2)
            &&& sub_word(m[1], s.layer1_word(self.cursor(1)))
            &&& above(m[2], slot(self.cursor(1)))
            &&& has_bit(s.layer2_word(self.cursor(2)), slot(self.cursor(1)))
        } else {
            &&& aligned(self.prefix()[0])
            &&& parent(self.cursor(0)) == self.cursor(1)
            &&& sub_word(m[0], s.layer0_word(self.cursor(0)))
            &&& above(m[1], slot(self.cursor(0)))
            &&& has_bit(s.layer1_word(self.cursor(1)), slot(self.cursor(0)))
        }
    }

    /// Whether the state of the iterator is that of a walk down the layers
    /// of a steady source: every layer that still matters is settled. Of a
    /// source that is not steady nothing is asked.
    pub open spec fn wf(&self) -> bool {
        let m = self.masks();
        &&& m.len() == 4
        &&& self.prefix().len() == 3
        &&& self.source().steady() ==> {
            &&& sub_word(m[3], self.source().layer3_word())
            &&& m[2] != 0 || m[1] != 0 || m[0] != 0 ==> self.settled(2)
            &&& m[1] != 0 || m[0] != 0 ==> self.settled(1)
            &&& m[0] != 0 ==> self.settled(0)
        }
    }

    /// An iterator at its start, with the top word of its source cached, is
    /// well formed and has yet to yield every member of its source.
    pub proof fn lemma_fresh(&self)
        requires
            self.fresh(),
            self.source().steady() ==> self.masks()[3] == self.source().layer3_word(),
        ensures
            self.wf(),
            self.source().steady() ==> self.remaining() == members(&self.source()),
    {
        lemma_sub_word(self.masks()[3], self.masks()[3], 0, 0);
        if self.source().steady() {
            assert(self.remaining() =~= members(&self.source()));
        }
    }

    /// Yields the least index that is left, or `None` when none is left.
    pub fn next(&mut self) -> (r: Option<Index>)
        requires
            old(self).wf(),
        ensures
            final(self).wf(),
            final(self).source() == old(self).source(),
            old(self).source().steady() ==> match r {
                Some(id) => {
                    &&& old(self).remaining().contains(id)
                    &&& forall|j: Index| old(self).remaining().contains(j) ==> id <= j
                    &&& final(self).remaining() == old(self).remaining().remove(id)
                },
                None => {
                    &&& old(self).remaining() == Set::<Index>::empty()
                    &&& final(self).remaining() == Set::<Index>::empty()
                },
            },
    {
        loop
            invariant
                self.wf(),
                self.source() == old(self).source(),
                self.source().steady() ==> self.remaining() == old(self).remaining(),
            decreases self.masks[3], self.masks[2], self.masks[1], self.masks[0],
        {
            let ghost pre = *self;
            if self.masks[0] != 0 {
                let bit = lowest_bit(self.masks[0]);
                self.masks[0] &= !(1usize << bit);
                let id = self.prefix[0] | bit;
                proof {
                    pre.lemma_yield(*self, bit);
                }
                return Some(id);
            } else if self.masks[1] != 0 {
                let bit = lowest_bit(self.masks[1]);
                self.masks[1] &= !(1usize << bit);
                let idx = self.prefix[1] | bit;
                self.masks[0] = self.set.layer0(idx as usize);
                self.prefix[0] = idx << bits();
                proof {
                    lemma_sub_word(pre.masks[1], 0, bit as usize, bit as usize);
                    pre.lemma_descend_1(*self, bit);
                }
            } else if self.masks[2] != 0 {
                let bit = lowest_bit(self.masks[2]);
                self.masks[2] &= !(1usize << bit);
                let idx = self.prefix[2] | bit;
                self.masks[1] = self.set.layer1(idx as usize);
                self.prefix[1] = idx << bits();
                proof {
                    lemma_sub_word(pre.masks[2], 0, bit as usize, bit as usize);
                    pre.lemma_descend_2(*self, bit);
                }
            } else if self.masks[3] != 0 {
                let bit = lowest_bit(self.masks[3]);
                self.masks[3] &= !(1usize << bit);
                self.masks[2] = self.set.layer2(bit as usize);
                self.prefix[2] = bit << bits();
                proof {
                    lemma_sub_word(pre.masks[3], 0, bit as usize, bit as usize);
                    pre.lemma_descend_3(*self, bit);
                }
            } else {
                proof {
                    pre.lemma_done();
                }
                return None;
            }
        }
    }

    /// Yields up to `limit` indices: the least that are left, in ascending
    /// order, and all that are left if they are fewer than `limit`.
    pub fn take(&mut self, limit: usize) -> (out: Vec<Index>)
        requires
            old(self).wf(),
        ensures
            final(self).wf(),
            final(self).source() == old(self).source(),
            out@.len() <= limit,
            old(self).source().steady() ==> {
                &&& forall|i: int, j: int| 0 <= i < j < out@.len() ==> out@[i] < out@[j]
                &&& old(self).remaining() == final(self).remaining().union(out@.to_set())
                &&& forall|i: int, x: Index|
                    0 <= i < out@.len() && final(self).remaining().contains(x) ==> out@[i] < x
                &&& out@.len() < limit ==> final(self).remaining() == Set::<Index>::empty()
            },
    {
        let mut out: Vec<Index> = Vec::new();
        proof {
            assert(out@.to_set() =~= Set::<Index>::empty());
            assert(self.remaining() =~= self.remaining().union(out@.to_set()));
        }
        while out.len() < limit
            invariant
                self.wf(),
                self.source() == old(self).source(),
                out@.len() <= limit,
                self.source().steady() ==> {
                    &&& forall|i: int, j: int| 0 <= i < j < out@.len() ==> out@[i] < out@[j]
                    &&& old(self).remaining() == self.remaining().union(out@.to_set())
                    &&& forall|i: int, x: Index|
                        0 <= i < out@.len() && self.remaining().contains(x) ==> out@[i] < x
                },
            decreases limit - out@.len(),
        {
            let ghost before = *self;
            let ghost got = out@;
            match self.next() {
                Some(id) => {
                    out.push(id);
                    proof {
                        if self.source().steady() {
                            got.lemma_push_to_set_commute(id);
                            assert(before.remaining() =~= self.remaining().insert(id));
                            assert(old(self).remaining() =~= self.remaining().union(
                                out@.to_set(),
                            ));
                        }
                    }
                },
                None => {
                    return out;
                },
            }
        }
        out
    }

    /// With every cached word zero, nothing is left.
    proof fn lemma_done(&self)
        requires
            self.wf(),
            self.masks[0] == 0 && self.masks[1] == 0 && self.masks[2] == 0 && self.masks[3] == 0,
        ensures
            self.remaining() == Set::<Index>::empty(),
    {
        assert forall|id: Index| !self.pending(id) by {
            crate::util::lemma_row_is_small(id, spec_shift(3));
            lemma_zero_word(0, spec_row(id, spec_shift(3)));
        }
        assert(self.remaining() =~= Set::<Index>::empty());
    }

    /// Taking the lowest bit out of the cached ground word yields the least
    /// index that was left, and leaves the others.
    proof fn lemma_yield(&self, after: Self, bit: u32)
        requires
            self.wf(),
            self.masks[0] != 0,
            bit < usize::BITS,
            has_bit(self.masks[0], bit as usize),
            not_under(self.masks[0], bit as usize),
            after.set == self.set,
            after.prefix == self.prefix,
            after.masks@ == self.masks@.update(0, without_bit(self.masks[0], bit as usize)),
        ensures
            after.wf(),
            self.set.steady() ==> {
                &&& self.remaining().contains(self.prefix[0] | bit)
                &&& forall|j: Index| self.remaining().contains(j) ==> (self.prefix[0] | bit) <= j
                &&& after.remaining() == self.remaining().remove(self.prefix[0] | bit)
            },
    {
        let id = self.prefix[0] | bit;
        let b = bit as usize;
        let m = self.masks@;
        if self.set.steady() {
            lemma_index(self.prefix[0], bit);
            lemma_path(id);
            lemma_siblings(self.cursor(2), self.cursor(2));
            lemma_sub_word(m[0], self.set.layer0_word(self.cursor(0)), b, b);
            lemma_sub_word(m[1], m[1], b, b);
            lemma_sub_word(m[2], m[2], b, b);
            assert(visible(&self.set, id));
            assert(self.pending(id));
            assert forall|j: Index| self.remaining().contains(j) implies id <= j by {
                self.lemma_ahead(j, id, bit);
            }
            assert forall|j: Index|
                after.remaining().contains(j) == (j != id && self.remaining().contains(j)) by {
                self.lemma_ahead(j, id, bit);
                crate::util::lemma_row_is_small(j, spec_shift(0));
                lemma_without_bit(m[0], b, spec_row(j, spec_shift(0)));
                lemma_zero_word(after.masks@[0], spec_row(j, spec_shift(0)));
                if j != id && spec_offset(j, spec_shift(1)) == self.cursor(0) {
                    lemma_rows_differ(j, id);
                }
            }
            assert(after.remaining() =~= self.remaining().remove(id));
        }
    }

    /// Every index that is left beside the one at the lowest bit of the
    /// cached ground word is greater than that one.
    proof fn lemma_ahead(&self, j: Index, id: Index, bit: u32)
        requires
            self.wf(),
            self.set.steady(),
            self.masks[0] != 0,
            bit < usize::BITS,
            not_under(self.masks[0], bit as usize),
            id == self.prefix[0] | bit,
        ensures
            visible(&self.set, j) && self.pending(j) ==> id <= j,
            visible(&self.set, j) && self.pending(j) && j != id ==> {
                ||| spec_offset(j, spec_shift(1)) != self.cursor(0)
                ||| spec_row(j, spec_shift(0)) != bit
            },
            spec_offset(j, spec_shift(1)) == self.cursor(0) ==> (spec_row(j, spec_shift(0)) == bit
                <==> j == id),
            self.masks[1] != 0 && spec_offset(j, spec_shift(2)) == self.cursor(1) && has_bit(
                self.masks[1],
                spec_row(j, spec_shift(1)),
            ) ==> j > id,
            self.masks[2] != 0 && spec_offset(j, spec_shift(3)) == self.cursor(2) && has_bit(
                self.masks[2],
                spec_row(j, spec_shift(2)),
            ) ==> j > id,
            visible(&self.set, j) && has_bit(self.masks[3], spec_row(j, spec_shift(3))) ==> j > id,
    {
        let m = self.masks@;
        lemma_index(self.prefix[0], bit);
        lemma_path(id);
        lemma_path(j);
        lemma_order(j, id);
        lemma_siblings(self.cursor(2), self.cursor(2));
        lemma_siblings(self.cursor(1), self.cursor(1));
        lemma_siblings(self.cursor(0), self.cursor(0));
        crate::util::lemma_row_is_small(j, spec_shift(0));
        crate::util::lemma_row_is_small(j, spec_shift(1));
        crate::util::lemma_row_is_small(j, spec_shift(2));
        crate::util::lemma_row_is_small(j, spec_shift(3));
        lemma_sub_word(m[0], m[0], spec_row(j, spec_shift(0)), bit as usize);
        lemma_sub_word(m[1], m[1], spec_row(j, spec_shift(1)), slot(self.cursor(0)));
        lemma_sub_word(m[2], m[2], spec_row(j, spec_shift(2)), slot(self.cursor(1)));
        lemma_sub_word(m[3], m[3], spec_row(j, spec_shift(3)), self.cursor(2));
        if j != id && spec_offset(j, spec_shift(1)) == self.cursor(0) {
            lemma_rows_differ(j, id);
        }
    }

    /// Going down from layer 1 to the ground word under its lowest bit
    /// leaves the same indices to yield.
    proof fn lemma_descend_1(&self, after: Self, bit: u32)
        requires
            self.wf(),
            self.masks[0] == 0,
            self.masks[1] != 0,
            bit < usize::BITS,
            has_bit(self.masks[1], bit as usize),
            not_under(self.masks[1], bit as usize),
            after.set == self.set,
            after.masks@.len() == 4,
            after.masks@[1] == without_bit(self.masks[1], bit as usize),
            after.masks@[2] == self.masks[2],
            after.masks@[3] == self.masks[3],
            self.set.steady() ==> after.masks@[0] == self.set.layer0_word(
                (self.prefix[1] | bit) as usize,
            ),
            after.prefix@ == self.prefix@.update(0, (self.prefix[1] | bit) << spec_bits()),
        ensures
            after.wf(),
            self.set.steady() ==> after.remaining() == self.remaining(),
    {
        let b = bit as usize;
        let m = self.masks@;
        let idx = (self.prefix[1] | bit) as usize;
        if self.set.steady() {
            lemma_siblings(self.cursor(2), self.cursor(2));
            lemma_prefix_bound(self.prefix[1], bit);
            lemma_join(self.prefix[1], bit);
            lemma_sub_word(m[1], self.set.layer1_word(self.cursor(1)), b, b);
            lemma_sub_word(m[2], m[2], b, b);
            lemma_sub_word(after.masks@[0], after.masks@[0], b, b);
            assert(after.cursor(0) == idx);
            assert(after.cursor(1) == self.cursor(1));
            assert(after.cursor(2) == self.cursor(2));
            assert(after.wf());
            assert forall|j: Index|
                (visible(&after.set, j) && after.pending(j)) == (visible(&self.set, j)
                    && self.pending(j)) by {
                lemma_path(j);
                crate::util::lemma_row_is_small(j, spec_shift(0));
                crate::util::lemma_row_is_small(j, spec_shift(1));
                lemma_siblings(spec_offset(j, spec_shift(1)), idx);
                lemma_without_bit(m[1], b, spec_row(j, spec_shift(1)));
                lemma_zero_word(after.masks@[1], spec_row(j, spec_shift(1)));
                lemma_zero_word(after.masks@[0], spec_row(j, spec_shift(0)));
            }
            assert(after.remaining() =~= self.remaining());
        }
    }

    /// Going down from layer 2 to the word of layer 1 under its lowest bit
    /// leaves the same indices to yield.
    proof fn lemma_descend_2(&self, after: Self, bit: u32)
        requires
            self.wf(),
            self.masks[0] == 0,
            self.masks[1] == 0,
            self.masks[2] != 0,
            bit < usize::BITS,
            has_bit(self.masks[2], bit as usize),
            not_under(self.masks[2], bit as usize),
            after.set == self.set,
            after.masks@.len() == 4,
            after.masks@[0] == 0,
            after.masks@[2] == without_bit(self.masks[2], bit as usize),
            after.masks@[3] == self.masks[3],
            self.set.steady() ==> after.masks@[1] == self.set.layer1_word(
                (self.prefix[2] | bit) as usize,
            ),
            after.prefix@ == self.prefix@.update(1, (self.prefix[2] | bit) << spec_bits()),
        ensures
            after.wf(),
            self.set.steady() ==> after.remaining() == self.remaining(),
    {
        let b = bit as usize;
        let m = self.masks@;
        let idx = (self.prefix[2] | bit) as usize;
        if self.set.steady() {
            lemma_prefix_bound(self.prefix[2], bit);
            lemma_join(self.prefix[2], bit);
            lemma_sub_word(m[2], self.set.layer2_word(self.cursor(2)), b, b);
            lemma_sub_word(m[3], m[3], b, b);
            lemma_sub_word(after.masks@[1], after.masks@[1], b, b);
            assert(after.cursor(1) == idx);
            assert(after.cursor(2) == self.cursor(2));
            assert(after.wf());
            assert forall|j: Index|
                (visible(&after.set, j) && after.pending(j)) == (visible(&self.set, j)
                    && self.pending(j)) by {
                lemma_path(j);
                crate::util::lemma_row_is_small(j, spec_shift(1));
                crate::util::lemma_row_is_small(j, spec_shift(2));
                lemma_siblings(spec_offset(j, spec_shift(2)), idx);
                lemma_without_bit(m[2], b, spec_row(j, spec_shift(2)));
                lemma_zero_word(after.masks@[2], spec_row(j, spec_shift(2)));
                lemma_zero_word(after.masks@[1], spec_row(j, spec_shift(1)));
            }
            assert(after.remaining() =~= self.remaining());
        }
    }

    /// Going down from the top word to the word of layer 2 under its lowest
    /// bit leaves the same indices to yield.
    proof fn lemma_descend_3(&self, after: Self, bit: u32)
        requires
            self.wf(),
            self.masks[0] == 0,
            self.masks[1] == 0,
            self.masks[2] == 0,
            self.masks[3] != 0,
            bit < usize::BITS,
            has_bit(self.masks[3], bit as usize),
            not_under(self.masks[3], bit as usize),
            after.set == self.set,
            after.masks@.len() == 4,
            after.masks@[0] == 0,
            after.masks@[1] == 0,
            after.masks@[3] == without_bit(self.masks[3], bit as usize),
            self.set.steady() ==> after.masks@[2] == self.set.layer2_word(bit as usize),
            after.prefix@ == self.prefix@.update(2, bit << spec_bits()),
        ensures
            after.wf(),
            self.set.steady() ==> after.remaining() == self.remaining(),
    {
        let b = bit as usize;
        let m = self.masks@;
        if self.set.steady() {
            lemma_prefix_bound(0, bit);
            lemma_sub_word(m[3], self.set.layer3_word(), b, b);
            lemma_sub_word(after.masks@[2], after.masks@[2], b, b);
            assert(after.cursor(2) == b);
            assert(after.wf());
            assert forall|j: Index|
                (visible(&after.set, j) && after.pending(j)) == (visible(&self.set, j)
                    && self.pending(j)) by {
                lemma_path(j);
                crate::util::lemma_row_is_small(j, spec_shift(2));
                crate::util::lemma_row_is_small(j, spec_shift(3));
                lemma_siblings(spec_offset(j, spec_shift(3)), b);
                lemma_without_bit(m[3], b, spec_row(j, spec_shift(3)));
                lemma_zero_word(after.masks@[2], spec_row(j, spec_shift(2)));
            }
            assert(after.remaining() =~= self.remaining());
        }
    }
}

} // verus!
