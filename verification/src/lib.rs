//! Hierarchical bit sets: sparse sets of small integers with fast iteration.
//!
//! A set keeps four layers of words. Layer 0 holds one bit per index. Each
//! bit of a higher layer stands for one word of the layer below and is set
//! exactly when that word is not zero, so that whole empty regions are
//! skipped in one step.

use vstd::prelude::*;

pub mod atomic;
pub mod bits;
pub mod iter;
pub mod laws;
pub mod ops;
pub mod util;

pub use crate::atomic::AtomicBitSet;
pub use crate::iter::BitIter;
pub use crate::ops::{BitSetAnd, BitSetNot, BitSetOr};
pub use crate::util::Index;

use crate::bits::{
    lemma_offsets_in_range, lemma_path, lemma_rows_differ, lemma_siblings, lemma_with_bit,
    lemma_without_bit, lemma_zero_word, parent, slot, with_bit, without_bit,
};
use crate::util::{
    has_bit, lemma_row_is_small, mask, offset, offsets, shift, spec_offset, spec_row, spec_shift,
    MAX_EID,
};

verus! {

/// A layered bit structure that can be read: four accessors, one per layer,
/// that return the zero word for every position beyond the extent of the
/// structure.
pub trait BitSetLike {
    /// Whether the words of this value are a function of the value alone, so
    /// that two reads of one position agree. A structure that other threads
    /// may change while it is read is not steady, and nothing is promised of
    /// what its accessors return.
    spec fn steady(&self) -> bool;

    /// The top word.
    spec fn layer3_word(&self) -> usize;

    /// Word `i` of layer 2.
    spec fn layer2_word(&self, i: usize) -> usize;

    /// Word `i` of layer 1.
    spec fn layer1_word(&self, i: usize) -> usize;

    /// Word `i` of layer 0.
    spec fn layer0_word(&self, i: usize) -> usize;

    /// Returns the top word, each bit of which stands for one word of
    /// layer 2.
    fn layer3(&self) -> (w: usize)
        ensures
            self.steady() ==> w == self.layer3_word(),
    ;

    /// Returns word `i` of layer 2, each bit of which stands for one word of
    /// layer 1.
    fn layer2(&self, i: usize) -> (w: usize)
        ensures
            self.steady() ==> w == self.layer2_word(i),
    ;

    /// Returns word `i` of layer 1, each bit of which stands for one word of
    /// layer 0.
    fn layer1(&self, i: usize) -> (w: usize)
        ensures
            self.steady() ==> w == self.layer1_word(i),
    ;

    /// Returns word `i` of layer 0, each bit of which stands for one index.
    fn layer0(&self, i: usize) -> (w: usize)
        ensures
            self.steady() ==> w == self.layer0_word(i),
    ;

    /// Creates an iterator over the indices of this value. It starts with
    /// the top word as its only cached word and all cursors at zero; by
    /// `BitIter::lemma_fresh` it then has every member of a steady value
    /// left to yield.
    fn iter(self) -> (it: BitIter<Self>) where Self: Sized
        ensures
            it.source() == self,
            it.fresh(),
            self.steady() ==> it.masks()[3] == self.layer3_word(),
    {
        let layer3 = self.layer3();
        BitIter::new(self, [0, 0, 0, layer3], [0, 0, 0])
    }
}

/// Whether bit `id` of the ground layer of `s` is set.
pub open spec fn ground<T: BitSetLike>(s: &T, id: Index) -> bool {
    has_bit(s.layer0_word(spec_offset(id, spec_shift(1))), spec_row(id, spec_shift(0)))
}

/// Whether `id` is reached by a walk down the layers of `s`: it is within
/// the range that four layers span, and its bit is set in every layer.
pub open spec fn visible<T: BitSetLike>(s: &T, id: Index) -> bool {
    &&& spec_offset(id, spec_shift(3)) < usize::BITS
    &&& has_bit(s.layer3_word(), spec_row(id, spec_shift(3)))
    &&& has_bit(s.layer2_word(spec_offset(id, spec_shift(3))), spec_row(id, spec_shift(2)))
    &&& has_bit(s.layer1_word(spec_offset(id, spec_shift(2))), spec_row(id, spec_shift(1)))
    &&& ground(s, id)
}

/// The indices that an iteration over `s` yields: those that a walk down
/// the layers reaches.
pub open spec fn members<T: BitSetLike>(s: &T) -> Set<Index> {
    Set::new(|id: Index| visible(s, id))
}

/// Whether every summary bit of `s` is set exactly when the word it stands
/// for is not zero.
pub open spec fn exact<T: BitSetLike>(s: &T) -> bool {
    &&& forall|k: usize| #[trigger]
        s.layer0_word(k) != 0 <==> has_bit(s.layer1_word(parent(k)), slot(k))
    &&& forall|k: usize| #[trigger]
        s.layer1_word(k) != 0 <==> has_bit(s.layer2_word(parent(k)), slot(k))
    &&& forall|k: usize| #[trigger]
        s.layer2_word(k) != 0 <==> k < usize::BITS && has_bit(s.layer3_word(), k)
}

/// A reference to a layered bit set has the members of the set, and exact
/// summary bits if the set has them.
pub proof fn lemma_borrowed<T: BitSetLike>(s: &T)
    ensures
        members(&s) == members(s),
        forall|id: Index| #[trigger] ground(&s, id) == ground(s, id),
        exact(&s) == exact(s),
{
    assert forall|id: Index| visible(&s, id) == visible(s, id) by {}
    assert(members(&s) =~= members(s));
    if exact(s) {
        assert forall|k: usize| #[trigger]
            (&s).layer0_word(k) != 0 <==> has_bit((&s).layer1_word(parent(k)), slot(k)) by {
            assert(s.layer0_word(k) != 0 <==> has_bit(s.layer1_word(parent(k)), slot(k)));
        }
        assert forall|k: usize| #[trigger]
            (&s).layer1_word(k) != 0 <==> has_bit((&s).layer2_word(parent(k)), slot(k)) by {
            assert(s.layer1_word(k) != 0 <==> has_bit(s.layer2_word(parent(k)), slot(k)));
        }
        assert forall|k: usize| #[trigger]
            (&s).layer2_word(k) != 0 <==> k < usize::BITS && has_bit((&s).layer3_word(), k) by {
            assert(s.layer2_word(k) != 0 <==> k < usize::BITS && has_bit(s.layer3_word(), k));
        }
    }
    if exact(&s) {
        assert forall|k: usize| #[trigger]
            s.layer0_word(k) != 0 <==> has_bit(s.layer1_word(parent(k)), slot(k)) by {
            assert((&s).layer0_word(k) != 0 <==> has_bit((&s).layer1_word(parent(k)), slot(k)));
        }
        assert forall|k: usize| #[trigger]
            s.layer1_word(k) != 0 <==> has_bit(s.layer2_word(parent(k)), slot(k)) by {
            assert((&s).layer1_word(k) != 0 <==> has_bit((&s).layer2_word(parent(k)), slot(k)));
        }
        assert forall|k: usize| #[trigger]
            s.layer2_word(k) != 0 <==> k < usize::BITS && has_bit(s.layer3_word(), k) by {
            assert((&s).layer2_word(k) != 0 <==> k < usize::BITS && has_bit(
                (&s).layer3_word(),
                k,
            ));
        }
    }
}

impl<'a, T: BitSetLike> BitSetLike for &'a T {
    open spec fn steady(&self) -> bool {
        (**self).steady()
    }

    open spec fn layer3_word(&self) -> usize {
        (**self).layer3_word()
    }

    open spec fn layer2_word(&self, i: usize) -> usize {
        (**self).layer2_word(i)
    }

    open spec fn layer1_word(&self, i: usize) -> usize {
        (**self).layer1_word(i)
    }

    open spec fn layer0_word(&self, i: usize) -> usize {
        (**self).layer0_word(i)
    }

    fn layer3(&self) -> (w: usize) {
        (*self).layer3()
    }

    fn layer2(&self, i: usize) -> (w: usize) {
        (*self).layer2(i)
    }

    fn layer1(&self, i: usize) -> (w: usize) {
        (*self).layer1(i)
    }

    fn layer0(&self, i: usize) -> (w: usize) {
        (*self).layer0(i)
    }
}

/// A set of indices up to `MAX_EID`, kept as four layers of words that grow
/// with the largest index added.
#[derive(Debug)]
pub struct BitSet {
    layer3: usize,
    layer2: Vec<usize>,
    layer1: Vec<usize>,
    layer0: Vec<usize>,
}

/// The length of a layer of `old_len` words after it was grown to hold
/// position `to`.
pub open spec fn grown(old_len: nat, to: usize) -> nat {
    if old_len > to {
        old_len
    } else {
        (to + 1) as nat
    }
}

/// The words `words` with bit `r` of word `p` set.
spec fn raised(words: Seq<usize>, p: usize, r: usize) -> Seq<usize>
    recommends
        p < words.len(),
{
    words.update(p as int, with_bit(words[p as int], r))
}

/// The words `words` with bit `r` of word `p` cleared.
spec fn lowered(words: Seq<usize>, p: usize, r: usize) -> Seq<usize>
    recommends
        p < words.len(),
{
    words.update(p as int, without_bit(words[p as int], r))
}

impl View for BitSet {
    type V = Set<Index>;

    /// The indices in the set: those whose bit of the ground layer is set.
    open spec fn view(&self) -> Set<Index> {
        Set::new(|id: Index| ground(self, id))
    }
}

impl BitSet {
    /// The number of words allocated for layer `layer` (0, 1 or 2).
    pub closed spec fn layer_len(&self, layer: int) -> nat {
        if layer == 0 {
            self.layer0@.len()
        } else if layer == 1 {
            self.layer1@.len()
        } else {
            self.layer2@.len()
        }
    }

    /// Whether the layers are within their limits, each layer has a summary
    /// word above each of its words, and every summary bit is set exactly
    /// when the word it stands for is not zero.
    pub open spec fn wf(&self) -> bool {
        &&& self.layer_len(0) <= spec_offset(MAX_EID, spec_shift(1)) + 1
        &&& self.layer_len(1) <= spec_offset(MAX_EID, spec_shift(2)) + 1
        &&& self.layer_len(2) <= spec_offset(MAX_EID, spec_shift(3)) + 1
        &&& forall|k: usize| k < self.layer_len(0) ==> #[trigger] parent(k) < self.layer_len(1)
        &&& forall|k: usize| k < self.layer_len(1) ==> #[trigger] parent(k) < self.layer_len(2)
        &&& exact(self)
    }

    /// Creates an empty `BitSet`, with nothing allocated.
    pub fn new() -> (s: BitSet)
        ensures
            s.wf(),
            s@ == Set::<Index>::empty(),
            s.layer_len(0) == 0 && s.layer_len(1) == 0 && s.layer_len(2) == 0,
    {
        let s = BitSet { layer3: 0, layer2: Vec::new(), layer1: Vec::new(), layer0: Vec::new() };
        proof {
            s.lemma_blank();
        }
        s
    }

    /// A set whose words are all zero is well formed and empty.
    proof fn lemma_blank(&self)
        requires
            self.layer3 == 0,
            forall|i: int| 0 <= i < self.layer2@.len() ==> self.layer2@[i] == 0,
            forall|i: int| 0 <= i < self.layer1@.len() ==> self.layer1@[i] == 0,
            forall|i: int| 0 <= i < self.layer0@.len() ==> self.layer0@[i] == 0,
        ensures
            exact(self),
            self@ == Set::<Index>::empty(),
    {
        assert forall|k: usize| !has_bit(0usize, slot(k)) by {
            lemma_siblings(k, k);
            lemma_zero_word(0, slot(k));
        }
        assert forall|k: usize| k < usize::BITS implies !has_bit(0usize, k) by {
            lemma_zero_word(0, k);
        }
        assert forall|id: Index| !ground(self, id) by {
            lemma_path(id);
            lemma_siblings(id as usize, id as usize);
            lemma_zero_word(0, slot(id as usize));
        }
        assert(self@ =~= Set::<Index>::empty());
    }

    /// The indices that an iteration over a well-formed set yields are the
    /// indices in the set: no summary bit is missing above a word that is
    /// not zero, and none is set above a word that is zero.
    pub proof fn lemma_members(&self)
        requires
            self.wf(),
        ensures
            exact(self),
            members(self) == self@,
    {
        assert forall|id: Index| visible(self, id) == ground(self, id) by {
            let o0 = spec_offset(id, spec_shift(1));
            let o1 = spec_offset(id, spec_shift(2));
            let o2 = spec_offset(id, spec_shift(3));
            lemma_path(id);
            lemma_row_is_small(id, spec_shift(0));
            lemma_siblings(o0, o0);
            lemma_siblings(o1, o1);
            lemma_siblings(o2, o2);
            lemma_offsets_in_range(MAX_EID);
            lemma_zero_word(self.layer0_word(o0), spec_row(id, spec_shift(0)));
            if ground(self, id) {
                assert(self.layer0_word(o0) != 0);
                assert(o0 < self.layer_len(0));
                assert(parent(o0) < self.layer_len(1));
                assert(parent(o1) < self.layer_len(2));
                lemma_zero_word(self.layer1_word(o1), slot(o0));
                lemma_zero_word(self.layer2_word(o2), slot(o1));
                assert(self.layer1_word(o1) != 0);
                assert(self.layer2_word(o2) != 0);
            }
        }
        assert(members(self) =~= self@);
    }

    /// Whether `max` is an index that a set can hold.
    pub fn valid_range(max: Index) -> (ok: bool)
        ensures
            ok == (max <= MAX_EID),
    {
        max <= MAX_EID
    }

    /// Creates an empty `BitSet`, preallocated for the indices up to `max`.
    pub fn with_capacity(max: Index) -> (s: BitSet)
        requires
            max <= MAX_EID,
        ensures
            s.wf(),
            s@ == Set::<Index>::empty(),
            s.layer_len(0) == spec_offset(max, spec_shift(1)) + 1,
            s.layer_len(1) == spec_offset(max, spec_shift(2)) + 1,
            s.layer_len(2) == spec_offset(max, spec_shift(3)) + 1,
    {
        let mut value = BitSet::new();
        value.extend(max);
        value
    }

    /// Grows the layers so that each has a word for `id`. New words are zero.
    fn extend(&mut self, id: Index)
        requires
            old(self).wf(),
            id <= MAX_EID,
        ensures
            final(self).wf(),
            final(self)@ == old(self)@,
            final(self).layer_len(0) == grown(old(self).layer_len(0), spec_offset(id, spec_shift(1))),
            final(self).layer_len(1) == grown(old(self).layer_len(1), spec_offset(id, spec_shift(2))),
            final(self).layer_len(2) == grown(old(self).layer_len(2), spec_offset(id, spec_shift(3))),
            forall|k: usize| final(self).layer0_word(k) == old(self).layer0_word(k),
            forall|k: usize| final(self).layer1_word(k) == old(self).layer1_word(k),
            forall|k: usize| final(self).layer2_word(k) == old(self).layer2_word(k),
            final(self).layer3_word() == old(self).layer3_word(),
    {
        let (o0, o1, o2) = offsets(id);
        proof {
            lemma_offsets_in_range(id);
            lemma_path(id);
        }
        Self::fill_up(&mut self.layer2, o2);
        Self::fill_up(&mut self.layer1, o1);
        Self::fill_up(&mut self.layer0, o0);
        proof {
            assert forall|k: usize| k < self.layer_len(0) implies #[trigger] parent(k)
                < self.layer_len(1) by {
                lemma_siblings(k, o0);
            }
            assert forall|k: usize| k < self.layer_len(1) implies #[trigger] parent(k)
                < self.layer_len(2) by {
                lemma_siblings(k, o1);
            }
            assert forall|k: usize| self.layer0_word(k) == old(self).layer0_word(k) by {}
            assert forall|k: usize| self.layer1_word(k) == old(self).layer1_word(k) by {}
            assert forall|k: usize| self.layer2_word(k) == old(self).layer2_word(k) by {}
            assert(self@ =~= old(self)@);
        }
    }

    /// Sets the bits that stand for `id` in layers 1, 2 and 3. It is used
    /// when the ground word of `id` was zero before a bit was set in it.
    fn add_slow(&mut self, id: Index)
        requires
            spec_offset(id, spec_shift(2)) < old(self).layer1@.len(),
            spec_offset(id, spec_shift(3)) < old(self).layer2@.len(),
        ensures
            final(self).layer0@ == old(self).layer0@,
            final(self).layer1@ == raised(
                old(self).layer1@,
                spec_offset(id, spec_shift(2)),
                spec_row(id, spec_shift(1)),
            ),
            final(self).layer2@ == raised(
                old(self).layer2@,
                spec_offset(id, spec_shift(3)),
                spec_row(id, spec_shift(2)),
            ),
            final(self).layer3 == with_bit(old(self).layer3, spec_row(id, spec_shift(3))),
    {
        let (_, o1, o2) = offsets(id);
        self.layer1[o1] |= mask(id, shift(1));
        self.layer2[o2] |= mask(id, shift(2));
        self.layer3 |= mask(id, shift(3));
    }

    /// Adds `id` to the set. Returns `true` if `id` was already in the set.
    /// The layers grow, with zero words, where they have no word for `id`.
    pub fn add(&mut self, id: Index) -> (was: bool)
        requires
            old(self).wf(),
            id <= MAX_EID,
        ensures
            final(self).wf(),
            was == old(self)@.contains(id),
            final(self)@ == old(self)@.insert(id),
            forall|n: int|
                0 <= n < 3 ==> #[trigger] final(self).layer_len(n) == if spec_offset(
                    id,
                    spec_shift(1),
                ) < old(self).layer_len(0) {
                    old(self).layer_len(n)
                } else {
                    grown(old(self).layer_len(n), spec_offset(id, spec_shift((n + 1) as usize)))
                },
    {
        let (o0, mask) = (offset(id, shift(1)), mask(id, shift(0)));
        if o0 >= self.layer0.len() {
            self.extend(id);
        }
        let ghost pre = *self;
        proof {
            lemma_path(id);
            assert(parent(o0) < self.layer_len(1));
            assert(parent(parent(o0)) < self.layer_len(2));
        }
        if self.layer0[o0] & mask != 0 {
            proof {
                assert(ground(&pre, id));
                assert(pre@ =~= pre@.insert(id));
            }
            return true;
        }
        let old = self.layer0[o0];
        self.layer0[o0] |= mask;
        if old == 0 {
            self.add_slow(id);
        }
        proof {
            pre.lemma_added(*self, id);
        }
        false
    }

    /// What `add` leaves when the index was not in the set: with the bit of
    /// `id` set in the ground layer, and in the layers above if the ground
    /// word was zero, the layers are well formed again and hold `id` besides
    /// what they held.
    proof fn lemma_added(self, after: BitSet, id: Index)
        requires
            self.wf(),
            spec_offset(id, spec_shift(1)) < self.layer0@.len(),
            spec_offset(id, spec_shift(2)) < self.layer1@.len(),
            spec_offset(id, spec_shift(3)) < self.layer2@.len(),
            !ground(&self, id),
            after.layer0@ == raised(
                self.layer0@,
                spec_offset(id, spec_shift(1)),
                spec_row(id, spec_shift(0)),
            ),
            self.layer0@[spec_offset(id, spec_shift(1)) as int] != 0 ==> {
                &&& after.layer1@ == self.layer1@
                &&& after.layer2@ == self.layer2@
                &&& after.layer3 == self.layer3
            },
            self.layer0@[spec_offset(id, spec_shift(1)) as int] == 0 ==> {
                &&& after.layer1@ == raised(
                    self.layer1@,
                    spec_offset(id, spec_shift(2)),
                    spec_row(id, spec_shift(1)),
                )
                &&& after.layer2@ == raised(
                    self.layer2@,
                    spec_offset(id, spec_shift(3)),
                    spec_row(id, spec_shift(2)),
                )
                &&& after.layer3 == with_bit(self.layer3, spec_row(id, spec_shift(3)))
            },
        ensures
            after.wf(),
            after@ == self@.insert(id),
    {
        let o0 = spec_offset(id, spec_shift(1));
        let o1 = spec_offset(id, spec_shift(2));
        let o2 = spec_offset(id, spec_shift(3));
        lemma_path(id);
        lemma_siblings(id as usize, id as usize);
        lemma_siblings(o0, o0);
        lemma_siblings(o1, o1);
        lemma_siblings(o2, o2);
        lemma_offsets_in_range(MAX_EID);
        assert(parent(o0) == o1 && parent(o1) == o2);
        assert(o2 < usize::BITS && slot(o2) == o2);
        assert(self.layer2_word(o2) == self.layer2@[o2 as int]);
        let w0 = self.layer0@[o0 as int];
        lemma_with_bit(w0, slot(id as usize), slot(id as usize));
        assert forall|x: Index| ground(&after, x) == (x == id || ground(&self, x)) by {
            lemma_path(x);
            lemma_siblings(x as usize, x as usize);
            if x != id && spec_offset(x, spec_shift(1)) == o0 {
                lemma_rows_differ(x, id);
                lemma_with_bit(w0, slot(id as usize), slot(x as usize));
            }
        }
        assert(after@ =~= self@.insert(id));
        assert forall|k: usize| #[trigger]
            after.layer0_word(k) != 0 <==> has_bit(after.layer1_word(parent(k)), slot(k)) by {
            lemma_siblings(k, o0);
            lemma_with_bit(self.layer1_word(o1), slot(o0), slot(k));
            assert(self.layer0_word(k) != 0 <==> has_bit(self.layer1_word(parent(k)), slot(k)));
        }
        assert forall|k: usize| #[trigger]
            after.layer1_word(k) != 0 <==> has_bit(after.layer2_word(parent(k)), slot(k)) by {
            lemma_siblings(k, o1);
            lemma_with_bit(self.layer1_word(o1), slot(o0), slot(o0));
            lemma_with_bit(self.layer2_word(o2), slot(o1), slot(k));
            assert(self.layer1_word(k) != 0 <==> has_bit(self.layer2_word(parent(k)), slot(k)));
        }
        assert forall|k: usize| #[trigger]
            after.layer2_word(k) != 0 <==> k < usize::BITS && has_bit(after.layer3_word(), k) by {
            lemma_with_bit(self.layer2_word(o2), slot(o1), slot(o1));
            if k < usize::BITS {
                lemma_with_bit(self.layer3_word(), slot(o2), k);
            }
            assert(self.layer2_word(k) != 0 <==> k < usize::BITS && has_bit(
                self.layer3_word(),
                k,
            ));
            assert(self.layer2_word(o2) != 0 <==> o2 < usize::BITS && has_bit(
                self.layer3_word(),
                o2,
            ));
        }
    }

    /// Removes `id` from the set. Returns `true` if `id` was in the set. An
    /// index that the layers have no word for is not in the set, and nothing
    /// is allocated for it.
    pub fn remove(&mut self, id: Index) -> (was: bool)
        requires
            old(self).wf(),
        ensures
            final(self).wf(),
            was == old(self)@.contains(id),
            final(self)@ == old(self)@.remove(id),
            forall|n: int| 0 <= n < 3 ==> #[trigger] final(self).layer_len(n) == old(self).layer_len(n),
    {
        let (o0, o1, o2) = offsets(id);
        let ghost pre = *self;
        proof {
            lemma_path(id);
            lemma_row_is_small(id, spec_shift(0));
            lemma_zero_word(0, spec_row(id, spec_shift(0)));
        }
        if o0 >= self.layer0.len() {
            proof {
                assert(!ground(&pre, id));
                assert(pre@ =~= pre@.remove(id));
            }
            return false;
        }
        if self.layer0[o0] & mask(id, shift(0)) == 0 {
            proof {
                assert(!ground(&pre, id));
                assert(pre@ =~= pre@.remove(id));
            }
            return false;
        }
        proof {
            assert(parent(o0) < self.layer_len(1));
            assert(parent(parent(o0)) < self.layer_len(2));
        }
        // The bit is set: clear it in layer 0, and in each layer above as
        // long as the word below was left empty.
        self.layer0[o0] &= !mask(id, shift(0));
        if self.layer0[o0] != 0 {
            proof {
                pre.lemma_removed(*self, id);
            }
            return true;
        }
        self.layer1[o1] &= !mask(id, shift(1));
        if self.layer1[o1] != 0 {
            proof {
                pre.lemma_removed(*self, id);
            }
            return true;
        }
        self.layer2[o2] &= !mask(id, shift(2));
        if self.layer2[o2] != 0 {
            proof {
                pre.lemma_removed(*self, id);
            }
            return true;
        }
        self.layer3 &= !mask(id, shift(3));
        proof {
            pre.lemma_removed(*self, id);
        }
        true
    }

    /// What `remove` leaves when the index was in the set: with the bit of
    /// `id` cleared in the ground layer, and in each layer above as long as
    /// the word below was left zero, the layers are well formed again and
    /// hold what they held but `id`.
    proof fn lemma_removed(self, after: BitSet, id: Index)
        requires
            self.wf(),
            spec_offset(id, spec_shift(1)) < self.layer0@.len(),
            spec_offset(id, spec_shift(2)) < self.layer1@.len(),
            spec_offset(id, spec_shift(3)) < self.layer2@.len(),
            ground(&self, id),
            after.layer0@ == lowered(
                self.layer0@,
                spec_offset(id, spec_shift(1)),
                spec_row(id, spec_shift(0)),
            ),
            after.layer1@ == if after.layer0@[spec_offset(id, spec_shift(1)) as int] != 0 {
                self.layer1@
            } else {
                lowered(self.layer1@, spec_offset(id, spec_shift(2)), spec_row(id, spec_shift(1)))
            },
            after.layer2@ == if after.layer0@[spec_offset(id, spec_shift(1)) as int] != 0
                || after.layer1@[spec_offset(id, spec_shift(2)) as int] != 0 {
                self.layer2@
            } else {
                lowered(self.layer2@, spec_offset(id, spec_shift(3)), spec_row(id, spec_shift(2)))
            },
            after.layer3 == if after.layer0@[spec_offset(id, spec_shift(1)) as int] != 0
                || after.layer1@[spec_offset(id, spec_shift(2)) as int] != 0
                || after.layer2@[spec_offset(id, spec_shift(3)) as int] != 0 {
                self.layer3
            } else {
                without_bit(self.layer3, spec_row(id, spec_shift(3)))
            },
        ensures
            after.wf(),
            after@ == self@.remove(id),
    {
        let o0 = spec_offset(id, spec_shift(1));
        let o1 = spec_offset(id, spec_shift(2));
        let o2 = spec_offset(id, spec_shift(3));
        lemma_path(id);
        lemma_siblings(id as usize, id as usize);
        lemma_siblings(o0, o0);
        lemma_siblings(o1, o1);
        lemma_siblings(o2, o2);
        lemma_offsets_in_range(MAX_EID);
        assert(parent(o0) == o1 && parent(o1) == o2);
        assert(o2 < usize::BITS && slot(o2) == o2);
        let w0 = self.layer0@[o0 as int];
        assert(self.layer0_word(o0) != 0) by {
            lemma_zero_word(w0, slot(id as usize));
        }
        assert(self.layer1_word(o1) != 0) by {
            lemma_zero_word(self.layer1_word(o1), slot(o0));
        }
        assert(self.layer2_word(o2) != 0) by {
            lemma_zero_word(self.layer2_word(o2), slot(o1));
        }
        assert forall|x: Index| ground(&after, x) == (x != id && ground(&self, x)) by {
            lemma_path(x);
            lemma_siblings(x as usize, x as usize);
            if spec_offset(x, spec_shift(1)) == o0 {
                if x != id {
                    lemma_rows_differ(x, id);
                }
                lemma_without_bit(w0, slot(id as usize), slot(x as usize));
            }
        }
        assert(after@ =~= self@.remove(id));
        assert forall|k: usize| #[trigger]
            after.layer0_word(k) != 0 <==> has_bit(after.layer1_word(parent(k)), slot(k)) by {
            lemma_siblings(k, o0);
            lemma_without_bit(self.layer1_word(o1), slot(o0), slot(k));
            assert(self.layer0_word(k) != 0 <==> has_bit(self.layer1_word(parent(k)), slot(k)));
        }
        assert forall|k: usize| #[trigger]
            after.layer1_word(k) != 0 <==> has_bit(after.layer2_word(parent(k)), slot(k)) by {
            lemma_siblings(k, o1);
            lemma_without_bit(self.layer2_word(o2), slot(o1), slot(k));
            assert(self.layer1_word(k) != 0 <==> has_bit(self.layer2_word(parent(k)), slot(k)));
        }
        assert forall|k: usize| #[trigger]
            after.layer2_word(k) != 0 <==> k < usize::BITS && has_bit(after.layer3_word(), k) by {
            if k < usize::BITS {
                lemma_without_bit(self.layer3_word(), o2, k);
            }
            assert(self.layer2_word(k) != 0 <==> k < usize::BITS && has_bit(
                self.layer3_word(),
                k,
            ));
        }
    }

    /// Returns `true` if `id` is in the set.
    pub fn contains(&self, id: Index) -> (r: bool)
        ensures
            r == self@.contains(id),
    {
        let o0 = offset(id, shift(1));
        proof {
            lemma_row_is_small(id, spec_shift(0));
            lemma_zero_word(0, spec_row(id, spec_shift(0)));
        }
        o0 < self.layer0.len() && (self.layer0[o0] & mask(id, shift(0))) != 0
    }

    /// Empties the set and gives up what the layers had allocated.
    pub fn clear(&mut self)
        ensures
            final(self).wf(),
            final(self)@ == Set::<Index>::empty(),
            final(self).layer_len(0) == 0,
            final(self).layer_len(1) == 0,
            final(self).layer_len(2) == 0,
    {
        self.layer0.clear();
        self.layer1.clear();
        self.layer2.clear();
        self.layer3 = 0;
        proof {
            self.lemma_blank();
        }
    }

    /// Grows `vec` with zero words until it holds position `to`.
    fn fill_up(vec: &mut Vec<usize>, to: usize)
        requires
            to < usize::MAX,
        ensures
            final(vec)@.len() == grown(old(vec)@.len(), to),
            forall|i: int| 0 <= i < old(vec)@.len() ==> final(vec)@[i] == old(vec)@[i],
            forall|i: int| old(vec)@.len() <= i < final(vec)@.len() ==> final(vec)@[i] == 0,
    {
        if vec.len() > to {
            return ;
        }
        vec.resize(to + 1, 0);
    }
}

impl Clone for BitSet {
    /// A set with the same words in every layer.
    fn clone(&self) -> (s: BitSet)
        ensures
            s@ == self@,
            s.wf() == self.wf(),
            forall|n: int| 0 <= n < 3 ==> #[trigger] s.layer_len(n) == self.layer_len(n),
    {
        let s = BitSet {
            layer3: self.layer3,
            layer2: self.layer2.clone(),
            layer1: self.layer1.clone(),
            layer0: self.layer0.clone(),
        };
        proof {
            assert(s.layer2@ =~= self.layer2@);
            assert(s.layer1@ =~= self.layer1@);
            assert(s.layer0@ =~= self.layer0@);
            assert forall|k: usize| s.layer0_word(k) == self.layer0_word(k) by {}
            assert forall|k: usize| s.layer1_word(k) == self.layer1_word(k) by {}
            assert forall|k: usize| s.layer2_word(k) == self.layer2_word(k) by {}
            assert(s@ =~= self@);
        }
        s
    }
}

impl Default for BitSet {
    /// The empty set.
    fn default() -> (s: BitSet)
        ensures
            s.wf(),
            s@ == Set::<Index>::empty(),
    {
        BitSet::new()
    }
}

impl BitSetLike for BitSet {
    open spec fn steady(&self) -> bool {
        true
    }

    closed spec fn layer3_word(&self) -> usize {
        self.layer3
    }

    closed spec fn layer2_word(&self, i: usize) -> usize {
        if i < self.layer2@.len() {
            self.layer2@[i as int]
        } else {
            0
        }
    }

    closed spec fn layer1_word(&self, i: usize) -> usize {
        if i < self.layer1@.len() {
            self.layer1@[i as int]
        } else {
            0
        }
    }

    closed spec fn layer0_word(&self, i: usize) -> usize {
        if i < self.layer0@.len() {
            self.layer0@[i as int]
        } else {
            0
        }
    }

    fn layer3(&self) -> (w: usize) {
        self.layer3
    }

    fn layer2(&self, i: usize) -> (w: usize) {
        if i < self.layer2.len() {
            self.layer2[i]
        } else {
            0
        }
    }

    fn layer1(&self, i: usize) -> (w: usize) {
        if i < self.layer1.len() {
            self.layer1[i]
        } else {
            0
        }
    }

    fn layer0(&self, i: usize) -> (w: usize) {
        if i < self.layer0.len() {
            self.layer0[i]
        } else {
            0
        }
    }
}

} // verus!
