//! Intersection, union and complement of layered bit sets, as views that
//! hold no words of their own: every word is computed from the words of the
//! operands when it is asked for.

use vstd::prelude::*;
use crate::bits::{lemma_combined, lemma_path, lemma_siblings, parent, slot};
use crate::util::{has_bit, lemma_row_is_small, spec_offset, spec_row, spec_shift, Index};
use crate::{exact, ground, members, visible, BitSetLike};

verus! {

/// The intersection of two layered bit sets: each word is the bitwise AND of
/// the words of the operands. A summary bit of it may be set above a word
/// that is zero.
pub struct BitSetAnd<A: BitSetLike, B: BitSetLike>(pub A, pub B);

/// The union of two layered bit sets: each word is the bitwise OR of the
/// words of the operands.
pub struct BitSetOr<A: BitSetLike, B: BitSetLike>(pub A, pub B);

/// The complement of a layered bit set: each ground word is the bitwise
/// complement of the word of the operand, and every summary word has all
/// its bits set.
pub struct BitSetNot<A: BitSetLike>(pub A);

impl<A: BitSetLike, B: BitSetLike> BitSetLike for BitSetAnd<A, B> {
    open spec fn steady(&self) -> bool {
        self.0.steady() && self.1.steady()
    }

    open spec fn layer3_word(&self) -> usize {
        self.0.layer3_word() & self.1.layer3_word()
    }

    open spec fn layer2_word(&self, i: usize) -> usize {
        self.0.layer2_word(i) & self.1.layer2_word(i)
    }

    open spec fn layer1_word(&self, i: usize) -> usize {
        self.0.layer1_word(i) & self.1.layer1_word(i)
    }

    open spec fn layer0_word(&self, i: usize) -> usize {
        self.0.layer0_word(i) & self.1.layer0_word(i)
    }

    fn layer3(&self) -> (w: usize) {
        self.0.layer3() & self.1.layer3()
    }

    fn layer2(&self, i: usize) -> (w: usize) {
        self.0.layer2(i) & self.1.layer2(i)
    }

    fn layer1(&self, i: usize) -> (w: usize) {
        self.0.layer1(i) & self.1.layer1(i)
    }

    fn layer0(&self, i: usize) -> (w: usize) {
        self.0.layer0(i) & self.1.layer0(i)
    }
}

impl<A: BitSetLike, B: BitSetLike> BitSetLike for BitSetOr<A, B> {
    open spec fn steady(&self) -> bool {
        self.0.steady() && self.1.steady()
    }

    open spec fn layer3_word(&self) -> usize {
        self.0.layer3_word() | self.1.layer3_word()
    }

    open spec fn layer2_word(&self, i: usize) -> usize {
        self.0.layer2_word(i) | self.1.layer2_word(i)
    }

    open spec fn layer1_word(&self, i: usize) -> usize {
        self.0.layer1_word(i) | self.1.layer1_word(i)
    }

    open spec fn layer0_word(&self, i: usize) -> usize {
        self.0.layer0_word(i) | self.1.layer0_word(i)
    }

    fn layer3(&self) -> (w: usize) {
        self.0.layer3() | self.1.layer3()
    }

    fn layer2(&self, i: usize) -> (w: usize) {
        self.0.layer2(i) | self.1.layer2(i)
    }

    fn layer1(&self, i: usize) -> (w: usize) {
        self.0.layer1(i) | self.1.layer1(i)
    }

    fn layer0(&self, i: usize) -> (w: usize) {
        self.0.layer0(i) | self.1.layer0(i)
    }
}

impl<A: BitSetLike> BitSetLike for BitSetNot<A> {
    open spec fn steady(&self) -> bool {
        self.0.steady()
    }

    open spec fn layer3_word(&self) -> usize {
        !0usize
    }

    open spec fn layer2_word(&self, i: usize) -> usize {
        !0usize
    }

    open spec fn layer1_word(&self, i: usize) -> usize {
        !0usize
    }

    open spec fn layer0_word(&self, i: usize) -> usize {
        !self.0.layer0_word(i)
    }

    fn layer3(&self) -> (w: usize) {
        !0
    }

    fn layer2(&self, _i: usize) -> (w: usize) {
        !0
    }

    fn layer1(&self, _i: usize) -> (w: usize) {
        !0
    }

    fn layer0(&self, i: usize) -> (w: usize) {
        !self.0.layer0(i)
    }
}

/// Whether every index of the ground layer of `s`, within the range that
/// four layers span, is reached by a walk down the layers: no summary bit is
/// missing above a word that is not zero.
pub open spec fn covering<T: BitSetLike>(s: &T) -> bool {
    forall|id: Index|
        spec_offset(id, spec_shift(3)) < usize::BITS && #[trigger] ground(s, id) ==> visible(s, id)
}

/// A set whose summary bits are exact is covering.
pub proof fn lemma_exact_is_covering<T: BitSetLike>(s: &T)
    requires
        exact(s),
    ensures
        covering(s),
{
    assert forall|id: Index|
        spec_offset(id, spec_shift(3)) < usize::BITS && #[trigger] ground(s, id) implies visible(
        s,
        id,
    ) by {
        let o0 = spec_offset(id, spec_shift(1));
        let o1 = spec_offset(id, spec_shift(2));
        let o2 = spec_offset(id, spec_shift(3));
        lemma_path(id);
        lemma_siblings(o0, o0);
        lemma_siblings(o1, o1);
        lemma_siblings(o2, o2);
        lemma_siblings(id as usize, id as usize);
        crate::bits::lemma_zero_word(s.layer0_word(o0), slot(id as usize));
        crate::bits::lemma_zero_word(s.layer1_word(o1), slot(o0));
        crate::bits::lemma_zero_word(s.layer2_word(o2), slot(o1));
        assert(s.layer0_word(o0) != 0);
        assert(s.layer1_word(o1) != 0);
        assert(s.layer2_word(o2) != 0);
    }
}

/// An iteration over an intersection yields exactly the indices that
/// iterations over both operands yield, and an index is in its ground layer
/// exactly when it is in the ground layers of both.
pub proof fn lemma_and<A: BitSetLike, B: BitSetLike>(s: &BitSetAnd<A, B>)
    ensures
        forall|id: Index| #[trigger] ground(s, id) == (ground(&s.0, id) && ground(&s.1, id)),
        members(s) == members(&s.0).intersect(members(&s.1)),
{
    assert forall|id: Index| #[trigger] ground(s, id) == (ground(&s.0, id) && ground(&s.1, id)) by {
        lemma_and_at(s, id);
    }
    assert forall|id: Index| visible(s, id) == (visible(&s.0, id) && visible(&s.1, id)) by {
        lemma_and_at(s, id);
    }
    assert(members(s) =~= members(&s.0).intersect(members(&s.1)));
}

/// The intersection at one index.
proof fn lemma_and_at<A: BitSetLike, B: BitSetLike>(s: &BitSetAnd<A, B>, id: Index)
    ensures
        ground(s, id) == (ground(&s.0, id) && ground(&s.1, id)),
        visible(s, id) == (visible(&s.0, id) && visible(&s.1, id)),
{
    let o0 = spec_offset(id, spec_shift(1));
    let o1 = spec_offset(id, spec_shift(2));
    let o2 = spec_offset(id, spec_shift(3));
    lemma_row_is_small(id, spec_shift(0));
    lemma_row_is_small(id, spec_shift(1));
    lemma_row_is_small(id, spec_shift(2));
    lemma_row_is_small(id, spec_shift(3));
    lemma_combined(s.0.layer0_word(o0), s.1.layer0_word(o0), spec_row(id, spec_shift(0)));
    lemma_combined(s.0.layer1_word(o1), s.1.layer1_word(o1), spec_row(id, spec_shift(1)));
    lemma_combined(s.0.layer2_word(o2), s.1.layer2_word(o2), spec_row(id, spec_shift(2)));
    lemma_combined(s.0.layer3_word(), s.1.layer3_word(), spec_row(id, spec_shift(3)));
}

/// An index is in the ground layer of a union exactly when it is in the
/// ground layer of an operand. The summary bits of a union of two sets with
/// exact summary bits are exact. An iteration over a union of two covering
/// sets yields exactly the indices that an iteration over either yields.
pub proof fn lemma_or<A: BitSetLike, B: BitSetLike>(s: &BitSetOr<A, B>)
    ensures
        forall|id: Index| #[trigger] ground(s, id) == (ground(&s.0, id) || ground(&s.1, id)),
        exact(&s.0) && exact(&s.1) ==> exact(s),
        covering(&s.0) && covering(&s.1) ==> covering(s) && members(s) == members(&s.0).union(
            members(&s.1),
        ),
{
    assert forall|id: Index| #[trigger] ground(s, id) == (ground(&s.0, id) || ground(&s.1, id)) by {
        lemma_or_at(s, id);
    }
    if exact(&s.0) && exact(&s.1) {
        assert forall|k: usize| #[trigger]
            s.layer0_word(k) != 0 <==> has_bit(s.layer1_word(parent(k)), slot(k)) by {
            lemma_siblings(k, k);
            lemma_combined(s.0.layer0_word(k), s.1.layer0_word(k), 0);
            lemma_combined(s.0.layer1_word(parent(k)), s.1.layer1_word(parent(k)), slot(k));
        }
        assert forall|k: usize| #[trigger]
            s.layer1_word(k) != 0 <==> has_bit(s.layer2_word(parent(k)), slot(k)) by {
            lemma_siblings(k, k);
            lemma_combined(s.0.layer1_word(k), s.1.layer1_word(k), 0);
            lemma_combined(s.0.layer2_word(parent(k)), s.1.layer2_word(parent(k)), slot(k));
        }
        assert forall|k: usize| #[trigger]
            s.layer2_word(k) != 0 <==> k < usize::BITS && has_bit(s.layer3_word(), k) by {
            lemma_combined(s.0.layer2_word(k), s.1.layer2_word(k), 0);
            if k < usize::BITS {
                lemma_combined(s.0.layer3_word(), s.1.layer3_word(), k);
            }
        }
    }
    if covering(&s.0) && covering(&s.1) {
        assert forall|id: Index| visible(s, id) == (visible(&s.0, id) || visible(&s.1, id)) by {
            lemma_or_at(s, id);
        }
        assert forall|id: Index|
            spec_offset(id, spec_shift(3)) < usize::BITS && #[trigger] ground(
                s,
                id,
            ) implies visible(s, id) by {
            lemma_or_at(s, id);
        }
        assert(members(s) =~= members(&s.0).union(members(&s.1)));
    }
}

/// The union at one index.
proof fn lemma_or_at<A: BitSetLike, B: BitSetLike>(s: &BitSetOr<A, B>, id: Index)
    ensures
        ground(s, id) == (ground(&s.0, id) || ground(&s.1, id)),
        visible(&s.0, id) || visible(&s.1, id) ==> visible(s, id),
        covering(&s.0) && covering(&s.1) && visible(s, id) ==> visible(&s.0, id) || visible(
            &s.1,
            id,
        ),
{
    let o0 = spec_offset(id, spec_shift(1));
    let o1 = spec_offset(id, spec_shift(2));
    let o2 = spec_offset(id, spec_shift(3));
    lemma_row_is_small(id, spec_shift(0));
    lemma_row_is_small(id, spec_shift(1));
    lemma_row_is_small(id, spec_shift(2));
    lemma_row_is_small(id, spec_shift(3));
    lemma_combined(s.0.layer0_word(o0), s.1.layer0_word(o0), spec_row(id, spec_shift(0)));
    lemma_combined(s.0.layer1_word(o1), s.1.layer1_word(o1), spec_row(id, spec_shift(1)));
    lemma_combined(s.0.layer2_word(o2), s.1.layer2_word(o2), spec_row(id, spec_shift(2)));
    lemma_combined(s.0.layer3_word(), s.1.layer3_word(), spec_row(id, spec_shift(3)));
    if covering(&s.0) && covering(&s.1) && visible(s, id) {
        if ground(&s.0, id) {
            assert(visible(&s.0, id));
        } else {
            assert(ground(&s.1, id));
            assert(visible(&s.1, id));
        }
    }
}

/// An iteration over a complement yields exactly the indices, within the
/// range that four layers span, that are not in the ground layer of the
/// operand.
pub proof fn lemma_not<A: BitSetLike>(s: &BitSetNot<A>)
    ensures
        forall|id: Index| #[trigger] ground(s, id) == !ground(&s.0, id),
        members(s) == Set::new(
            |id: Index| spec_offset(id, spec_shift(3)) < usize::BITS && !ground(&s.0, id),
        ),
{
    assert forall|id: Index| #[trigger] ground(s, id) == !ground(&s.0, id) by {
        lemma_not_at(s, id);
    }
    assert forall|id: Index|
        visible(s, id) == (spec_offset(id, spec_shift(3)) < usize::BITS && !ground(&s.0, id)) by {
        lemma_not_at(s, id);
    }
    assert(members(s) =~= Set::new(
        |id: Index| spec_offset(id, spec_shift(3)) < usize::BITS && !ground(&s.0, id),
    ));
}

/// The complement at one index.
proof fn lemma_not_at<A: BitSetLike>(s: &BitSetNot<A>, id: Index)
    ensures
        ground(s, id) == !ground(&s.0, id),
        visible(s, id) == (spec_offset(id, spec_shift(3)) < usize::BITS && !ground(&s.0, id)),
{
    let o0 = spec_offset(id, spec_shift(1));
    lemma_row_is_small(id, spec_shift(0));
    lemma_row_is_small(id, spec_shift(1));
    lemma_row_is_small(id, spec_shift(2));
    lemma_row_is_small(id, spec_shift(3));
    lemma_combined(s.0.layer0_word(o0), 0, spec_row(id, spec_shift(0)));
    lemma_combined(0, 0, spec_row(id, spec_shift(1)));
    lemma_combined(0, 0, spec_row(id, spec_shift(2)));
    lemma_combined(0, 0, spec_row(id, spec_shift(3)));
}

} // verus!
