//! A bit set of fixed capacity whose bits can be set and cleared through a
//! shared reference, from several threads at once. Every word is an atomic
//! word, and every update of a layer is one atomic read-modify-write.
//!
//! What another thread does between two such steps is not known, so the
//! functions here promise no more of their results than how they are
//! computed from the words that the atomic operations returned.

use vstd::prelude::*;
use std::sync::atomic::{AtomicUsize, Ordering};
use atom::AtomSetOnce;
use crate::bits::{lemma_beyond_limit, lemma_offsets_in_range};
use crate::util::{
    above_word, holds, mask, offset, offsets, only_holds, row, shift, spec_offset, spec_shift,
    width, Index, MAX_EID,
};
use crate::BitSetLike;

verus! {

/// The ground words under one word of layer 1: one for each bit of it.
struct Words {
    words: Vec<AtomicUsize>,
}

impl Words {
    #[verifier::type_invariant]
    spec fn full(&self) -> bool {
        self.words@.len() == usize::BITS
    }

    /// As many zero words as a word has bits.
    fn new() -> (w: Words)
        ensures
            w.words@.len() == usize::BITS,
    {
        let n = width();
        let mut words: Vec<AtomicUsize> = Vec::new();
        while words.len() < n
            invariant
                words@.len() <= n,
            decreases n - words@.len(),
        {
            words.push(AtomicUsize::new(0));
        }
        Words { words }
    }
}

/// An `AtomSetOnce` of the `atom` crate: a cell that holds nothing at first
/// and can be set once, through a shared reference. It is opaque here:
/// nothing is known of whether it holds something, only that what it holds
/// is a `Words` that was put into it.
#[verifier::external_body]
struct Cell {
    inner: AtomSetOnce<Box<Words>>,
}

/// `AtomSetOnce::empty`: makes a cell. Nothing is claimed of it.
#[verifier::external_body]
fn cell_empty() -> Cell {
    Cell { inner: AtomSetOnce::empty() }
}

/// `AtomSetOnce::set_if_none`: puts `words` into the cell if the cell holds
/// nothing, and hands `words` back if it holds something. Nothing is claimed
/// of which of the two happened, since another thread may have set the cell.
#[verifier::external_body]
fn cell_set_if_none(cell: &Cell, words: Box<Words>) -> Option<Box<Words>> {
    cell.inner.set_if_none(words)
}

/// `AtomSetOnce::get`: a reference to what the cell holds, if it holds
/// something. Nothing is claimed of whether it does. What it holds was put
/// there by `cell_set_if_none`, so it is a `Words` as any other.
#[verifier::external_body]
fn cell_get(cell: &Cell) -> Option<&Words> {
    cell.inner.get()
}

/// One word of layer 1 with the ground words under it, which are allocated
/// when the first bit is set in them.
struct AtomicBlock {
    mask: AtomicUsize,
    atom: Cell,
}

impl AtomicBlock {
    fn new() -> AtomicBlock {
        AtomicBlock { mask: AtomicUsize::new(0), atom: cell_empty() }
    }

    /// The ground words, allocated if they were not.
    fn words(&self) -> Option<&Words> {
        match cell_get(&self.atom) {
            Some(l0) => Some(l0),
            None => {
                // A cell is set once and then stays as it is, so the second
                // read finds the words, whoever has put them there.
                let _ = cell_set_if_none(&self.atom, Box::new(Words::new()));
                cell_get(&self.atom)
            },
        }
    }

    fn add(&self, id: Index) -> bool {
        match self.words() {
            Some(l0) => {
                proof {
                    use_type_invariant(l0);
                }
                let old = l0.words[row(id, shift(1))].fetch_or(
                    mask(id, shift(0)),
                    Ordering::Relaxed,
                );
                self.mask.fetch_or(mask(id, shift(1)), Ordering::Relaxed);
                holds(old, id, shift(0))
            },
            None => false,
        }
    }

    fn contains(&self, id: Index) -> bool {
        match cell_get(&self.atom) {
            Some(l0) => {
                proof {
                    use_type_invariant(l0);
                }
                holds(l0.words[row(id, shift(1))].load(Ordering::Relaxed), id, shift(0))
            },
            None => false,
        }
    }

    /// Clears the bit of `id` in its ground word, and in the word of layer 1
    /// if that left the ground word empty. Returns whether the bit was set,
    /// and whether the word of layer 1 was left empty, which it only is when
    /// the bit was set.
    fn remove(&self, id: Index) -> (r: (bool, bool))
        ensures
            r.1 ==> r.0,
    {
        match cell_get(&self.atom) {
            Some(l0) => {
                proof {
                    use_type_invariant(l0);
                }
                let old = l0.words[row(id, shift(1))].fetch_and(
                    !mask(id, shift(0)),
                    Ordering::Relaxed,
                );
                if !holds(old, id, shift(0)) {
                    return (false, false);
                }
                if !only_holds(old, id, shift(0)) {
                    return (true, false);
                }
                let old = self.mask.fetch_and(!mask(id, shift(1)), Ordering::Relaxed);
                (true, only_holds(old, id, shift(1)))
            },
            None => (false, false),
        }
    }

    fn word(&self, slot: usize) -> usize
        requires
            slot < usize::BITS,
    {
        match cell_get(&self.atom) {
            Some(l0) => {
                proof {
                    use_type_invariant(l0);
                }
                l0.words[slot].load(Ordering::Relaxed)
            },
            None => 0,
        }
    }
}

/// A set of indices up to `MAX_EID` that several threads can add to and
/// remove from at once, without a lock.
pub struct AtomicBitSet {
    layer3: AtomicUsize,
    layer2: Vec<AtomicUsize>,
    layer1: Vec<AtomicBlock>,
}

impl AtomicBitSet {
    /// Whether the layers have a word for every index up to `MAX_EID`.
    pub closed spec fn wf(&self) -> bool {
        &&& self.layer2@.len() == spec_offset(MAX_EID, spec_shift(3)) + 1
        &&& self.layer1@.len() == spec_offset(MAX_EID, spec_shift(2)) + 1
    }

    /// Creates an empty set with room for every index up to `MAX_EID`.
    pub fn new() -> (s: AtomicBitSet)
        ensures
            s.wf(),
    {
        proof {
            lemma_offsets_in_range(MAX_EID);
        }
        let n2 = offset(MAX_EID, shift(3)) + 1;
        let n1 = offset(MAX_EID, shift(2)) + 1;
        let mut layer2: Vec<AtomicUsize> = Vec::new();
        while layer2.len() < n2
            invariant
                layer2@.len() <= n2,
            decreases n2 - layer2@.len(),
        {
            layer2.push(AtomicUsize::new(0));
        }
        let mut layer1: Vec<AtomicBlock> = Vec::new();
        while layer1.len() < n1
            invariant
                layer1@.len() <= n1,
            decreases n1 - layer1@.len(),
        {
            layer1.push(AtomicBlock::new());
        }
        AtomicBitSet { layer3: AtomicUsize::new(0), layer2, layer1 }
    }

    /// Sets the bit of `id` in every layer, each with one atomic OR, from
    /// the ground layer up. Returns whether the ground word held the bit
    /// before.
    pub fn add(&self, id: Index) -> bool
        requires
            self.wf(),
            id <= MAX_EID,
    {
        let (_, o1, o2) = offsets(id);
        proof {
            lemma_offsets_in_range(id);
        }
        let set = self.layer1[o1].add(id);
        self.layer2[o2].fetch_or(mask(id, shift(2)), Ordering::Relaxed);
        self.layer3.fetch_or(mask(id, shift(3)), Ordering::Relaxed);
        set
    }

    /// Clears the bit of `id` in the ground layer with one atomic AND, and
    /// in each layer above as long as the AND below left its word empty.
    /// Returns whether the ground word held the bit before. An index beyond
    /// `MAX_EID` is not in the set: for it no word is touched and `false` is
    /// returned.
    pub fn remove(&self, id: Index) -> (was: bool)
        requires
            self.wf(),
        ensures
            id > MAX_EID ==> !was,
    {
        let (_, o1, o2) = offsets(id);
        proof {
            lemma_beyond_limit(id, 0);
        }
        if o1 >= self.layer1.len() || o2 >= self.layer2.len() {
            return false;
        }
        let (was, emptied) = self.layer1[o1].remove(id);
        if !emptied {
            return was;
        }
        let old = self.layer2[o2].fetch_and(!mask(id, shift(2)), Ordering::Relaxed);
        if only_holds(old, id, shift(2)) {
            self.layer3.fetch_and(!mask(id, shift(3)), Ordering::Relaxed);
        }
        was
    }

    /// Returns whether the ground word of `id` holds its bit at the time it
    /// is read. An index beyond `MAX_EID` is not in the set.
    pub fn contains(&self, id: Index) -> (r: bool)
        ensures
            self.wf() && id > MAX_EID ==> !r,
    {
        let o1 = offset(id, shift(2));
        proof {
            lemma_beyond_limit(id, 0);
        }
        o1 < self.layer1.len() && self.layer1[o1].contains(id)
    }
}

impl Default for AtomicBitSet {
    /// An empty set.
    fn default() -> (s: AtomicBitSet)
        ensures
            s.wf(),
    {
        AtomicBitSet::new()
    }
}

impl BitSetLike for AtomicBitSet {
    /// Other threads may change the words between two reads.
    open spec fn steady(&self) -> bool {
        false
    }

    open spec fn layer3_word(&self) -> usize {
        0
    }

    open spec fn layer2_word(&self, i: usize) -> usize {
        0
    }

    open spec fn layer1_word(&self, i: usize) -> usize {
        0
    }

    open spec fn layer0_word(&self, i: usize) -> usize {
        0
    }

    fn layer3(&self) -> (w: usize) {
        self.layer3.load(Ordering::Relaxed)
    }

    /// Beyond the word of the limit every word of layer 2 reads as zero.
    fn layer2(&self, i: usize) -> (w: usize)
        ensures
            self.wf() && i > spec_offset(MAX_EID, spec_shift(3)) ==> w == 0,
    {
        if i < self.layer2.len() {
            self.layer2[i].load(Ordering::Relaxed)
        } else {
            0
        }
    }

    /// Beyond the word of the limit every word of layer 1 reads as zero.
    fn layer1(&self, i: usize) -> (w: usize)
        ensures
            self.wf() && i > spec_offset(MAX_EID, spec_shift(2)) ==> w == 0,
    {
        if i < self.layer1.len() {
            self.layer1[i].mask.load(Ordering::Relaxed)
        } else {
            0
        }
    }

    /// Beyond the word of the limit every word of layer 0 reads as zero.
    fn layer0(&self, i: usize) -> (w: usize)
        ensures
            self.wf() && i > spec_offset(MAX_EID, spec_shift(1)) ==> w == 0,
    {
        let (block, slot) = above_word(i);
        proof {
            lemma_beyond_limit(0, i);
        }
        if block < self.layer1.len() {
            self.layer1[block].word(slot)
        } else {
            0
        }
    }
}

} // verus!
