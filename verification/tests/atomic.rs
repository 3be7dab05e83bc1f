use hibitset::util::{holds, only_holds, above_word, shift, MAX_EID};
use hibitset::{AtomicBitSet, BitSet, BitSetAnd, BitSetLike, BitSetNot, BitSetOr};

fn drain<T: BitSetLike>(set: T, limit: usize) -> Vec<u32> {
    let mut it = set.iter();
    let mut out = Vec::new();
    while out.len() < limit {
        match it.next() {
            Some(i) => out.push(i),
            None => break,
        }
    }
    out
}

#[test]
fn atomic_insert() {
    let c = AtomicBitSet::new();
    for i in 0..1_000 {
        assert!(!c.add(i));
        assert!(c.add(i));
    }
    for i in 0..1_000 {
        assert!(c.contains(i));
    }
    assert!(!c.contains(1_000));
}

#[test]
fn atomic_insert_100k() {
    let c = AtomicBitSet::new();
    for i in 0..100_000 {
        assert!(!c.add(i));
        assert!(c.add(i));
    }
    for i in 0..100_000 {
        assert!(c.contains(i));
    }
}

#[test]
fn atomic_remove() {
    let c = AtomicBitSet::new();
    for i in 0..1_000 {
        assert!(!c.add(i));
    }
    for i in 0..1_000 {
        assert!(c.contains(i));
        assert!(c.remove(i));
        assert!(!c.contains(i));
        assert!(!c.remove(i));
    }
    assert_eq!(c.layer3(), 0);
    assert_eq!(c.layer2(0), 0);
    assert_eq!(c.layer1(0), 0);
    assert_eq!(c.layer0(0), 0);
}

#[test]
fn atomic_remove_of_absent_index() {
    let c = AtomicBitSet::new();
    assert!(!c.remove(0));
    assert!(!c.remove(MAX_EID));
    assert!(!c.remove(u32::MAX));
    assert!(!c.contains(u32::MAX));
    assert!(!c.add(MAX_EID));
    assert!(c.contains(MAX_EID));
    assert!(c.remove(MAX_EID));
    assert_eq!(c.layer3(), 0);
}

#[test]
fn atomic_iter() {
    let c = AtomicBitSet::new();
    for i in 0..100_000 {
        c.add(i);
    }
    let mut count = 0;
    let mut it = (&c).iter();
    let mut idx: usize = 0;
    while let Some(i) = it.next() {
        count += 1;
        assert_eq!(idx, i as usize);
        idx += 1;
    }
    assert_eq!(count, 100_000);
}

#[test]
fn atomic_layers_follow_the_owned_set() {
    let a = AtomicBitSet::default();
    let mut b = BitSet::new();
    let ids = [0u32, 1, 63, 64, 4_095, 4_096, 70_000, 262_143, 262_144, 1_000_000, MAX_EID];
    for &id in ids.iter() {
        assert_eq!(a.add(id), b.add(id));
    }
    assert_eq!(a.layer3(), b.layer3());
    for i in 0..64 {
        assert_eq!(a.layer2(i), b.layer2(i));
    }
    for i in 0..1_100 {
        assert_eq!(a.layer1(i), b.layer1(i));
    }
    for i in 0..33_000 {
        assert_eq!(a.layer0(i), b.layer0(i));
    }
    assert_eq!(a.layer0(usize::MAX), 0);
    assert_eq!(a.layer1(usize::MAX), 0);
    assert_eq!(a.layer2(usize::MAX), 0);
    assert_eq!(drain(&a, usize::MAX), ids.to_vec());
    for &id in ids.iter().step_by(2) {
        assert_eq!(a.remove(id), b.remove(id));
    }
    assert_eq!(a.layer3(), b.layer3());
    for i in 0..64 {
        assert_eq!(a.layer2(i), b.layer2(i));
    }
    for i in 0..1_100 {
        assert_eq!(a.layer1(i), b.layer1(i));
    }
    assert_eq!(drain(&a, usize::MAX), drain(&b, usize::MAX));
}

#[test]
fn atomic_combines_with_owned() {
    let a = AtomicBitSet::new();
    let mut b = BitSet::new();
    for i in 0..100 {
        a.add(i);
        if i % 5 == 0 {
            b.add(i + 50);
        }
    }
    let both = drain(BitSetAnd(&a, &b), usize::MAX);
    assert_eq!(both, vec![50, 55, 60, 65, 70, 75, 80, 85, 90, 95]);
    let either = drain(BitSetOr(&a, &b), usize::MAX);
    assert_eq!(either.len(), 110);
    assert_eq!(either[109], 145);
    assert_eq!(drain(BitSetNot(&a), 3), vec![100, 101, 102]);
}

#[test]
fn holds_tests_the_bit_of_an_index() {
    assert!(holds(0b100, 2, 0));
    assert!(!holds(0b100, 3, 0));
    assert!(!holds(0, 0, 0));
    assert!(holds(usize::MAX, 12_345, shift(1)));
    let w = usize::BITS;
    assert!(holds(0b10, w, shift(1)));
    assert!(!holds(0b10, w, shift(0)));
}

#[test]
fn only_holds_tells_whether_clearing_empties() {
    assert!(only_holds(0b100, 2, 0));
    assert!(only_holds(0, 2, 0));
    assert!(!only_holds(0b110, 2, 0));
    assert!(!only_holds(0b100, 3, 0));
    let w = usize::BITS;
    assert!(only_holds(0b10, w, shift(1)));
    assert!(!only_holds(0b11, w, shift(1)));
}

#[test]
fn above_word_splits_a_position() {
    let w = usize::BITS as usize;
    assert_eq!(above_word(0), (0, 0));
    assert_eq!(above_word(w - 1), (0, w - 1));
    assert_eq!(above_word(w), (1, 0));
    assert_eq!(above_word(5 * w + 7), (5, 7));
}
