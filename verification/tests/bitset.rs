use hibitset::util::MAX_EID;
use hibitset::{BitSet, BitSetAnd, BitSetLike, BitSetNot, BitSetOr};

#[test]
fn insert() {
    let mut c = BitSet::new();
    for i in 0..1_000 {
        assert!(!c.add(i));
        assert!(c.add(i));
    }

    for i in 0..1_000 {
        assert!(c.contains(i));
    }
}

#[test]
fn insert_100k() {
    let mut c = BitSet::new();
    for i in 0..100_000 {
        assert!(!c.add(i));
        assert!(c.add(i));
    }

    for i in 0..100_000 {
        assert!(c.contains(i));
    }
}

#[test]
fn remove() {
    let mut c = BitSet::new();
    for i in 0..1_000 {
        assert!(!c.add(i));
    }

    for i in 0..1_000 {
        assert!(c.contains(i));
        assert!(c.remove(i));
        assert!(!c.contains(i));
        assert!(!c.remove(i));
    }
}

#[test]
fn iter() {
    let mut c = BitSet::new();
    for i in 0..100_000 {
        c.add(i);
    }

    let mut count = 0;
    let mut it = c.iter();
    let mut idx: usize = 0;
    while let Some(i) = it.next() {
        count += 1;
        assert_eq!(idx, i as usize);
        idx += 1;
    }
    assert_eq!(count, 100_000);
}

fn count<T: BitSetLike>(set: T) -> usize {
    let mut it = set.iter();
    let mut n = 0;
    while it.next().is_some() {
        n += 1;
    }
    n
}

fn collect<T: BitSetLike>(set: T, limit: usize) -> Vec<u32> {
    let mut it = set.iter();
    let mut out = Vec::new();
    while out.len() < limit {
        match it.next() {
            Some(i) => out.push(i),
            None => break,
        }
    }
    out
}

#[test]
fn iter_odd_even() {
    let mut odd = BitSet::new();
    let mut even = BitSet::new();
    for i in 0..100_000 {
        if i % 2 == 1 {
            odd.add(i);
        } else {
            even.add(i);
        }
    }

    assert_eq!(count(&odd), 50_000);
    assert_eq!(count(&even), 50_000);
    assert_eq!(count(BitSetAnd(&odd, &even)), 0);
}

#[test]
fn not() {
    let mut c = BitSet::new();
    for i in 0..10_000 {
        if i % 2 == 1 {
            c.add(i);
        }
    }
    let d = BitSetNot(c);
    let first = d.iter().take(5_000);
    assert_eq!(first.len(), 5_000);
    for (idx, i) in first.into_iter().enumerate() {
        assert_eq!(idx * 2, i as usize);
    }
}

#[test]
fn take_yields_the_least_in_order_and_goes_on() {
    let mut c = BitSet::new();
    for &i in [900_000u32, 5, 64, 4_096, 6, 262_144].iter() {
        c.add(i);
    }
    let mut it = (&c).iter();
    assert_eq!(it.take(0), Vec::<u32>::new());
    assert_eq!(it.take(2), vec![5, 6]);
    assert_eq!(it.next(), Some(64));
    assert_eq!(it.take(10), vec![4_096, 262_144, 900_000]);
    assert_eq!(it.take(10), Vec::<u32>::new());
    assert_eq!(it.next(), None);
    assert_eq!((&c).iter().take(usize::MAX), vec![5, 6, 64, 4_096, 262_144, 900_000]);
}

#[test]
fn new_set_is_empty() {
    let c = BitSet::new();
    assert!(!c.contains(0));
    assert!(!c.contains(MAX_EID));
    assert_eq!(c.layer3(), 0);
    assert_eq!(c.layer2(0), 0);
    assert_eq!(c.layer1(0), 0);
    assert_eq!(c.layer0(0), 0);
    assert_eq!(count(&c), 0);
    let mut it = c.iter();
    assert_eq!(it.next(), None);
    assert_eq!(it.next(), None);
}

#[test]
fn first_add_reports_absent_then_present() {
    let mut c = BitSet::new();
    assert!(!c.add(57_213));
    assert!(c.contains(57_213));
    assert!(c.add(57_213));
    assert!(c.add(57_213));
    assert!(c.contains(57_213));
    assert!(!c.add(3));
    assert!(c.remove(3));
    assert!(c.contains(57_213));
    assert_eq!(collect(&c, 10), vec![57_213]);
}

#[test]
fn remove_after_add_round_trip() {
    let mut c = BitSet::new();
    assert!(!c.remove(77));
    assert!(!c.add(77));
    assert!(c.remove(77));
    assert!(!c.contains(77));
    assert!(!c.remove(77));
    assert_eq!(c.layer3(), 0);
    assert_eq!(c.layer2(0), 0);
    assert_eq!(c.layer1(0), 0);
    assert_eq!(c.layer0(1), 0);
}

#[test]
fn remove_of_unallocated_index_allocates_nothing() {
    let mut c = BitSet::new();
    c.add(1);
    assert!(!c.remove(MAX_EID));
    assert!(!c.remove(u32::MAX));
    assert!(!c.contains(u32::MAX));
    assert_eq!(collect(&c, 10), vec![1]);
}

#[test]
fn remove_keeps_summary_while_siblings_stay() {
    let w = usize::BITS;
    let mut c = BitSet::new();
    c.add(0);
    c.add(1);
    c.add(w);
    assert_eq!(c.layer0(0), 0b11);
    assert_eq!(c.layer0(1), 0b1);
    assert_eq!(c.layer1(0), 0b11);
    assert_eq!(c.layer2(0), 0b1);
    assert_eq!(c.layer3(), 0b1);
    assert!(c.remove(0));
    assert_eq!(c.layer0(0), 0b10);
    assert_eq!(c.layer1(0), 0b11);
    assert!(c.remove(1));
    assert_eq!(c.layer0(0), 0);
    assert_eq!(c.layer1(0), 0b10);
    assert_eq!(c.layer2(0), 0b1);
    assert_eq!(c.layer3(), 0b1);
    assert!(c.remove(w));
    assert_eq!(c.layer1(0), 0);
    assert_eq!(c.layer2(0), 0);
    assert_eq!(c.layer3(), 0);
}

#[test]
fn add_sets_every_layer() {
    let w = usize::BITS;
    let id = w * w * w + w * w * 2 + w * 3 + 4;
    let mut c = BitSet::new();
    assert!(!c.add(id));
    assert_eq!(c.layer3(), 1 << 1);
    assert_eq!(c.layer2(1), 1 << 2);
    assert_eq!(c.layer1((w + 2) as usize), 1 << 3);
    assert_eq!(c.layer0((w * w + w * 2 + 3) as usize), 1 << 4);
    assert_eq!(c.layer2(0), 0);
    assert_eq!(c.layer1(0), 0);
    assert_eq!(c.layer0(0), 0);
    assert_eq!(collect(&c, 10), vec![id]);
}

#[test]
fn accessors_return_zero_beyond_extent() {
    let mut c = BitSet::new();
    c.add(5);
    assert_eq!(c.layer0(1_000_000), 0);
    assert_eq!(c.layer1(1_000_000), 0);
    assert_eq!(c.layer2(1_000_000), 0);
    assert_eq!(c.layer0(usize::MAX), 0);
    let r = &c;
    assert_eq!(r.layer0(0), 1 << 5);
    assert_eq!(r.layer1(0), 1);
    assert_eq!(r.layer2(0), 1);
    assert_eq!(r.layer3(), 1);
    assert_eq!(r.layer0(7), 0);
}

#[test]
fn with_capacity_is_empty_and_takes_indices() {
    let mut c = BitSet::with_capacity(MAX_EID);
    assert!(!c.contains(0));
    assert!(!c.contains(MAX_EID));
    assert_eq!(count(&c), 0);
    assert!(!c.add(MAX_EID));
    assert!(c.contains(MAX_EID));
    assert!(!c.add(0));
    assert_eq!(collect(&c, 10), vec![0, MAX_EID]);
    let mut d = BitSet::with_capacity(0);
    assert!(!d.add(12_345));
    assert!(d.contains(12_345));
}

#[test]
fn valid_range_is_the_limit() {
    assert!(BitSet::valid_range(0));
    assert!(BitSet::valid_range(1_048_575));
    assert!(!BitSet::valid_range(1_048_576));
    assert!(!BitSet::valid_range(u32::MAX));
    assert_eq!(MAX_EID, 1_048_575);
}

#[test]
fn clear_empties_the_set() {
    let mut c = BitSet::new();
    for i in 0..5_000 {
        c.add(i * 7);
    }
    c.clear();
    assert_eq!(c.layer3(), 0);
    assert_eq!(count(&c), 0);
    for i in 0..5_000 {
        assert!(!c.contains(i * 7));
    }
    assert!(!c.add(9));
    assert_eq!(collect(&c, 10), vec![9]);
}

#[test]
fn scale_to_a_million() {
    let mut c = BitSet::new();
    for i in 0..1_000_000 {
        assert!(!c.add(i));
    }
    for i in 0..1_000_000 {
        assert!(c.contains(i));
    }
    assert!(!c.contains(1_000_000));
    assert_eq!(count(&c), 1_000_000);
}

#[test]
fn default_is_new() {
    let c = BitSet::default();
    assert_eq!(c.layer3(), 0);
    assert_eq!(count(c), 0);
}

#[test]
fn clone_keeps_the_members() {
    let mut c = BitSet::new();
    c.add(10);
    c.add(20_000);
    let d = c.clone();
    c.remove(10);
    assert_eq!(collect(&d, 10), vec![10, 20_000]);
    assert_eq!(collect(&c, 10), vec![20_000]);
}

fn step(state: &mut u64) -> u32 {
    *state = state.wrapping_mul(6364136223846793005).wrapping_add(1442695040888963407);
    (*state >> 33) as u32
}

fn check_hierarchy(c: &BitSet) {
    let w = usize::BITS as usize;
    let n0 = (MAX_EID as usize + 1) / w;
    let n1 = n0 / w;
    let n2 = (n1 + w - 1) / w;
    for k in 0..n0 {
        let bit = (c.layer1(k / w) >> (k % w)) & 1;
        assert_eq!(bit == 1, c.layer0(k) != 0);
    }
    for k in 0..n1 {
        let bit = (c.layer2(k / w) >> (k % w)) & 1;
        assert_eq!(bit == 1, c.layer1(k) != 0);
    }
    for k in 0..w {
        let bit = (c.layer3() >> k) & 1;
        assert_eq!(bit == 1, k < n2.max(1) * w && c.layer2(k) != 0);
    }
}

#[test]
fn hierarchy_holds_after_each_operation() {
    let mut c = BitSet::new();
    let mut model = std::collections::BTreeSet::new();
    let mut state = 42u64;
    for round in 0..400 {
        let id = step(&mut state) % 3_000 * 349 % (MAX_EID + 1);
        if step(&mut state) % 3 == 0 {
            assert_eq!(c.remove(id), model.remove(&id));
        } else {
            assert_eq!(c.add(id), !model.insert(id));
        }
        if round % 8 == 0 {
            check_hierarchy(&c);
        }
    }
    check_hierarchy(&c);
    let all: Vec<u32> = model.iter().cloned().collect();
    assert_eq!(collect(&c, usize::MAX), all);
}

#[test]
fn and_yields_the_common_indices() {
    let mut a = BitSet::new();
    let mut b = BitSet::new();
    for i in 0..10_000 {
        if i % 2 == 0 {
            a.add(i);
        }
        if i % 3 == 0 {
            b.add(i);
        }
    }
    let both = collect(BitSetAnd(&a, &b), usize::MAX);
    let expected: Vec<u32> = (0..10_000).filter(|i| i % 6 == 0).collect();
    assert_eq!(both, expected);
    let and = BitSetAnd(&a, &b);
    assert_eq!(and.layer0(0), a.layer0(0) & b.layer0(0));
    assert_eq!(and.layer1(0), a.layer1(0) & b.layer1(0));
    assert_eq!(and.layer2(0), a.layer2(0) & b.layer2(0));
    assert_eq!(and.layer3(), a.layer3() & b.layer3());
}

#[test]
fn and_summary_may_stand_above_an_empty_word() {
    let mut a = BitSet::new();
    let mut b = BitSet::new();
    a.add(0);
    b.add(1);
    let and = BitSetAnd(&a, &b);
    assert_eq!(and.layer3(), 1);
    assert_eq!(and.layer1(0), 1);
    assert_eq!(and.layer0(0), 0);
    assert_eq!(count(and), 0);
}

#[test]
fn or_yields_the_indices_of_either() {
    let mut a = BitSet::new();
    let mut b = BitSet::new();
    a.add(3);
    a.add(70_000);
    b.add(3);
    b.add(4_100);
    b.add(900_000);
    let either = collect(BitSetOr(&a, &b), usize::MAX);
    assert_eq!(either, vec![3, 4_100, 70_000, 900_000]);
    let or = BitSetOr(&a, &b);
    assert_eq!(or.layer0(0), 1 << 3);
    assert_eq!(or.layer3(), a.layer3() | b.layer3());
    assert_eq!(or.layer2(0), a.layer2(0) | b.layer2(0));
    assert_eq!(or.layer1(1), a.layer1(1) | b.layer1(1));
}

#[test]
fn not_has_full_summaries_and_ends() {
    let mut a = BitSet::new();
    a.add(2);
    let n = BitSetNot(&a);
    assert_eq!(n.layer3(), usize::MAX);
    assert_eq!(n.layer2(9), usize::MAX);
    assert_eq!(n.layer1(9), usize::MAX);
    assert_eq!(n.layer0(0), !(1usize << 2));
    assert_eq!(n.layer0(1), usize::MAX);
    assert_eq!(collect(BitSetNot(&a), 4), vec![0, 1, 3, 4]);
    let w = usize::BITS as usize;
    assert_eq!(count(BitSetNot(&a)), w * w * w * w - 1);
}

#[test]
fn not_of_and_composes() {
    let mut a = BitSet::new();
    let mut b = BitSet::new();
    for i in 0..100 {
        a.add(i);
    }
    for i in 0..50 {
        b.add(i * 2);
    }
    let odd = collect(BitSetAnd(&a, BitSetNot(&b)), usize::MAX);
    let expected: Vec<u32> = (0..100).filter(|i| i % 2 == 1).collect();
    assert_eq!(odd, expected);
}
