use cfg_core::bitset::BitSet;

fn collect_indices(bs: &BitSet<Vec<u8>>) -> Vec<usize> {
    bs.indices()
}

#[test]
fn bitset_test1() {
    // Two 10-bit vectors over two backing words, built from fixed word
    // patterns: word i of the first vector is
    // ((197 + i * 157) % 255) & 0b0110_1001, word i of the second is
    // ((100 + i * 37) % 255) & 0b1100_1011, and the second word of each is
    // masked to its two in-range bits.
    let mut word1: Vec<u8> = Vec::new();
    let mut word2: Vec<u8> = Vec::new();
    for i in 0..2usize {
        word1.push(((197 + i * 157) % 255) as u8 & 0b0110_1001);
        word2.push(((100 + i * 37) % 255) as u8 & 0b1100_1011);
    }
    word1[1] &= 0b1100_0000;
    word2[1] &= 0b1100_0000;

    let mut bitset1: BitSet<Vec<u8>> = BitSet::new(word1, 10);
    let bitset2: BitSet<Vec<u8>> = BitSet::new(word2, 10);

    assert_eq!(bitset1.size(), 10);
    assert_eq!(collect_indices(&bitset1), vec![1, 7, 9]);
    assert_eq!(collect_indices(&bitset2), vec![1, 8]);

    bitset1.insert(3);
    assert_eq!(collect_indices(&bitset1), vec![1, 3, 7, 9]);

    assert_eq!(collect_indices(&bitset1.union(&bitset2)), vec![1, 3, 7, 8, 9]);
    assert_eq!(collect_indices(&bitset1.intersection(&bitset2)), vec![1]);
    assert_eq!(collect_indices(&bitset1.difference(&bitset2)), vec![3, 7, 9]);
    assert_eq!(
        collect_indices(&bitset1.symmetric_difference(&bitset2)),
        vec![3, 7, 8, 9]
    );

    // The operands are left untouched by the set algebra.
    assert_eq!(collect_indices(&bitset1), vec![1, 3, 7, 9]);
    assert_eq!(collect_indices(&bitset2), vec![1, 8]);

    for (i, value) in collect_indices(&bitset1).into_iter().enumerate() {
        println!("i: {}, value: {}", i, value);
    }

    let concatenated = bitset1.concatenate(&bitset2);
    assert_eq!(concatenated.size(), 20);
    assert_eq!(collect_indices(&concatenated), vec![1, 3, 7, 9, 11, 18]);
    assert_eq!(collect_indices(&bitset1), vec![1, 3, 7, 9]);

    // Insert the low indices one by one and re-derive the ascending index
    // walk after each insertion.
    for i in 0..5usize {
        bitset1.insert(i);
        for symb in collect_indices(&bitset1) {
            println!("value youpi: {}", symb);
        }
    }
    assert_eq!(collect_indices(&bitset1), vec![0, 1, 2, 3, 4, 7, 9]);
}

#[test]
fn bitset_nul_test1() {
    // A 4-bit universe of symbol ids 0..4.  The first vector starts as
    // {0, 2} (the low bits of (197 % 255) & 0b1111), the second as {2} (the
    // low bits of (100 % 255) & 0b1111).
    let mut bitset1: BitSet<Vec<u8>> = BitSet::<Vec<u8>>::new_filled(false, 4);
    let mut bitset2: BitSet<Vec<u8>> = BitSet::<Vec<u8>>::new_filled(false, 4);
    bitset1.insert(0);
    bitset1.insert(2);
    bitset2.insert(2);

    bitset1.insert(3);
    assert_eq!(collect_indices(&bitset1), vec![0, 2, 3]);

    assert_eq!(collect_indices(&bitset1.union(&bitset2)), vec![0, 2, 3]);
    assert_eq!(collect_indices(&bitset1.intersection(&bitset2)), vec![2]);
    assert_eq!(collect_indices(&bitset1.difference(&bitset2)), vec![0, 3]);
    assert_eq!(
        collect_indices(&bitset1.symmetric_difference(&bitset2)),
        vec![0, 3]
    );

    for symb in collect_indices(&bitset1) {
        println!("symb: {}", symb);
    }
}

#[test]
fn bitset_table_test1() {
    // The 10-bit scenario again, this time building the vectors through the
    // membership interface alone.
    let mut bitset1: BitSet<Vec<u8>> = BitSet::<Vec<u8>>::new_filled(false, 10);
    let mut bitset2: BitSet<Vec<u8>> = BitSet::<Vec<u8>>::new_filled(false, 10);
    for i in [1usize, 7, 9] {
        bitset1.insert(i);
    }
    for i in [1usize, 8] {
        bitset2.insert(i);
    }

    bitset1.insert(3);
    assert_eq!(collect_indices(&bitset1), vec![1, 3, 7, 9]);

    assert_eq!(collect_indices(&bitset1.union(&bitset2)), vec![1, 3, 7, 8, 9]);
    assert_eq!(collect_indices(&bitset1.intersection(&bitset2)), vec![1]);
    assert_eq!(collect_indices(&bitset1.difference(&bitset2)), vec![3, 7, 9]);
    assert_eq!(
        collect_indices(&bitset1.symmetric_difference(&bitset2)),
        vec![3, 7, 8, 9]
    );

    for (i, value) in collect_indices(&bitset1).into_iter().enumerate() {
        println!("i: {}, value: {}", i, value);
    }

    let concatenated = bitset1.concatenate(&bitset2);
    assert_eq!(concatenated.size(), 20);
    assert_eq!(collect_indices(&concatenated), vec![1, 3, 7, 9, 11, 18]);
}

#[test]
fn union_and_intersection_ordering_laws() {
    let mut a: BitSet<Vec<u8>> = BitSet::<Vec<u8>>::new_filled(false, 19);
    let mut b: BitSet<Vec<u8>> = BitSet::<Vec<u8>>::new_filled(false, 19);
    for i in [0usize, 3, 8, 15, 18] {
        a.insert(i);
    }
    for i in [3usize, 9, 15] {
        b.insert(i);
    }
    let u = a.union(&b);
    assert!(u.is_superset(&a));
    assert!(u.is_superset(&b));
    let x = a.intersection(&b);
    assert!(x.is_subset(&a));
    assert!(x.is_subset(&b));
    let d = a.difference(&b);
    assert!(d.is_disjoint(&b));
    let sd = a.symmetric_difference(&b);
    let alt = a.union(&b).difference(&a.intersection(&b));
    for i in 0..19usize {
        assert_eq!(sd.contains(i), alt.contains(i));
    }
    let cc = a.complement().complement();
    for i in 0..19usize {
        assert_eq!(cc.contains(i), a.contains(i));
    }
}

#[test]
fn insert_remove_roundtrip_updates_len() {
    let mut a: BitSet<Vec<u8>> = BitSet::<Vec<u8>>::new_filled(false, 12);
    assert!(a.is_empty());
    assert_eq!(a.len(), 0);
    a.insert(5);
    assert!(a.contains(5));
    assert_eq!(a.len(), 1);
    // Inserting an already present index leaves the cardinality alone.
    a.insert(5);
    assert!(a.contains(5));
    assert_eq!(a.len(), 1);
    a.insert(11);
    assert_eq!(a.len(), 2);
    a.remove(5);
    assert!(!a.contains(5));
    assert_eq!(a.len(), 1);
    a.remove(5);
    assert_eq!(a.len(), 1);
    a.set_value(0, true);
    a.set_value(11, false);
    assert_eq!(a.indices(), vec![0]);
}

#[test]
fn concatenate_repacks_across_word_boundaries() {
    // 13 is not a multiple of the word width, so the tail of the first
    // vector and the head of the second share a word in the result.
    let mut a: BitSet<Vec<u8>> = BitSet::<Vec<u8>>::new_filled(false, 13);
    let mut b: BitSet<Vec<u8>> = BitSet::<Vec<u8>>::new_filled(false, 11);
    for i in [0usize, 7, 12] {
        a.insert(i);
    }
    for j in [0usize, 1, 10] {
        b.insert(j);
    }
    let c = a.concatenate(&b);
    assert_eq!(c.size(), 24);
    for i in 0..13usize {
        assert_eq!(c.contains(i), a.contains(i));
    }
    for j in 0..11usize {
        assert_eq!(c.contains(13 + j), b.contains(j));
    }
    assert_eq!(c.indices(), vec![0, 7, 12, 13, 14, 23]);
}

#[test]
fn fill_clear_and_complement_respect_the_universe() {
    let mut a: BitSet<Vec<u8>> = BitSet::<Vec<u8>>::new_filled(false, 10);
    a.fill();
    assert_eq!(a.len(), 10);
    assert!(!a.is_empty());
    let none = a.complement();
    assert!(none.is_empty());
    assert_eq!(none.len(), 0);
    a.clear();
    assert!(a.is_empty());
    let all = a.complement();
    assert_eq!(all.len(), 10);
    assert_eq!(all.indices(), vec![0, 1, 2, 3, 4, 5, 6, 7, 8, 9]);
}

#[test]
fn update_variants_match_their_pure_counterparts() {
    let mut a: BitSet<Vec<u8>> = BitSet::<Vec<u8>>::new_filled(false, 9);
    let mut b: BitSet<Vec<u8>> = BitSet::<Vec<u8>>::new_filled(false, 9);
    for i in [0usize, 2, 8] {
        a.insert(i);
    }
    for i in [2usize, 5] {
        b.insert(i);
    }
    let mut u = BitSet::<Vec<u8>>::new_filled(false, 9);
    for i in [0usize, 2, 8] {
        u.insert(i);
    }
    u.update_union(&b);
    assert_eq!(u.indices(), a.union(&b).indices());
    let mut x = BitSet::<Vec<u8>>::new_filled(false, 9);
    for i in [0usize, 2, 8] {
        x.insert(i);
    }
    x.update_intersection(&b);
    assert_eq!(x.indices(), a.intersection(&b).indices());
    let mut d = BitSet::<Vec<u8>>::new_filled(false, 9);
    for i in [0usize, 2, 8] {
        d.insert(i);
    }
    d.update_difference(&b);
    assert_eq!(d.indices(), a.difference(&b).indices());
    let mut s = BitSet::<Vec<u8>>::new_filled(false, 9);
    for i in [0usize, 2, 8] {
        s.insert(i);
    }
    s.update_symmetric_difference(&b);
    assert_eq!(s.indices(), a.symmetric_difference(&b).indices());
    let mut c = BitSet::<Vec<u8>>::new_filled(false, 9);
    for i in [0usize, 2, 8] {
        c.insert(i);
    }
    c.update_complement();
    assert_eq!(c.indices(), a.complement().indices());
    b.update_complement();
    assert_eq!(b.indices(), vec![0, 1, 3, 4, 6, 7, 8]);
}

#[test]
fn new_filled_true_sets_every_index() {
    let a: BitSet<Vec<u8>> = BitSet::<Vec<u8>>::new_filled(true, 11);
    assert_eq!(a.size(), 11);
    assert_eq!(a.len(), 11);
    for i in 0..11usize {
        assert!(a.contains(i));
    }
    let b: BitSet<Vec<u8>> = BitSet::<Vec<u8>>::new_filled(true, 11);
    assert!(a.is_subset(&b));
    assert!(a.is_superset(&b));
}

#[test]
fn new_masks_table_bits_beyond_the_size() {
    // Bits of the backing word at or beyond the size are don't-care: they
    // never appear in any observation.
    let a: BitSet<Vec<u8>> = BitSet::new(vec![0b1111_1111u8], 3);
    assert_eq!(a.size(), 3);
    assert_eq!(a.len(), 3);
    assert_eq!(a.indices(), vec![0, 1, 2]);
    let full: BitSet<Vec<u8>> = BitSet::<Vec<u8>>::new_filled(true, 3);
    assert!(a.is_subset(&full));
    assert!(full.is_subset(&a));
}

#[test]
fn the_empty_universe() {
    let a: BitSet<Vec<u8>> = BitSet::<Vec<u8>>::new_filled(false, 0);
    assert_eq!(a.size(), 0);
    assert!(a.is_empty());
    assert_eq!(a.len(), 0);
    assert_eq!(a.indices(), Vec::<usize>::new());
    let b: BitSet<Vec<u8>> = BitSet::<Vec<u8>>::new_filled(true, 0);
    assert!(a.is_subset(&b));
    let c = a.concatenate(&b);
    assert_eq!(c.size(), 0);
}

#[test]
fn cloning_reads_the_same_members() {
    let mut a: BitSet<Vec<u8>> = BitSet::<Vec<u8>>::new_filled(false, 17);
    for i in [0usize, 8, 16] {
        a.insert(i);
    }
    let b = a.clone();
    assert_eq!(b.size(), 17);
    assert_eq!(b.indices(), vec![0, 8, 16]);
    a.remove(8);
    assert_eq!(b.indices(), vec![0, 8, 16]);
    assert_eq!(a.indices(), vec![0, 16]);
}
