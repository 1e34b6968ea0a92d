use cplib::succint_bit_vector::SuccintBitVector;
use rand::Rng;

#[test]
fn test_succint_index_dict() {
    let mut rng = rand::thread_rng();
    let mut v = vec![];
    let len = 10000;
    for _ in 0..len {
        let x = rng.gen::<bool>();
        v.push(x);
    }
    let dict = SuccintBitVector::new_from(v.clone());
    for i in 0..len {
        assert_eq!(dict.access(i), v[i]);
    }
    {
        let mut rank1 = 0;
        for i in 0..len {
            if v[i] {
                rank1 += 1;
            }
            assert_eq!(dict.rank(true, i + 1), rank1);
            assert_eq!(dict.rank(false, i + 1), i + 1 - rank1);
        }
    }
    let mut true_count = 0;
    let mut false_count = 0;
    for i in 0..len {
        if v[i] {
            assert_eq!(dict.select(true, true_count), Some(i));
            true_count += 1;
        } else {
            assert_eq!(dict.select(false, false_count), Some(i));
            false_count += 1;
        }
    }
}

/// A small linear congruential generator, so that the test is reproducible.
fn pseudo_random_bits(len: usize, mut seed: u64) -> Vec<bool> {
    let mut v = Vec::with_capacity(len);
    for _ in 0..len {
        seed = seed.wrapping_mul(6364136223846793005).wrapping_add(1442695040888963407);
        v.push((seed >> 33) & 1 == 1);
    }
    v
}

#[test]
fn round_trip_against_linear_scan() {
    for &(len, seed) in &[(10_000usize, 7u64), (65_536, 11), (100_000, 3)] {
        let v = pseudo_random_bits(len, seed);
        let dict = SuccintBitVector::new_from(v.clone());
        for i in 0..len {
            assert_eq!(dict.access(i), v[i]);
        }
        for &b in &[true, false] {
            let positions: Vec<usize> = (0..len).filter(|&i| v[i] == b).collect();
            assert_eq!(dict.rank_all(b), positions.len());
            for (k, &p) in positions.iter().enumerate() {
                assert_eq!(dict.select(b, k), Some(p));
                assert_eq!(dict.rank(b, p), k);
            }
            assert_eq!(dict.select(b, positions.len()), None);
            assert_eq!(dict.select(b, positions.len() + 5), None);
        }
        assert_eq!(dict.rank_all(true) + dict.rank_all(false), len);
    }
}

#[test]
fn concrete_five_bits() {
    let dict = SuccintBitVector::new_from(vec![true, false, true, true, false]);
    assert_eq!(dict.rank(true, 0), 0);
    assert_eq!(dict.rank(true, 3), 2);
    assert_eq!(dict.rank(true, 5), 3);
    assert_eq!(dict.rank(false, 5), 2);
    assert_eq!(dict.select(true, 0), Some(0));
    assert_eq!(dict.select(true, 1), Some(2));
    assert_eq!(dict.select(true, 2), Some(3));
    assert_eq!(dict.select(true, 3), None);
    assert_eq!(dict.select(false, 0), Some(1));
    assert_eq!(dict.select(false, 1), Some(4));
    assert_eq!(dict.select(false, 2), None);
    assert_eq!(dict.rank_all(true), 3);
    assert_eq!(dict.rank_all(false), 2);
}

#[test]
fn one_full_large_block_of_ones() {
    let dict = SuccintBitVector::new_from(vec![true; 1024]);
    assert_eq!(dict.get_large(true, 0), 0);
    assert_eq!(dict.get_large(true, 1), 1024);
    assert_eq!(dict.get_large(false, 1), 0);
    assert_eq!(dict.get_small(true, 64), 0);
    assert_eq!(dict.get_small(true, 63), 1008);
    assert_eq!(dict.rank(true, 1024), 1024);
    assert_eq!(dict.rank(false, 1024), 0);
    assert_eq!(dict.select(true, 1023), Some(1023));
    assert_eq!(dict.select(true, 1024), None);
    assert_eq!(dict.select(false, 0), None);
}

#[test]
fn empty_sequence() {
    let dict = SuccintBitVector::new_from(vec![]);
    assert_eq!(dict.rank(true, 0), 0);
    assert_eq!(dict.rank(false, 0), 0);
    assert_eq!(dict.rank_all(true), 0);
    assert_eq!(dict.rank_all(false), 0);
    assert_eq!(dict.select(true, 0), None);
    assert_eq!(dict.select(false, 0), None);
}

#[test]
fn zeros_ending_on_a_small_block_boundary() {
    let dict = SuccintBitVector::new_from(vec![false; 32]);
    assert_eq!(dict.rank(true, 32), 0);
    assert_eq!(dict.rank(false, 32), 32);
    assert_eq!(dict.get_small(false, 1), 16);
    assert_eq!(dict.select(false, 31), Some(31));
    assert_eq!(dict.select(false, 32), None);
}

#[test]
fn ones_spanning_two_large_blocks() {
    let mut v = vec![false; 2000];
    v[1023] = true;
    v[1024] = true;
    v[1999] = true;
    let dict = SuccintBitVector::new_from(v);
    assert_eq!(dict.select(true, 0), Some(1023));
    assert_eq!(dict.select(true, 1), Some(1024));
    assert_eq!(dict.select(true, 2), Some(1999));
    assert_eq!(dict.select(true, 3), None);
    assert_eq!(dict.rank(true, 1024), 1);
    assert_eq!(dict.rank(true, 2000), 3);
    assert_eq!(dict.select(false, 1023), Some(1025));
    assert_eq!(dict.get_large(false, 1), 1023);
}

#[test]
fn rank_complement_and_monotone() {
    let v = pseudo_random_bits(3000, 42);
    let dict = SuccintBitVector::new_from(v);
    let mut last = [0usize; 2];
    for i in 0..=3000 {
        let t = dict.rank(true, i);
        let f = dict.rank(false, i);
        assert_eq!(t + f, i);
        assert!(t >= last[1] && f >= last[0]);
        last = [f, t];
    }
}
