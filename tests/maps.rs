use compacts::{BitMap, Vec64};

#[test]
fn vec64_single_high_value() {
    let mut m = Vec64::new();
    assert!(!m.contains(1 << 50));
    assert!(m.insert(1 << 50));
    assert!(!m.insert(1 << 50));
    assert!(m.contains(1 << 50));
    assert_eq!(m.count_ones(), 1);
    // rank counts members strictly below the position
    assert_eq!(m.rank1(1 << 50), 0);
    assert_eq!(m.rank1((1 << 50) + 1), 1);
    assert_eq!(m.select1(0), Some(1 << 50));
    assert_eq!(m.select1(1), None);
}

#[test]
fn vec64_rank_across_shards() {
    let mut m = Vec64::new();
    m.insert(1 << 33);
    m.insert((1 << 33) + 1);
    m.insert(1 << 34);
    assert_eq!(m.rank1(1 << 34), 2);
    assert_eq!(m.rank1((1 << 34) + 1), 3);
    assert_eq!(m.select1(2), Some(1 << 34));
    assert_eq!(m.select1(0), Some(1 << 33));
    assert_eq!(m.iter(), vec![1 << 33, (1 << 33) + 1, 1 << 34]);
}

#[test]
fn vec64_remove_and_optimize() {
    let mut m = Vec64::new();
    assert!(m.insert(1 << 60));
    assert!(m.remove(1 << 60));
    assert!(!m.remove(1 << 60));
    assert_eq!(m.count_ones(), 0);
    assert_eq!(m.keys.len(), 1);
    m.optimize();
    assert_eq!(m.keys.len(), 0);
    assert_eq!(m.count_zeros(), 1u128 << 64);
}

#[test]
fn vec64_select0_counts_gaps() {
    let mut m = Vec64::new();
    m.insert(0);
    m.insert(1);
    m.insert(5);
    assert_eq!(m.select0(0), Some(2));
    assert_eq!(m.select0(3), Some(6));
    assert_eq!(m.rank0(6), 3);
}

#[test]
fn bit_map_basic() {
    let mut bits = BitMap::new();
    bits.insert(1);
    assert!(!bits.contains(0));
    assert!(bits.contains(1));
    assert!(!bits.contains(2));
    assert!(bits.insert(3));
    assert!(!bits.insert(3));
    assert_eq!(bits.count_ones(), 2);
    assert!(bits.remove(3));
    assert!(!bits.contains(3));
    assert_eq!(bits.count_ones(), 1);
    assert_eq!(bits.count_zeros(), (1u64 << 32) - 1);
}

#[test]
fn bit_map_rank_select_across_blocks() {
    let mut m = BitMap::new();
    for &x in &[5u32, 70000, 70001, 4_000_000_000] {
        m.insert(x);
    }
    assert_eq!(m.rank1(70000), 1);
    assert_eq!(m.rank1(70002), 3);
    assert_eq!(m.rank1(u32::MAX), 4);
    assert_eq!(m.select1(3), Some(4_000_000_000));
    assert_eq!(m.select1(4), None);
    assert_eq!(m.select0(5), Some(6));
    assert_eq!(m.rank0(6), 5);
    m.optimize();
    assert_eq!(m.iter(), vec![5, 70000, 70001, 4_000_000_000]);
}

fn pseudo_random(n: usize) -> Vec<u32> {
    let mut state: u64 = 0x2545_f491_4f6c_dd1d;
    let mut out = Vec::with_capacity(n);
    for _ in 0..n {
        state = state.wrapping_mul(6364136223846793005).wrapping_add(1442695040888963407);
        out.push((state >> 32) as u32);
    }
    out
}

#[test]
fn random_set_round_trip_and_rank_select() {
    let vals = pseudo_random(10_000);
    let m = BitMap::from_iter(&vals);
    let listed = m.iter();
    let again = BitMap::from_iter(&listed);
    assert_eq!(again.iter(), listed);
    let mut sorted = vals.clone();
    sorted.sort();
    sorted.dedup();
    assert_eq!(listed, sorted);
    let n = m.count_ones();
    assert_eq!(n as usize, sorted.len());
    for k in 0..n {
        let x = m.select1(k).unwrap();
        assert_eq!(m.rank1(x), k);
    }
}

#[test]
fn vec64_round_trip() {
    let vals: Vec<u64> = pseudo_random(500).iter().map(|&x| (x as u64) << 20 | 3).collect();
    let m = Vec64::from_iter(&vals);
    let again = Vec64::from_iter(&m.iter());
    assert_eq!(again.iter(), m.iter());
    for k in 0..m.count_ones() {
        let x = m.select1(k as u64).unwrap();
        assert_eq!(m.rank1(x), k);
    }
}

#[test]
fn bit_map_pairwise_across_blocks() {
    let a = BitMap::from_iter(&vec![0, 1, 2, 3, 70_000, 200_000]);
    let b = BitMap::from_iter(&vec![2, 3, 4, 5, 200_000, 300_000]);
    assert_eq!(a.intersection(&b).iter(), vec![2, 3, 200_000]);
    assert_eq!(a.union(&b).iter(), vec![0, 1, 2, 3, 4, 5, 70_000, 200_000, 300_000]);
    assert_eq!(a.difference(&b).iter(), vec![0, 1, 70_000]);
    assert_eq!(a.symmetric_difference(&b).iter(), vec![0, 1, 4, 5, 70_000, 300_000]);
    let mut c = BitMap::from_iter(&a.iter());
    c.union_with(&b);
    c.difference_with(&a);
    assert_eq!(c.iter(), vec![4, 5, 300_000]);
    c.symmetric_difference_with(&b);
    assert_eq!(c.iter(), vec![2, 3, 200_000]);
    c.intersection_with(&a);
    assert_eq!(c.iter(), vec![2, 3, 200_000]);
    assert!(c.index(200_000));
    assert!(!c.index(4));
}

#[test]
fn vec64_pairwise_across_shards() {
    let a = Vec64::from_iter(&vec![1, 1 << 40, (1 << 40) + 1]);
    let b = Vec64::from_iter(&vec![1 << 40, 1 << 50]);
    assert_eq!(a.intersection(&b).iter(), vec![1 << 40]);
    assert_eq!(a.union(&b).iter(), vec![1, 1 << 40, (1 << 40) + 1, 1 << 50]);
    assert_eq!(a.difference(&b).iter(), vec![1, (1 << 40) + 1]);
    assert_eq!(a.symmetric_difference(&b).iter(), vec![1, (1 << 40) + 1, 1 << 50]);
    let mut c = Vec64::from_iter(&a.iter());
    c.intersection_with(&b);
    assert_eq!(c.count_ones(), 1);
    assert!(c.index(1 << 40));
}

#[test]
fn map_mem_size_sums_blocks() {
    let mut m = BitMap::new();
    m.insert(1);
    m.insert(1 << 20);
    assert_eq!(m.mem_size(), 2 * (16 + 8 * 1024));
    m.optimize();
    assert_eq!(m.mem_size(), 2 * (16 + 2));
    let mut v = Vec64::new();
    v.insert(7);
    assert_eq!(v.mem_size(), 16 + 8 * 1024);
}
