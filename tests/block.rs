use compacts::{Block, Kind, PopCount, Rle16, Seq16, SetOp};

fn block_of(vals: &[u16]) -> Block {
    let mut b = Block::new();
    for &v in vals {
        b.insert(v);
    }
    b
}

fn as_seq16(vals: &[u16]) -> Block {
    let mut b = Block::Seq16(Seq16::new());
    for &v in vals {
        b.insert(v);
    }
    b
}

fn as_rle16(vals: &[u16]) -> Block {
    let mut b = Block::Rle16(Rle16::new());
    for &v in vals {
        b.insert(v);
    }
    b
}

fn all_shapes(vals: &[u16]) -> Vec<Block> {
    vec![block_of(vals), as_seq16(vals), as_rle16(vals)]
}

#[test]
fn empty_block() {
    let b = Block::new();
    assert_eq!(b.count_ones(), 0);
    assert_eq!(b.count_zeros(), 65536);
    assert!(!b.contains(0));
    assert_eq!(b.iter(), Vec::<u16>::new());
    assert_eq!(b.select1(0), None);
    assert_eq!(b.rank1(65535), 0);
    assert_eq!(b.select0(0), Some(0));
    assert_eq!(b.kind(), Kind::Seq64);
}

#[test]
fn insert_and_remove_report_changes() {
    for mut b in all_shapes(&[]) {
        assert!(b.insert(7));
        assert!(!b.insert(7));
        assert!(b.contains(7));
        assert_eq!(b.count_ones(), 1);
        assert!(b.remove(7));
        assert!(!b.remove(7));
        assert!(!b.contains(7));
        assert_eq!(b.count_ones(), 0);
    }
}

#[test]
fn evens_optimize_to_seq16() {
    let evens: Vec<u16> = (0..4096u32).map(|i| (2 * i) as u16).collect();
    let mut b = block_of(&evens);
    assert_eq!(b.count_ones(), 4096);
    b.optimize();
    assert_eq!(b.kind(), Kind::Seq16);
    assert_eq!(b.iter(), evens);
}

#[test]
fn contiguous_range_optimizes_to_one_run() {
    let mut b = Block::new();
    for x in 1000u16..=60000 {
        b.insert(x);
    }
    b.optimize();
    assert_eq!(b.kind(), Kind::Rle16);
    assert_eq!(b.count_ones(), 59001);
    match &b {
        Block::Rle16(r) => assert_eq!(r.ranges, vec![(1000u16, 60000u16)]),
        _ => panic!("expected ranges"),
    }
    let stats = b.stats();
    assert_eq!(stats.ones, 59001);
    assert_eq!(stats.size, 16 + 4);
}

#[test]
fn pairwise_on_small_sets() {
    let a_vals = [0u16, 1, 2, 3];
    let b_vals = [2u16, 3, 4, 5];
    for a in all_shapes(&a_vals) {
        for b in all_shapes(&b_vals) {
            assert_eq!(a.intersection(&b).iter(), vec![2, 3]);
            assert_eq!(a.union(&b).iter(), vec![0, 1, 2, 3, 4, 5]);
            assert_eq!(a.difference(&b).iter(), vec![0, 1]);
            assert_eq!(a.symmetric_difference(&b).iter(), vec![0, 1, 4, 5]);

            let mut c = a.duplicate();
            c.intersection_with(&b);
            assert_eq!(c.iter(), vec![2, 3]);
            let mut c = a.duplicate();
            c.union_with(&b);
            assert_eq!(c.iter(), vec![0, 1, 2, 3, 4, 5]);
            let mut c = a.duplicate();
            c.difference_with(&b);
            assert_eq!(c.iter(), vec![0, 1]);
            let mut c = a.duplicate();
            c.symmetric_difference_with(&b);
            assert_eq!(c.iter(), vec![0, 1, 4, 5]);
        }
    }
}

#[test]
fn pairwise_weight_matches_iteration() {
    let a: Vec<u16> = (0..3000u32).map(|i| (i * 7 % 65536) as u16).collect();
    let b: Vec<u16> = (0..2000u32).map(|i| (i * 11 % 65536) as u16).collect();
    for x in all_shapes(&a) {
        for y in all_shapes(&b) {
            for op in [SetOp::Intersection, SetOp::Union, SetOp::Difference, SetOp::SymmetricDifference] {
                let r = x.pairwise(&y, op);
                assert_eq!(r.count_ones() as usize, r.iter().len());
            }
        }
    }
}

#[test]
fn representations_iterate_identically() {
    let vals: Vec<u16> = vec![0, 1, 2, 9, 100, 101, 4000, 65534, 65535];
    let outs: Vec<Vec<u16>> = all_shapes(&vals).iter().map(|b| b.iter()).collect();
    assert_eq!(outs[0], vals);
    assert_eq!(outs[1], vals);
    assert_eq!(outs[2], vals);
}

#[test]
fn rank_and_select_agree() {
    let vals: Vec<u16> = vec![3, 4, 5, 70, 71, 1000, 65535];
    for b in all_shapes(&vals) {
        assert_eq!(b.rank1(0), 0);
        assert_eq!(b.rank1(4), 1);
        assert_eq!(b.rank1(71), 4);
        assert_eq!(b.rank1(65535), 6);
        for (k, &v) in vals.iter().enumerate() {
            assert_eq!(b.select1(k as u32), Some(v));
            assert_eq!(b.rank1(v), k as u32);
        }
        assert_eq!(b.select1(vals.len() as u32), None);
        assert_eq!(b.rank0(6), 3);
        assert_eq!(b.select0(0), Some(0));
        assert_eq!(b.select0(3), Some(6));
        assert_eq!(b.select0(65536 - 7), None);
    }
}

#[test]
fn full_block() {
    let mut b = Block::new();
    for x in 0..=65535u16 {
        b.insert(x);
    }
    assert_eq!(b.count_ones(), 65536);
    assert_eq!(b.count_zeros(), 0);
    assert_eq!(b.select0(0), None);
    assert_eq!(b.select1(65535), Some(65535));
    b.optimize();
    assert_eq!(b.kind(), Kind::Rle16);
    assert_eq!(b.count_ones(), 65536);
    assert_eq!(b.rank1(65535), 65535);
}

#[test]
fn single_ranges_at_the_edges() {
    let mut b = as_rle16(&[0]);
    assert_eq!(b.iter(), vec![0]);
    b.remove(0);
    b.insert(65535);
    assert_eq!(b.iter(), vec![65535]);
    match &b {
        Block::Rle16(r) => assert_eq!(r.ranges, vec![(65535u16, 65535u16)]),
        _ => panic!("expected ranges"),
    }
}

#[test]
fn adjacent_singletons_merge() {
    let b = as_rle16(&[5, 7, 6]);
    match &b {
        Block::Rle16(r) => {
            assert_eq!(r.ranges, vec![(5u16, 7u16)]);
            assert_eq!(r.weight, 3);
        }
        _ => panic!("expected ranges"),
    }
    let mut c = as_rle16(&[5, 6, 7]);
    c.remove(6);
    match &c {
        Block::Rle16(r) => assert_eq!(r.ranges, vec![(5u16, 5u16), (7u16, 7u16)]),
        _ => panic!("expected ranges"),
    }
}

#[test]
fn dense_block_at_reshape_boundary() {
    let vals: Vec<u16> = (0..4096u32).map(|i| (i * 3) as u16).collect();
    let mut b = block_of(&vals);
    assert_eq!(b.count_ones(), 4096);
    b.optimize();
    assert_eq!(b.kind(), Kind::Seq16);
    let more: Vec<u16> = (0..4097u32).map(|i| (i * 3) as u16).collect();
    let mut c = as_seq16(&more);
    c.optimize();
    assert_eq!(c.kind(), Kind::Seq64);
}

#[test]
fn optimize_keeps_members_and_is_idempotent() {
    let vals: Vec<u16> = vec![1, 2, 3, 10, 11, 500];
    for mut b in all_shapes(&vals) {
        b.optimize();
        let kind = b.kind();
        assert_eq!(b.iter(), vals);
        b.optimize();
        assert_eq!(b.kind(), kind);
        assert_eq!(b.iter(), vals);
    }
}

#[test]
fn round_trip_through_iteration() {
    let vals: Vec<u16> = vec![0, 8, 9, 10, 30000, 65535];
    for b in all_shapes(&vals) {
        let r = Block::from_iter(&b.iter());
        assert_eq!(r.iter(), b.iter());
    }
}

#[test]
fn mem_size_per_representation() {
    assert_eq!(as_seq16(&[1, 2, 3]).mem_size(), 16 + 2 * 3);
    assert_eq!(block_of(&[1, 2, 3]).mem_size(), 16 + 8 * 1024);
    assert_eq!(as_rle16(&[1, 2, 3, 9]).mem_size(), 16 + 4 * 2);
}

#[test]
fn clear_and_shrink_keep_contracts() {
    let mut b = as_seq16(&[4, 5, 6]);
    b.shrink_to_fit();
    assert_eq!(b.iter(), vec![4, 5, 6]);
    assert_eq!(b.kind(), Kind::Seq16);
    b.clear();
    assert_eq!(b.count_ones(), 0);
    assert_eq!(b.kind(), Kind::Seq64);
}

#[test]
fn pop_count_counts_to_full() {
    let mut p = PopCount::new(65535);
    assert_eq!(p.cardinality(), 65535);
    p.incr();
    assert_eq!(p, PopCount::Full);
    assert_eq!(p.cardinality(), 65536);
    p.decr();
    assert_eq!(p, PopCount::Ones(65535));
    assert_eq!(PopCount::new(0).cardinality(), 0);
}

#[test]
fn index_reports_membership() {
    for b in all_shapes(&[10, 11]) {
        assert!(b.index(10));
        assert!(!b.index(12));
    }
    let d = Block::default();
    assert_eq!(d.count_ones(), 0);
}
