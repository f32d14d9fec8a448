use fuzzsim::bitalloc::BitAlloc;
use fuzzsim::engine::gen_heatmap;
use fuzzsim::rng::Rng;
use fuzzsim::target::{generate, GenParams, Op};

#[test]
fn rng_returns_state_then_advances() {
    let mut rng = Rng::from_seed(42);
    // The first draw is the seed itself; the rest follow the xorshift rounds.
    assert_eq!(rng.rand(), 0x2a);
    assert_eq!(rng.rand(), 0x2a01400000054028);
    assert_eq!(rng.rand(), 0x02a0010008001428);
    assert_eq!(rng.rand(), 0x2a0b51400a85116a);
}

#[test]
fn rng_default_seed_is_fixed() {
    let mut a = Rng::new();
    let mut b = Rng::new();
    assert_eq!(a.rand(), 0x2f7151ffd59720b3);
    assert_eq!(a.rand(), 0x3b8d31ea6427d873);
    // Two default generators draw identical sequences.
    assert_eq!(b.rand(), 0x2f7151ffd59720b3);
    assert_eq!(b.rand(), 0x3b8d31ea6427d873);
}

#[test]
fn bitalloc_grants_aligned_range() {
    // Seed 8: the first draw is 8, so the start bit is 8 % 8 == 0 and a full
    // byte-aligned run of eight bits is granted at once.
    let mut rng = Rng::from_seed(8);
    let mut alloc = BitAlloc::new(8);
    let got = alloc.allocate(&mut rng, 8, 10);
    assert_eq!(got, Some((0, 7)));
    // The whole space is claimed now: any further request must fail.
    assert_eq!(alloc.allocate(&mut rng, 1, 1000), None);
}

#[test]
fn bitalloc_ranges_disjoint_and_within_byte() {
    // The bit-disjointness law, checked on concrete draws: every granted
    // range stays inside one byte and never overlaps an earlier one.
    let mut rng = Rng::from_seed(7);
    let mut alloc = BitAlloc::new(256);
    let mut granted: Vec<(usize, usize)> = Vec::new();
    let mut width_rng = Rng::from_seed(1234);
    for _ in 0..60 {
        let width = (width_rng.rand() % 8 + 1) as usize;
        if let Some((s, e)) = alloc.allocate(&mut rng, width, 1000) {
            assert_eq!(e - s + 1, width);
            assert!(e < 256);
            assert_eq!(s / 8, e / 8);
            for &(ps, pe) in &granted {
                assert!(e < ps || pe < s, "ranges overlap: {:?} {:?}", (s, e), (ps, pe));
            }
            granted.push((s, e));
        }
    }
    assert!(granted.len() > 1);
}

#[test]
fn generate_minimal_target_is_root_only() {
    // With the done chance forced to trigger immediately and both minimums at
    // zero, the first round already stops: the target is the root coverage
    // site alone, with no crash sites.  Seed 1 draws 1 first, so the one-in-
    // four branch chance does not fire in that round.
    let params = GenParams {
        max_input_size_bits: 256,
        if_chance: 4,
        end_block_chance: 4,
        crash_chance: 8,
        non_coverage_crash_chance: 16,
        done_chance: 1,
        min_blocks: 0,
        min_crashes: 0,
        max_alloc_failures: 1,
        alloc_attempts: 1000,
        max_iterations: 1 << 20,
    };
    let mut rng = Rng::from_seed(1);
    let prog = generate(&mut rng, &params);
    assert_eq!(prog.num_cov, 1);
    assert_eq!(prog.num_crash, 0);
    assert_eq!(prog.input_len, 32);
    assert_eq!(prog.ops.len(), 1);
    assert_eq!(prog.ops[0], Op::Cov { id: 0 });
}

#[test]
fn generate_ids_are_dense_and_unique() {
    // The reported site counts are exact: each coverage id and each crash id
    // below the reported count labels exactly one op.
    let params = GenParams {
        max_input_size_bits: 64,
        if_chance: 2,
        end_block_chance: 3,
        crash_chance: 4,
        non_coverage_crash_chance: 8,
        done_chance: 16,
        min_blocks: 4,
        min_crashes: 1,
        max_alloc_failures: 1,
        alloc_attempts: 1000,
        max_iterations: 1 << 20,
    };
    let mut rng = Rng::from_seed(0xfeed);
    let prog = generate(&mut rng, &params);
    assert!(prog.num_cov >= 1);
    let mut cov_seen = vec![0usize; prog.num_cov];
    let mut crash_seen = vec![0usize; prog.num_crash];
    for op in &prog.ops {
        match *op {
            Op::Cov { id } => cov_seen[id] += 1,
            Op::Crash { id } => crash_seen[id] += 1,
            Op::Branch { offset, skip, .. } => {
                assert!(offset < prog.input_len);
                assert!(skip <= prog.ops.len());
            }
        }
    }
    for &n in &cov_seen {
        assert_eq!(n, 1);
    }
    for &n in &crash_seen {
        assert_eq!(n, 1);
    }
}

#[test]
fn generate_branch_predicates_disjoint() {
    // The tree half of bit disjointness: every branch reads a nonzero
    // contiguous masked run inside one byte, its target is restricted to the
    // mask, and no input bit is read by two branches.  The site counts stay
    // within the bit space.
    let params = GenParams::defaults();
    let mut rng = Rng::from_seed(0x5eed);
    let prog = generate(&mut rng, &params);
    assert!(prog.num_cov <= params.max_input_size_bits + 1);
    assert!(prog.num_crash <= params.max_input_size_bits);
    let mut read = vec![false; params.max_input_size_bits];
    let mut branches = 0usize;
    for op in &prog.ops {
        if let Op::Branch { offset, mask, target, skip: _ } = *op {
            branches += 1;
            assert!(mask != 0);
            assert!(target & !mask == 0);
            // Contiguity: the set bits of the mask form one run.
            let lo = mask.trailing_zeros();
            let width = 8 - mask.leading_zeros() - lo;
            assert_eq!(mask as u16, ((1u16 << width) - 1) << lo);
            for k in 0..8 {
                if mask >> k & 1 == 1 {
                    let bit = offset * 8 + k;
                    assert!(bit < params.max_input_size_bits);
                    assert!(!read[bit], "input bit {} read by two branches", bit);
                    read[bit] = true;
                }
            }
        }
    }
    assert!(branches > 0);
}

#[test]
fn generate_same_seed_same_target() {
    let params = GenParams::defaults();
    let mut r1 = Rng::from_seed(99);
    let mut r2 = Rng::from_seed(99);
    let p1 = generate(&mut r1, &params);
    let p2 = generate(&mut r2, &params);
    assert_eq!(p1.num_cov, p2.num_cov);
    assert_eq!(p1.num_crash, p2.num_crash);
    assert_eq!(p1.input_len, p2.input_len);
    assert_eq!(p1.ops.len(), p2.ops.len());
    for i in 0..p1.ops.len() {
        assert_eq!(p1.ops[i], p2.ops[i]);
    }
}

#[test]
fn defaults_match_documented_policy() {
    let p = GenParams::defaults();
    assert_eq!(p.max_input_size_bits, 256);
    assert_eq!(p.if_chance, 4);
    assert_eq!(p.end_block_chance, 4);
    assert_eq!(p.crash_chance, 8);
    assert_eq!(p.non_coverage_crash_chance, 16);
    assert_eq!(p.done_chance, 128);
    assert_eq!(p.min_blocks, 5000);
    assert_eq!(p.min_crashes, 200);
    assert_eq!(p.max_alloc_failures, 1);
    assert_eq!(p.alloc_attempts, 1000);
}

#[test]
fn heatmap_schedule_is_even_hundredths() {
    let budgets = gen_heatmap();
    assert_eq!(budgets.len(), 100);
    assert_eq!(budgets[0].num, 1);
    assert_eq!(budgets[0].den, 100);
    assert_eq!(budgets[41].num, 42);
    assert_eq!(budgets[41].den, 100);
    assert_eq!(budgets[99].num, 100);
    assert_eq!(budgets[99].den, 100);
}
