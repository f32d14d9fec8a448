use fuzzsim::target::{evaluate, Op, Prog};

fn branch_then_crash() -> Prog {
    // Root coverage, then a branch on input[0] == 7 whose block records
    // coverage site 1 and then crashes; a failed test skips past the end.
    Prog {
        ops: vec![
            Op::Cov { id: 0 },
            Op::Branch { offset: 0, mask: 0xff, target: 7, skip: 4 },
            Op::Cov { id: 1 },
            Op::Crash { id: 0 },
        ],
        num_cov: 2,
        num_crash: 1,
        input_len: 4,
    }
}

#[test]
fn evaluate_taken_branch_fires_block_and_crash() {
    let prog = branch_then_crash();
    let input = vec![7u8, 0, 0, 0];
    let mut cov = vec![0u64; 2];
    let mut crash = vec![0u64; 1];
    let found = evaluate(&prog, &input, &mut cov, &mut crash);
    assert!(found);
    assert_eq!(cov, vec![1, 1]);
    assert_eq!(crash, vec![1]);
}

#[test]
fn evaluate_failed_branch_skips_block() {
    let prog = branch_then_crash();
    let input = vec![0u8, 0, 0, 0];
    let mut cov = vec![0u64; 2];
    let mut crash = vec![0u64; 1];
    let found = evaluate(&prog, &input, &mut cov, &mut crash);
    // Only the root fired, but that is still new coverage on a fresh run.
    assert!(found);
    assert_eq!(cov, vec![1, 0]);
    assert_eq!(crash, vec![0]);
}

#[test]
fn evaluate_refire_is_not_new_coverage() {
    let prog = branch_then_crash();
    let input = vec![0u8, 0, 0, 0];
    let mut cov = vec![0u64; 2];
    let mut crash = vec![0u64; 1];
    assert!(evaluate(&prog, &input, &mut cov, &mut crash));
    // The same path again: counters rise, nothing is newly discovered.
    let found = evaluate(&prog, &input, &mut cov, &mut crash);
    assert!(!found);
    assert_eq!(cov, vec![2, 0]);
}

#[test]
fn evaluate_crash_stops_the_path() {
    // A crash site inside the block; the coverage site after the block is
    // reached only when the crash did not fire.
    let prog = Prog {
        ops: vec![
            Op::Cov { id: 0 },
            Op::Branch { offset: 0, mask: 0b0000_1111, target: 3, skip: 3 },
            Op::Crash { id: 0 },
            Op::Cov { id: 1 },
        ],
        num_cov: 2,
        num_crash: 1,
        input_len: 2,
    };
    let mut cov = vec![0u64; 2];
    let mut crash = vec![0u64; 1];
    // input[0] & 0x0f == 3: the crash fires and evaluation stops at once.
    let found = evaluate(&prog, &vec![0x73u8, 0], &mut cov, &mut crash);
    assert!(found);
    assert_eq!(cov, vec![1, 0]);
    assert_eq!(crash, vec![1]);
    // A non-crashing input reaches the site after the block.
    let found2 = evaluate(&prog, &vec![0x00u8, 0], &mut cov, &mut crash);
    assert!(found2);
    assert_eq!(cov, vec![2, 1]);
    assert_eq!(crash, vec![1]);
}

#[test]
fn evaluate_counters_monotone() {
    // Monotonicity over successive calls, on concrete values.
    let prog = branch_then_crash();
    let mut cov = vec![0u64; 2];
    let mut crash = vec![0u64; 1];
    let inputs = [vec![7u8, 0, 0, 0], vec![1u8, 2, 3, 4], vec![7u8, 9, 9, 9]];
    let mut prev_cov = cov.clone();
    let mut prev_crash = crash.clone();
    for input in &inputs {
        evaluate(&prog, input, &mut cov, &mut crash);
        for i in 0..cov.len() {
            assert!(cov[i] >= prev_cov[i]);
        }
        for i in 0..crash.len() {
            assert!(crash[i] >= prev_crash[i]);
        }
        prev_cov = cov.clone();
        prev_crash = crash.clone();
    }
    assert_eq!(cov, vec![3, 2]);
    assert_eq!(crash, vec![2]);
}

#[test]
fn duplicate_copies_every_op() {
    let prog = branch_then_crash();
    let copy = prog.duplicate();
    assert_eq!(copy.num_cov, prog.num_cov);
    assert_eq!(copy.num_crash, prog.num_crash);
    assert_eq!(copy.input_len, prog.input_len);
    assert_eq!(copy.ops.len(), prog.ops.len());
    for i in 0..prog.ops.len() {
        assert_eq!(copy.ops[i], prog.ops[i]);
    }
}
