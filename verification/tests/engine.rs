use fuzzsim::engine::{Config, Fuzzer, StepOutcome, TimeBudget, Uptime};
use fuzzsim::rng::Rng;
use fuzzsim::target::{generate, GenParams, Op, Prog};

fn root_only_target() -> Prog {
    Prog { ops: vec![Op::Cov { id: 0 }], num_cov: 1, num_crash: 0, input_len: 32 }
}

fn small_target() -> Prog {
    // A seeded random target over a small bit space, so runs finish quickly.
    let params = GenParams {
        max_input_size_bits: 8,
        if_chance: 2,
        end_block_chance: 2,
        crash_chance: 4,
        non_coverage_crash_chance: 8,
        done_chance: 4,
        min_blocks: 2,
        min_crashes: 0,
        max_alloc_failures: 1,
        alloc_attempts: 1000,
        max_iterations: 1 << 20,
    };
    let mut rng = Rng::from_seed(0xabcdef);
    generate(&mut rng, &params)
}

fn config(workers: usize, tc: Option<TimeBudget>) -> Config {
    Config {
        coverage_guided: true,
        shared_inputs: true,
        shared_results: true,
        workers,
        time_constraint: tc,
    }
}

#[test]
fn counter_shards_sized_to_reported_counts() {
    // Site cardinality: the slots a run operates on equal the generator's
    // reported coverage and crash counts exactly.
    let prog = small_target();
    let num_cov = prog.num_cov;
    let num_crash = prog.num_crash;
    let f = Fuzzer::new(prog, config(3, None), 5);
    assert_eq!(f.coverage_slots(0), num_cov);
    assert_eq!(f.crash_slots(0), num_crash);
    assert_eq!(f.discovered_coverage(0), 0);
    assert_eq!(f.discovered_crashes(0), 0);
    assert_eq!(f.corpus_len(0), 0);
    assert_eq!(f.cases_run(), 0);
}

#[test]
fn first_step_feeds_corpus() {
    // The root site always fires, so the very first case finds new coverage
    // and is fed back into the corpus.
    let prog = small_target();
    let mut f = Fuzzer::new(prog, config(2, None), 11);
    let out = f.step();
    assert!(matches!(out, StepOutcome::Continue | StepOutcome::Done(_)));
    assert_eq!(f.corpus_len(0), 1);
    assert_eq!(f.cases_run(), 1);
    assert!(f.discovered_coverage(0) >= 1);
}

#[test]
fn corpus_and_coverage_never_shrink() {
    let prog = small_target();
    let mut f = Fuzzer::new(prog, config(2, None), 17);
    let mut last_corpus = 0;
    let mut last_discovered = 0;
    for _ in 0..200 {
        let out = f.step();
        let corpus = f.corpus_len(0);
        let discovered = f.discovered_coverage(0);
        assert!(corpus >= last_corpus);
        assert!(discovered >= last_discovered);
        last_corpus = corpus;
        last_discovered = discovered;
        if !matches!(out, StepOutcome::Continue) {
            break;
        }
    }
}

#[test]
fn minimal_target_completes_on_first_case() {
    // Full coverage implies the success outcome: a one-site target is fully
    // covered by the first case, whatever the worker count, so the elapsed
    // time is exactly 1 / workers.
    for workers in [1usize, 4, 33] {
        let mut f = Fuzzer::new(root_only_target(), config(workers, None), 2024);
        let got = f.start();
        assert_eq!(got, Ok(Uptime { cases: 1, workers }));
        assert_eq!(f.discovered_coverage(0), 1);
    }
}

#[test]
fn timeout_takes_precedence_and_reports_discovered() {
    // With a budget of one uptime unit and one worker, the first case already
    // exhausts the budget — even though it also reaches full coverage, the
    // timeout check comes first and the run reports Err with the discovered
    // count.
    let mut f = Fuzzer::new(
        root_only_target(),
        config(1, Some(TimeBudget { num: 1, den: 1 })),
        77,
    );
    let got = f.start();
    assert_eq!(got, Err(1));
}

#[test]
fn timeout_count_is_at_most_total_coverage() {
    let prog = small_target();
    let num_cov = prog.num_cov;
    // A tiny budget: the run times out after its first case.
    let mut f = Fuzzer::new(
        prog,
        config(4, Some(TimeBudget { num: 1, den: 4 })),
        123,
    );
    match f.start() {
        Err(n) => {
            assert!(n >= 1);
            assert!(n <= num_cov);
            assert_eq!(n, f.discovered_coverage(0));
            assert_eq!(f.cases_run(), 1);
        }
        Ok(_) => panic!("a one-case budget cannot cover this target"),
    }
}

#[test]
fn identical_seeds_run_identically() {
    // Determinism: same seed, same configuration, same target — the runs
    // pass through identical mutated inputs, case counts and outcomes.
    let p1 = small_target();
    let p2 = p1.duplicate();
    let mut a = Fuzzer::new(p1, config(3, None), 4242);
    let mut b = Fuzzer::new(p2, config(3, None), 4242);
    for _ in 0..100 {
        let oa = a.step();
        let ob = b.step();
        assert_eq!(oa, ob);
        assert_eq!(a.cases_run(), b.cases_run());
        assert_eq!(a.input_snapshot(), b.input_snapshot());
        assert_eq!(a.discovered_coverage(0), b.discovered_coverage(0));
        assert_eq!(a.corpus_len(0), b.corpus_len(0));
        if !matches!(oa, StepOutcome::Continue) {
            break;
        }
    }
}

#[test]
fn worker_count_does_not_change_final_coverage() {
    // Fully shared corpus and results, four workers against one, same target
    // and seed, run to completion without a budget: both reach the same final
    // discovered-coverage count; only the reported elapsed time may differ.
    let p1 = small_target();
    let p2 = p1.duplicate();
    let num_cov = p1.num_cov;
    let mut four = Fuzzer::new(p1, config(4, None), 31337);
    let mut one = Fuzzer::new(p2, config(1, None), 31337);
    let r4 = four.start();
    let r1 = one.start();
    assert!(r4.is_ok());
    assert!(r1.is_ok());
    assert_eq!(four.discovered_coverage(0), num_cov);
    assert_eq!(one.discovered_coverage(0), num_cov);
    assert_eq!(four.discovered_coverage(0), one.discovered_coverage(0));
    // With everything shared, the same number of cases is needed; only the
    // worker count, and so the normalized time, differs.
    let t4 = r4.unwrap();
    let t1 = r1.unwrap();
    assert_eq!(t4.cases, t1.cases);
    assert_eq!(t4.workers, 4);
    assert_eq!(t1.workers, 1);
}

#[test]
fn success_means_full_coverage_at_reported_time() {
    let prog = small_target();
    let num_cov = prog.num_cov;
    let mut f = Fuzzer::new(prog, config(2, None), 900);
    match f.start() {
        Ok(t) => {
            assert_eq!(f.discovered_coverage(0), num_cov);
            assert_eq!(t.workers, 2);
            assert_eq!(t.cases, f.cases_run());
        }
        Err(_) => panic!("no budget was set, so the run can only end in success"),
    }
}

#[test]
fn private_shards_stay_private() {
    // Without sharing, each worker has its own corpus and counter shard.
    let prog = small_target();
    let cfg = Config {
        coverage_guided: true,
        shared_inputs: false,
        shared_results: false,
        workers: 3,
        time_constraint: None,
    };
    let mut f = Fuzzer::new(prog, cfg, 8);
    // Worker 0 runs first: only shard 0 can have been fed.
    let out = f.step();
    assert!(matches!(out, StepOutcome::Continue | StepOutcome::Done(_)));
    assert_eq!(f.corpus_len(0), 1);
    assert_eq!(f.corpus_len(1), 0);
    assert_eq!(f.corpus_len(2), 0);
    assert!(f.discovered_coverage(0) >= 1);
    assert_eq!(f.discovered_coverage(1), 0);
    assert_eq!(f.discovered_coverage(2), 0);
}
