use vstd::prelude::*;
use vstd::pervasive::VecAdditionalExecFns;
use crate::rng::{Rng, rng_next};
use crate::target::{EvalModel, Prog, count_nonzero, count_nonzero_seq, eval_from, evaluate};

verus! {

/// A time budget in uptime units (fuzz cases per worker), as the exact
/// rational `num / den`.
#[derive(Clone, Copy, PartialEq, Eq, Structural, Debug)]
pub struct TimeBudget {
    pub num: u64,
    pub den: u64,
}

/// One engine run's configuration, immutable for the run.
#[derive(Clone, Copy, Debug)]
pub struct Config {
    /// Overwrite the input from the corpus before mutating, when possible.
    pub coverage_guided: bool,
    /// All workers draw from and feed one shared corpus.
    pub shared_inputs: bool,
    /// All workers record coverage and crashes in one shared database.
    pub shared_results: bool,
    /// How many simulated workers advance in round-robin order.
    pub workers: usize,
    /// Stop and report discovered coverage once uptime reaches this budget.
    pub time_constraint: Option<TimeBudget>,
}

impl Config {
    /// At least one worker, and a positive budget denominator.
    pub open spec fn wf(&self) -> bool {
        &&& self.workers >= 1
        &&& match self.time_constraint {
            Some(b) => b.den >= 1,
            None => true,
        }
    }
}

/// The elapsed normalized time of a finished run: the exact rational
/// `cases / workers`, the wall-clock proxy under perfect parallelism.
#[derive(Clone, Copy, PartialEq, Eq, Structural, Debug)]
pub struct Uptime {
    pub cases: u64,
    pub workers: usize,
}

/// What one engine step decided: keep going, full coverage reached (the run's
/// success outcome, carrying the uptime), or the time budget exhausted
/// (carrying the resolved shard's discovered-coverage count).
#[derive(Clone, Copy, PartialEq, Eq, Structural, Debug)]
pub enum StepOutcome {
    Continue,
    Done(Uptime),
    Timeout(usize),
}

/// The mathematical state of a run: the generator state, the shared input
/// buffer, the case counter, the worker whose turn is next, and the per-shard
/// corpora and counter databases.
pub struct StateModel {
    pub rng: u64,
    pub input: Seq<u8>,
    pub cases: u64,
    pub worker: nat,
    pub corpora: Seq<Seq<Seq<u8>>>,
    pub coverage: Seq<Seq<u64>>,
    pub crashes: Seq<Seq<u64>>,
}

/// Corpus shard count: one when inputs are shared, else one per worker.
pub open spec fn num_input_shards(c: Config) -> int {
    if c.shared_inputs {
        1
    } else {
        c.workers as int
    }
}

/// Counter shard count: one when results are shared, else one per worker.
pub open spec fn num_output_shards(c: Config) -> int {
    if c.shared_results {
        1
    } else {
        c.workers as int
    }
}

/// The time budget is reached at `cases / workers >= num / den`; a case
/// counter at the top of its 64-bit range counts as exhausted too, since time
/// can no longer advance (a machine bound).
pub open spec fn time_exhausted(tc: Option<TimeBudget>, cases: u64, workers: usize) -> bool {
    ||| cases == u64::MAX
    ||| (tc matches Some(b) && cases * b.den >= b.num * workers)
}

/// A mutation round: `k` times, one random byte position is overwritten with
/// one random byte value; positions may coincide.
pub open spec fn spec_mutate(input: Seq<u8>, rng: u64, k: nat) -> (Seq<u8>, u64)
    decreases k,
{
    if k == 0 || input.len() == 0 {
        (input, rng)
    } else {
        let off = rng as int % input.len() as int;
        let rng1 = rng_next(rng);
        let val = (rng1 as int % 256) as u8;
        let rng2 = rng_next(rng1);
        spec_mutate(input.update(off, val), rng2, (k - 1) as nat)
    }
}

/// Mutation keeps the input length.
pub proof fn lemma_mutate_len(input: Seq<u8>, rng: u64, k: nat)
    ensures
        spec_mutate(input, rng, k).0.len() == input.len(),
    decreases k,
{
    if k == 0 || input.len() == 0 {
    } else {
        let off = rng as int % input.len() as int;
        let rng1 = rng_next(rng);
        let val = (rng1 as int % 256) as u8;
        let rng2 = rng_next(rng1);
        lemma_mutate_len(input.update(off, val), rng2, (k - 1) as nat);
    }
}

/// A valid run state for a target and configuration: the configuration and
/// target are well formed, the worker index is in range, the input buffer has
/// the target's input length, the shard counts follow the sharing flags, each
/// counter shard has exactly the target's reported site counts as its slot
/// counts, and every corpus entry has the input length.
pub open spec fn state_wf(p: Prog, c: Config, s: StateModel) -> bool {
    &&& p.wf()
    &&& c.wf()
    &&& s.worker < c.workers
    &&& s.input.len() == p.input_len
    &&& s.corpora.len() == num_input_shards(c)
    &&& s.coverage.len() == num_output_shards(c)
    &&& s.crashes.len() == num_output_shards(c)
    &&& forall|i: int| 0 <= i < s.coverage.len() ==> (#[trigger] s.coverage[i]).len() == p.num_cov
    &&& forall|i: int| 0 <= i < s.crashes.len() ==> (#[trigger] s.crashes[i]).len() == p.num_crash
    &&& forall|i: int, j: int|
        0 <= i < s.corpora.len() && 0 <= j < s.corpora[i].len() ==> (#[trigger] s.corpora[i][j]).len()
            == p.input_len
}

/// The corpus shard the next worker reads and feeds.
pub open spec fn step_shard_in(c: Config, s: StateModel) -> int {
    s.worker as int % num_input_shards(c)
}

/// The coverage/crash shard the next worker records into.
pub open spec fn step_shard_out(c: Config, s: StateModel) -> int {
    s.worker as int % num_output_shards(c)
}

/// The case counter after the step (saturating at the 64-bit top).
pub open spec fn step_cases(s: StateModel) -> u64 {
    if s.cases == u64::MAX {
        u64::MAX
    } else {
        (s.cases + 1) as u64
    }
}

/// The input buffer after corpus selection, with the generator state: under
/// coverage guidance a random corpus entry replaces the buffer when the shard
/// is nonempty; otherwise the buffer carries over unchanged.
pub open spec fn step_selected(c: Config, s: StateModel) -> (Seq<u8>, u64) {
    let corpus = s.corpora[step_shard_in(c, s)];
    if c.coverage_guided && corpus.len() > 0 {
        (corpus[s.rng as int % corpus.len() as int], rng_next(s.rng))
    } else {
        (s.input, s.rng)
    }
}

/// The input buffer after selection and mutation, with the generator state:
/// one to eight random byte overwrites.
pub open spec fn step_mutated(c: Config, s: StateModel) -> (Seq<u8>, u64) {
    let (inp1, rng1) = step_selected(c, s);
    let count = rng1 as int % 8 + 1;
    let rng2 = rng_next(rng1);
    spec_mutate(inp1, rng2, count as nat)
}

/// The evaluation of the mutated input against the resolved counter shard.
pub open spec fn step_eval(p: Prog, c: Config, s: StateModel) -> EvalModel {
    eval_from(
        p.ops@,
        step_mutated(c, s).0,
        0,
        s.coverage[step_shard_out(c, s)],
        s.crashes[step_shard_out(c, s)],
    )
}

/// The next worker index, round robin.
pub open spec fn step_worker(c: Config, s: StateModel) -> nat {
    if s.worker + 1 == c.workers {
        0
    } else {
        (s.worker + 1) as nat
    }
}

/// One engine step, exactly: count the case, resolve the worker's shards,
/// select and mutate the input, evaluate it, then — timeout taking precedence
/// — either report the shard's discovered coverage, or on new coverage feed
/// the input back into the corpus and finish if the shard's coverage is full.
pub open spec fn spec_step(p: Prog, c: Config, s: StateModel) -> (StateModel, StepOutcome) {
    let cases2 = step_cases(s);
    let idb = step_shard_in(c, s);
    let odb = step_shard_out(c, s);
    let (inp2, rng3) = step_mutated(c, s);
    let ev = step_eval(p, c, s);
    let s1 = StateModel {
        rng: rng3,
        input: inp2,
        cases: cases2,
        worker: step_worker(c, s),
        corpora: s.corpora,
        coverage: s.coverage.update(odb, ev.cov),
        crashes: s.crashes.update(odb, ev.crash),
    };
    if time_exhausted(c.time_constraint, cases2, c.workers) {
        (s1, StepOutcome::Timeout(count_nonzero_seq(ev.cov) as usize))
    } else if ev.found {
        let s2 = StateModel { corpora: s.corpora.update(idb, s.corpora[idb].push(inp2)), ..s1 };
        if count_nonzero_seq(ev.cov) == p.num_cov as nat {
            (s2, StepOutcome::Done(Uptime { cases: cases2, workers: c.workers }))
        } else {
            (s2, StepOutcome::Continue)
        }
    } else {
        (s1, StepOutcome::Continue)
    }
}

/// The state a run starts from: the generator state carries over, everything
/// else is fresh — a zeroed input buffer, case counter zero, worker zero,
/// empty corpora, and zeroed counter shards sized to the target's counts.
pub open spec fn spec_reset(p: Prog, c: Config, rng: u64) -> StateModel {
    StateModel {
        rng,
        input: Seq::new(p.input_len as nat, |i: int| 0u8),
        cases: 0,
        worker: 0,
        corpora: Seq::new(num_input_shards(c) as nat, |i: int| Seq::<Seq<u8>>::empty()),
        coverage: Seq::new(
            num_output_shards(c) as nat,
            |i: int| Seq::new(p.num_cov as nat, |j: int| 0u64),
        ),
        crashes: Seq::new(
            num_output_shards(c) as nat,
            |i: int| Seq::new(p.num_crash as nat, |j: int| 0u64),
        ),
    }
}

/// Running `n` engine steps from `s`, stopping early at the first outcome
/// that is not `Continue`.
pub open spec fn spec_run(p: Prog, c: Config, s: StateModel, n: nat) -> (StateModel, StepOutcome)
    decreases n,
{
    if n == 0 {
        (s, StepOutcome::Continue)
    } else {
        let (s1, out) = spec_step(p, c, s);
        if out is Continue {
            spec_run(p, c, s1, (n - 1) as nat)
        } else {
            (s1, out)
        }
    }
}

/// A run still going after `n` steps continues with one more step.
pub proof fn lemma_run_snoc(p: Prog, c: Config, s: StateModel, n: nat)
    requires
        spec_run(p, c, s, n).1 is Continue,
    ensures
        spec_run(p, c, s, n + 1) == spec_step(p, c, spec_run(p, c, s, n).0),
    decreases n,
{
    let (s1, out) = spec_step(p, c, s);
    assert(spec_step(p, c, s) == (s1, out));
    if n == 0 {
        assert(spec_run(p, c, s, n).0 == s);
        if out is Continue {
            assert(spec_run(p, c, s, n + 1) == spec_run(p, c, s1, 0nat));
            assert(spec_run(p, c, s1, 0nat) == (s1, StepOutcome::Continue));
            assert(out == StepOutcome::Continue);
        } else {
            assert(spec_run(p, c, s, n + 1) == (s1, out));
        }
    } else {
        if out is Continue {
            assert(spec_run(p, c, s, n) == spec_run(p, c, s1, (n - 1) as nat));
            assert(spec_run(p, c, s, n + 1) == spec_run(p, c, s1, n));
            lemma_run_snoc(p, c, s1, (n - 1) as nat);
        } else {
            assert(spec_run(p, c, s, n) == (s1, out));
            assert(false);
        }
    }
}

/// A step preserves validity of the run state.
pub proof fn lemma_step_wf(p: Prog, c: Config, s: StateModel)
    requires
        state_wf(p, c, s),
    ensures
        state_wf(p, c, spec_step(p, c, s).0),
{
    let idb = step_shard_in(c, s);
    let odb = step_shard_out(c, s);
    let (inp1, rng1) = step_selected(c, s);
    let count = rng1 as int % 8 + 1;
    lemma_mutate_len(inp1, rng_next(rng1), count as nat);
    crate::target::lemma_eval_monotone(
        p.ops@,
        step_mutated(c, s).0,
        0,
        s.coverage[odb],
        s.crashes[odb],
    );
    let s2 = spec_step(p, c, s).0;
    assert(s2.input.len() == p.input_len);
    assert forall|i: int| 0 <= i < s2.coverage.len() implies (#[trigger] s2.coverage[i]).len()
        == p.num_cov by {
        if i != odb {
            assert(s2.coverage[i] == s.coverage[i]);
        }
    }
    assert forall|i: int| 0 <= i < s2.crashes.len() implies (#[trigger] s2.crashes[i]).len()
        == p.num_crash by {
        if i != odb {
            assert(s2.crashes[i] == s.crashes[i]);
        }
    }
    assert forall|i: int, j: int|
        0 <= i < s2.corpora.len() && 0 <= j < s2.corpora[i].len() implies (
    #[trigger] s2.corpora[i][j]).len() == p.input_len by {
        if s2.corpora != s.corpora {
            assert(s2.corpora == s.corpora.update(idb, s.corpora[idb].push(s2.input)));
            if i == idb {
                if j < s.corpora[idb].len() {
                    assert(s2.corpora[i][j] == s.corpora[i][j]);
                } else {
                    assert(s2.corpora[i][j] == s2.input);
                }
            } else {
                assert(s2.corpora[i] == s.corpora[i]);
            }
        }
    }
}

/// Law: every counter shard a run operates on has exactly the target's
/// reported number of coverage and crash slots, at every step.
pub proof fn lemma_site_cardinality(p: Prog, c: Config, s: StateModel)
    requires
        state_wf(p, c, s),
    ensures
        forall|i: int| 0 <= i < s.coverage.len() ==> (#[trigger] s.coverage[i]).len() == p.num_cov,
        forall|i: int| 0 <= i < s.crashes.len() ==> (#[trigger] s.crashes[i]).len() == p.num_crash,
        s.coverage.len() == num_output_shards(c),
        s.crashes.len() == num_output_shards(c),
{
}

/// Law: within a run, every coverage and crash counter is non-decreasing over
/// successive steps.
pub proof fn lemma_step_monotone(p: Prog, c: Config, s: StateModel)
    requires
        state_wf(p, c, s),
    ensures
        ({
            let s2 = spec_step(p, c, s).0;
            &&& s2.coverage.len() == s.coverage.len()
            &&& s2.crashes.len() == s.crashes.len()
            &&& forall|i: int, j: int|
                0 <= i < s.coverage.len() && 0 <= j < s.coverage[i].len()
                    ==> #[trigger] s2.coverage[i][j] >= s.coverage[i][j]
            &&& forall|i: int, j: int|
                0 <= i < s.crashes.len() && 0 <= j < s.crashes[i].len()
                    ==> #[trigger] s2.crashes[i][j] >= s.crashes[i][j]
        }),
{
    let odb = step_shard_out(c, s);
    let ev = step_eval(p, c, s);
    crate::target::lemma_eval_monotone(
        p.ops@,
        step_mutated(c, s).0,
        0,
        s.coverage[odb],
        s.crashes[odb],
    );
    let s2 = spec_step(p, c, s).0;
    assert forall|i: int, j: int|
        0 <= i < s.coverage.len() && 0 <= j < s.coverage[i].len() implies #[trigger] s2.coverage[i][j]
        >= s.coverage[i][j] by {
        if i == odb {
            assert(s2.coverage[i] == ev.cov);
        } else {
            assert(s2.coverage[i] == s.coverage[i]);
        }
    }
    assert forall|i: int, j: int|
        0 <= i < s.crashes.len() && 0 <= j < s.crashes[i].len() implies #[trigger] s2.crashes[i][j]
        >= s.crashes[i][j] by {
        if i == odb {
            assert(s2.crashes[i] == ev.crash);
        } else {
            assert(s2.crashes[i] == s.crashes[i]);
        }
    }
}

/// Law: a shard's corpus never shrinks, and it grows — by exactly the mutated
/// input, on exactly the resolved shard — precisely when the evaluator found
/// new coverage and the time budget did not end the step first.
pub proof fn lemma_step_corpus_growth(p: Prog, c: Config, s: StateModel)
    requires
        state_wf(p, c, s),
    ensures
        ({
            let s2 = spec_step(p, c, s).0;
            let fed_back = step_eval(p, c, s).found && !time_exhausted(
                c.time_constraint,
                step_cases(s),
                c.workers,
            );
            &&& s2.corpora.len() == s.corpora.len()
            &&& forall|i: int|
                0 <= i < s.corpora.len() ==> (#[trigger] s2.corpora[i]).len() >= s.corpora[i].len()
            &&& fed_back ==> s2.corpora == s.corpora.update(
                step_shard_in(c, s),
                s.corpora[step_shard_in(c, s)].push(step_mutated(c, s).0),
            )
            &&& !fed_back ==> s2.corpora == s.corpora
        }),
{
    let s2 = spec_step(p, c, s).0;
    let idb = step_shard_in(c, s);
    assert forall|i: int| 0 <= i < s.corpora.len() implies (#[trigger] s2.corpora[i]).len()
        >= s.corpora[i].len() by {
        if s2.corpora != s.corpora {
            assert(s2.corpora == s.corpora.update(idb, s.corpora[idb].push(step_mutated(c, s).0)));
            if i != idb {
                assert(s2.corpora[i] == s.corpora[i]);
            }
        }
    }
}

/// Law: over any number of steps of a run, validity is kept, every coverage
/// and crash counter is non-decreasing, and no corpus shard ever shrinks.
pub proof fn lemma_run_monotone(p: Prog, c: Config, s: StateModel, n: nat)
    requires
        state_wf(p, c, s),
    ensures
        ({
            let s2 = spec_run(p, c, s, n).0;
            &&& state_wf(p, c, s2)
            &&& s2.coverage.len() == s.coverage.len()
            &&& s2.crashes.len() == s.crashes.len()
            &&& s2.corpora.len() == s.corpora.len()
            &&& forall|i: int, j: int|
                0 <= i < s.coverage.len() && 0 <= j < s.coverage[i].len()
                    ==> #[trigger] s2.coverage[i][j] >= s.coverage[i][j]
            &&& forall|i: int, j: int|
                0 <= i < s.crashes.len() && 0 <= j < s.crashes[i].len()
                    ==> #[trigger] s2.crashes[i][j] >= s.crashes[i][j]
            &&& forall|i: int|
                0 <= i < s.corpora.len() ==> (#[trigger] s2.corpora[i]).len() >= s.corpora[i].len()
        }),
    decreases n,
{
    if n == 0 {
    } else {
        let (s1, out) = spec_step(p, c, s);
        lemma_step_wf(p, c, s);
        lemma_step_monotone(p, c, s);
        lemma_step_corpus_growth(p, c, s);
        if out is Continue {
            lemma_run_monotone(p, c, s1, (n - 1) as nat);
            let s2 = spec_run(p, c, s, n).0;
            assert(spec_run(p, c, s, n) == spec_run(p, c, s1, (n - 1) as nat));
            assert forall|i: int, j: int|
                0 <= i < s.coverage.len() && 0 <= j < s.coverage[i].len() implies
            #[trigger] s2.coverage[i][j] >= s.coverage[i][j] by {
                assert(s2.coverage[i][j] >= s1.coverage[i][j]);
                assert(s1.coverage[i][j] >= s.coverage[i][j]);
            }
            assert forall|i: int, j: int|
                0 <= i < s.crashes.len() && 0 <= j < s.crashes[i].len() implies
            #[trigger] s2.crashes[i][j] >= s.crashes[i][j] by {
                assert(s2.crashes[i][j] >= s1.crashes[i][j]);
                assert(s1.crashes[i][j] >= s.crashes[i][j]);
            }
            assert forall|i: int| 0 <= i < s.corpora.len() implies (#[trigger] s2.corpora[i]).len()
                >= s.corpora[i].len() by {
                assert(s2.corpora[i].len() >= s1.corpora[i].len());
                assert(s1.corpora[i].len() >= s.corpora[i].len());
            }
        }
    }
}

/// Law: a step ends the run with a timeout exactly when the time budget is
/// exhausted at its case count — timeout takes precedence over every other
/// check — and the reported count is then the resolved shard's discovered
/// coverage, never more than the target's coverage-site count.
pub proof fn lemma_step_timeout(p: Prog, c: Config, s: StateModel)
    requires
        state_wf(p, c, s),
    ensures
        ({
            let (s2, out) = spec_step(p, c, s);
            &&& (out is Timeout <==> time_exhausted(c.time_constraint, step_cases(s), c.workers))
            &&& (out matches StepOutcome::Timeout(n) ==> n == count_nonzero_seq(
                s2.coverage[step_shard_out(c, s)],
            ) && n <= p.num_cov)
        }),
{
    let odb = step_shard_out(c, s);
    let ev = step_eval(p, c, s);
    crate::target::lemma_eval_monotone(
        p.ops@,
        step_mutated(c, s).0,
        0,
        s.coverage[odb],
        s.crashes[odb],
    );
    crate::target::lemma_count_nonzero_le(ev.cov);
    let s2 = spec_step(p, c, s).0;
    assert(s2.coverage[odb] == ev.cov);
}

/// Law: a step ends the run successfully exactly when the time budget is not
/// exhausted, new coverage was found, and the resolved shard's discovered
/// coverage then equals the target's coverage-site count; the reported uptime
/// is the case count at that instant over the worker count.
pub proof fn lemma_step_done(p: Prog, c: Config, s: StateModel)
    requires
        state_wf(p, c, s),
    ensures
        ({
            let (s2, out) = spec_step(p, c, s);
            &&& (out is Done <==> !time_exhausted(c.time_constraint, step_cases(s), c.workers)
                && step_eval(p, c, s).found && count_nonzero_seq(step_eval(p, c, s).cov)
                == p.num_cov)
            &&& (out matches StepOutcome::Done(t) ==> count_nonzero_seq(
                s2.coverage[step_shard_out(c, s)],
            ) == p.num_cov && t == (Uptime { cases: s2.cases, workers: c.workers }))
        }),
{
    let odb = step_shard_out(c, s);
    let s2 = spec_step(p, c, s).0;
    assert(s2.coverage[odb] == step_eval(p, c, s).cov);
}

/// A step that continues the run advanced the case counter by exactly one.
pub proof fn lemma_step_continue_cases(p: Prog, c: Config, s: StateModel)
    requires
        spec_step(p, c, s).1 is Continue,
    ensures
        s.cases < u64::MAX,
        spec_step(p, c, s).0.cases == s.cases + 1,
{
}

/// Law: the engine is deterministic — from one seed, one configuration and
/// one target, any number of steps passes through identical states (mutated
/// inputs included) and ends in identical outcomes.
pub proof fn lemma_determinism(p: Prog, c: Config, s1: StateModel, s2: StateModel, n: nat)
    requires
        s1 == s2,
    ensures
        spec_run(p, c, s1, n) == spec_run(p, c, s2, n),
{
}

/// A fresh run state is valid.
proof fn lemma_reset_wf(p: Prog, c: Config, rng: u64)
    requires
        p.wf(),
        c.wf(),
    ensures
        state_wf(p, c, spec_reset(p, c, rng)),
{
}

/// Two run states with equal components are equal.
proof fn lemma_state_eq(a: StateModel, b: StateModel)
    requires
        a.rng == b.rng,
        a.input == b.input,
        a.cases == b.cases,
        a.worker == b.worker,
        a.corpora == b.corpora,
        a.coverage == b.coverage,
        a.crashes == b.crashes,
    ensures
        a == b,
{
}

/// The slot sequences of a set of counter shards.
spec fn view2(v: Seq<Vec<u64>>) -> Seq<Seq<u64>> {
    Seq::new(v.len(), |i: int| v[i]@)
}

/// The entry sequences of one corpus shard.
spec fn corpus_view(v: Vec<Vec<u8>>) -> Seq<Seq<u8>> {
    Seq::new(v@.len(), |j: int| v@[j]@)
}

/// The entry sequences of a set of corpus shards.
spec fn view3(v: Seq<Vec<Vec<u8>>>) -> Seq<Seq<Seq<u8>>> {
    Seq::new(v.len(), |i: int| corpus_view(v[i]))
}

/// Taking one element out and putting another back at the same place is an
/// update.
proof fn lemma_remove_insert<T>(s: Seq<T>, i: int, x: T)
    requires
        0 <= i < s.len(),
    ensures
        s.remove(i).insert(i, x) =~= s.update(i, x),
{
}

/// `view2` of an update is an update of `view2`.
proof fn lemma_view2_update(v: Seq<Vec<u64>>, i: int, x: Vec<u64>)
    requires
        0 <= i < v.len(),
    ensures
        view2(v.update(i, x)) =~= view2(v).update(i, x@),
{
}

/// `view3` of an update is an update of `view3`.
proof fn lemma_view3_update(v: Seq<Vec<Vec<u8>>>, i: int, x: Vec<Vec<u8>>)
    requires
        0 <= i < v.len(),
    ensures
        view3(v.update(i, x)) =~= view3(v).update(i, corpus_view(x)),
{
}

/// A push on one corpus shard appends the entry's bytes to its view.
proof fn lemma_corpus_view_push(db1: Vec<Vec<u8>>, db2: Vec<Vec<u8>>, entry: Vec<u8>)
    requires
        db2@ == db1@.push(entry),
    ensures
        corpus_view(db2) =~= corpus_view(db1).push(entry@),
{
}

/// Whether `cases / workers >= b.num / b.den`, compared exactly in integers.
fn budget_reached(cases: u64, workers: usize, b: TimeBudget) -> (r: bool)
    ensures
        r == (cases * b.den >= b.num * workers),
{
    let lhs_a: u128 = cases as u128;
    let lhs_b: u128 = b.den as u128;
    let rhs_a: u128 = b.num as u128;
    let rhs_b: u128 = workers as u128;
    proof {
        assert(lhs_a * lhs_b <= u128::MAX && rhs_a * rhs_b <= u128::MAX) by (nonlinear_arith)
            requires
                lhs_a <= u64::MAX,
                lhs_b <= u64::MAX,
                rhs_a <= u64::MAX,
                rhs_b <= u64::MAX,
        ;
    }
    lhs_a * lhs_b >= rhs_a * rhs_b
}

/// An exact copy of a byte buffer.
fn clone_bytes(src: &Vec<u8>) -> (r: Vec<u8>)
    ensures
        r@ == src@,
{
    let mut r: Vec<u8> = Vec::new();
    let mut i: usize = 0;
    while i < src.len()
        invariant
            i <= src@.len(),
            r@ == src@.take(i as int),
        decreases src@.len() - i,
    {
        r.push(src[i]);
        proof {
            assert(r@ =~= src@.take(i + 1));
        }
        i += 1;
    }
    proof {
        assert(src@.take(src@.len() as int) =~= src@);
    }
    r
}

/// A zeroed byte buffer of the given length.
fn zero_bytes(n: usize) -> (r: Vec<u8>)
    ensures
        r@ == Seq::new(n as nat, |i: int| 0u8),
{
    let mut r: Vec<u8> = Vec::new();
    let mut i: usize = 0;
    while i < n
        invariant
            i <= n,
            r@.len() == i,
            forall|k: int| 0 <= k < i ==> r@[k] == 0u8,
        decreases n - i,
    {
        r.push(0u8);
        i += 1;
    }
    proof {
        assert(r@ =~= Seq::new(n as nat, |i: int| 0u8));
    }
    r
}

/// A zeroed counter array of the given length.
fn zero_counters(n: usize) -> (r: Vec<u64>)
    ensures
        r@ == Seq::new(n as nat, |i: int| 0u64),
{
    let mut r: Vec<u64> = Vec::new();
    let mut i: usize = 0;
    while i < n
        invariant
            i <= n,
            r@.len() == i,
            forall|k: int| 0 <= k < i ==> r@[k] == 0u64,
        decreases n - i,
    {
        r.push(0u64);
        i += 1;
    }
    proof {
        assert(r@ =~= Seq::new(n as nat, |i: int| 0u64));
    }
    r
}

/// Fresh zeroed counter shards, one per shard, `slots` slots each.
fn make_counter_shards(shards: usize, slots: usize) -> (r: Vec<Vec<u64>>)
    ensures
        view2(r@) == Seq::new(shards as nat, |i: int| Seq::new(slots as nat, |j: int| 0u64)),
        r@.len() == shards,
{
    let mut r: Vec<Vec<u64>> = Vec::new();
    let mut i: usize = 0;
    while i < shards
        invariant
            i <= shards,
            r@.len() == i,
            forall|k: int| 0 <= k < i ==> (#[trigger] r@[k])@ == Seq::new(slots as nat, |j: int| 0u64),
        decreases shards - i,
    {
        r.push(zero_counters(slots));
        i += 1;
    }
    proof {
        assert(view2(r@) =~= Seq::new(shards as nat, |i: int| Seq::new(slots as nat, |j: int| 0u64)));
    }
    r
}

/// Fresh empty corpus shards.
fn make_corpus_shards(shards: usize) -> (r: Vec<Vec<Vec<u8>>>)
    ensures
        view3(r@) == Seq::new(shards as nat, |i: int| Seq::<Seq<u8>>::empty()),
        r@.len() == shards,
{
    let mut r: Vec<Vec<Vec<u8>>> = Vec::new();
    let mut i: usize = 0;
    while i < shards
        invariant
            i <= shards,
            r@.len() == i,
            forall|k: int| 0 <= k < i ==> (#[trigger] r@[k])@.len() == 0,
        decreases shards - i,
    {
        r.push(Vec::new());
        i += 1;
    }
    proof {
        assert forall|k: int| 0 <= k < shards implies corpus_view(r@[k]) =~= Seq::<Seq<u8>>::empty() by {
        }
        assert(view3(r@) =~= Seq::new(shards as nat, |i: int| Seq::<Seq<u8>>::empty()));
    }
    r
}

/// The mutation fuzzing engine: simulated workers advance in round-robin
/// order, each mutating the shared input, running it against the target, and
/// feeding inputs that found new coverage back into its corpus shard, until
/// the resolved shard's coverage is full or the time budget is exhausted.
///
/// Two deliberate modeling choices: a run completes on full coverage alone
/// (crash discovery is tracked but does not gate success, and only new
/// coverage feeds the corpus), and without coverage guidance the input buffer
/// is never reset between cases, so blind fuzzing is a continuous random walk
/// rather than a restart from zero each case.
pub struct Fuzzer {
    /// The generated target under test.
    pub prog: Prog,
    /// The run configuration.
    pub config: Config,
    /// The pseudo-random generator driving selection and mutation.
    pub rng: Rng,
    /// The shared input buffer, mutated in place.
    pub input: Vec<u8>,
    /// Fuzz cases run so far, shared between all workers.
    pub cases: u64,
    /// The worker whose turn is next.
    pub worker: usize,
    /// Per-shard corpora of inputs that found new coverage.
    pub corpora: Vec<Vec<Vec<u8>>>,
    /// Per-shard coverage counters, one slot per coverage site.
    pub coverage: Vec<Vec<u64>>,
    /// Per-shard crash counters, one slot per crash site.
    pub crashes: Vec<Vec<u64>>,
}

impl Fuzzer {
    /// The mathematical state of the run.
    pub closed spec fn state(&self) -> StateModel {
        StateModel {
            rng: self.rng@,
            input: self.input@,
            cases: self.cases,
            worker: self.worker as nat,
            corpora: view3(self.corpora@),
            coverage: view2(self.coverage@),
            crashes: view2(self.crashes@),
        }
    }

    /// A valid engine: its state is a valid run state for its target and
    /// configuration.
    pub open spec fn wf(&self) -> bool {
        state_wf(self.prog, self.config, self.state())
    }

    /// A fresh engine over a target, seeded; its state is the reset state.
    pub fn new(prog: Prog, config: Config, seed: u64) -> (f: Fuzzer)
        requires
            prog.wf(),
            config.wf(),
        ensures
            f.wf(),
            f.prog == prog,
            f.config == config,
            f.state() == spec_reset(prog, config, seed),
    {
        let mut f = Fuzzer {
            prog,
            config,
            rng: Rng::from_seed(seed),
            input: Vec::new(),
            cases: 0,
            worker: 0,
            corpora: Vec::new(),
            coverage: Vec::new(),
            crashes: Vec::new(),
        };
        f.reset();
        f
    }

    /// Puts the engine into the fresh-run state: zeroed input and counters,
    /// empty corpora, case counter zero, worker zero.  The generator state
    /// carries over, so consecutive runs explore different random walks.
    fn reset(&mut self)
        requires
            old(self).prog.wf(),
            old(self).config.wf(),
        ensures
            final(self).prog == old(self).prog,
            final(self).config == old(self).config,
            final(self).state() == spec_reset(
                old(self).prog,
                old(self).config,
                old(self).state().rng,
            ),
            final(self).wf(),
    {
        let nis = if self.config.shared_inputs {
            1
        } else {
            self.config.workers
        };
        let nos = if self.config.shared_results {
            1
        } else {
            self.config.workers
        };
        self.cases = 0;
        self.worker = 0;
        self.input = zero_bytes(self.prog.input_len);
        self.corpora = make_corpus_shards(nis);
        self.coverage = make_counter_shards(nos, self.prog.num_cov);
        self.crashes = make_counter_shards(nos, self.prog.num_crash);
        proof {
            let m = spec_reset(self.prog, self.config, self.rng@);
            lemma_state_eq(self.state(), m);
            lemma_reset_wf(self.prog, self.config, self.rng@);
        }
    }

    /// Advances one worker by one fuzz case — count the case, resolve the
    /// worker's shards, select and mutate the input, run the target, then
    /// (timeout first) report discovered coverage, or feed new coverage back
    /// and finish when the resolved shard's coverage is full.  State and
    /// outcome are exactly `spec_step` of the previous state.
    #[verifier::loop_isolation(false)]
    pub fn step(&mut self) -> (out: StepOutcome)
        requires
            old(self).wf(),
        ensures
            final(self).wf(),
            final(self).prog == old(self).prog,
            final(self).config == old(self).config,
            final(self).state() == spec_step(old(self).prog, old(self).config, old(self).state()).0,
            out == spec_step(old(self).prog, old(self).config, old(self).state()).1,
    {
        let ghost p = self.prog;
        let ghost c = self.config;
        let ghost s0 = self.state();
        proof {
            lemma_step_wf(p, c, s0);
        }
        let w = self.worker;
        let workers = self.config.workers;
        let nis = if self.config.shared_inputs {
            1
        } else {
            workers
        };
        let nos = if self.config.shared_results {
            1
        } else {
            workers
        };
        let idb = w % nis;
        let odb = w % nos;
        proof {
            assert(idb as int == step_shard_in(c, s0));
            assert(odb as int == step_shard_out(c, s0));
        }
        self.cases = if self.cases == u64::MAX {
            u64::MAX
        } else {
            self.cases + 1
        };
        let cases = self.cases;
        proof {
            assert(cases == step_cases(s0));
        }
        // Corpus selection: under coverage guidance, overwrite the input
        // buffer with a random corpus entry; otherwise the buffer carries
        // over, a continuous random walk.
        if self.config.coverage_guided && self.corpora[idb].len() > 0 {
            let r = self.rng.rand();
            let len = self.corpora[idb].len();
            let sel = (r % (len as u64)) as usize;
            proof {
                assert(s0.corpora[idb as int] == corpus_view(self.corpora@[idb as int]));
                assert(sel as int == s0.rng as int % s0.corpora[idb as int].len() as int);
            }
            let picked = clone_bytes(&self.corpora[idb][sel]);
            self.input = picked;
        }
        proof {
            assert((self.input@, self.rng@) == step_selected(c, s0));
        }
        // Mutation: one to eight random byte overwrites.
        let r = self.rng.rand();
        let count = ((r % 8) + 1) as usize;
        let ghost inp1 = self.input@;
        let ghost rng2 = self.rng@;
        proof {
            assert(step_mutated(c, s0) == spec_mutate(inp1, rng2, count as nat));
        }
        let ilen = self.input.len();
        let mut i: usize = 0;
        while i < count
            invariant
                i <= count,
                self.prog == p,
                self.config == c,
                self.cases == cases,
                self.worker == w,
                self.corpora@ == old(self).corpora@,
                self.coverage@ == old(self).coverage@,
                self.crashes@ == old(self).crashes@,
                self.input@.len() == ilen,
                spec_mutate(inp1, rng2, count as nat) == spec_mutate(
                    self.input@,
                    self.rng@,
                    (count - i) as nat,
                ),
            decreases count - i,
        {
            let r1 = self.rng.rand();
            let off = (r1 % (ilen as u64)) as usize;
            let r2 = self.rng.rand();
            let val = (r2 % 256) as u8;
            let ghost pre_input = self.input@;
            let ghost pre_rng = r1;
            self.input.set(off, val);
            proof {
                assert(spec_mutate(pre_input, pre_rng, (count - i) as nat) == spec_mutate(
                    self.input@,
                    self.rng@,
                    (count - i - 1) as nat,
                ));
            }
            i += 1;
        }
        proof {
            assert(spec_mutate(self.input@, self.rng@, 0nat) == (self.input@, self.rng@));
            assert(self.input@ == step_mutated(c, s0).0);
            assert(self.rng@ == step_mutated(c, s0).1);
        }
        // Run the target against the resolved shard's counters.
        let ghost ev = step_eval(p, c, s0);
        let ghost cov_pre = self.coverage@;
        let ghost crash_pre = self.crashes@;
        let mut cov_shard = self.coverage.remove(odb);
        let mut crash_shard = self.crashes.remove(odb);
        proof {
            assert(cov_shard@ == s0.coverage[odb as int]);
            assert(crash_shard@ == s0.crashes[odb as int]);
        }
        let found = evaluate(&self.prog, &self.input, &mut cov_shard, &mut crash_shard);
        proof {
            assert(cov_shard@ == ev.cov && crash_shard@ == ev.crash && found == ev.found);
        }
        self.coverage.insert(odb, cov_shard);
        self.crashes.insert(odb, crash_shard);
        proof {
            lemma_remove_insert(cov_pre, odb as int, cov_shard);
            lemma_remove_insert(crash_pre, odb as int, crash_shard);
            lemma_view2_update(cov_pre, odb as int, cov_shard);
            lemma_view2_update(crash_pre, odb as int, crash_shard);
            assert(view2(self.coverage@) == s0.coverage.update(odb as int, ev.cov));
            assert(view2(self.crashes@) == s0.crashes.update(odb as int, ev.crash));
        }
        // Round robin: the next worker's turn.
        self.worker = if w + 1 == workers {
            0
        } else {
            w + 1
        };
        // Timeout takes precedence over every other check.
        let timed_out = match self.config.time_constraint {
            Some(b) => cases == u64::MAX || budget_reached(cases, workers, b),
            None => cases == u64::MAX,
        };
        proof {
            assert(timed_out == time_exhausted(c.time_constraint, cases, c.workers));
        }
        if timed_out {
            let n = count_nonzero(&self.coverage[odb]);
            proof {
                assert(self.coverage@[odb as int]@ == ev.cov);
                crate::target::lemma_count_nonzero_le(ev.cov);
                lemma_state_eq(self.state(), spec_step(p, c, s0).0);
            }
            return StepOutcome::Timeout(n);
        }
        if found {
            // Feed the interesting input back into the corpus shard.
            let entry = clone_bytes(&self.input);
            let ghost corp_pre = self.corpora@;
            let mut db = self.corpora.remove(idb);
            let ghost db_pre = db;
            db.push(entry);
            self.corpora.insert(idb, db);
            proof {
                lemma_remove_insert(corp_pre, idb as int, db);
                lemma_view3_update(corp_pre, idb as int, db);
                lemma_corpus_view_push(db_pre, db, entry);
                assert(corpus_view(db_pre) == s0.corpora[idb as int]);
                assert(view3(self.corpora@) == s0.corpora.update(
                    idb as int,
                    s0.corpora[idb as int].push(self.input@),
                ));
            }
            let n = count_nonzero(&self.coverage[odb]);
            proof {
                assert(self.coverage@[odb as int]@ == ev.cov);
                lemma_state_eq(self.state(), spec_step(p, c, s0).0);
            }
            if n == self.prog.num_cov {
                return StepOutcome::Done(Uptime { cases, workers });
            }
            return StepOutcome::Continue;
        }
        proof {
            lemma_state_eq(self.state(), spec_step(p, c, s0).0);
        }
        StepOutcome::Continue
    }

    /// One full run: reset, then step workers round robin until full coverage
    /// of the resolved shard (`Ok`, carrying the uptime `cases / workers` at
    /// that instant) or an exhausted time budget (`Err`, carrying the
    /// resolved shard's discovered-coverage count).
    ///
    /// The run is exactly `spec_run` from the reset state: some number of
    /// steps ending in the returned outcome.  On `Ok` some shard's discovered
    /// coverage equals the target's coverage-site count; on `Err` the budget
    /// was exhausted and the reported count is some shard's discovered
    /// coverage, at most the coverage-site count.
    #[verifier::loop_isolation(false)]
    pub fn start(&mut self) -> (r: Result<Uptime, usize>)
        requires
            old(self).wf(),
        ensures
            final(self).wf(),
            final(self).prog == old(self).prog,
            final(self).config == old(self).config,
            ({
                let p = old(self).prog;
                let c = old(self).config;
                let s0 = spec_reset(p, c, old(self).state().rng);
                match r {
                    Ok(t) => exists|n: nat|
                        spec_run(p, c, s0, n) == (final(self).state(), StepOutcome::Done(t)),
                    Err(m) => exists|n: nat|
                        spec_run(p, c, s0, n) == (final(self).state(), StepOutcome::Timeout(m)),
                }
            }),
            match r {
                Ok(t) => {
                    &&& t.workers == old(self).config.workers
                    &&& t.cases == final(self).state().cases
                    &&& exists|i: int|
                        0 <= i < final(self).state().coverage.len() && count_nonzero_seq(
                            #[trigger] final(self).state().coverage[i],
                        ) == old(self).prog.num_cov
                },
                Err(m) => {
                    &&& time_exhausted(
                        old(self).config.time_constraint,
                        final(self).state().cases,
                        old(self).config.workers,
                    )
                    &&& (old(self).config.time_constraint is Some || final(self).state().cases
                        == u64::MAX)
                    &&& m <= old(self).prog.num_cov
                    &&& exists|i: int|
                        0 <= i < final(self).state().coverage.len() && count_nonzero_seq(
                            #[trigger] final(self).state().coverage[i],
                        ) == m
                },
            },
    {
        let ghost p = self.prog;
        let ghost c = self.config;
        self.reset();
        let ghost s0 = self.state();
        let ghost mut steps: nat = 0nat;
        loop
            invariant
                self.wf(),
                self.prog == p,
                self.config == c,
                spec_run(p, c, s0, steps) == (self.state(), StepOutcome::Continue),
            decreases u64::MAX - self.cases,
        {
            let ghost pre = self.state();
            let out = self.step();
            proof {
                lemma_run_snoc(p, c, s0, steps);
                steps = steps + 1;
            }
            match out {
                StepOutcome::Continue => {
                    proof {
                        lemma_step_continue_cases(p, c, pre);
                    }
                },
                StepOutcome::Done(t) => {
                    proof {
                        lemma_step_done(p, c, pre);
                        let odb = step_shard_out(c, pre);
                        assert(0 <= odb < self.state().coverage.len());
                        assert(count_nonzero_seq(self.state().coverage[odb]) == p.num_cov);
                    }
                    return Ok(t);
                },
                StepOutcome::Timeout(n) => {
                    proof {
                        lemma_step_timeout(p, c, pre);
                        let odb = step_shard_out(c, pre);
                        assert(0 <= odb < self.state().coverage.len());
                        assert(count_nonzero_seq(self.state().coverage[odb]) == n);
                        assert(time_exhausted(c.time_constraint, step_cases(pre), c.workers));
                        assert(self.state().cases == step_cases(pre));
                    }
                    return Err(n);
                },
            }
        }
    }

    /// The discovered-coverage count of one counter shard: how many coverage
    /// sites have fired at least once.
    pub fn discovered_coverage(&self, shard: usize) -> (n: usize)
        requires
            self.wf(),
            (shard as int) < num_output_shards(self.config),
        ensures
            n == count_nonzero_seq(self.state().coverage[shard as int]),
    {
        proof {
            assert(self.state().coverage[shard as int] == self.coverage@[shard as int]@);
        }
        count_nonzero(&self.coverage[shard])
    }

    /// The discovered-crash count of one counter shard.
    pub fn discovered_crashes(&self, shard: usize) -> (n: usize)
        requires
            self.wf(),
            (shard as int) < num_output_shards(self.config),
        ensures
            n == count_nonzero_seq(self.state().crashes[shard as int]),
    {
        proof {
            assert(self.state().crashes[shard as int] == self.crashes@[shard as int]@);
        }
        count_nonzero(&self.crashes[shard])
    }

    /// How many slots one coverage shard has.
    pub fn coverage_slots(&self, shard: usize) -> (n: usize)
        requires
            self.wf(),
            (shard as int) < num_output_shards(self.config),
        ensures
            n == self.state().coverage[shard as int].len(),
    {
        proof {
            assert(self.state().coverage[shard as int] == self.coverage@[shard as int]@);
        }
        self.coverage[shard].len()
    }

    /// How many slots one crash shard has.
    pub fn crash_slots(&self, shard: usize) -> (n: usize)
        requires
            self.wf(),
            (shard as int) < num_output_shards(self.config),
        ensures
            n == self.state().crashes[shard as int].len(),
    {
        proof {
            assert(self.state().crashes[shard as int] == self.crashes@[shard as int]@);
        }
        self.crashes[shard].len()
    }

    /// How many inputs one corpus shard holds.
    pub fn corpus_len(&self, shard: usize) -> (n: usize)
        requires
            self.wf(),
            (shard as int) < num_input_shards(self.config),
        ensures
            n == self.state().corpora[shard as int].len(),
    {
        proof {
            assert(self.state().corpora[shard as int] == corpus_view(self.corpora@[shard as int]));
        }
        self.corpora[shard].len()
    }

    /// The fuzz cases run so far.
    pub fn cases_run(&self) -> (n: u64)
        ensures
            n == self.state().cases,
    {
        self.cases
    }

    /// A copy of the current input buffer.
    pub fn input_snapshot(&self) -> (r: Vec<u8>)
        ensures
            r@ == self.state().input,
    {
        clone_bytes(&self.input)
    }
}

/// The heatmap sweep's time budgets: one hundred evenly spaced rational
/// fractions of one uptime unit, smallest first.
pub fn gen_heatmap() -> (r: Vec<TimeBudget>)
    ensures
        r@.len() == 100,
        forall|i: int|
            0 <= i < 100 ==> #[trigger] r@[i] == (TimeBudget { num: (i + 1) as u64, den: 100 }),
{
    let mut r: Vec<TimeBudget> = Vec::new();
    let mut x: u64 = 1;
    while x <= 100
        invariant
            1 <= x <= 101,
            r@.len() == x - 1,
            forall|i: int|
                0 <= i < x - 1 ==> #[trigger] r@[i] == (TimeBudget { num: (i + 1) as u64, den: 100 }),
        decreases 101 - x,
    {
        r.push(TimeBudget { num: x, den: 100 });
        x += 1;
    }
    r
}

} // verus!
