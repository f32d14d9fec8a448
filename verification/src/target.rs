use vstd::prelude::*;
use vstd::pervasive::VecAdditionalExecFns;
use crate::bitalloc::BitAlloc;
use crate::rng::{Rng, rng_next};

verus! {

/// One node of a generated target: the flattened predicate tree.
///
/// `Branch` tests one masked byte of the input: when the test fails, execution
/// jumps forward to `skip` (the position just past the nested block).  `Cov`
/// bumps one coverage counter.  `Crash` bumps one crash counter and ends the
/// evaluation of the current input immediately.
#[derive(Clone, Copy, PartialEq, Eq, Structural, Debug)]
pub enum Op {
    Branch { offset: usize, mask: u8, target: u8, skip: usize },
    Cov { id: usize },
    Crash { id: usize },
}

/// A generated synthetic target: an op sequence plus its exact coverage-site
/// and crash-site counts and the input length in bytes.
pub struct Prog {
    pub ops: Vec<Op>,
    pub num_cov: usize,
    pub num_crash: usize,
    pub input_len: usize,
}

/// Well-formedness of one op at position `pc`: branch offsets stay inside the
/// input, branch skips jump strictly forward and at most to the end, and site
/// ids stay below the reported counts.
pub open spec fn op_wf(op: Op, pc: int, ops_len: int, num_cov: int, num_crash: int, input_len: int) -> bool {
    match op {
        Op::Branch { offset, mask, target, skip } => offset < input_len && pc < skip <= ops_len,
        Op::Cov { id } => id < num_cov,
        Op::Crash { id } => id < num_crash,
    }
}

impl Prog {
    /// A well-formed target: a nonempty input and every op well formed.
    pub open spec fn wf(&self) -> bool {
        &&& self.input_len >= 1
        &&& forall|pc: int|
            0 <= pc < self.ops@.len() ==> op_wf(
                #[trigger] self.ops@[pc],
                pc,
                self.ops@.len() as int,
                self.num_cov as int,
                self.num_crash as int,
                self.input_len as int,
            )
    }

    /// A deep copy.
    pub fn duplicate(&self) -> (r: Prog)
        ensures
            r.ops@ == self.ops@,
            r.num_cov == self.num_cov,
            r.num_crash == self.num_crash,
            r.input_len == self.input_len,
    {
        let mut ops: Vec<Op> = Vec::new();
        let mut i: usize = 0;
        while i < self.ops.len()
            invariant
                i <= self.ops@.len(),
                ops@ == self.ops@.take(i as int),
            decreases self.ops@.len() - i,
        {
            ops.push(self.ops[i]);
            proof {
                assert(ops@ =~= self.ops@.take(i + 1));
            }
            i += 1;
        }
        proof {
            assert(ops@ =~= self.ops@);
        }
        Prog { ops, num_cov: self.num_cov, num_crash: self.num_crash, input_len: self.input_len }
    }
}

/// A counter bump that sticks at the top of the 64-bit range instead of
/// wrapping; a counter is only ever inspected for being zero or nonzero.
pub open spec fn bump(c: u64) -> u64 {
    if c == u64::MAX {
        c
    } else {
        (c + 1) as u64
    }
}

/// The outcome of evaluating one input: the counter arrays afterwards, and
/// whether some coverage counter moved from zero to nonzero.
pub struct EvalModel {
    pub cov: Seq<u64>,
    pub crash: Seq<u64>,
    pub found: bool,
}

/// Evaluation of the op sequence from position `pc`: the exact mathematical
/// meaning of a generated target.
///
/// A branch whose test succeeds falls through into its block; one whose test
/// fails jumps to its skip target.  A coverage op bumps its counter and
/// records whether it was previously zero.  A crash op bumps its counter and
/// stops: nothing after it on that path can fire.
pub open spec fn eval_from(ops: Seq<Op>, input: Seq<u8>, pc: int, cov: Seq<u64>, crash: Seq<u64>) -> EvalModel
    decreases ops.len() - pc,
{
    if pc < 0 || pc >= ops.len() {
        EvalModel { cov, crash, found: false }
    } else {
        match ops[pc] {
            Op::Branch { offset, mask, target, skip } => {
                let taken = 0 <= offset < input.len() && (input[offset as int] & mask) == target;
                if taken {
                    eval_from(ops, input, pc + 1, cov, crash)
                } else if pc < skip <= ops.len() {
                    eval_from(ops, input, skip as int, cov, crash)
                } else {
                    EvalModel { cov, crash, found: false }
                }
            },
            Op::Cov { id } => {
                if id < cov.len() {
                    let first = cov[id as int] == 0;
                    let rest = eval_from(
                        ops,
                        input,
                        pc + 1,
                        cov.update(id as int, bump(cov[id as int])),
                        crash,
                    );
                    EvalModel { cov: rest.cov, crash: rest.crash, found: first || rest.found }
                } else {
                    eval_from(ops, input, pc + 1, cov, crash)
                }
            },
            Op::Crash { id } => {
                EvalModel {
                    cov,
                    crash: if id < crash.len() {
                        crash.update(id as int, bump(crash[id as int]))
                    } else {
                        crash
                    },
                    found: false,
                }
            },
        }
    }
}

/// Law: counters are monotone — one evaluation never shrinks a coverage or
/// crash counter, and never changes the arrays' lengths.
pub proof fn lemma_eval_monotone(ops: Seq<Op>, input: Seq<u8>, pc: int, cov: Seq<u64>, crash: Seq<u64>)
    ensures
        ({
            let m = eval_from(ops, input, pc, cov, crash);
            &&& m.cov.len() == cov.len()
            &&& m.crash.len() == crash.len()
            &&& forall|i: int| 0 <= i < cov.len() ==> m.cov[i] >= cov[i]
            &&& forall|i: int| 0 <= i < crash.len() ==> m.crash[i] >= crash[i]
        }),
    decreases ops.len() - pc,
{
    if pc < 0 || pc >= ops.len() {
    } else {
        match ops[pc] {
            Op::Branch { offset, mask, target, skip } => {
                let taken = 0 <= offset < input.len() && (input[offset as int] & mask) == target;
                if taken {
                    lemma_eval_monotone(ops, input, pc + 1, cov, crash);
                } else if pc < skip <= ops.len() {
                    lemma_eval_monotone(ops, input, skip as int, cov, crash);
                }
            },
            Op::Cov { id } => {
                if id < cov.len() {
                    let cov2 = cov.update(id as int, bump(cov[id as int]));
                    let m = eval_from(ops, input, pc, cov, crash);
                    lemma_eval_monotone(ops, input, pc + 1, cov2, crash);
                    assert forall|i: int| 0 <= i < cov.len() implies m.cov[i] >= cov[i] by {
                        assert(m.cov[i] >= cov2[i]);
                        assert(cov2[i] >= cov[i]);
                    }
                } else {
                    lemma_eval_monotone(ops, input, pc + 1, cov, crash);
                }
            },
            Op::Crash { id } => {
            },
        }
    }
}

/// Law: the evaluator's report is exact — it reports new coverage precisely
/// when some coverage counter moved from zero to nonzero during the call.
pub proof fn lemma_eval_found_iff(ops: Seq<Op>, input: Seq<u8>, pc: int, cov: Seq<u64>, crash: Seq<u64>)
    ensures
        ({
            let m = eval_from(ops, input, pc, cov, crash);
            m.found <==> exists|i: int| 0 <= i < cov.len() && cov[i] == 0 && #[trigger] m.cov[i] > 0
        }),
    decreases ops.len() - pc,
{
    let m = eval_from(ops, input, pc, cov, crash);
    if pc < 0 || pc >= ops.len() {
    } else {
        match ops[pc] {
            Op::Branch { offset, mask, target, skip } => {
                let taken = 0 <= offset < input.len() && (input[offset as int] & mask) == target;
                if taken {
                    lemma_eval_found_iff(ops, input, pc + 1, cov, crash);
                } else if pc < skip <= ops.len() {
                    lemma_eval_found_iff(ops, input, skip as int, cov, crash);
                }
            },
            Op::Cov { id } => {
                if id < cov.len() {
                    let cov2 = cov.update(id as int, bump(cov[id as int]));
                    let rest = eval_from(ops, input, pc + 1, cov2, crash);
                    lemma_eval_found_iff(ops, input, pc + 1, cov2, crash);
                    lemma_eval_monotone(ops, input, pc + 1, cov2, crash);
                    if cov[id as int] == 0 {
                        // The bumped counter itself witnesses a transition.
                        assert(cov2[id as int] == 1);
                        assert(m.cov[id as int] >= 1);
                        assert(cov[id as int] == 0 && m.cov[id as int] > 0);
                    } else {
                        // The bumped counter was already nonzero, so any
                        // transition seen further down is one from `cov` too,
                        // and the other way round.
                        assert forall|i: int|
                            0 <= i < cov.len() && cov[i] == 0 && #[trigger] m.cov[i] > 0 implies
                        rest.found by {
                            assert(cov2[i] == 0 && rest.cov[i] > 0);
                        }
                        assert forall|i: int|
                            0 <= i < cov2.len() && cov2[i] == 0 && #[trigger] rest.cov[i] > 0 implies
                        m.found by {
                            assert(cov[i] == 0 && m.cov[i] > 0);
                        }
                    }
                } else {
                    lemma_eval_found_iff(ops, input, pc + 1, cov, crash);
                }
            },
            Op::Crash { id } => {
            },
        }
    }
}

/// The discovered count of a counter array: how many slots are nonzero.
pub open spec fn count_nonzero_seq(s: Seq<u64>) -> nat
    decreases s.len(),
{
    if s.len() == 0 {
        0
    } else {
        count_nonzero_seq(s.drop_last()) + (if s.last() > 0 {
            1nat
        } else {
            0nat
        })
    }
}

/// The discovered count never exceeds the slot count.
pub proof fn lemma_count_nonzero_le(s: Seq<u64>)
    ensures
        count_nonzero_seq(s) <= s.len(),
    decreases s.len(),
{
    if s.len() == 0 {
    } else {
        lemma_count_nonzero_le(s.drop_last());
    }
}

/// Counts the nonzero slots of a counter array.
pub fn count_nonzero(v: &Vec<u64>) -> (n: usize)
    ensures
        n == count_nonzero_seq(v@),
{
    let mut n: usize = 0;
    let mut i: usize = 0;
    while i < v.len()
        invariant
            i <= v@.len(),
            n == count_nonzero_seq(v@.take(i as int)),
            n <= i,
        decreases v@.len() - i,
    {
        proof {
            assert(v@.take(i + 1).drop_last() =~= v@.take(i as int));
            assert(v@.take(i + 1).last() == v@[i as int]);
        }
        if v[i] > 0 {
            n += 1;
        }
        i += 1;
    }
    proof {
        assert(v@.take(v@.len() as int) =~= v@);
    }
    n
}

/// How many ops of the sequence are the coverage site `id`.
pub open spec fn count_cov(ops: Seq<Op>, id: usize) -> nat
    decreases ops.len(),
{
    if ops.len() == 0 {
        0
    } else {
        count_cov(ops.drop_last(), id) + (if ops.last() == (Op::Cov { id }) {
            1nat
        } else {
            0nat
        })
    }
}

/// How many ops of the sequence are the crash site `id`.
pub open spec fn count_crash(ops: Seq<Op>, id: usize) -> nat
    decreases ops.len(),
{
    if ops.len() == 0 {
        0
    } else {
        count_crash(ops.drop_last(), id) + (if ops.last() == (Op::Crash { id }) {
            1nat
        } else {
            0nat
        })
    }
}

/// Appending one op raises exactly the count of the site it carries.
pub proof fn lemma_count_push(ops: Seq<Op>, op: Op, id: usize)
    ensures
        count_cov(ops.push(op), id) == count_cov(ops, id) + (if op == (Op::Cov { id }) {
            1int
        } else {
            0int
        }),
        count_crash(ops.push(op), id) == count_crash(ops, id) + (if op == (Op::Crash { id }) {
            1int
        } else {
            0int
        }),
{
    assert(ops.push(op).drop_last() =~= ops);
    assert(ops.push(op).last() == op);
}

/// Replacing one branch op by another branch op changes no site count.
pub proof fn lemma_count_update_branch(ops: Seq<Op>, i: int, op: Op, id: usize)
    requires
        0 <= i < ops.len(),
        ops[i] is Branch,
        op is Branch,
    ensures
        count_cov(ops.update(i, op), id) == count_cov(ops, id),
        count_crash(ops.update(i, op), id) == count_crash(ops, id),
    decreases ops.len(),
{
    let u = ops.update(i, op);
    if i == ops.len() - 1 {
        assert(u.drop_last() =~= ops.drop_last());
        assert(u.last() == op);
    } else {
        assert(u.drop_last() =~= ops.drop_last().update(i, op));
        assert(u.last() == ops.last());
        lemma_count_update_branch(ops.drop_last(), i, op, id);
    }
}

/// The policy knobs of target generation.  Each `*_chance` field is a
/// one-in-`n` probability; `min_blocks` / `min_crashes` keep the generation
/// loop going until the target is complex enough; `max_alloc_failures` stops
/// it once the input's bit space is exhausted; `max_iterations` bounds the
/// loop outright so that generation always terminates.
pub struct GenParams {
    pub max_input_size_bits: usize,
    pub if_chance: u64,
    pub end_block_chance: u64,
    pub crash_chance: u64,
    pub non_coverage_crash_chance: u64,
    pub done_chance: u64,
    pub min_blocks: u64,
    pub min_crashes: u64,
    pub max_alloc_failures: u64,
    pub alloc_attempts: u64,
    pub max_iterations: u64,
}

impl GenParams {
    /// Usable parameters: a nonempty bit space that fits the machine, and
    /// every probability denominator nonzero.
    pub open spec fn wf(&self) -> bool {
        &&& 1 <= self.max_input_size_bits
        &&& self.max_input_size_bits + 8 <= usize::MAX
        &&& self.if_chance >= 1
        &&& self.end_block_chance >= 1
        &&& self.crash_chance >= 1
        &&& self.non_coverage_crash_chance >= 1
        &&& self.done_chance >= 1
        &&& self.max_alloc_failures >= 1
    }

    /// The default policy constants: a 256-bit input,
    /// if/end-block chances of one in four, a crash chance of one in eight on
    /// block ends, one in sixteen for uninstrumented crashes, a one in 128
    /// chance of stopping once 5000 blocks and 200 crashes exist.
    pub fn defaults() -> (p: GenParams)
        ensures
            p.wf(),
            p == (GenParams {
                max_input_size_bits: 256,
                if_chance: 4,
                end_block_chance: 4,
                crash_chance: 8,
                non_coverage_crash_chance: 16,
                done_chance: 128,
                min_blocks: 5000,
                min_crashes: 200,
                max_alloc_failures: 1,
                alloc_attempts: 1000,
                max_iterations: 0x10_0000,
            }),
    {
        GenParams {
            max_input_size_bits: 256,
            if_chance: 4,
            end_block_chance: 4,
            crash_chance: 8,
            non_coverage_crash_chance: 16,
            done_chance: 128,
            min_blocks: 5000,
            min_crashes: 200,
            max_alloc_failures: 1,
            alloc_attempts: 1000,
            max_iterations: 0x10_0000,
        }
    }
}

/// Some position of the sequence holds `pc`.
pub open spec fn stack_contains(s: Seq<usize>, pc: int) -> bool {
    exists|k: int| 0 <= k < s.len() && s[k] == pc
}

/// The byte mask that reads exactly bits `sb..=eb` of one byte: ones shifted
/// in from both sides.
pub open spec fn run_mask(sb: usize, eb: usize) -> u8 {
    if sb < 8 && eb < 8 {
        let m1 = (!0u8 >> sb) << sb;
        (m1 << ((7 - eb) as usize)) >> ((7 - eb) as usize)
    } else {
        0
    }
}

/// Whether bit `k` of the byte mask is set.
pub open spec fn mask_bit(m: u8, k: int) -> bool {
    0 <= k < 8 && (m >> (k as usize)) & 1 == 1
}

/// Whether the op is a branch whose predicate reads input bit `b`: the bit
/// lies in the branch's byte and its mask selects it.  Every branch reads one
/// single byte, so its bits never cross a byte boundary.
pub open spec fn branch_reads_bit(op: Op, b: int) -> bool {
    match op {
        Op::Branch { offset, mask, target, skip } => 0 <= b && b / 8 == offset && mask_bit(
            mask,
            b % 8,
        ),
        _ => false,
    }
}

/// A branch predicate of the generated shape: its mask is a contiguous
/// nonzero run of bits inside the byte, and its target value is restricted to
/// the mask, so exactly one value of the masked bits satisfies the test.
pub open spec fn branch_shape(op: Op) -> bool {
    match op {
        Op::Branch { offset, mask, target, skip } => {
            &&& (target & !mask) == 0
            &&& exists|sb: usize, eb: usize| sb <= eb < 8 && mask == run_mask(sb, eb)
        },
        _ => true,
    }
}

/// Law (bit disjointness, on the emitted tree): every branch predicate is of
/// the generated shape, and no two branch ops read a common input bit.
pub open spec fn branches_sound(ops: Seq<Op>) -> bool {
    &&& forall|pc: int| 0 <= pc < ops.len() ==> branch_shape(#[trigger] ops[pc])
    &&& forall|p1: int, p2: int, b: int|
        #![trigger branch_reads_bit(ops[p1], b), branch_reads_bit(ops[p2], b)]
        0 <= p1 < p2 < ops.len() ==> !(branch_reads_bit(ops[p1], b) && branch_reads_bit(
            ops[p2],
            b,
        ))
}

/// Every bit any branch of the sequence reads is claimed in the allocator.
spec fn reads_claimed(ops: Seq<Op>, a: BitAlloc) -> bool {
    forall|pc: int, b: int|
        0 <= pc < ops.len() && #[trigger] branch_reads_bit(ops[pc], b) ==> a.claimed(b)
}

/// `run_mask(sb, eb)` selects exactly the bits `sb..=eb`.
pub proof fn lemma_run_mask_bits(sb: usize, eb: usize)
    requires
        sb <= eb < 8,
    ensures
        forall|k: int| mask_bit(run_mask(sb, eb), k) <==> sb <= k <= eb,
{
    let m = run_mask(sb, eb);
    assert forall|k: int| mask_bit(m, k) <==> sb <= k <= eb by {
        if 0 <= k < 8 {
            let ku = k as usize;
            assert((((((!0u8 >> sb) << sb) << ((7 - eb) as usize)) >> ((7 - eb) as usize)) >> ku)
                & 1 == 1 <==> sb <= ku <= eb) by (bit_vector)
                requires
                    sb <= eb < 8,
                    ku < 8,
            ;
        }
    }
}

/// A value masked down to `m` has no bit outside `m`.
pub proof fn lemma_masked_target(t: u8, m: u8)
    ensures
        ((t & m) & !m) == 0,
{
    assert(((t & m) & !m) == 0) by (bit_vector);
}

/// A bit with the byte and in-byte position of the run `[s, e]` lies in it.
proof fn lemma_byte_range(b: int, s: int, e: int)
    requires
        0 <= s <= e,
        s / 8 == e / 8,
        0 <= b,
        b / 8 == s / 8,
        s % 8 <= b % 8 <= e % 8,
    ensures
        s <= b <= e,
{
}

/// Pushing a non-branch op keeps the branch predicates sound.
proof fn lemma_sound_push_nonbranch(ops: Seq<Op>, op: Op, a: BitAlloc)
    requires
        branches_sound(ops),
        reads_claimed(ops, a),
        !(op is Branch),
    ensures
        branches_sound(ops.push(op)),
        reads_claimed(ops.push(op), a),
{
    let ops2 = ops.push(op);
    assert forall|pc: int| 0 <= pc < ops2.len() implies branch_shape(#[trigger] ops2[pc]) by {
        if pc < ops.len() {
            assert(ops2[pc] == ops[pc]);
        } else {
            assert(ops2[pc] == op);
        }
    }
    assert forall|pc: int, b: int|
        0 <= pc < ops2.len() && #[trigger] branch_reads_bit(ops2[pc], b) implies a.claimed(b) by {
        if pc < ops.len() {
            assert(ops2[pc] == ops[pc]);
        } else {
            assert(ops2[pc] == op);
        }
    }
    assert forall|p1: int, p2: int, b: int|
        #![trigger branch_reads_bit(ops2[p1], b), branch_reads_bit(ops2[p2], b)]
        0 <= p1 < p2 < ops2.len() implies !(branch_reads_bit(ops2[p1], b) && branch_reads_bit(
        ops2[p2],
        b,
    )) by {
        if p2 < ops.len() {
            assert(ops2[p1] == ops[p1] && ops2[p2] == ops[p2]);
        } else {
            assert(ops2[p2] == op);
        }
    }
}

/// Pushing a branch over freshly claimed bits keeps the predicates sound: its
/// bits were free before, while every older branch reads only claimed bits.
proof fn lemma_sound_push_branch(
    ops: Seq<Op>,
    op: Op,
    a0: BitAlloc,
    a1: BitAlloc,
    s: int,
    e: int,
)
    requires
        branches_sound(ops),
        reads_claimed(ops, a0),
        branch_shape(op),
        forall|b: int| #[trigger] branch_reads_bit(op, b) ==> s <= b <= e,
        forall|b: int| s <= b <= e ==> !a0.claimed(b),
        forall|b: int| a1.claimed(b) == (a0.claimed(b) || s <= b <= e),
    ensures
        branches_sound(ops.push(op)),
        reads_claimed(ops.push(op), a1),
{
    let ops2 = ops.push(op);
    assert forall|pc: int| 0 <= pc < ops2.len() implies branch_shape(#[trigger] ops2[pc]) by {
        if pc < ops.len() {
            assert(ops2[pc] == ops[pc]);
        } else {
            assert(ops2[pc] == op);
        }
    }
    assert forall|pc: int, b: int|
        0 <= pc < ops2.len() && #[trigger] branch_reads_bit(ops2[pc], b) implies a1.claimed(b) by {
        if pc < ops.len() {
            assert(ops2[pc] == ops[pc]);
            assert(a0.claimed(b));
        } else {
            assert(ops2[pc] == op);
        }
    }
    assert forall|p1: int, p2: int, b: int|
        #![trigger branch_reads_bit(ops2[p1], b), branch_reads_bit(ops2[p2], b)]
        0 <= p1 < p2 < ops2.len() implies !(branch_reads_bit(ops2[p1], b) && branch_reads_bit(
        ops2[p2],
        b,
    )) by {
        if p2 < ops.len() {
            assert(ops2[p1] == ops[p1] && ops2[p2] == ops[p2]);
        } else {
            assert(ops2[p1] == ops[p1] && ops2[p2] == op);
            // A shared bit would have been both claimed before the grant
            // (older branch) and free at the grant (new branch).
            if branch_reads_bit(ops[p1], b) && branch_reads_bit(op, b) {
                assert(a0.claimed(b));
                assert(s <= b <= e);
            }
        }
    }
}

/// Replacing an op by one that reads the same bits and has a sound shape
/// keeps the predicates sound.
proof fn lemma_sound_update_same(ops: Seq<Op>, i: int, op: Op, a: BitAlloc)
    requires
        0 <= i < ops.len(),
        branches_sound(ops),
        reads_claimed(ops, a),
        branch_shape(op),
        forall|b: int| #[trigger] branch_reads_bit(op, b) <==> branch_reads_bit(ops[i], b),
    ensures
        branches_sound(ops.update(i, op)),
        reads_claimed(ops.update(i, op), a),
{
    let ops2 = ops.update(i, op);
    assert forall|pc: int| 0 <= pc < ops2.len() implies branch_shape(#[trigger] ops2[pc]) by {
        if pc != i {
            assert(ops2[pc] == ops[pc]);
        }
    }
    assert forall|pc: int, b: int|
        0 <= pc < ops2.len() && #[trigger] branch_reads_bit(ops2[pc], b) implies a.claimed(b) by {
        if pc != i {
            assert(ops2[pc] == ops[pc]);
        } else {
            assert(branch_reads_bit(ops[i], b));
        }
    }
    assert forall|p1: int, p2: int, b: int|
        #![trigger branch_reads_bit(ops2[p1], b), branch_reads_bit(ops2[p2], b)]
        0 <= p1 < p2 < ops2.len() implies !(branch_reads_bit(ops2[p1], b) && branch_reads_bit(
        ops2[p2],
        b,
    )) by {
        if branch_reads_bit(ops2[p1], b) && branch_reads_bit(ops2[p2], b) {
            assert(branch_reads_bit(ops[p1], b));
            assert(branch_reads_bit(ops[p2], b));
        }
    }
}

/// Patching a branch's skip target keeps the predicates sound: the offset,
/// mask and target are unchanged.
proof fn lemma_close_one_sound(ops: Seq<Op>, top: int, a: BitAlloc)
    requires
        branches_sound(ops),
        reads_claimed(ops, a),
    ensures
        branches_sound(spec_close_one(ops, top)),
        reads_claimed(spec_close_one(ops, top), a),
{
    let ops2 = spec_close_one(ops, top);
    if 0 <= top < ops.len() && ops[top] is Branch {
        assert forall|b: int|
            branch_reads_bit(#[trigger] ops2[top], b) <==> branch_reads_bit(ops[top], b) by {
        }
        assert forall|pc: int| 0 <= pc < ops2.len() implies branch_shape(#[trigger] ops2[pc]) by {
            if pc != top {
                assert(ops2[pc] == ops[pc]);
            }
        }
        assert forall|pc: int, b: int|
            0 <= pc < ops2.len() && #[trigger] branch_reads_bit(ops2[pc], b) implies a.claimed(
            b,
        ) by {
            if pc != top {
                assert(ops2[pc] == ops[pc]);
            } else {
                assert(branch_reads_bit(ops[top], b));
            }
        }
        assert forall|p1: int, p2: int, b: int|
            #![trigger branch_reads_bit(ops2[p1], b), branch_reads_bit(ops2[p2], b)]
            0 <= p1 < p2 < ops2.len() implies !(branch_reads_bit(ops2[p1], b)
            && branch_reads_bit(ops2[p2], b)) by {
            if branch_reads_bit(ops2[p1], b) && branch_reads_bit(ops2[p2], b) {
                assert(branch_reads_bit(ops[p1], b));
                assert(branch_reads_bit(ops[p2], b));
            }
        }
    } else {
        assert(ops2 == ops);
    }
}

/// The state of target generation: the input-bit claim bitmap, the generator
/// state, the ops emitted so far, the stack of branch positions whose skip is
/// still to be patched, and the running site and failure counts.
pub struct GenModel {
    pub bits: Seq<bool>,
    pub rng: u64,
    pub ops: Seq<Op>,
    pub stack: Seq<usize>,
    pub blocks: usize,
    pub crashes: usize,
    pub failures: u64,
}

/// Closes the branch at position `top`: its skip is patched to the current
/// end of the op sequence.
pub open spec fn spec_close_one(ops: Seq<Op>, top: int) -> Seq<Op> {
    if 0 <= top < ops.len() {
        match ops[top] {
            Op::Branch { offset, mask, target, skip } => ops.update(
                top,
                Op::Branch { offset, mask, target, skip: ops.len() as usize },
            ),
            _ => ops,
        }
    } else {
        ops
    }
}

/// Closes every branch still open, innermost first.
pub open spec fn spec_close_all(ops: Seq<Op>, stack: Seq<usize>) -> Seq<Op>
    decreases stack.len(),
{
    if stack.len() == 0 {
        ops
    } else {
        spec_close_all(spec_close_one(ops, stack.last() as int), stack.drop_last())
    }
}

/// The branch-opening phase of one generation round, exactly: a one-in-
/// `if_chance` draw; on a hit, a width draw of 1 to 8 bits and the allocation
/// search; on a grant, the byte-aligned mask and masked random target value,
/// then either (one in `non_coverage_crash_chance`) an uninstrumented crash
/// closing the block at once, or a nested block with a fresh coverage site.
/// Too many allocation failures stop generation (the boolean).
pub open spec fn spec_gen_open(p: GenParams, g: GenModel) -> (GenModel, bool) {
    let d0 = g.rng;
    let r0 = rng_next(g.rng);
    if d0 % p.if_chance == 0 {
        let d1 = r0;
        let r1 = rng_next(r0);
        let width = ((d1 % 8) + 1) as usize;
        let (res, r2) = crate::bitalloc::spec_alloc_try(g.bits, r1, width as int, p.alloc_attempts);
        match res {
            Some(range) => {
                let bits2 = crate::bitalloc::mark_range(g.bits, range.0 as int, range.1 as int);
                let start_byte = (range.0 / 8) as usize;
                let start_bit = (range.0 % 8) as usize;
                let end_bit = (range.1 % 8) as usize;
                let mask = run_mask(start_bit, end_bit);
                let d2 = r2;
                let r3 = rng_next(r2);
                let target = ((d2 % 256) as u8) & mask;
                let branch_idx = g.ops.len() as usize;
                let bop = Op::Branch { offset: start_byte, mask, target, skip: 0 };
                let d3 = r3;
                let r4 = rng_next(r3);
                if d3 % p.non_coverage_crash_chance == 0 {
                    let ops2 = g.ops.push(bop).push(Op::Crash { id: g.crashes });
                    let ops3 = ops2.update(
                        branch_idx as int,
                        Op::Branch { offset: start_byte, mask, target, skip: ops2.len() as usize },
                    );
                    (
                        GenModel {
                            bits: bits2,
                            rng: r4,
                            ops: ops3,
                            crashes: (g.crashes + 1) as usize,
                            ..g
                        },
                        false,
                    )
                } else {
                    let ops2 = g.ops.push(bop).push(Op::Cov { id: g.blocks });
                    (
                        GenModel {
                            bits: bits2,
                            rng: r4,
                            ops: ops2,
                            stack: g.stack.push(branch_idx),
                            blocks: (g.blocks + 1) as usize,
                            ..g
                        },
                        false,
                    )
                }
            },
            None => {
                let f2 = (g.failures + 1) as u64;
                (GenModel { rng: r2, failures: f2, ..g }, f2 >= p.max_alloc_failures)
            },
        }
    } else {
        (GenModel { rng: r0, ..g }, false)
    }
}

/// The block-closing phase of one generation round, exactly: when a branch is
/// open, a one-in-`end_block_chance` draw; on a hit, a one-in-`crash_chance`
/// draw for a crash site just before the close, then the innermost open
/// branch is closed.
pub open spec fn spec_gen_close(p: GenParams, g: GenModel) -> GenModel {
    if g.stack.len() > 0 {
        let d4 = g.rng;
        let r5 = rng_next(g.rng);
        if d4 % p.end_block_chance == 0 {
            let d5 = r5;
            let r6 = rng_next(r5);
            let g1 = if d5 % p.crash_chance == 0 {
                GenModel {
                    ops: g.ops.push(Op::Crash { id: g.crashes }),
                    crashes: (g.crashes + 1) as usize,
                    rng: r6,
                    ..g
                }
            } else {
                GenModel { rng: r6, ..g }
            };
            GenModel {
                ops: spec_close_one(g1.ops, g1.stack.last() as int),
                stack: g1.stack.drop_last(),
                ..g1
            }
        } else {
            GenModel { rng: r5, ..g }
        }
    } else {
        g
    }
}

/// The stop phase of one generation round, exactly: once both minimums are
/// met, a one-in-`done_chance` draw ends generation.
pub open spec fn spec_gen_done(p: GenParams, g: GenModel) -> (GenModel, bool) {
    if g.crashes as u64 >= p.min_crashes && g.blocks as u64 >= p.min_blocks {
        let d6 = g.rng;
        let r7 = rng_next(g.rng);
        (GenModel { rng: r7, ..g }, d6 % p.done_chance == 0)
    } else {
        (g, false)
    }
}

/// One full generation round: branch opening, block closing, stop check.
pub open spec fn spec_gen_iter(p: GenParams, g: GenModel) -> (GenModel, bool) {
    let (g1, stop1) = spec_gen_open(p, g);
    if stop1 {
        (g1, true)
    } else {
        let g2 = spec_gen_close(p, g1);
        spec_gen_done(p, g2)
    }
}

/// Generation rounds until a stop or the round budget runs out.
pub open spec fn spec_gen_loop(p: GenParams, g: GenModel, fuel: nat) -> GenModel
    decreases fuel,
{
    if fuel == 0 {
        g
    } else {
        let (g1, stop) = spec_gen_iter(p, g);
        if stop {
            g1
        } else {
            spec_gen_loop(p, g1, (fuel - 1) as nat)
        }
    }
}

/// Target generation, exactly: from a fresh bit space and the root coverage
/// site, generation rounds run until a stop, then every open branch is
/// closed.  The op sequence, both site counts and the generator state after
/// the call are a pure function of the seed and the parameters: the same seed
/// always generates the same target.
pub open spec fn spec_generate(seed: u64, p: GenParams) -> (Seq<Op>, usize, usize, u64) {
    let g0 = GenModel {
        bits: Seq::new(p.max_input_size_bits as nat, |b: int| false),
        rng: seed,
        ops: Seq::empty().push(Op::Cov { id: 0 }),
        stack: Seq::empty(),
        blocks: 1,
        crashes: 0,
        failures: 0,
    };
    let gf = spec_gen_loop(p, g0, p.max_iterations as nat);
    (spec_close_all(gf.ops, gf.stack), gf.blocks, gf.crashes, gf.rng)
}

/// A branch op whose offset already fits the input, awaiting its skip patch.
pub open spec fn branch_pending(op: Op, input_len: int) -> bool {
    op matches Op::Branch { offset, .. } && offset < input_len
}

/// `lemma_count_push`, quantified over every site id.
pub proof fn lemma_count_push_all(ops: Seq<Op>, op: Op)
    ensures
        forall|id: usize| #[trigger] count_cov(ops.push(op), id) == count_cov(ops, id) + (if op
            == (Op::Cov { id }) {
            1int
        } else {
            0int
        }),
        forall|id: usize| #[trigger] count_crash(ops.push(op), id) == count_crash(ops, id) + (
        if op == (Op::Crash { id }) {
            1int
        } else {
            0int
        }),
{
    assert forall|id: usize| #[trigger] count_cov(ops.push(op), id) == count_cov(ops, id) + (
    if op == (Op::Cov { id }) {
        1int
    } else {
        0int
    }) by {
        lemma_count_push(ops, op, id);
    }
    assert forall|id: usize| #[trigger] count_crash(ops.push(op), id) == count_crash(ops, id) + (
    if op == (Op::Crash { id }) {
        1int
    } else {
        0int
    }) by {
        lemma_count_push(ops, op, id);
    }
}

/// `lemma_count_update_branch`, quantified over every site id.
pub proof fn lemma_count_update_branch_all(ops: Seq<Op>, i: int, op: Op)
    requires
        0 <= i < ops.len(),
        ops[i] is Branch,
        op is Branch,
    ensures
        forall|id: usize| #[trigger] count_cov(ops.update(i, op), id) == count_cov(ops, id),
        forall|id: usize| #[trigger] count_crash(ops.update(i, op), id) == count_crash(ops, id),
{
    assert forall|id: usize| #[trigger] count_cov(ops.update(i, op), id) == count_cov(ops, id) by {
        lemma_count_update_branch(ops, i, op, id);
    }
    assert forall|id: usize| #[trigger] count_crash(ops.update(i, op), id) == count_crash(
        ops,
        id,
    ) by {
        lemma_count_update_branch(ops, i, op, id);
    }
}

/// Well-formedness of one op survives growth of the sequence and the counts.
pub proof fn lemma_opwf_mono(
    op: Op,
    pc: int,
    len1: int,
    len2: int,
    nb1: int,
    nb2: int,
    nc1: int,
    nc2: int,
    il: int,
)
    requires
        op_wf(op, pc, len1, nb1, nc1, il),
        len1 <= len2,
        nb1 <= nb2,
        nc1 <= nc2,
    ensures
        op_wf(op, pc, len2, nb2, nc2, il),
{
}

/// The invariant of target generation over the op sequence built so far, the
/// stack of branch positions whose skip is still to be patched, and the
/// number of coverage and crash sites emitted.
pub open spec fn gen_state_inv(ops: Seq<Op>, stack: Seq<usize>, nb: usize, nc: usize, il: usize) -> bool {
    &&& ops.len() >= 1
    &&& ops[0] == (Op::Cov { id: 0 })
    &&& 1 <= nb
    &&& nb + nc <= ops.len()
    &&& forall|id: usize| id < nb ==> #[trigger] count_cov(ops, id) == 1
    &&& forall|id: usize| nb <= id ==> #[trigger] count_cov(ops, id) == 0
    &&& forall|id: usize| id < nc ==> #[trigger] count_crash(ops, id) == 1
    &&& forall|id: usize| nc <= id ==> #[trigger] count_crash(ops, id) == 0
    &&& forall|k: int| 0 <= k < stack.len() ==> #[trigger] stack[k] < ops.len()
    &&& forall|k: int|
        0 <= k < stack.len() ==> branch_pending(#[trigger] ops[stack[k] as int], il as int)
    &&& forall|pc: int|
        0 <= pc < ops.len() && !stack_contains(stack, pc) ==> op_wf(
            #[trigger] ops[pc],
            pc,
            ops.len() as int,
            nb as int,
            nc as int,
            il as int,
        )
}

/// Grows a random predicate tree over the input bits and returns it together
/// with its exact coverage-site and crash-site counts.
///
/// Each round may open a new nested branch over freshly allocated input bits
/// — immediately inside it either an uninstrumented crash that closes the
/// block at once, or a coverage site — may close the innermost open branch
/// (with a chance of a crash just before it closes), and may stop once the
/// minimum block and crash counts are met.  Generation also stops when the
/// bit space is exhausted (too many allocation failures) or after
/// `max_iterations` rounds, a machine bound that makes it terminate; any
/// branches still open are then closed unconditionally.
///
/// The contract pins the result down: the op sequence, both site counts and
/// the generator state afterwards are exactly `spec_generate` of the seed and
/// the parameters — the same seed always generates the same target.  Every
/// coverage id below `num_cov` and every crash id below `num_crash` labels
/// exactly one op (the reported site cardinalities are exact, and bounded by
/// the bit space); every branch predicate reads one contiguous nonzero masked
/// run inside a single input byte, with its target value restricted to the
/// mask; and no two branch predicates read a common input bit.
#[verifier::loop_isolation(false)]
#[verifier::rlimit(100)]
pub fn generate(rng: &mut Rng, params: &GenParams) -> (prog: Prog)
    requires
        params.wf(),
    ensures
        prog.wf(),
        prog.input_len == (params.max_input_size_bits + 7) / 8,
        prog.num_cov >= 1,
        prog.ops@.len() >= 1,
        prog.ops@[0] == (Op::Cov { id: 0 }),
        forall|id: usize| id < prog.num_cov ==> #[trigger] count_cov(prog.ops@, id) == 1,
        forall|id: usize| prog.num_cov <= id ==> #[trigger] count_cov(prog.ops@, id) == 0,
        forall|id: usize| id < prog.num_crash ==> #[trigger] count_crash(prog.ops@, id) == 1,
        forall|id: usize| prog.num_crash <= id ==> #[trigger] count_crash(prog.ops@, id) == 0,
        ({
            let (ops_f, nb_f, nc_f, rng_f) = spec_generate(old(rng)@, *params);
            &&& prog.ops@ == ops_f
            &&& prog.num_cov == nb_f
            &&& prog.num_crash == nc_f
            &&& final(rng)@ == rng_f
        }),
        branches_sound(prog.ops@),
        forall|pc: int, b: int|
            0 <= pc < prog.ops@.len() && #[trigger] branch_reads_bit(prog.ops@[pc], b) ==> 0 <= b
                < params.max_input_size_bits,
        prog.num_cov <= params.max_input_size_bits + 1,
        prog.num_crash <= params.max_input_size_bits,
{
    let input_len = (params.max_input_size_bits + 7) / 8;
    let ghost seed = rng@;
    let mut alloc = BitAlloc::new(params.max_input_size_bits);
    let mut ops: Vec<Op> = Vec::new();
    let mut open_branches: Vec<usize> = Vec::new();
    let mut num_blocks: usize = 1;
    let mut num_crashes: usize = 0;
    let mut alloc_failures: u64 = 0;

    // The root block: always entered, coverage site 0.
    ops.push(Op::Cov { id: 0 });
    let ghost g0 = GenModel {
        bits: Seq::new(params.max_input_size_bits as nat, |b: int| false),
        rng: seed,
        ops: Seq::empty().push(Op::Cov { id: 0 }),
        stack: Seq::empty(),
        blocks: 1,
        crashes: 0,
        failures: 0,
    };
    proof {
        lemma_count_push_all(Seq::<Op>::empty(), Op::Cov { id: 0 });
        assert(Seq::<Op>::empty().push(Op::Cov { id: 0 }) =~= ops@);
        assert(gen_state_inv(ops@, open_branches@, num_blocks, num_crashes, input_len));
        assert(open_branches@ =~= Seq::<usize>::empty());
        crate::bitalloc::lemma_count_true_none(alloc.bitmap());
        assert(branches_sound(ops@));
        assert(reads_claimed(ops@, alloc));
        assert(g0 == (GenModel {
            bits: alloc.bitmap(),
            rng: rng@,
            ops: ops@,
            stack: open_branches@,
            blocks: num_blocks,
            crashes: num_crashes,
            failures: alloc_failures,
        }));
    }

    let mut iters: u64 = 0;
    while iters < params.max_iterations
        invariant
            gen_state_inv(ops@, open_branches@, num_blocks, num_crashes, input_len),
            alloc.wf(),
            alloc.max_bits() == params.max_input_size_bits,
            alloc_failures < params.max_alloc_failures,
            iters <= params.max_iterations,
            branches_sound(ops@),
            reads_claimed(ops@, alloc),
            num_blocks <= 1 + alloc.claimed_count(),
            num_crashes + open_branches@.len() <= alloc.claimed_count(),
            spec_gen_loop(*params, g0, params.max_iterations as nat) == spec_gen_loop(
                *params,
                GenModel {
                    bits: alloc.bitmap(),
                    rng: rng@,
                    ops: ops@,
                    stack: open_branches@,
                    blocks: num_blocks,
                    crashes: num_crashes,
                    failures: alloc_failures,
                },
                (params.max_iterations - iters) as nat,
            ),
        decreases params.max_iterations - iters,
    {
        iters += 1;
        let ghost ge = GenModel {
            bits: alloc.bitmap(),
            rng: rng@,
            ops: ops@,
            stack: open_branches@,
            blocks: num_blocks,
            crashes: num_crashes,
            failures: alloc_failures,
        };
        // A one-in-if_chance shot at opening a new nested branch.
        if rng.rand() % params.if_chance == 0 {
            let width_draw = rng.rand();
            let width = ((width_draw % 8) + 1) as usize;
            let ghost alloc0 = alloc;
            match alloc.allocate(rng, width, params.alloc_attempts) {
                Some((bit_start, bit_end)) => {
                    let start_byte = bit_start / 8;
                    let start_bit = bit_start % 8;
                    let end_bit = bit_end % 8;
                    let mask1 = (!0u8 >> start_bit) << start_bit;
                    let mask = (mask1 << (7 - end_bit)) >> (7 - end_bit);
                    let tv = rng.rand();
                    let target = ((tv % 256) as u8) & mask;
                    proof {
                        assert(bit_start <= params.max_input_size_bits - 1);
                        assert((params.max_input_size_bits - 1) / 8 + 1 == (
                        params.max_input_size_bits + 7) / 8);
                        assert(start_byte < input_len);
                    }
                    let ghost ops0 = ops@;
                    let ghost stack0 = open_branches@;
                    let branch_idx = ops.len();
                    let bop = Op::Branch { offset: start_byte, mask, target, skip: 0 };
                    proof {
                        assert(mask == run_mask(start_bit, end_bit));
                        assert(start_bit <= end_bit < 8);
                        lemma_run_mask_bits(start_bit, end_bit);
                        lemma_masked_target((tv % 256) as u8, mask);
                        assert(branch_shape(bop));
                        assert forall|b: int| #[trigger] branch_reads_bit(bop, b) implies bit_start
                            <= b <= bit_end by {
                            assert(mask_bit(mask, b % 8));
                            assert(start_bit <= b % 8 <= end_bit);
                            lemma_byte_range(b, bit_start as int, bit_end as int);
                        }
                    }
                    ops.push(bop);
                    if rng.rand() % params.non_coverage_crash_chance == 0 {
                        // An uninstrumented crash: a fault reachable without
                        // any coverage feedback; the block closes at once.
                        let ghost ops1 = ops@;
                        ops.push(Op::Crash { id: num_crashes });
                        let ghost ops2 = ops@;
                        let end = ops.len();
                        let patched = Op::Branch { offset: start_byte, mask, target, skip: end };
                        ops.set(branch_idx, patched);
                        proof {
                            assert(num_crashes < ops.len());
                            lemma_count_push_all(ops0, bop);
                            lemma_count_push_all(ops1, Op::Crash { id: num_crashes });
                            lemma_count_update_branch_all(ops2, branch_idx as int, patched);
                            lemma_sound_push_branch(
                                ops0,
                                bop,
                                alloc0,
                                alloc,
                                bit_start as int,
                                bit_end as int,
                            );
                            lemma_sound_push_nonbranch(ops1, Op::Crash { id: num_crashes }, alloc);
                            assert(ops2[branch_idx as int] == bop);
                            assert forall|b: int| #[trigger] branch_reads_bit(patched, b)
                                <==> branch_reads_bit(ops2[branch_idx as int], b) by {}
                            assert(branch_shape(patched));
                            lemma_sound_update_same(ops2, branch_idx as int, patched, alloc);
                            assert forall|k: int| 0 <= k < stack0.len() implies branch_pending(
                                #[trigger] ops@[stack0[k] as int],
                                input_len as int,
                            ) by {
                                assert(stack0[k] < ops0.len());
                                assert(branch_pending(ops0[stack0[k] as int], input_len as int));
                                assert(ops@[stack0[k] as int] == ops0[stack0[k] as int]);
                            }
                            assert forall|pc: int|
                                0 <= pc < ops@.len() && !stack_contains(stack0, pc) implies op_wf(
                                #[trigger] ops@[pc],
                                pc,
                                ops@.len() as int,
                                num_blocks as int,
                                (num_crashes + 1) as int,
                                input_len as int,
                            ) by {
                                if pc < ops0.len() {
                                    assert(ops@[pc] == ops0[pc]);
                                    lemma_opwf_mono(
                                        ops0[pc],
                                        pc,
                                        ops0.len() as int,
                                        ops@.len() as int,
                                        num_blocks as int,
                                        num_blocks as int,
                                        num_crashes as int,
                                        (num_crashes + 1) as int,
                                        input_len as int,
                                    );
                                } else if pc == branch_idx {
                                    assert(ops@[pc] == patched);
                                } else {
                                    assert(ops@[pc] == (Op::Crash { id: num_crashes }));
                                }
                            }
                            assert(gen_state_inv(
                                ops@,
                                open_branches@,
                                num_blocks,
                                (num_crashes + 1) as usize,
                                input_len,
                            ));
                        }
                        assert(num_crashes < ops.len());
                        num_crashes += 1;
                    } else {
                        // A normal nested block with its own coverage site.
                        let ghost ops1 = ops@;
                        ops.push(Op::Cov { id: num_blocks });
                        open_branches.push(branch_idx);
                        proof {
                            assert(num_blocks < ops.len());
                            lemma_count_push_all(ops0, bop);
                            lemma_count_push_all(ops1, Op::Cov { id: num_blocks });
                            lemma_sound_push_branch(
                                ops0,
                                bop,
                                alloc0,
                                alloc,
                                bit_start as int,
                                bit_end as int,
                            );
                            lemma_sound_push_nonbranch(ops1, Op::Cov { id: num_blocks }, alloc);
                            assert forall|k: int| 0 <= k < open_branches@.len() implies
                                #[trigger] open_branches@[k] < ops@.len() by {
                                if k < stack0.len() {
                                    assert(open_branches@[k] == stack0[k]);
                                    assert(stack0[k] < ops0.len());
                                } else {
                                    assert(open_branches@[k] == branch_idx);
                                }
                            }
                            assert forall|k: int| 0 <= k < open_branches@.len() implies
                                branch_pending(
                                #[trigger] ops@[open_branches@[k] as int],
                                input_len as int,
                            ) by {
                                if k < stack0.len() {
                                    assert(open_branches@[k] == stack0[k]);
                                    assert(stack0[k] < ops0.len());
                                    assert(branch_pending(
                                        ops0[stack0[k] as int],
                                        input_len as int,
                                    ));
                                    assert(ops@[stack0[k] as int] == ops0[stack0[k] as int]);
                                } else {
                                    assert(open_branches@[k] == branch_idx);
                                    assert(ops@[branch_idx as int] == bop);
                                }
                            }
                            assert forall|pc: int|
                                0 <= pc < ops@.len() && !stack_contains(open_branches@, pc) implies
                                op_wf(
                                #[trigger] ops@[pc],
                                pc,
                                ops@.len() as int,
                                (num_blocks + 1) as int,
                                num_crashes as int,
                                input_len as int,
                            ) by {
                                if pc < ops0.len() {
                                    if stack_contains(stack0, pc) {
                                        let k = choose|k: int|
                                            0 <= k < stack0.len() && stack0[k] == pc;
                                        assert(open_branches@[k] == pc);
                                        assert(stack_contains(open_branches@, pc));
                                    } else {
                                        assert(ops@[pc] == ops0[pc]);
                                        lemma_opwf_mono(
                                            ops0[pc],
                                            pc,
                                            ops0.len() as int,
                                            ops@.len() as int,
                                            num_blocks as int,
                                            (num_blocks + 1) as int,
                                            num_crashes as int,
                                            num_crashes as int,
                                            input_len as int,
                                        );
                                    }
                                } else if pc == branch_idx {
                                    assert(open_branches@[stack0.len() as int] == branch_idx);
                                    assert(stack_contains(open_branches@, pc));
                                } else {
                                    assert(ops@[pc] == (Op::Cov { id: num_blocks }));
                                }
                            }
                            assert(gen_state_inv(
                                ops@,
                                open_branches@,
                                (num_blocks + 1) as usize,
                                num_crashes,
                                input_len,
                            ));
                        }
                        assert(num_blocks < ops.len());
                        num_blocks += 1;
                    }
                },
                None => {
                    alloc_failures += 1;
                    if alloc_failures >= params.max_alloc_failures {
                        // The bit space is exhausted: stop growing the tree.
                        proof {
                            let cur = GenModel {
                                bits: alloc.bitmap(),
                                rng: rng@,
                                ops: ops@,
                                stack: open_branches@,
                                blocks: num_blocks,
                                crashes: num_crashes,
                                failures: alloc_failures,
                            };
                            assert(spec_gen_open(*params, ge) == (cur, true));
                            assert(spec_gen_iter(*params, ge) == (cur, true));
                            assert(spec_gen_loop(*params, g0, params.max_iterations as nat)
                                == cur);
                        }
                        break ;
                    }
                },
            }
        }
        proof {
            let cur = GenModel {
                bits: alloc.bitmap(),
                rng: rng@,
                ops: ops@,
                stack: open_branches@,
                blocks: num_blocks,
                crashes: num_crashes,
                failures: alloc_failures,
            };
            assert(spec_gen_open(*params, ge) == (cur, false));
        }
        let ghost ge1 = GenModel {
            bits: alloc.bitmap(),
            rng: rng@,
            ops: ops@,
            stack: open_branches@,
            blocks: num_blocks,
            crashes: num_crashes,
            failures: alloc_failures,
        };
        // A one-in-end_block_chance shot at closing the innermost open branch.
        if open_branches.len() > 0 && rng.rand() % params.end_block_chance == 0 {
            if rng.rand() % params.crash_chance == 0 {
                // A crash recorded just before the block closes.
                let ghost ops1 = ops@;
                ops.push(Op::Crash { id: num_crashes });
                proof {
                    assert(num_crashes < ops.len());
                    lemma_count_push_all(ops1, Op::Crash { id: num_crashes });
                    lemma_sound_push_nonbranch(ops1, Op::Crash { id: num_crashes }, alloc);
                    assert forall|k: int| 0 <= k < open_branches@.len() implies branch_pending(
                        #[trigger] ops@[open_branches@[k] as int],
                        input_len as int,
                    ) by {
                        assert(open_branches@[k] < ops1.len());
                        assert(branch_pending(ops1[open_branches@[k] as int], input_len as int));
                        assert(ops@[open_branches@[k] as int] == ops1[open_branches@[k] as int]);
                    }
                    assert forall|pc: int|
                        0 <= pc < ops@.len() && !stack_contains(open_branches@, pc) implies op_wf(
                        #[trigger] ops@[pc],
                        pc,
                        ops@.len() as int,
                        num_blocks as int,
                        (num_crashes + 1) as int,
                        input_len as int,
                    ) by {
                        if pc < ops1.len() {
                            assert(ops@[pc] == ops1[pc]);
                            lemma_opwf_mono(
                                ops1[pc],
                                pc,
                                ops1.len() as int,
                                ops@.len() as int,
                                num_blocks as int,
                                num_blocks as int,
                                num_crashes as int,
                                (num_crashes + 1) as int,
                                input_len as int,
                            );
                        } else {
                            assert(ops@[pc] == (Op::Crash { id: num_crashes }));
                        }
                    }
                    assert(gen_state_inv(
                        ops@,
                        open_branches@,
                        num_blocks,
                        (num_crashes + 1) as usize,
                        input_len,
                    ));
                }
                assert(num_crashes < ops.len());
                num_crashes += 1;
            }
            let ghost pre_ops = ops@;
            let ghost pre_stack = open_branches@;
            close_innermost(&mut ops, &mut open_branches, Ghost(num_blocks), Ghost(num_crashes), Ghost(input_len));
            proof {
                lemma_close_one_sound(pre_ops, pre_stack.last() as int, alloc);
            }
        }
        proof {
            let cur = GenModel {
                bits: alloc.bitmap(),
                rng: rng@,
                ops: ops@,
                stack: open_branches@,
                blocks: num_blocks,
                crashes: num_crashes,
                failures: alloc_failures,
            };
            assert(spec_gen_close(*params, ge1) == cur);
        }
        let ghost ge2 = GenModel {
            bits: alloc.bitmap(),
            rng: rng@,
            ops: ops@,
            stack: open_branches@,
            blocks: num_blocks,
            crashes: num_crashes,
            failures: alloc_failures,
        };
        // A one-in-done_chance shot at stopping once the minimums are met.
        if num_crashes as u64 >= params.min_crashes && num_blocks as u64 >= params.min_blocks {
            if rng.rand() % params.done_chance == 0 {
                proof {
                    let cur = GenModel {
                        bits: alloc.bitmap(),
                        rng: rng@,
                        ops: ops@,
                        stack: open_branches@,
                        blocks: num_blocks,
                        crashes: num_crashes,
                        failures: alloc_failures,
                    };
                    assert(spec_gen_done(*params, ge2) == (cur, true));
                    assert(spec_gen_iter(*params, ge) == (cur, true));
                    assert(spec_gen_loop(*params, g0, params.max_iterations as nat) == cur);
                }
                break ;
            }
        }
        proof {
            let cur = GenModel {
                bits: alloc.bitmap(),
                rng: rng@,
                ops: ops@,
                stack: open_branches@,
                blocks: num_blocks,
                crashes: num_crashes,
                failures: alloc_failures,
            };
            assert(spec_gen_iter(*params, ge) == (cur, false));
        }
    }

    let ghost gf = GenModel {
        bits: alloc.bitmap(),
        rng: rng@,
        ops: ops@,
        stack: open_branches@,
        blocks: num_blocks,
        crashes: num_crashes,
        failures: alloc_failures,
    };
    proof {
        assert(spec_gen_loop(*params, g0, params.max_iterations as nat) == gf);
    }

    // Close every branch still open.
    while open_branches.len() > 0
        invariant
            gen_state_inv(ops@, open_branches@, num_blocks, num_crashes, input_len),
            branches_sound(ops@),
            reads_claimed(ops@, alloc),
            spec_close_all(gf.ops, gf.stack) == spec_close_all(ops@, open_branches@),
        decreases open_branches@.len(),
    {
        let ghost pre_ops = ops@;
        let ghost pre_stack = open_branches@;
        close_innermost(&mut ops, &mut open_branches, Ghost(num_blocks), Ghost(num_crashes), Ghost(input_len));
        proof {
            lemma_close_one_sound(pre_ops, pre_stack.last() as int, alloc);
        }
    }

    proof {
        assert(spec_close_all(gf.ops, gf.stack) == ops@);
        assert(spec_generate(seed, *params) == (ops@, num_blocks, num_crashes, rng@));
        crate::bitalloc::lemma_count_true_le(alloc.bitmap());
        assert forall|pc: int, b: int|
            0 <= pc < ops@.len() && #[trigger] branch_reads_bit(ops@[pc], b) implies 0 <= b
            < params.max_input_size_bits by {
            assert(alloc.claimed(b));
        }
    }
    Prog { ops, num_cov: num_blocks, num_crash: num_crashes, input_len }
}

/// Closes the innermost open branch: pops its position and patches its skip
/// target to the current end of the op sequence.
fn close_innermost(
    ops: &mut Vec<Op>,
    open_branches: &mut Vec<usize>,
    Ghost(num_blocks): Ghost<usize>,
    Ghost(num_crashes): Ghost<usize>,
    Ghost(input_len): Ghost<usize>,
)
    requires
        gen_state_inv(old(ops)@, old(open_branches)@, num_blocks, num_crashes, input_len),
        old(open_branches)@.len() > 0,
    ensures
        gen_state_inv(final(ops)@, final(open_branches)@, num_blocks, num_crashes, input_len),
        final(open_branches)@ == old(open_branches)@.drop_last(),
        final(ops)@.len() == old(ops)@.len(),
        final(ops)@ == spec_close_one(old(ops)@, old(open_branches)@.last() as int),
{
    let ghost ops0 = ops@;
    let ghost stack0 = open_branches@;
    let top_pos = open_branches.len() - 1;
    let top = open_branches[top_pos];
    let _ = open_branches.pop();
    proof {
        assert(open_branches@ =~= stack0.drop_last());
        assert(stack0[top_pos as int] < ops0.len());
        assert(branch_pending(ops0[stack0[top_pos as int] as int], input_len as int));
    }
    let bop = ops[top];
    match bop {
        Op::Branch { offset, mask, target, skip: _placeholder } => {
            let end = ops.len();
            let patched = Op::Branch { offset, mask, target, skip: end };
            ops.set(top, patched);
            proof {
                lemma_count_update_branch_all(ops0, top as int, patched);
                assert forall|k: int| 0 <= k < open_branches@.len() implies branch_pending(
                    #[trigger] ops@[open_branches@[k] as int],
                    input_len as int,
                ) by {
                    assert(open_branches@[k] == stack0[k]);
                    assert(stack0[k] < ops0.len());
                    assert(branch_pending(ops0[stack0[k] as int], input_len as int));
                    if stack0[k] == top {
                        assert(ops@[top as int] == patched);
                    } else {
                        assert(ops@[stack0[k] as int] == ops0[stack0[k] as int]);
                    }
                }
                assert forall|pc: int|
                    0 <= pc < ops@.len() && !stack_contains(open_branches@, pc) implies op_wf(
                    #[trigger] ops@[pc],
                    pc,
                    ops@.len() as int,
                    num_blocks as int,
                    num_crashes as int,
                    input_len as int,
                ) by {
                    if pc == top {
                        assert(ops@[pc] == patched);
                        assert(branch_pending(ops0[top as int], input_len as int));
                    } else {
                        assert(ops@[pc] == ops0[pc]);
                        if stack_contains(stack0, pc) {
                            let k = choose|k: int| 0 <= k < stack0.len() && stack0[k] == pc;
                            assert(k < stack0.len() - 1);
                            assert(open_branches@[k] == pc);
                            assert(stack_contains(open_branches@, pc));
                            assert(false);
                        }
                    }
                }
                assert(gen_state_inv(ops@, open_branches@, num_blocks, num_crashes, input_len));
            }
        },
        _ => {
            proof {
                assert(branch_pending(ops0[top as int], input_len as int));
                assert(false);
            }
        },
    }
}

/// Runs the target on one input, bumping the handed-in coverage and crash
/// counters, and reports whether new coverage was found.  The result is
/// exactly `eval_from` applied from the first op.
#[verifier::loop_isolation(false)]
pub fn evaluate(prog: &Prog, input: &Vec<u8>, cov: &mut Vec<u64>, crash: &mut Vec<u64>) -> (found:
    bool)
    requires
        prog.wf(),
        input@.len() == prog.input_len,
        old(cov)@.len() == prog.num_cov,
        old(crash)@.len() == prog.num_crash,
    ensures
        ({
            let m = eval_from(prog.ops@, input@, 0, old(cov)@, old(crash)@);
            &&& final(cov)@ == m.cov
            &&& final(crash)@ == m.crash
            &&& found == m.found
        }),
{
    let ghost m0 = eval_from(prog.ops@, input@, 0, cov@, crash@);
    let mut pc: usize = 0;
    let mut found = false;
    while pc < prog.ops.len()
        invariant
            prog.wf(),
            input@.len() == prog.input_len,
            pc <= prog.ops@.len(),
            cov@.len() == prog.num_cov,
            crash@.len() == prog.num_crash,
            ({
                let m = eval_from(prog.ops@, input@, pc as int, cov@, crash@);
                &&& m0.cov == m.cov
                &&& m0.crash == m.crash
                &&& m0.found == (found || m.found)
            }),
        decreases prog.ops@.len() - pc,
    {
        let op = prog.ops[pc];
        match op {
            Op::Branch { offset, mask, target, skip } => {
                if input[offset] & mask == target {
                    pc += 1;
                } else {
                    pc = skip;
                }
            },
            Op::Cov { id } => {
                let c = cov[id];
                if c == 0 {
                    found = true;
                }
                cov.set(id, if c == u64::MAX { c } else { c + 1 });
                pc += 1;
            },
            Op::Crash { id } => {
                let ghost pre = crash@;
                let c = crash[id];
                crash.set(id, if c == u64::MAX { c } else { c + 1 });
                proof {
                    assert(crash@ == pre.update(id as int, bump(pre[id as int])));
                    let m = eval_from(prog.ops@, input@, pc as int, cov@, pre);
                    assert(prog.ops@[pc as int] == (Op::Crash { id }));
                    assert(id < pre.len());
                    assert(m.cov == cov@ && m.crash == crash@ && !m.found);
                }
                return found;
            },
        }
    }
    found
}

} // verus!
