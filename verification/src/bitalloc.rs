use vstd::prelude::*;
use vstd::pervasive::VecAdditionalExecFns;
use crate::rng::{Rng, rng_next};

verus! {

/// An inclusive bit range `[r.0, r.1]` that stays inside one byte of the input.
pub open spec fn range_within_byte(r: (usize, usize)) -> bool {
    r.0 <= r.1 && r.0 / 8 == r.1 / 8
}

/// Two inclusive bit ranges share no bit position.
pub open spec fn ranges_disjoint(a: (usize, usize), b: (usize, usize)) -> bool {
    a.1 < b.0 || b.1 < a.0
}

/// How many positions of a claim bitmap are set.
pub open spec fn count_true(s: Seq<bool>) -> nat
    decreases s.len(),
{
    if s.len() == 0 {
        0
    } else {
        count_true(s.drop_last()) + (if s.last() {
            1nat
        } else {
            0nat
        })
    }
}

/// No more positions are set than exist.
pub proof fn lemma_count_true_le(s: Seq<bool>)
    ensures
        count_true(s) <= s.len(),
    decreases s.len(),
{
    if s.len() > 0 {
        lemma_count_true_le(s.drop_last());
    }
}

/// An all-clear bitmap has count zero.
pub proof fn lemma_count_true_none(s: Seq<bool>)
    requires
        forall|i: int| 0 <= i < s.len() ==> !s[i],
    ensures
        count_true(s) == 0,
    decreases s.len(),
{
    if s.len() > 0 {
        lemma_count_true_none(s.drop_last());
    }
}

/// Setting one clear position raises the count by one.
pub proof fn lemma_count_true_set(s: Seq<bool>, i: int)
    requires
        0 <= i < s.len(),
        !s[i],
    ensures
        count_true(s.update(i, true)) == count_true(s) + 1,
    decreases s.len(),
{
    let u = s.update(i, true);
    if i == s.len() - 1 {
        assert(u.drop_last() =~= s.drop_last());
    } else {
        assert(u.drop_last() =~= s.drop_last().update(i, true));
        assert(u.last() == s.last());
        lemma_count_true_set(s.drop_last(), i);
    }
}

/// The bitmap with every position of the inclusive range `[s, e]` set.
pub open spec fn mark_range(bits: Seq<bool>, s: int, e: int) -> Seq<bool> {
    Seq::new(bits.len(), |b: int| bits[b] || s <= b <= e)
}

/// The allocation search, exactly: each attempt draws one start position; a
/// run that overflows the bit space, straddles a byte boundary or touches a
/// claimed bit is rejected; the first admissible run is returned, and after
/// `attempts` failed draws the search gives up.  The result and the generator
/// state after the call are a pure function of the arguments.
pub open spec fn spec_alloc_try(bits: Seq<bool>, rng: u64, num_bits: int, attempts: u64) -> (
    Option<(usize, usize)>,
    u64,
)
    decreases attempts,
{
    if attempts == 0 || bits.len() == 0 {
        (None, rng)
    } else {
        let draw = rng;
        let rng1 = rng_next(rng);
        let bit_start = draw as int % bits.len() as int;
        let bit_end = bit_start + num_bits - 1;
        if bit_end >= bits.len() || bit_start / 8 != bit_end / 8 {
            spec_alloc_try(bits, rng1, num_bits, (attempts - 1) as u64)
        } else if exists|b: int| bit_start <= b <= bit_end && bits[b] {
            spec_alloc_try(bits, rng1, num_bits, (attempts - 1) as u64)
        } else {
            (Some((bit_start as usize, bit_end as usize)), rng1)
        }
    }
}

/// Tracks which bit positions of the input have been claimed by a branch
/// predicate, and hands out fresh byte-aligned runs of 1 to 8 bits.
///
/// A ghost log of every granted range supports the disjointness law: no two
/// granted ranges ever overlap, and none crosses a byte boundary.
pub struct BitAlloc {
    used: Vec<bool>,
    granted: Ghost<Seq<(usize, usize)>>,
}

impl BitAlloc {
    /// The claim bitmap: one flag per bit position of the input.
    pub closed spec fn bitmap(&self) -> Seq<bool> {
        self.used@
    }

    /// Number of bit positions managed, i.e. the input size in bits.
    pub open spec fn max_bits(&self) -> nat {
        self.bitmap().len()
    }

    /// Whether bit position `b` has been claimed by some earlier grant.
    pub open spec fn claimed(&self, b: int) -> bool {
        0 <= b < self.bitmap().len() && self.bitmap()[b]
    }

    /// How many bit positions are claimed.
    pub open spec fn claimed_count(&self) -> nat {
        count_true(self.bitmap())
    }

    /// Every range granted so far, oldest first.
    pub closed spec fn granted_ranges(&self) -> Seq<(usize, usize)> {
        self.granted@
    }

    /// Every bit of the inclusive range `r` is claimed.
    pub open spec fn range_claimed(&self, r: (usize, usize)) -> bool {
        forall|b: int| r.0 <= b <= r.1 ==> self.claimed(b)
    }

    /// Each granted range lies inside the bit space and inside one byte, its
    /// bits are marked claimed, and distinct grants are pairwise disjoint.
    pub closed spec fn wf(&self) -> bool {
        &&& forall|i: int|
            0 <= i < self.granted@.len() ==> {
                &&& range_within_byte(#[trigger] self.granted@[i])
                &&& self.granted@[i].1 < self.used@.len()
                &&& self.range_claimed(self.granted@[i])
            }
        &&& forall|i: int, j: int|
            0 <= i < j < self.granted@.len() ==> ranges_disjoint(
                #[trigger] self.granted@[i],
                #[trigger] self.granted@[j],
            )
    }

    /// A fresh allocator over `max_bits` bit positions, none claimed.
    pub fn new(max_bits: usize) -> (r: BitAlloc)
        ensures
            r.wf(),
            r.max_bits() == max_bits,
            r.bitmap() == Seq::new(max_bits as nat, |b: int| false),
            forall|b: int| !r.claimed(b),
            r.granted_ranges() == Seq::<(usize, usize)>::empty(),
    {
        let mut used: Vec<bool> = Vec::new();
        let mut i: usize = 0;
        while i < max_bits
            invariant
                i <= max_bits,
                used@.len() == i,
                forall|b: int| 0 <= b < i ==> !used@[b],
            decreases max_bits - i,
        {
            used.push(false);
            i += 1;
        }
        proof {
            assert(used@ =~= Seq::new(max_bits as nat, |b: int| false));
        }
        BitAlloc { used, granted: Ghost(Seq::empty()) }
    }

    /// Draws random start positions until a run of `num_bits` free bits that
    /// stays inside one byte is found, or `max_attempts` draws have failed.
    ///
    /// The outcome is exactly `spec_alloc_try` on the claim bitmap and the
    /// generator state: which run is granted — the first admissible one — and
    /// the generator state afterwards are a pure function of the arguments.
    /// On success the run's bits, previously all free, are marked claimed and
    /// the grant is logged; on failure the allocator is left untouched.
    #[verifier::loop_isolation(false)]
    pub fn allocate(&mut self, rng: &mut Rng, num_bits: usize, max_attempts: u64) -> (r: Option<
        (usize, usize),
    >)
        requires
            old(self).wf(),
            1 <= num_bits <= 8,
            old(self).max_bits() >= 1,
            old(self).max_bits() + 8 <= usize::MAX,
        ensures
            final(self).wf(),
            final(self).max_bits() == old(self).max_bits(),
            ({
                let (rr, rng2) = spec_alloc_try(
                    old(self).bitmap(),
                    old(rng)@,
                    num_bits as int,
                    max_attempts,
                );
                r == rr && final(rng)@ == rng2
            }),
            match r {
                Some(range) => {
                    &&& range.1 == range.0 + num_bits - 1
                    &&& range.1 < old(self).max_bits()
                    &&& range_within_byte(range)
                    &&& forall|b: int| range.0 <= b <= range.1 ==> !old(self).claimed(b)
                    &&& forall|b: int|
                        final(self).claimed(b) == (old(self).claimed(b) || range.0 <= b
                            <= range.1)
                    &&& final(self).bitmap() == mark_range(
                        old(self).bitmap(),
                        range.0 as int,
                        range.1 as int,
                    )
                    &&& final(self).claimed_count() == old(self).claimed_count() + num_bits
                    &&& final(self).granted_ranges() == old(self).granted_ranges().push(range)
                },
                None => *final(self) == *old(self),
            },
    {
        let ghost bits0 = self.bitmap();
        let ghost rng0 = rng@;
        let max_bits = self.used.len();
        let mut attempts: u64 = 0;
        while attempts < max_attempts
            invariant
                *self == *old(self),
                self.wf(),
                max_bits == self.used@.len(),
                max_bits >= 1,
                max_bits + 8 <= usize::MAX,
                1 <= num_bits <= 8,
                attempts <= max_attempts,
                spec_alloc_try(bits0, rng0, num_bits as int, max_attempts) == spec_alloc_try(
                    bits0,
                    rng@,
                    num_bits as int,
                    (max_attempts - attempts) as u64,
                ),
            decreases max_attempts - attempts,
        {
            attempts += 1;
            let draw = rng.rand();
            let ghost rem = (max_attempts - (attempts - 1)) as u64;
            let bit_start = (draw % (max_bits as u64)) as usize;
            let bit_end = bit_start + num_bits - 1;
            if bit_end >= max_bits || bit_start / 8 != bit_end / 8 {
                continue ;
            }
            // Check that every bit of the run is still free.
            let mut b = bit_start;
            let mut all_free = true;
            while b <= bit_end && all_free
                invariant
                    bit_start <= b <= bit_end + 1,
                    bit_end < self.used@.len(),
                    bit_end < usize::MAX,
                    all_free ==> forall|k: int| bit_start <= k < b ==> !self.used@[k],
                    !all_free ==> exists|k: int|
                        bit_start <= k <= bit_end && #[trigger] self.used@[k],
                decreases bit_end + 1 - b,
            {
                if self.used[b] {
                    all_free = false;
                }
                b += 1;
            }
            if !all_free {
                continue ;
            }
            proof {
                assert(!(exists|k: int| bit_start <= k <= bit_end && bits0[k]));
            }
            // Claim the run.
            let ghost before = *self;
            let mut b = bit_start;
            while b <= bit_end
                invariant
                    bit_start <= b <= bit_end + 1,
                    bit_end < self.used@.len(),
                    bit_end < usize::MAX,
                    self.used@.len() == before.used@.len(),
                    self.granted == before.granted,
                    forall|k: int|
                        0 <= k < self.used@.len() ==> #[trigger] self.used@[k] == (before.used@[k]
                            || bit_start <= k < b),
                    count_true(self.used@) == count_true(before.used@) + (b - bit_start),
                decreases bit_end + 1 - b,
            {
                proof {
                    assert(!self.used@[b as int]);
                    lemma_count_true_set(self.used@, b as int);
                }
                self.used.set(b, true);
                b += 1;
            }
            let range = (bit_start, bit_end);
            proof {
                self.granted@ = self.granted@.push(range);
            }
            proof {
                assert(self.used@ =~= mark_range(bits0, bit_start as int, bit_end as int));
                assert forall|i: int|
                    0 <= i < self.granted@.len() implies {
                    &&& range_within_byte(#[trigger] self.granted@[i])
                    &&& self.granted@[i].1 < self.used@.len()
                    &&& self.range_claimed(self.granted@[i])
                } by {
                    let r = self.granted@[i];
                    if i < self.granted@.len() - 1 {
                        assert(r == before.granted@[i]);
                        assert(before.range_claimed(r));
                        assert forall|bb: int| r.0 <= bb <= r.1 implies self.claimed(bb) by {
                            assert(before.claimed(bb));
                        }
                    } else {
                        assert(r == range);
                        assert forall|bb: int| r.0 <= bb <= r.1 implies self.claimed(bb) by {
                            assert(self.used@[bb]);
                        }
                    }
                }
                assert forall|i: int, j: int|
                    0 <= i < j < self.granted@.len() implies ranges_disjoint(
                    #[trigger] self.granted@[i],
                    #[trigger] self.granted@[j],
                ) by {
                    if j == self.granted@.len() - 1 {
                        // A bit shared with an older grant would have been
                        // seen as claimed by the scan above.
                        let old_r = self.granted@[i];
                        assert(old_r == before.granted@[i]);
                        if !ranges_disjoint(old_r, range) {
                            let b0: int = if old_r.0 >= range.0 as int {
                                old_r.0 as int
                            } else {
                                range.0 as int
                            };
                            assert(before.range_claimed(old_r));
                            assert(before.claimed(b0));
                            assert(!before.used@[b0]);
                        }
                    }
                }
                // The accepted draw is the one the search specification picks.
                assert(spec_alloc_try(bits0, rng0, num_bits as int, max_attempts) == (
                Some(range),
                rng@,
                ));
            }
            return Some(range);
        }
        None
    }
}

/// Law: within one generation run, all successfully allocated bit ranges are
/// pairwise disjoint and none crosses a byte boundary.
pub proof fn lemma_bit_disjointness(a: BitAlloc)
    requires
        a.wf(),
    ensures
        forall|i: int, j: int|
            0 <= i < j < a.granted_ranges().len() ==> ranges_disjoint(
                #[trigger] a.granted_ranges()[i],
                #[trigger] a.granted_ranges()[j],
            ),
        forall|i: int|
            0 <= i < a.granted_ranges().len() ==> range_within_byte(#[trigger] a.granted_ranges()[i]),
{
}

} // verus!
