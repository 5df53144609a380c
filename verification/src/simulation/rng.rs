//! SplitMix64, specified here so replays never depend on a library's defaults.
//! Wrapping arithmetic is intentional only in this pseudo-random state machine.
use vstd::prelude::*;
use super::config::{ArrivalProcess, PaymentFlow};

verus! {

pub const GOLDEN_GAMMA: u64 = 0x9e37_79b9_7f4a_7c15;

pub const MIX_A: u64 = 0xbf58_476d_1ce4_e5b9;

pub const MIX_B: u64 = 0x94d0_49bb_1331_11eb;

/// The most draws one bounded sample makes before it settles for the last one.
pub const MAX_DRAWS: u64 = 0xffff_ffff_ffff_ffff;

/// The generator state; each draw advances it by the golden gamma.
#[derive(Debug, Clone, Copy, PartialEq, Eq)]
pub struct Random(pub u64);

/// The state after `k` draws from `s`.
pub open spec fn state_after(s: u64, k: nat) -> u64 {
    ((s + k * GOLDEN_GAMMA) % 0x1_0000_0000_0000_0000) as u64
}

/// The output mixed from a state.
pub open spec fn mix(s: u64) -> u64 {
    let z1 = vstd::wrapping::u64_specs::wrapping_mul(s ^ (s >> 30u64), MIX_A);
    let z2 = vstd::wrapping::u64_specs::wrapping_mul(z1 ^ (z1 >> 27u64), MIX_B);
    z2 ^ (z2 >> 31u64)
}

/// The draws below the rejection threshold that precede an accepted one.
pub open spec fn rejected_before(s: u64, k: nat, threshold: u64) -> bool {
    forall|j: nat| j < k ==> mix(#[trigger] state_after(s, j + 1)) < threshold
}

/// The unbiased sample in `[min, max]` taken from state `s`, ending in state `e`.
pub open spec fn sampled(s: u64, min: u64, max: u64, r: u64, e: u64) -> bool {
    let span = max - min;
    if span == 0xffff_ffff_ffff_ffff {
        e == state_after(s, 1) && r == mix(e)
    } else {
        let bound = (span + 1) as u64;
        let threshold = ((0x1_0000_0000_0000_0000 - bound) % (bound as int)) as u64;
        exists|k: nat|
            #![trigger state_after(s, k + 1)]
            k < MAX_DRAWS && e == state_after(s, k + 1) && rejected_before(s, k, threshold) && (mix(e) >= threshold
                || k + 1 == MAX_DRAWS) && r == min + mix(e) % bound
    }
}

/// The sample and end state of one bounded draw from `s`.
pub open spec fn draw(s: u64, min: u64, max: u64) -> (u64, u64) {
    choose|p: (u64, u64)| sampled(s, min, max, p.0, p.1)
}

/// A bounded draw has one outcome.
proof fn lemma_sampled_unique(s: u64, min: u64, max: u64, r1: u64, e1: u64, r2: u64, e2: u64)
    requires
        min <= max,
        sampled(s, min, max, r1, e1),
        sampled(s, min, max, r2, e2),
    ensures
        r1 == r2 && e1 == e2,
{
    let span = max - min;
    if span != 0xffff_ffff_ffff_ffff {
        let bound = (span + 1) as u64;
        let threshold = ((0x1_0000_0000_0000_0000 - bound) % (bound as int)) as u64;
        let k1 = choose|k: nat|
            #![trigger state_after(s, k + 1)]
            k < MAX_DRAWS && e1 == state_after(s, k + 1) && rejected_before(s, k, threshold) && (mix(e1) >= threshold
                || k + 1 == MAX_DRAWS) && r1 == min + mix(e1) % bound;
        let k2 = choose|k: nat|
            #![trigger state_after(s, k + 1)]
            k < MAX_DRAWS && e2 == state_after(s, k + 1) && rejected_before(s, k, threshold) && (mix(e2) >= threshold
                || k + 1 == MAX_DRAWS) && r2 == min + mix(e2) % bound;
        if k1 < k2 {
            assert(mix(state_after(s, k1 + 1)) < threshold);
        } else if k2 < k1 {
            assert(mix(state_after(s, k2 + 1)) < threshold);
        }
    }
}

/// `draw` names the one outcome of a bounded draw.
proof fn lemma_draw(s: u64, min: u64, max: u64, r: u64, e: u64)
    requires
        min <= max,
        sampled(s, min, max, r, e),
    ensures
        draw(s, min, max) == (r, e),
{
    let p = (r, e);
    assert(sampled(s, min, max, p.0, p.1));
    let q = draw(s, min, max);
    lemma_sampled_unique(s, min, max, r, e, q.0, q.1);
}

/// One attempt: its chance, flow, amount and deadline, in that order, and the
/// instruction it yields when the chance succeeds; then the state after it.
pub open spec fn attempt_outcome(s: u64, a: ArrivalProcess) -> (Option<ArrivalSample>, u64) {
    let (chance, s1) = draw(s, 0, 999_999);
    let (pick, s2) = draw(s1, 0, (a.flows@.len() - 1) as u64);
    let (amount, s3) = draw(s2, a.min_amount_cents, a.max_amount_cents);
    let (sla, s4) = draw(s3, a.min_sla_minutes, a.max_sla_minutes);
    (
        if chance < a.probability_per_million {
            Some(ArrivalSample { flow: a.flows@[pick as int], amount, sla })
        } else {
            None
        },
        s4,
    )
}

/// The instructions of the first `n` attempts from state `s`, and the state after them.
pub open spec fn attempts_outcome(s: u64, a: ArrivalProcess, n: nat) -> (Seq<ArrivalSample>, u64)
    decreases n,
{
    if n == 0 {
        (Seq::empty(), s)
    } else {
        let (before, t) = attempts_outcome(s, a, (n - 1) as nat);
        let (o, u) = attempt_outcome(t, a);
        (
            match o {
                Some(x) => before.push(x),
                None => before,
            },
            u,
        )
    }
}

/// Two arrival processes that draw alike: the same attempts, bounds and number of flows.
pub open spec fn same_arrivals(a: ArrivalProcess, b: ArrivalProcess) -> bool {
    &&& a.attempts_per_minute == b.attempts_per_minute
    &&& a.probability_per_million == b.probability_per_million
    &&& a.flows@.len() == b.flows@.len()
    &&& a.min_amount_cents == b.min_amount_cents
    &&& a.max_amount_cents == b.max_amount_cents
    &&& a.min_sla_minutes == b.min_sla_minutes
    &&& a.max_sla_minutes == b.max_sla_minutes
}

/// An arrival process whose chance is zero never yields an instruction,
/// whatever the generator state and however many attempts it makes.
pub proof fn lemma_silent_arrivals(s: u64, a: ArrivalProcess, n: nat)
    requires
        a.probability_per_million == 0,
    ensures
        attempts_outcome(s, a, n).0.len() == 0,
    decreases n,
{
    if n > 0 {
        lemma_silent_arrivals(s, a, (n - 1) as nat);
    }
}

/// Arrival processes that draw alike leave the generator in the same state.
pub proof fn lemma_same_arrivals(s: u64, a: ArrivalProcess, b: ArrivalProcess, n: nat)
    requires
        same_arrivals(a, b),
    ensures
        attempts_outcome(s, a, n).1 == attempts_outcome(s, b, n).1,
        attempts_outcome(s, a, n).0.len() == attempts_outcome(s, b, n).0.len(),
    decreases n,
{
    if n > 0 {
        lemma_same_arrivals(s, a, b, (n - 1) as nat);
        let t = attempts_outcome(s, a, (n - 1) as nat).1;
        assert(attempt_outcome(t, a).1 == attempt_outcome(t, b).1);
        assert(attempt_outcome(t, a).0.is_some() == attempt_outcome(t, b).0.is_some());
    }
}

/// Arrival processes that draw alike and offer the same flows yield the same samples.
pub proof fn lemma_same_draws(s: u64, a: ArrivalProcess, b: ArrivalProcess, n: nat)
    requires
        same_arrivals(a, b),
        a.flows@ == b.flows@,
    ensures
        attempts_outcome(s, a, n) == attempts_outcome(s, b, n),
    decreases n,
{
    if n > 0 {
        lemma_same_draws(s, a, b, (n - 1) as nat);
        let t = attempts_outcome(s, a, (n - 1) as nat).1;
        assert(attempt_outcome(t, a) == attempt_outcome(t, b));
    }
}

proof fn lemma_state_step(s: u64, k: nat)
    ensures
        vstd::wrapping::u64_specs::wrapping_add(state_after(s, k), GOLDEN_GAMMA) == state_after(s, k + 1),
{
    let m: int = 0x1_0000_0000_0000_0000;
    let x: int = s + k * GOLDEN_GAMMA;
    vstd::arithmetic::div_mod::lemma_add_mod_noop(x, GOLDEN_GAMMA as int, m);
    vstd::arithmetic::div_mod::lemma_small_mod(GOLDEN_GAMMA as nat, m as nat);
    vstd::arithmetic::div_mod::lemma_mod_bound(x, m);
    assert((k + 1) * GOLDEN_GAMMA == k * GOLDEN_GAMMA + GOLDEN_GAMMA) by (nonlinear_arith);
    let a: int = x % m;
    if a + GOLDEN_GAMMA >= m {
        vstd::arithmetic::div_mod::lemma_small_mod((a + GOLDEN_GAMMA - m) as nat, m as nat);
        vstd::arithmetic::div_mod::lemma_mod_add_multiples_vanish(a + GOLDEN_GAMMA - m, m);
    } else {
        vstd::arithmetic::div_mod::lemma_small_mod((a + GOLDEN_GAMMA) as nat, m as nat);
    }
}

/// One revealed instruction: a flow, a principal and a relative deadline.
#[derive(Debug, Clone, PartialEq, Eq)]
pub struct ArrivalSample {
    pub flow: PaymentFlow,
    pub amount: u64,
    pub sla: u64,
}

impl Random {
    /// Advance the state by the golden gamma and mix it.
    pub fn next(&mut self) -> (r: u64)
        ensures
            final(self).0 == state_after(old(self).0, 1),
            r == mix(final(self).0),
    {
        proof {
            lemma_state_step(self.0, 0);
            assert(state_after(self.0, 0) == self.0) by {
                vstd::arithmetic::div_mod::lemma_small_mod(self.0 as nat, 0x1_0000_0000_0000_0000nat);
            }
        }
        self.0 = self.0.wrapping_add(GOLDEN_GAMMA);
        let mut z = self.0;
        z = (z ^ (z >> 30u64)).wrapping_mul(MIX_A);
        z = (z ^ (z >> 27u64)).wrapping_mul(MIX_B);
        z ^ (z >> 31u64)
    }

    /// A uniform value in `[min, max]`: draws below the incomplete residue block
    /// are rejected so that no value is favoured.
    pub fn inclusive(&mut self, min: u64, max: u64) -> (r: u64)
        requires
            min <= max,
        ensures
            min <= r <= max,
            sampled(old(self).0, min, max, r, final(self).0),
    {
        let ghost s = self.0;
        let span = max - min;
        if span == u64::MAX {
            return self.next();
        }
        let bound = span + 1;
        let threshold = (u64::MAX - bound + 1) % bound;
        let mut k: u64 = 0;
        proof {
            assert(state_after(s, 0) == s) by {
                vstd::arithmetic::div_mod::lemma_small_mod(s as nat, 0x1_0000_0000_0000_0000nat);
            }
        }
        loop
            invariant
                s == old(self).0,
                min <= max,
                0 < bound,
                bound == span + 1,
                span == max - min,
                span < u64::MAX,
                threshold == ((0x1_0000_0000_0000_0000 - bound) % (bound as int)) as u64,
                k < MAX_DRAWS,
                self.0 == state_after(s, k as nat),
                rejected_before(s, k as nat, threshold),
            decreases MAX_DRAWS - k,
        {
            proof {
                lemma_state_step(s, k as nat);
            }
            let ghost before = self.0;
            let value = self.next();
            assert(self.0 == state_after(s, (k + 1) as nat)) by {
                lemma_state_step(s, k as nat);
            }
            if value >= threshold || k == MAX_DRAWS - 1 {
                let r = min + value % bound;
                assert(sampled(s, min, max, r, self.0)) by {
                    let kk: nat = k as nat;
                    assert(self.0 == state_after(s, kk + 1));
                    assert(rejected_before(s, kk, threshold));
                    assert(mix(self.0) >= threshold || kk + 1 == MAX_DRAWS);
                    assert(r == min + mix(self.0) % bound);
                }
                return r;
            }
            assert forall|j: nat| j < k + 1 implies mix(#[trigger] state_after(s, j + 1)) < threshold by {
                if j < k {
                    assert(rejected_before(s, k as nat, threshold));
                } else {
                    assert(j == k);
                }
            }
            k = k + 1;
        }
    }

    /// One minute of demand: every attempt draws its chance, flow, amount and
    /// deadline in that order, and only a successful chance yields an instruction.
    pub fn arrivals(&mut self, arrivals: &ArrivalProcess) -> (r: Vec<ArrivalSample>)
        requires
            arrivals.flows@.len() > 0,
            arrivals.min_amount_cents <= arrivals.max_amount_cents,
            arrivals.min_sla_minutes <= arrivals.max_sla_minutes,
        ensures
            r@ == attempts_outcome(old(self).0, *arrivals, arrivals.attempts_per_minute as nat).0,
            final(self).0 == attempts_outcome(old(self).0, *arrivals, arrivals.attempts_per_minute as nat).1,
            r@.len() <= arrivals.attempts_per_minute,
            forall|i: int|
                0 <= i < r@.len() ==> arrivals.min_amount_cents <= (#[trigger] r@[i]).amount
                    <= arrivals.max_amount_cents && arrivals.min_sla_minutes <= r@[i].sla
                    <= arrivals.max_sla_minutes && arrivals.flows@.contains(r@[i].flow),
    {
        let mut samples: Vec<ArrivalSample> = Vec::new();
        let mut attempt: u32 = 0;
        while attempt < arrivals.attempts_per_minute
            invariant
                attempt <= arrivals.attempts_per_minute,
                samples@.len() <= attempt,
                arrivals.flows@.len() > 0,
                arrivals.min_amount_cents <= arrivals.max_amount_cents,
                arrivals.min_sla_minutes <= arrivals.max_sla_minutes,
                samples@ == attempts_outcome(old(self).0, *arrivals, attempt as nat).0,
                self.0 == attempts_outcome(old(self).0, *arrivals, attempt as nat).1,
                forall|i: int|
                    0 <= i < samples@.len() ==> arrivals.min_amount_cents <= (#[trigger] samples@[i]).amount
                        <= arrivals.max_amount_cents && arrivals.min_sla_minutes <= samples@[i].sla
                        <= arrivals.max_sla_minutes && arrivals.flows@.contains(samples@[i].flow),
            decreases arrivals.attempts_per_minute - attempt,
        {
            let ghost s0 = self.0;
            let chance = self.inclusive(0, 999_999);
            let ghost s1 = self.0;
            let last = (arrivals.flows.len() - 1) as u64;
            let pick = self.inclusive(0, last);
            let ghost s2 = self.0;
            let amount = self.inclusive(arrivals.min_amount_cents, arrivals.max_amount_cents);
            let ghost s3 = self.0;
            let sla = self.inclusive(arrivals.min_sla_minutes, arrivals.max_sla_minutes);
            proof {
                lemma_draw(s0, 0, 999_999, chance, s1);
                lemma_draw(s1, 0, last, pick, s2);
                lemma_draw(s2, arrivals.min_amount_cents, arrivals.max_amount_cents, amount, s3);
                lemma_draw(s3, arrivals.min_sla_minutes, arrivals.max_sla_minutes, sla, self.0);
                assert(last == (arrivals.flows@.len() - 1) as u64);
            }
            if chance < arrivals.probability_per_million as u64 {
                let flow = &arrivals.flows[pick as usize];
                let sample = ArrivalSample {
                    flow: PaymentFlow { sender: flow.sender.clone(), receiver: flow.receiver.clone() },
                    amount,
                    sla,
                };
                assert(sample.flow == arrivals.flows@[pick as int]);
                samples.push(sample);
            }
            attempt += 1;
        }
        samples
    }
}

} // verus!
