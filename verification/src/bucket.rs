use vstd::prelude::*;

use crate::rate::Rate;
use crate::Error;

verus! {

/// One key's token state: the tokens currently available and the next instant
/// (in milliseconds on the registry's clock) at which a refill becomes due.
#[derive(Clone, Copy)]
pub struct Bucket {
    pub available: u64,
    pub refill_at_ms: u64,
}

/// The smaller of two mathematical integers.
pub open spec fn min_int(a: int, b: int) -> int {
    if a < b {
        a
    } else {
        b
    }
}

/// Ceiling division of a non-negative integer by a positive divisor.
pub open spec fn ceil_div(a: int, d: int) -> int {
    if a % d == 0 {
        a / d
    } else {
        a / d + 1
    }
}

impl Bucket {
    /// A bucket never holds more tokens than the rate's capacity.
    pub open spec fn inv(self, rate: Rate) -> bool {
        self.available <= rate.max
    }

    /// How many refills fall due at `elapsed_ms`: one for reaching
    /// `refill_at_ms`, plus one per whole interval gone by since then.
    /// Meaningful only when `elapsed_ms >= refill_at_ms`.
    pub open spec fn intervals_due(self, elapsed_ms: u64, rate: Rate) -> int {
        1 + (elapsed_ms - self.refill_at_ms) / (rate.interval_ms as int)
    }

    /// The token count after a refill at `elapsed_ms`, clamped at capacity.
    pub open spec fn refilled_available(self, elapsed_ms: u64, rate: Rate) -> int {
        min_int(
            self.available + self.intervals_due(elapsed_ms, rate) * rate.refill,
            rate.max as int,
        )
    }

    /// The next due instant after a refill at `elapsed_ms`.
    pub open spec fn refilled_refill_at(self, elapsed_ms: u64, rate: Rate) -> int {
        self.refill_at_ms + self.intervals_due(elapsed_ms, rate) * rate.interval_ms
    }

    /// The bucket state after bringing it up to date as of `elapsed_ms`:
    /// unchanged while no refill is due, otherwise advanced by every due
    /// interval and topped up, never past the capacity.
    pub open spec fn refilled(self, elapsed_ms: u64, rate: Rate) -> Bucket {
        if elapsed_ms < self.refill_at_ms {
            self
        } else {
            Bucket {
                available: self.refilled_available(elapsed_ms, rate) as u64,
                refill_at_ms: self.refilled_refill_at(elapsed_ms, rate) as u64,
            }
        }
    }

    /// The absolute instant at which the bucket reaches full capacity given
    /// its current state: `refill_at_ms` plus one interval per refill still
    /// needed.
    pub open spec fn full_at_spec(self, rate: Rate) -> int {
        self.refill_at_ms + ceil_div(rate.max - self.available, rate.refill as int)
            * rate.interval_ms
    }

    /// What `try_acquire` returns.
    pub open spec fn acquire_result(self, num: u64) -> Result<u64, Error> {
        if self.available >= num {
            Ok(num)
        } else {
            Err(Error::NotEnoughTokens)
        }
    }

    /// The bucket state after `try_acquire`: the tokens are withdrawn when
    /// enough are available, and nothing changes otherwise.
    pub open spec fn acquired(self, num: u64) -> Bucket {
        if self.available >= num {
            Bucket { available: (self.available - num) as u64, refill_at_ms: self.refill_at_ms }
        } else {
            self
        }
    }

    /// Refilling keeps the token count within the capacity.
    pub proof fn lemma_refilled_inv(self, elapsed_ms: u64, rate: Rate)
        requires
            rate.wf(),
            self.inv(rate),
        ensures
            self.refilled(elapsed_ms, rate).inv(rate),
    {
        if elapsed_ms >= self.refill_at_ms {
            vstd::arithmetic::div_mod::lemma_div_pos_is_pos(
                elapsed_ms - self.refill_at_ms,
                rate.interval_ms as int,
            );
            vstd::arithmetic::mul::lemma_mul_nonnegative(
                self.intervals_due(elapsed_ms, rate),
                rate.refill as int,
            );
        }
    }

    pub fn new(available: u64, refill_at_ms: u64) -> (b: Bucket)
        ensures
            b.available == available,
            b.refill_at_ms == refill_at_ms,
    {
        Bucket { available, refill_at_ms }
    }

    /// The current token count, read as-is; no refill is triggered.
    pub fn available(&self) -> (r: u64)
        ensures
            r == self.available,
    {
        self.available
    }

    /// The instant at which this bucket will be full again, saturating at the
    /// largest representable instant. Used only for eviction decisions.
    pub fn full_at(&self, rate: &Rate) -> (r: u64)
        requires
            rate.wf(),
            self.inv(*rate),
        ensures
            r == min_int(self.full_at_spec(*rate), u64::MAX as int),
    {
        let need = rate.max - self.available;
        let q = need / rate.refill;
        let rem = need % rate.refill;
        proof {
            if rem != 0 {
                // `q + 1` cannot overflow: a non-zero remainder means the
                // divisor is at least 2, so the quotient is at most half of `need`.
                assert(rate.refill >= 2) by {
                    if rate.refill == 1 {
                        assert(need as int % 1int == 0) by (nonlinear_arith);
                    }
                };
                vstd::arithmetic::div_mod::lemma_div_is_ordered_by_denominator(
                    need as int,
                    2,
                    rate.refill as int,
                );
                assert(need as int / 2int <= u64::MAX as int / 2int);
            }
        }
        let ivs = if rem == 0 {
            q
        } else {
            q + 1
        };
        let step = match ivs.checked_mul(rate.interval_ms) {
            Some(v) => v,
            None => u64::MAX,
        };
        proof {
            // Saturating at u64::MAX in either step keeps the result equal to
            // the mathematical value clamped at u64::MAX.
            assert(step == min_int(ivs * rate.interval_ms, u64::MAX as int));
        }
        self.refill_at_ms.saturating_add(step)
    }

    /// Bring the token count up to date as of `elapsed_ms`: if the next
    /// scheduled refill has been reached, advance `refill_at_ms` by every due
    /// interval and add the matching amount of tokens, clamped at capacity.
    pub fn refill(&mut self, elapsed_ms: u64, rate: &Rate)
        requires
            rate.wf(),
            old(self).inv(*rate),
            elapsed_ms + rate.interval_ms <= u64::MAX,
        ensures
            *final(self) == old(self).refilled(elapsed_ms, *rate),
            final(self).inv(*rate),
    {
        if elapsed_ms < self.refill_at_ms {
            return;
        }
        let gap = elapsed_ms - self.refill_at_ms;
        let ghost iv = rate.interval_ms as int;
        let ghost q = gap as int / iv;
        proof {
            vstd::arithmetic::div_mod::lemma_div_nonincreasing(gap as int, iv);
            vstd::arithmetic::div_mod::lemma_div_pos_is_pos(gap as int, iv);
        }
        let n = 1 + gap / rate.interval_ms;
        proof {
            vstd::arithmetic::div_mod::lemma_fundamental_div_mod(gap as int, iv);
            vstd::arithmetic::div_mod::lemma_mod_division_less_than_divisor(gap as int, iv);
            // n * interval == interval + (gap / interval) * interval
            //              == interval + gap - gap % interval <= interval + gap
            assert((1 + q) * iv == iv + q * iv) by (nonlinear_arith);
            assert(iv * q == q * iv) by (nonlinear_arith);
            assert(n * rate.interval_ms == iv + (gap as int - gap as int % iv));
        }
        self.refill_at_ms = self.refill_at_ms + n * rate.interval_ms;
        let added = match n.checked_mul(rate.refill) {
            Some(v) => v,
            None => u64::MAX,
        };
        let shortfall = rate.max - self.available;
        if added >= shortfall {
            self.available = rate.max;
        } else {
            self.available = self.available + added;
        }
        proof {
            assert(added == min_int(n * rate.refill, u64::MAX as int));
        }
    }

    /// Try to withdraw `num` tokens: succeeds exactly when at least `num`
    /// tokens are available, and otherwise changes nothing. With exclusive
    /// access to the bucket a withdrawal cannot lose a race, so
    /// `Error::HighContention` is never returned.
    pub fn try_acquire(&mut self, num: u64) -> (r: Result<u64, Error>)
        ensures
            r == old(self).acquire_result(num),
            *final(self) == old(self).acquired(num),
            old(self).available < num ==> r == Err::<u64, Error>(Error::NotEnoughTokens)
                && *final(self) == *old(self),
    {
        if self.available < num {
            return Err(Error::NotEnoughTokens);
        }
        self.available = self.available - num;
        Ok(num)
    }
}

/// One step a caller can take against a single bucket.
pub enum BucketOp {
    Refill { elapsed_ms: u64 },
    Acquire { num: u64 },
}

/// The bucket state after one step.
pub open spec fn apply_op(b: Bucket, op: BucketOp, rate: Rate) -> Bucket {
    match op {
        BucketOp::Refill { elapsed_ms } => b.refilled(elapsed_ms, rate),
        BucketOp::Acquire { num } => b.acquired(num),
    }
}

/// The bucket state after a sequence of steps, applied oldest first.
pub open spec fn apply_ops(b: Bucket, ops: Seq<BucketOp>, rate: Rate) -> Bucket
    decreases ops.len(),
{
    if ops.len() == 0 {
        b
    } else {
        apply_ops(apply_op(b, ops[0], rate), ops.drop_first(), rate)
    }
}

/// One step keeps a well-formed bucket within its capacity.
pub proof fn lemma_op_keeps_bounds(b: Bucket, op: BucketOp, rate: Rate)
    requires
        rate.wf(),
        b.inv(rate),
    ensures
        apply_op(b, op, rate).inv(rate),
{
    match op {
        BucketOp::Refill { elapsed_ms } => b.lemma_refilled_inv(elapsed_ms, rate),
        BucketOp::Acquire { num: _ } => {},
    }
}

/// Law: however refills and withdrawals are interleaved on one bucket, the
/// available count never exceeds the capacity; being unsigned, it can never
/// go negative either.
pub proof fn lemma_ops_keep_bounds(b: Bucket, ops: Seq<BucketOp>, rate: Rate)
    requires
        rate.wf(),
        b.inv(rate),
    ensures
        apply_ops(b, ops, rate).inv(rate),
    decreases ops.len(),
{
    if ops.len() > 0 {
        lemma_op_keeps_bounds(b, ops[0], rate);
        lemma_ops_keep_bounds(apply_op(b, ops[0], rate), ops.drop_first(), rate);
    }
}

/// Law: refilling is proportional. When exactly `n` whole intervals fall due
/// by `elapsed_ms`, the refill adds `min(n * refill, max - available)` tokens.
pub proof fn lemma_refill_proportional(b: Bucket, rate: Rate, n: u64, elapsed_ms: u64)
    requires
        rate.wf(),
        b.inv(rate),
        n >= 1,
        elapsed_ms == b.refill_at_ms + (n - 1) * rate.interval_ms,
    ensures
        b.refilled(elapsed_ms, rate).available == b.available + min_int(
            n * rate.refill,
            rate.max - b.available,
        ),
{
    let iv = rate.interval_ms as int;
    vstd::arithmetic::mul::lemma_mul_nonnegative(n - 1, iv);
    assert(elapsed_ms >= b.refill_at_ms);
    vstd::arithmetic::div_mod::lemma_div_multiples_vanish(n - 1, iv);
    assert(iv * (n - 1) == (n - 1) * iv) by (nonlinear_arith);
    assert((elapsed_ms - b.refill_at_ms) / iv == n - 1);
    assert(b.intervals_due(elapsed_ms, rate) == n);
    b.lemma_refilled_inv(elapsed_ms, rate);
    vstd::arithmetic::mul::lemma_mul_nonnegative(n as int, rate.refill as int);
}

} // verus!
