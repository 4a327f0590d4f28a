//! Range sampling: uniform binary-search sampling over an interval, and the
//! bridge from a ciphertext midpoint to a hypergeometric split of the
//! plaintext interval.

use vstd::prelude::*;

use crate::hgd::Coins;
use crate::ope::{OpeError, ValueRange};

verus! {

/// What the bisection loop of `sample_uniform` returns on the interval
/// `[s, e]` with the coin sequence `bits`: the chosen value together with the
/// coins left over, or `NotEnoughCoinsError` when the tape runs dry.
pub open spec fn bisect_spec(s: int, e: int, bits: Seq<bool>) -> Result<(int, Seq<bool>), OpeError>
    decreases e - s,
{
    if s >= e {
        Ok((s, bits))
    } else if bits.len() == 0 {
        Err(OpeError::NotEnoughCoinsError)
    } else if bits[0] {
        bisect_spec(s + (e - s) / 2 + 1, e, bits.skip(1))
    } else {
        bisect_spec(s, s + (e - s) / 2, bits.skip(1))
    }
}

/// What `sample_uniform` returns: a malformed interval is rejected, any other
/// is bisected.
pub open spec fn sample_uniform_spec(range: ValueRange, bits: Seq<bool>) -> Result<
    (int, Seq<bool>),
    OpeError,
> {
    if range.start > range.end {
        Err(OpeError::InvalidRangeLimitsError)
    } else {
        bisect_spec(range.start as int, range.end as int, bits)
    }
}

/// The value a successful bisection picks lies inside the interval.
pub proof fn lemma_bisect_in_range(s: int, e: int, bits: Seq<bool>)
    requires
        s <= e,
    ensures
        bisect_spec(s, e, bits) matches Ok(p) ==> s <= p.0 <= e,
    decreases e - s,
{
    if s < e && bits.len() > 0 {
        let mid = s + (e - s) / 2;
        assert(s <= mid < e) by (nonlinear_arith)
            requires
                s < e,
                mid == s + (e - s) / 2,
        ;
        if bits[0] {
            lemma_bisect_in_range(mid + 1, e, bits.skip(1));
        } else {
            lemma_bisect_in_range(s, mid, bits.skip(1));
        }
    }
}

/// Uniform sampling by bisection: while the interval holds more than one
/// value, draw one coin and keep the lower half (coin `false`) or the upper
/// half (coin `true`), splitting at the floor midpoint; the single value left
/// is the sample. A one-value interval consumes no coins.
pub fn sample_uniform(in_range: ValueRange, coins: &mut Coins) -> (r: Result<i32, OpeError>)
    ensures
        (match (r, sample_uniform_spec(in_range, old(coins).remaining())) {
            (Ok(v), Ok(p)) => v as int == p.0 && final(coins).remaining() == p.1
                && in_range.spec_contains(v as int),
            (Err(e1), Err(e2)) => e1 == e2,
            _ => false,
        }),
{
    if in_range.start > in_range.end {
        return Err(OpeError::InvalidRangeLimitsError);
    }
    let mut cur_start: i64 = in_range.start as i64;
    let mut cur_end: i64 = in_range.end as i64;
    while cur_start < cur_end
        invariant
            in_range.start <= cur_start <= cur_end <= in_range.end,
            bisect_spec(cur_start as int, cur_end as int, coins.remaining()) == bisect_spec(
                in_range.start as int,
                in_range.end as int,
                old(coins).remaining(),
            ),
        decreases cur_end - cur_start,
    {
        let mid: i64 = cur_start + (cur_end - cur_start) / 2;
        proof {
            assert(cur_start <= mid < cur_end) by (nonlinear_arith)
                requires
                    cur_start < cur_end,
                    mid == cur_start + (cur_end - cur_start) / 2,
            ;
        }
        match coins.next() {
            Some(false) => {
                cur_end = mid;
            },
            Some(true) => {
                cur_start = mid + 1;
            },
            None => {
                return Err(OpeError::NotEnoughCoinsError);
            },
        }
    }
    proof {
        lemma_bisect_in_range(in_range.start as int, in_range.end as int, old(coins).remaining());
    }
    Ok(cur_start as i32)
}

/// What `sample_hgd` returns: the split point of the plaintext interval that
/// matches the midpoint `nsample` of the ciphertext interval, with the coins
/// left over. Malformed intervals, a midpoint outside the ciphertext
/// interval, or a plaintext interval larger than the ciphertext one are
/// rejected with `OutOfRangeError`; a sampled count that cannot be mapped
/// back into the plaintext interval is rejected with `InvalidCoinError`.
pub open spec fn sample_hgd_spec(
    in_range: ValueRange,
    out_range: ValueRange,
    nsample: int,
    bits: Seq<bool>,
) -> Result<(int, Seq<bool>), OpeError> {
    let in_size = in_range.spec_size();
    let out_size = out_range.spec_size();
    if !(in_size >= 1 && out_size >= 1 && in_size <= out_size && out_range.spec_contains(nsample)) {
        Err(OpeError::OutOfRangeError)
    } else {
        let idx = nsample - out_range.start + 1;
        if in_size == out_size {
            Ok((in_range.start + idx - 1, bits))
        } else {
            match crate::hgd::hyp_spec(in_size, out_size - in_size, idx, bits) {
                None => Err(OpeError::NotEnoughCoinsError),
                Some(p) => {
                    let k = p.0;
                    if k == 0 {
                        Ok((in_range.start as int, p.1))
                    } else if 1 <= k <= in_size {
                        Ok((in_range.start + k - 1, p.1))
                    } else {
                        Err(OpeError::InvalidCoinError)
                    }
                },
            }
        }
    }
}

/// Maps the ciphertext midpoint `nsample` to the matching plaintext split
/// point: the 1-based offset of `nsample` inside `out_range` is the number of
/// draws handed to the hypergeometric sampler, whose count of good items is
/// mapped back into `in_range` (clamped to `in_range.start` on a zero
/// count). When the two intervals have the same size the split point is the
/// identity-mapped value and no coins are consumed.
pub fn sample_hgd(
    in_range: ValueRange,
    out_range: ValueRange,
    nsample: i32,
    coins: &mut Coins,
) -> (r: Result<i32, OpeError>)
    ensures
        (match (
            r,
            sample_hgd_spec(in_range, out_range, nsample as int, old(coins).remaining()),
        ) {
            (Ok(x), Ok(p)) => x as int == p.0 && final(coins).remaining() == p.1
                && in_range.spec_contains(x as int),
            (Err(e1), Err(e2)) => e1 == e2,
            _ => false,
        }),
{
    let in_size: i64 = in_range.end as i64 - in_range.start as i64 + 1;
    let out_size: i64 = out_range.end as i64 - out_range.start as i64 + 1;
    if !(in_size >= 1 && out_size >= 1 && in_size <= out_size && out_range.contains(nsample)) {
        return Err(OpeError::OutOfRangeError);
    }
    let idx: i64 = nsample as i64 - out_range.start as i64 + 1;
    if in_size == out_size {
        return Ok(((in_range.start as i64 + idx - 1) as i32));
    }
    let k: i64 = match crate::hgd::hypergeometric_hyp(coins, in_size, out_size - in_size, idx) {
        Ok(v) => v,
        Err(e) => {
            return Err(e);
        },
    };
    if k == 0 {
        Ok(in_range.start)
    } else if 1 <= k && k <= in_size {
        Ok(((in_range.start as i64 + k - 1) as i32))
    } else {
        Err(OpeError::InvalidCoinError)
    }
}

} // verus!
