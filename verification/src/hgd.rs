//! The deterministic coin stream and the hypergeometric sampler that
//! consumes it.

use vstd::prelude::*;

use crate::ope::OpeError;

verus! {

/// The value of a bit sequence read most-significant-bit first.
pub open spec fn bits_value(s: Seq<bool>) -> nat
    decreases s.len(),
{
    if s.len() == 0 {
        0
    } else {
        2 * bits_value(s.drop_last()) + (if s.last() {
            1nat
        } else {
            0nat
        })
    }
}

/// Two to the power `n`.
pub open spec fn p2(n: nat) -> nat
    decreases n,
{
    if n == 0 {
        1
    } else {
        2 * p2((n - 1) as nat)
    }
}

pub proof fn lemma_p2_mono(a: nat, b: nat)
    requires
        a <= b,
    ensures
        p2(a) <= p2(b),
    decreases b,
{
    if a < b {
        lemma_p2_mono(a, (b - 1) as nat);
    }
}

/// A finite tape of coins with a cursor; the part at and after the cursor is
/// what remains to be consumed.
pub struct Coins {
    bits: Vec<bool>,
    pos: usize,
}

impl Coins {
    /// The coins not yet consumed, oldest first.
    pub closed spec fn remaining(self) -> Seq<bool> {
        if self.pos <= self.bits@.len() {
            self.bits@.skip(self.pos as int)
        } else {
            Seq::empty()
        }
    }

    /// A fresh tape holding exactly `bits`, none consumed yet.
    pub fn new(bits: Vec<bool>) -> (r: Coins)
        ensures
            r.remaining() == bits@,
    {
        let r = Coins { bits, pos: 0 };
        proof {
            assert(r.remaining() =~= r.bits@);
        }
        r
    }

    /// How many coins remain.
    pub fn remaining_len(&self) -> (r: usize)
        ensures
            r == self.remaining().len(),
    {
        if self.pos <= self.bits.len() {
            self.bits.len() - self.pos
        } else {
            0
        }
    }

    /// The next coin in generation order, or `None` when the tape is exhausted.
    pub fn next(&mut self) -> (r: Option<bool>)
        ensures
            old(self).remaining().len() == 0 ==> r is None && *final(self) == *old(self),
            old(self).remaining().len() > 0 ==> r == Some(old(self).remaining()[0]) && final(self).remaining() == old(self).remaining().skip(1),
    {
        if self.pos < self.bits.len() {
            let b = self.bits[self.pos];
            self.pos = self.pos + 1;
            proof {
                assert(final(self).remaining() =~= old(self).remaining().skip(1));
            }
            Some(b)
        } else {
            None
        }
    }

    /// Packs the next 32 coins, most-significant-bit first, into one draw;
    /// fails with `NotEnoughCoinsError` when fewer than 32 remain, leaving
    /// the tape untouched.
    pub fn draw(&mut self) -> (r: Result<u32, OpeError>)
        ensures
            old(self).remaining().len() < 32 ==> r == Err::<u32, OpeError>(
                OpeError::NotEnoughCoinsError,
            ) && *final(self) == *old(self),
            old(self).remaining().len() >= 32 ==> r == Ok::<u32, OpeError>(
                bits_value(old(self).remaining().take(32)) as u32,
            ) && final(self).remaining() == old(self).remaining().skip(32),
    {
        if self.remaining_len() < 32 {
            return Err(OpeError::NotEnoughCoinsError);
        }
        let ghost all = self.remaining();
        let mut out: u32 = 0;
        let mut i: usize = 0;
        while i < 32
            invariant
                i <= 32,
                all.len() >= 32,
                self.remaining() == all.skip(i as int),
                out == bits_value(all.take(i as int)),
                out < p2(i as nat),
            decreases 32 - i,
        {
            let b = match self.next() {
                Some(b) => b,
                None => {
                    // unreachable: at least 32 - i coins remain
                    return Err(OpeError::NotEnoughCoinsError);
                },
            };
            proof {
                assert(all.skip(i as int).len() == all.len() - i);
                lemma_p2_mono(i as nat, 31);
                assert(p2(31) == 0x8000_0000) by {
                    reveal_with_fuel(p2, 32);
                }
                assert(all.take(i + 1).drop_last() =~= all.take(i as int));
                assert(all.take(i + 1).last() == all.skip(i as int)[0]);
                assert(all.skip(i as int).skip(1) =~= all.skip(i + 1));
            }
            out = out * 2 + (if b {
                1
            } else {
                0
            });
            i = i + 1;
        }
        proof {
            assert(self.remaining() =~= old(self).remaining().skip(32));
        }
        Ok(out)
    }
}

/// A bit sequence of length `n` is worth less than `2^n`.
pub proof fn lemma_bits_value_bound(s: Seq<bool>)
    ensures
        bits_value(s) < p2(s.len()),
    decreases s.len(),
{
    if s.len() > 0 {
        lemma_bits_value_bound(s.drop_last());
    }
}

/// The exact decrement one inversion step applies: `floor(u/(2^32-1) + y/div)`
/// computed over the common denominator `(2^32-1)*div`.
pub open spec fn hyp_step_dec(u: nat, y: int, div: int) -> int {
    (u * div + y * 0xFFFF_FFFF) / (0xFFFF_FFFF * div)
}

/// One run of the inversion loop: starting from `y` good items still unseen
/// and `k` draws still to make, each step consumes one 32-bit draw and lowers
/// `y` by the exact decrement; the run stops when `y` reaches 0, or after the
/// step that exhausts `k`, and yields the final `y` with the coins left over.
/// `None` means the tape ran dry.
pub open spec fn hyp_loop_spec(y: int, k: int, d1: int, bits: Seq<bool>) -> Option<
    (int, Seq<bool>),
>
    decreases bits.len(),
{
    if y <= 0 {
        Some((y, bits))
    } else if bits.len() < 32 {
        None
    } else {
        let u = bits_value(bits.take(32));
        let y2 = y - hyp_step_dec(u, y, d1 + k);
        if k - 1 == 0 {
            Some((y2, bits.skip(32)))
        } else {
            hyp_loop_spec(y2, k - 1, d1, bits.skip(32))
        }
    }
}

/// What `hypergeometric_hyp` returns: the loop's final `y` turned into a
/// count of good items, complemented when `good > bad`.
pub open spec fn hyp_spec(good: int, bad: int, sample: int, bits: Seq<bool>) -> Option<
    (int, Seq<bool>),
> {
    let d1 = good + bad - sample;
    let d2 = if good < bad {
        good
    } else {
        bad
    };
    match hyp_loop_spec(d2, sample, d1, bits) {
        None => None,
        Some(p) => {
            let z = d2 - p.0;
            Some(
                (
                    (if good > bad {
                        sample - z
                    } else {
                        z
                    }),
                    p.1,
                ),
            )
        },
    }
}

/// Draws a hypergeometric sample by sequential inversion with exact integer
/// arithmetic: the count of good items seen when `sample` items are drawn
/// without replacement from `good` good and `bad` bad ones. Each inversion
/// step consumes one 32-bit draw, so the tape can run dry
/// (`NotEnoughCoinsError`). With `good == 0` the count is 0 and with
/// `bad == 0` it is `sample`, in both cases without consuming any coins.
pub fn hypergeometric_hyp(coins: &mut Coins, good: i64, bad: i64, sample: i64) -> (r: Result<
    i64,
    OpeError,
>)
    requires
        0 <= good,
        0 <= bad,
        0 <= sample <= good + bad,
        good + bad <= 0x1_0000_0000,
        good == 0 || bad == 0 || sample >= 1,
    ensures
        (match (r, hyp_spec(good as int, bad as int, sample as int, old(coins).remaining())) {
            (Ok(z), Some(p)) => z as int == p.0 && final(coins).remaining() == p.1,
            (Err(e), None) => e == OpeError::NotEnoughCoinsError,
            _ => false,
        }),
        good == 0 ==> r == Ok::<i64, OpeError>(0) && final(coins).remaining() == old(
            coins,
        ).remaining(),
        bad == 0 ==> r == Ok::<i64, OpeError>(sample) && final(coins).remaining() == old(
            coins,
        ).remaining(),
{
    let d1: i64 = bad + good - sample;
    let d2: i64 = if good < bad {
        good
    } else {
        bad
    };
    let mut y: i64 = d2;
    let mut k: i64 = sample;
    while y > 0
        invariant_except_break
            -1 <= y <= d2,
            y > 0 ==> k >= 1,
            k <= sample,
            d1 == bad + good - sample,
            d2 == (if good < bad {
                good
            } else {
                bad
            }),
            0 <= good,
            0 <= bad,
            0 <= sample <= good + bad,
            good + bad <= 0x1_0000_0000,
            hyp_loop_spec(y as int, k as int, d1 as int, coins.remaining()) == hyp_loop_spec(
                d2 as int,
                sample as int,
                d1 as int,
                old(coins).remaining(),
            ),
        ensures
            -1 <= y <= d2,
            hyp_loop_spec(d2 as int, sample as int, d1 as int, old(coins).remaining())
                == Some::<(int, Seq<bool>)>((y as int, coins.remaining())),
        decreases coins.remaining().len(),
    {
        let ghost y0: int = y as int;
        let ghost k0: int = k as int;
        let ghost bits0: Seq<bool> = coins.remaining();
        let u: u32 = match coins.draw() {
            Ok(v) => v,
            Err(_) => {
                proof {
                    assert(hyp_loop_spec(y0, k0, d1 as int, bits0) is None);
                }
                return Err(OpeError::NotEnoughCoinsError);
            },
        };
        proof {
            lemma_bits_value_bound(bits0.take(32));
            assert(p2(32) == 0x1_0000_0000) by {
                reveal_with_fuel(p2, 33);
            }
            assert(u as nat == bits_value(bits0.take(32)));
        }
        let div: i64 = d1 + k;
        proof {
            assert((u as int) * (div as int) <= 0xFFFF_FFFF * 0x1_0000_0000) by (nonlinear_arith)
                requires
                    0 <= u as int <= 0xFFFF_FFFF,
                    0 <= div as int <= 0x1_0000_0000,
            ;
            assert((y as int) * 0xFFFF_FFFF <= 0x1_0000_0000 * 0xFFFF_FFFF) by (nonlinear_arith)
                requires
                    0 <= y as int <= 0x1_0000_0000,
            ;
        }
        let num: u128 = (u as u128) * (div as u128) + (y as u128) * 0xFFFF_FFFFu128;
        let den: u128 = 0xFFFF_FFFFu128 * (div as u128);
        proof {
            assert((den as int) >= 0xFFFF_FFFF) by (nonlinear_arith)
                requires
                    den as int == 0xFFFF_FFFF * (div as int),
                    div as int >= 1,
            ;
        }
        let dec_w: u128 = num / den;
        proof {
            // dec_w is the exact decrement, and it cannot exceed y + 1
            assert(num as int <= 0xFFFF_FFFF * (div as int) + (y as int) * 0xFFFF_FFFF)
                by (nonlinear_arith)
                requires
                    num as int == (u as int) * (div as int) + (y as int) * 0xFFFF_FFFF,
                    0 <= u as int <= 0xFFFF_FFFF,
                    div as int >= 1,
            ;
            assert(0xFFFF_FFFF * (div as int) + (y as int) * 0xFFFF_FFFF < (den as int) * ((
            y as int) + 2)) by (nonlinear_arith)
                requires
                    den as int == 0xFFFF_FFFF * (div as int),
                    div as int >= 1,
                    y as int >= 1,
            ;
            vstd::arithmetic::div_mod::lemma_fundamental_div_mod(num as int, den as int);
            assert((num as int) % (den as int) >= 0);
            assert((num as int) / (den as int) < (y as int) + 2) by (nonlinear_arith)
                requires
                    (den as int) * ((num as int) / (den as int)) + (num as int) % (den as int)
                        == num as int,
                    (num as int) % (den as int) >= 0,
                    (num as int) < (den as int) * ((y as int) + 2),
                    den as int > 0,
            ;
            assert(dec_w as int == hyp_step_dec(u as nat, y as int, div as int));
        }
        let dec: i64 = dec_w as i64;
        y = y - dec;
        k = k - 1;
        proof {
            assert(hyp_loop_spec(y0, k0, d1 as int, bits0) == (if k0 - 1 == 0 {
                Some::<(int, Seq<bool>)>((y as int, coins.remaining()))
            } else {
                hyp_loop_spec(y as int, k as int, d1 as int, coins.remaining())
            }));
        }
        if k == 0 {
            break ;
        }
    }
    let mut z: i64 = d2 - y;
    if good > bad {
        z = sample - z;
    }
    Ok(z)
}

/// A pseudorandom number generator over a coin tape: each draw consumes
/// exactly 32 coins.
pub struct PRNG {
    pub coins: Coins,
}

impl PRNG {
    /// Wraps a coin tape.
    pub fn new(coins: Coins) -> (r: PRNG)
        ensures
            r.coins == coins,
    {
        PRNG { coins }
    }

    /// One 32-bit draw from the tape; see `Coins::draw`.
    pub fn draw(&mut self) -> (r: Result<u32, OpeError>)
        ensures
            old(self).coins.remaining().len() < 32 ==> r == Err::<u32, OpeError>(
                OpeError::NotEnoughCoinsError,
            ) && *final(self) == *old(self),
            old(self).coins.remaining().len() >= 32 ==> r == Ok::<u32, OpeError>(
                bits_value(old(self).coins.remaining().take(32)) as u32,
            ) && final(self).coins.remaining() == old(self).coins.remaining().skip(32),
    {
        self.coins.draw()
    }
}

} // verus!
