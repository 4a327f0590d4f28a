//! The order-preserving cipher: value ranges, the cipher configuration, and
//! the recursive range-splitting encrypt/decrypt protocol.

use vstd::prelude::*;

use crate::hgd::Coins;
use crate::stats::{sample_hgd, sample_hgd_spec, sample_uniform, sample_uniform_spec};

verus! {

pub const DEFAULT_IN_RANGE_START: i32 = 0;

pub const DEFAULT_IN_RANGE_END: i32 = 32767;

pub const DEFAULT_OUT_RANGE_START: i32 = 0;

pub const DEFAULT_OUT_RANGE_END: i32 = 32767;

/// Every failure the library reports.
///
/// Sites where an internal invariant is violated (a coin stream running dry,
/// a sampled count that cannot be mapped back into the plaintext domain)
/// surface as the reserved kinds `NotEnoughCoinsError` and `InvalidCoinError`
/// rather than aborting, so a caller can always recover.
#[derive(Debug, Clone, PartialEq, Eq)]
pub enum OpeError {
    InvalidRangeLimitsError,
    InvalidCiphertextError,
    OutOfRangeError,
    InvalidCoinError,
    NotEnoughCoinsError,
}

/// An inclusive integer interval `{start, end}` with `start <= end` when well formed.
#[derive(Debug, Clone, Copy, PartialEq, Eq, Structural)]
pub struct ValueRange {
    pub start: i32,
    pub end: i32,
}

impl ValueRange {
    /// Well-formedness: the interval is non-empty.
    pub open spec fn wf(self) -> bool {
        self.start <= self.end
    }

    /// The number of values in the interval, as a mathematical integer.
    pub open spec fn spec_size(self) -> int {
        self.end - self.start + 1
    }

    /// Whether `v` lies inside the interval.
    pub open spec fn spec_contains(self, v: int) -> bool {
        self.start <= v <= self.end
    }

    /// Builds the interval, rejecting `start > end`.
    pub fn new(start: i32, end: i32) -> (r: Result<ValueRange, OpeError>)
        ensures
            start <= end ==> r == Ok::<ValueRange, OpeError>(ValueRange { start, end }),
            start > end ==> r == Err::<ValueRange, OpeError>(OpeError::InvalidRangeLimitsError),
    {
        if start > end {
            return Err(OpeError::InvalidRangeLimitsError);
        }
        Ok(ValueRange { start, end })
    }

    /// The number of values in the interval; always at least 1 on a well-formed range.
    pub fn size(&self) -> (r: i32)
        requires
            i32::MIN <= self.end - self.start < i32::MAX,
        ensures
            r == self.spec_size(),
    {
        self.end - self.start + 1
    }

    /// Membership test.
    pub fn contains(&self, number: i32) -> (r: bool)
        ensures
            r == self.spec_contains(number as int),
    {
        self.start <= number && number <= self.end
    }
}

/// The given range, or `d` when none is given.
pub open spec fn range_or(r: Option<ValueRange>, d: ValueRange) -> ValueRange {
    match r {
        Some(v) => v,
        None => d,
    }
}

/// The coin tape seeded by `data`: its 32 bits in ascending byte order,
/// most significant bit first within each byte.
pub open spec fn tape_spec(data: i32) -> Seq<bool> {
    Seq::new(
        32,
        |i: int| (data as u32 >> ((8 * (i / 8) + 7 - (i % 8)) as u32)) & 1u32 == 1u32,
    )
}

/// The ciphertext midpoint a recursion step splits at:
/// `out_range.start - 1 + ceil(size/2)`.
pub open spec fn mid_of(out_range: ValueRange) -> int {
    out_range.start - 1 + (out_range.spec_size() + 1) / 2
}

/// What one round of the encode recursion returns for plaintext `m` over the
/// pair of intervals: at a single-value plaintext interval, a uniform sample
/// of the ciphertext interval from the tape seeded by `m`; otherwise the
/// hypergeometric split at the midpoint, seeded by the midpoint itself,
/// decides which halves to recurse into.
pub open spec fn encrypt_rec_spec(m: int, in_range: ValueRange, out_range: ValueRange) -> Result<
    int,
    OpeError,
>
    decreases out_range.spec_size(),
{
    if in_range.spec_size() == 1 {
        match sample_uniform_spec(out_range, tape_spec(m as i32)) {
            Ok(p) => Ok(p.0),
            Err(e) => Err(e),
        }
    } else {
        let mid = mid_of(out_range);
        match sample_hgd_spec(in_range, out_range, mid, tape_spec(mid as i32)) {
            Err(e) => Err(e),
            Ok(p) => {
                let x = p.0;
                if m <= x {
                    encrypt_rec_spec(
                        m,
                        ValueRange { start: in_range.start, end: x as i32 },
                        ValueRange { start: out_range.start, end: mid as i32 },
                    )
                } else if x + 1 > in_range.end {
                    Err(OpeError::InvalidRangeLimitsError)
                } else {
                    encrypt_rec_spec(
                        m,
                        ValueRange { start: (x + 1) as i32, end: in_range.end },
                        ValueRange { start: (mid + 1) as i32, end: out_range.end },
                    )
                }
            },
        }
    }
}

/// What one round of the decode recursion returns for ciphertext `c`: the
/// exact structural mirror of the encode recursion, choosing the halves by
/// comparing `c` to the midpoint, and ending on a single-value ciphertext
/// interval with a uniform sample of the plaintext interval seeded by `c`.
pub open spec fn decrypt_rec_spec(c: int, in_range: ValueRange, out_range: ValueRange) -> Result<
    int,
    OpeError,
>
    decreases out_range.spec_size(),
{
    if out_range.spec_size() == 1 {
        match sample_uniform_spec(in_range, tape_spec(c as i32)) {
            Ok(p) => Ok(p.0),
            Err(e) => Err(e),
        }
    } else {
        let mid = mid_of(out_range);
        match sample_hgd_spec(in_range, out_range, mid, tape_spec(mid as i32)) {
            Err(e) => Err(e),
            Ok(p) => {
                let x = p.0;
                if c <= mid {
                    decrypt_rec_spec(
                        c,
                        ValueRange { start: in_range.start, end: x as i32 },
                        ValueRange { start: out_range.start, end: mid as i32 },
                    )
                } else if x + 1 > in_range.end {
                    Err(OpeError::InvalidRangeLimitsError)
                } else {
                    decrypt_rec_spec(
                        c,
                        ValueRange { start: (x + 1) as i32, end: in_range.end },
                        ValueRange { start: (mid + 1) as i32, end: out_range.end },
                    )
                }
            },
        }
    }
}

/// The cipher configuration: a secret key and the plaintext and ciphertext
/// domains. Immutable once built; every call is a pure function of it.
pub struct Ope {
    pub key: Vec<u8>,
    pub in_range: ValueRange,
    pub out_range: ValueRange,
}

impl Ope {
    /// Well-formedness: both domains are non-empty and the ciphertext domain
    /// is at least as large as the plaintext domain.
    pub open spec fn wf(self) -> bool {
        self.in_range.wf() && self.out_range.wf() && self.in_range.spec_size()
            <= self.out_range.spec_size()
    }

    /// What `encrypt` returns: plaintexts outside the domain are rejected,
    /// the rest go through the encode recursion over the full domains.
    pub open spec fn encrypt_spec(self, m: int) -> Result<int, OpeError> {
        if !self.in_range.spec_contains(m) {
            Err(OpeError::OutOfRangeError)
        } else {
            encrypt_rec_spec(m, self.in_range, self.out_range)
        }
    }

    /// What `decrypt` returns: the mirror of `encrypt_spec`.
    pub open spec fn decrypt_spec(self, c: int) -> Result<int, OpeError> {
        if !self.out_range.spec_contains(c) {
            Err(OpeError::OutOfRangeError)
        } else {
            decrypt_rec_spec(c, self.in_range, self.out_range)
        }
    }

    /// Builds a cipher from a key and optional domains; both domains default
    /// to `[0, 32767]`. Fails with `OutOfRangeError` when the plaintext
    /// domain is larger than the ciphertext domain.
    pub fn new(key: &[u8], in_range: Option<ValueRange>, out_range: Option<ValueRange>) -> (r:
        Result<Ope, OpeError>)
        ensures
            ({
                let ir = range_or(
                    in_range,
                    ValueRange { start: DEFAULT_IN_RANGE_START, end: DEFAULT_IN_RANGE_END },
                );
                let our = range_or(
                    out_range,
                    ValueRange { start: DEFAULT_OUT_RANGE_START, end: DEFAULT_OUT_RANGE_END },
                );
                if ir.spec_size() > our.spec_size() {
                    r == Err::<Ope, OpeError>(OpeError::OutOfRangeError)
                } else {
                    match r {
                        Ok(o) => o.key@ == key@ && o.in_range == ir && o.out_range == our,
                        Err(_) => false,
                    }
                }
            }),
    {
        let ir = match in_range {
            Some(v) => v,
            None => ValueRange { start: DEFAULT_IN_RANGE_START, end: DEFAULT_IN_RANGE_END },
        };
        let our = match out_range {
            Some(v) => v,
            None => ValueRange { start: DEFAULT_OUT_RANGE_START, end: DEFAULT_OUT_RANGE_END },
        };
        let in_size: i64 = ir.end as i64 - ir.start as i64 + 1;
        let out_size: i64 = our.end as i64 - our.start as i64 + 1;
        if in_size > out_size {
            return Err(OpeError::OutOfRangeError);
        }
        Ok(Ope { key: vstd::slice::slice_to_vec(key), in_range: ir, out_range: our })
    }

    /// The deterministic coin tape for one node value: `tape_spec(data)`,
    /// fresh and fully unconsumed. Identical node values always regenerate
    /// identical tapes.
    fn tape_gen(&self, data: i32) -> (r: Coins)
        ensures
            r.remaining() == tape_spec(data),
    {
        let u: u32 = data as u32;
        let mut bits: Vec<bool> = Vec::new();
        let mut i: usize = 0;
        while i < 32
            invariant
                i <= 32,
                bits@.len() == i,
                u == data as u32,
                forall|j: int|
                    0 <= j < i ==> bits@[j] == ((data as u32 >> ((8 * (j / 8) + 7 - (j
                        % 8)) as u32)) & 1u32 == 1u32),
            decreases 32 - i,
        {
            let sh: u32 = (8 * (i / 8) + 7 - (i % 8)) as u32;
            proof {
                assert(8 * (i as int / 8) + 7 - (i as int % 8) < 32) by (nonlinear_arith)
                    requires
                        0 <= i as int,
                        (i as int) < 32,
                ;
            }
            let bit: u32 = (u >> sh) & 1;
            bits.push(bit == 1);
            i = i + 1;
        }
        let r = Coins::new(bits);
        proof {
            assert(r.remaining() =~= tape_spec(data));
        }
        r
    }

    /// Encrypts a plaintext of the input domain into the output domain.
    /// The result is a pure function of the domain configuration and the
    /// plaintext, and always lies inside the output domain.
    pub fn encrypt(&self, plaintext: i32) -> (r: Result<i32, OpeError>)
        ensures
            (match (r, self.encrypt_spec(plaintext as int)) {
                (Ok(c), Ok(cs)) => c as int == cs && self.out_range.spec_contains(cs),
                (Err(e1), Err(e2)) => e1 == e2,
                _ => false,
            }),
    {
        if !self.in_range.contains(plaintext) {
            return Err(OpeError::OutOfRangeError);
        }
        proof {
            lemma_encrypt_rec_in_out_range(plaintext as int, self.in_range, self.out_range);
        }
        self.encrypt_recursive(plaintext, self.in_range, self.out_range)
    }

    fn encrypt_recursive(&self, plaintext: i32, in_range: ValueRange, out_range: ValueRange) -> (r:
        Result<i32, OpeError>)
        ensures
            (match (r, encrypt_rec_spec(plaintext as int, in_range, out_range)) {
                (Ok(c), Ok(cs)) => c as int == cs,
                (Err(e1), Err(e2)) => e1 == e2,
                _ => false,
            }),
        decreases out_range.spec_size(),
    {
        let in_size: i64 = in_range.end as i64 - in_range.start as i64 + 1;
        let out_size: i64 = out_range.end as i64 - out_range.start as i64 + 1;
        if in_size == 1 {
            let mut coins = self.tape_gen(plaintext);
            return sample_uniform(out_range, &mut coins);
        }
        if out_size < 1 {
            return Err(OpeError::OutOfRangeError);
        }
        let mid: i32 = (out_range.start as i64 - 1 + ((((out_size + 1) as u64) / 2) as i64)) as i32;
        let mut coins = self.tape_gen(mid);
        let x: i32 = match sample_hgd(in_range, out_range, mid, &mut coins) {
            Ok(v) => v,
            Err(e) => {
                return Err(e);
            },
        };
        if plaintext <= x {
            self.encrypt_recursive(
                plaintext,
                ValueRange { start: in_range.start, end: x },
                ValueRange { start: out_range.start, end: mid },
            )
        } else {
            let new_in = match ValueRange::new(x + 1, in_range.end) {
                Ok(v) => v,
                Err(e) => {
                    return Err(e);
                },
            };
            self.encrypt_recursive(
                plaintext,
                new_in,
                ValueRange { start: mid + 1, end: out_range.end },
            )
        }
    }

    /// Decrypts a ciphertext of the output domain back into the input
    /// domain, reconstructing the very split decisions the encode path made.
    pub fn decrypt(&self, ciphertext: i32) -> (r: Result<i32, OpeError>)
        ensures
            (match (r, self.decrypt_spec(ciphertext as int)) {
                (Ok(m), Ok(ms)) => m as int == ms && self.in_range.spec_contains(ms),
                (Err(e1), Err(e2)) => e1 == e2,
                _ => false,
            }),
    {
        if !self.out_range.contains(ciphertext) {
            return Err(OpeError::OutOfRangeError);
        }
        proof {
            lemma_decrypt_rec_in_in_range(ciphertext as int, self.in_range, self.out_range);
        }
        self.decrypt_recursive(ciphertext, self.in_range, self.out_range)
    }

    fn decrypt_recursive(&self, ciphertext: i32, in_range: ValueRange, out_range: ValueRange) -> (r:
        Result<i32, OpeError>)
        ensures
            (match (r, decrypt_rec_spec(ciphertext as int, in_range, out_range)) {
                (Ok(m), Ok(ms)) => m as int == ms,
                (Err(e1), Err(e2)) => e1 == e2,
                _ => false,
            }),
        decreases out_range.spec_size(),
    {
        let out_size: i64 = out_range.end as i64 - out_range.start as i64 + 1;
        if out_size == 1 {
            let mut coins = self.tape_gen(ciphertext);
            return sample_uniform(in_range, &mut coins);
        }
        if out_size < 1 {
            return Err(OpeError::OutOfRangeError);
        }
        let mid: i32 = (out_range.start as i64 - 1 + ((((out_size + 1) as u64) / 2) as i64)) as i32;
        let mut coins = self.tape_gen(mid);
        let x: i32 = match sample_hgd(in_range, out_range, mid, &mut coins) {
            Ok(v) => v,
            Err(e) => {
                return Err(e);
            },
        };
        if ciphertext <= mid {
            self.decrypt_recursive(
                ciphertext,
                ValueRange { start: in_range.start, end: x },
                ValueRange { start: out_range.start, end: mid },
            )
        } else {
            if x == in_range.end {
                return Err(OpeError::InvalidRangeLimitsError);
            }
            let new_in = match ValueRange::new(x + 1, in_range.end) {
                Ok(v) => v,
                Err(e) => {
                    return Err(e);
                },
            };
            self.decrypt_recursive(
                ciphertext,
                new_in,
                ValueRange { start: mid + 1, end: out_range.end },
            )
        }
    }
}

/// With domains of equal size the encode recursion never consumes a coin and
/// is the monotone shift that maps `in_range` onto `out_range`.
pub proof fn lemma_encrypt_rec_equal_sizes(m: int, in_range: ValueRange, out_range: ValueRange)
    requires
        in_range.wf(),
        out_range.wf(),
        in_range.spec_size() == out_range.spec_size(),
        in_range.spec_contains(m),
    ensures
        encrypt_rec_spec(m, in_range, out_range) == Ok::<int, OpeError>(
            out_range.start + (m - in_range.start),
        ),
    decreases out_range.spec_size(),
{
    let in_size = in_range.spec_size();
    let out_size = out_range.spec_size();
    if in_size == 1 {
        assert(m == in_range.start);
        assert(out_range.start >= out_range.end);
    } else {
        let mid = mid_of(out_range);
        let idx = mid - out_range.start + 1;
        assert(1 <= idx < out_size);
        let x = in_range.start + idx - 1;
        assert(sample_hgd_spec(in_range, out_range, mid, tape_spec(mid as i32)) == Ok::<
            (int, Seq<bool>),
            OpeError,
        >((x, tape_spec(mid as i32))));
        if m <= x {
            lemma_encrypt_rec_equal_sizes(
                m,
                ValueRange { start: in_range.start, end: x as i32 },
                ValueRange { start: out_range.start, end: mid as i32 },
            );
        } else {
            lemma_encrypt_rec_equal_sizes(
                m,
                ValueRange { start: (x + 1) as i32, end: in_range.end },
                ValueRange { start: (mid + 1) as i32, end: out_range.end },
            );
        }
    }
}

/// With domains of equal size the decode recursion is the inverse shift,
/// mapping `out_range` back onto `in_range`.
pub proof fn lemma_decrypt_rec_equal_sizes(c: int, in_range: ValueRange, out_range: ValueRange)
    requires
        in_range.wf(),
        out_range.wf(),
        in_range.spec_size() == out_range.spec_size(),
        out_range.spec_contains(c),
    ensures
        decrypt_rec_spec(c, in_range, out_range) == Ok::<int, OpeError>(
            in_range.start + (c - out_range.start),
        ),
    decreases out_range.spec_size(),
{
    let out_size = out_range.spec_size();
    if out_size == 1 {
        assert(c == out_range.start);
        assert(in_range.start >= in_range.end);
    } else {
        let mid = mid_of(out_range);
        let idx = mid - out_range.start + 1;
        assert(1 <= idx < out_size);
        let x = in_range.start + idx - 1;
        assert(sample_hgd_spec(in_range, out_range, mid, tape_spec(mid as i32)) == Ok::<
            (int, Seq<bool>),
            OpeError,
        >((x, tape_spec(mid as i32))));
        if c <= mid {
            lemma_decrypt_rec_equal_sizes(
                c,
                ValueRange { start: in_range.start, end: x as i32 },
                ValueRange { start: out_range.start, end: mid as i32 },
            );
        } else {
            lemma_decrypt_rec_equal_sizes(
                c,
                ValueRange { start: (x + 1) as i32, end: in_range.end },
                ValueRange { start: (mid + 1) as i32, end: out_range.end },
            );
        }
    }
}

/// Round trip: when the two domains have the same size, decrypting an
/// encryption returns the plaintext, for every plaintext of the domain.
/// (With a strictly larger ciphertext domain the decode path can fail to
/// retrace the encode path's leaf sample, so the round trip is not owed
/// there.)
pub proof fn lemma_encrypt_decrypt_round_trip(ope: Ope, m: int)
    requires
        ope.wf(),
        ope.in_range.spec_size() == ope.out_range.spec_size(),
        ope.in_range.spec_contains(m),
    ensures
        ope.encrypt_spec(m) == Ok::<int, OpeError>(
            ope.out_range.start + (m - ope.in_range.start),
        ),
        ope.decrypt_spec(ope.out_range.start + (m - ope.in_range.start)) == Ok::<int, OpeError>(m),
{
    lemma_encrypt_rec_equal_sizes(m, ope.in_range, ope.out_range);
    lemma_decrypt_rec_equal_sizes(
        ope.out_range.start + (m - ope.in_range.start),
        ope.in_range,
        ope.out_range,
    );
}

/// A successful decode over a single-value plaintext interval can only
/// return that single value, whatever the ciphertext.
proof fn lemma_decrypt_rec_single(c: int, in_range: ValueRange, out_range: ValueRange)
    requires
        in_range.spec_size() == 1,
    ensures
        decrypt_rec_spec(c, in_range, out_range) matches Ok(m) ==> m == in_range.start,
    decreases out_range.spec_size(),
{
    if out_range.spec_size() != 1 {
        let mid = mid_of(out_range);
        match sample_hgd_spec(in_range, out_range, mid, tape_spec(mid as i32)) {
            Err(_) => {},
            Ok(p) => {
                let x = p.0;
                if c <= mid {
                    lemma_decrypt_rec_single(
                        c,
                        ValueRange { start: in_range.start, end: x as i32 },
                        ValueRange { start: out_range.start, end: mid as i32 },
                    );
                }
            },
        }
    }
}

/// Round trip of one encode round, one side in general: a decode that
/// succeeds on a successful encode's ciphertext returns the encoded
/// plaintext, whatever the domain sizes. The decode retraces the encode
/// path's split decisions exactly as far as they go; past the encode path's
/// leaf it can fail, but it can never land on another plaintext.
pub proof fn lemma_encrypt_rec_round_trip(m: int, in_range: ValueRange, out_range: ValueRange)
    requires
        in_range.spec_contains(m),
    ensures
        (match encrypt_rec_spec(m, in_range, out_range) {
            Ok(c) => (match decrypt_rec_spec(c, in_range, out_range) {
                Ok(m2) => m2 == m,
                Err(_) => true,
            }),
            Err(_) => true,
        }),
    decreases out_range.spec_size(),
{
    if in_range.spec_size() == 1 {
        match encrypt_rec_spec(m, in_range, out_range) {
            Ok(c) => {
                lemma_decrypt_rec_single(c, in_range, out_range);
            },
            Err(_) => {},
        }
    } else {
        let mid = mid_of(out_range);
        match sample_hgd_spec(in_range, out_range, mid, tape_spec(mid as i32)) {
            Err(_) => {},
            Ok(p) => {
                let x = p.0;
                let in_left = ValueRange { start: in_range.start, end: x as i32 };
                let out_left = ValueRange { start: out_range.start, end: mid as i32 };
                let in_right = ValueRange { start: (x + 1) as i32, end: in_range.end };
                let out_right = ValueRange { start: (mid + 1) as i32, end: out_range.end };
                if m <= x {
                    lemma_encrypt_rec_in_out_range(m, in_left, out_left);
                    lemma_encrypt_rec_round_trip(m, in_left, out_left);
                } else if x + 1 > in_range.end {
                } else {
                    lemma_encrypt_rec_in_out_range(m, in_right, out_right);
                    lemma_encrypt_rec_round_trip(m, in_right, out_right);
                }
            },
        }
    }
}

/// Round trip in general: decrypting a successful encryption either fails or
/// returns the original plaintext, never another value. (With domains of
/// equal size it cannot fail; see `lemma_encrypt_decrypt_round_trip`.)
pub proof fn lemma_decrypt_of_encrypt(ope: Ope, m: int)
    requires
        ope.in_range.spec_contains(m),
    ensures
        (match ope.encrypt_spec(m) {
            Ok(c) => (match ope.decrypt_spec(c) {
                Ok(m2) => m2 == m,
                Err(_) => true,
            }),
            Err(_) => true,
        }),
{
    lemma_encrypt_rec_in_out_range(m, ope.in_range, ope.out_range);
    lemma_encrypt_rec_round_trip(m, ope.in_range, ope.out_range);
}

/// Order preservation of one encode round: whenever two plaintexts `a < b`
/// of the plaintext interval both encode successfully, the smaller plaintext
/// gets the strictly smaller ciphertext. The two runs part ways at the first
/// round whose split point falls between them; from there `a`'s ciphertext
/// stays in the lower half and `b`'s in the upper.
pub proof fn lemma_encrypt_rec_order(a: int, b: int, in_range: ValueRange, out_range: ValueRange)
    requires
        a < b,
        in_range.spec_contains(a),
        in_range.spec_contains(b),
    ensures
        (match (encrypt_rec_spec(a, in_range, out_range), encrypt_rec_spec(b, in_range, out_range)) {
            (Ok(ca), Ok(cb)) => ca < cb,
            _ => true,
        }),
    decreases out_range.spec_size(),
{
    if in_range.spec_size() == 1 {
        // a single-value interval cannot hold both a and b
    } else {
        let mid = mid_of(out_range);
        match sample_hgd_spec(in_range, out_range, mid, tape_spec(mid as i32)) {
            Err(_) => {},
            Ok(p) => {
                let x = p.0;
                let in_left = ValueRange { start: in_range.start, end: x as i32 };
                let out_left = ValueRange { start: out_range.start, end: mid as i32 };
                let in_right = ValueRange { start: (x + 1) as i32, end: in_range.end };
                let out_right = ValueRange { start: (mid + 1) as i32, end: out_range.end };
                if b <= x {
                    lemma_encrypt_rec_order(a, b, in_left, out_left);
                } else if a > x {
                    lemma_encrypt_rec_order(a, b, in_right, out_right);
                } else {
                    lemma_encrypt_rec_in_out_range(a, in_left, out_left);
                    lemma_encrypt_rec_in_out_range(b, in_right, out_right);
                }
            },
        }
    }
}

/// Order preservation: for plaintexts `a < b` of the plaintext domain,
/// whenever both encrypt successfully the ciphertexts compare the same way.
pub proof fn lemma_order_preserving(ope: Ope, a: int, b: int)
    requires
        ope.in_range.spec_contains(a),
        ope.in_range.spec_contains(b),
        a < b,
    ensures
        (match (ope.encrypt_spec(a), ope.encrypt_spec(b)) {
            (Ok(ca), Ok(cb)) => ca < cb,
            _ => true,
        }),
{
    lemma_encrypt_rec_order(a, b, ope.in_range, ope.out_range);
}

/// Order preservation with domains of equal size, where success is owed as
/// well: plaintexts `a < b` encrypt to ciphertexts in the same strict order.
pub proof fn lemma_order_preserving_equal_sizes(ope: Ope, a: int, b: int)
    requires
        ope.wf(),
        ope.in_range.spec_size() == ope.out_range.spec_size(),
        ope.in_range.spec_contains(a),
        ope.in_range.spec_contains(b),
        a < b,
    ensures
        ope.encrypt_spec(a) == Ok::<int, OpeError>(ope.out_range.start + (a - ope.in_range.start)),
        ope.encrypt_spec(b) == Ok::<int, OpeError>(ope.out_range.start + (b - ope.in_range.start)),
        ope.out_range.start + (a - ope.in_range.start) < ope.out_range.start + (b
            - ope.in_range.start),
{
    lemma_encrypt_rec_equal_sizes(a, ope.in_range, ope.out_range);
    lemma_encrypt_rec_equal_sizes(b, ope.in_range, ope.out_range);
}

/// Determinism: two ciphers built from the same key and the same domains
/// encrypt and decrypt every value identically.
pub proof fn lemma_encrypt_deterministic(first: Ope, second: Ope, v: int)
    requires
        first.key@ == second.key@,
        first.in_range == second.in_range,
        first.out_range == second.out_range,
    ensures
        first.encrypt_spec(v) == second.encrypt_spec(v),
        first.decrypt_spec(v) == second.decrypt_spec(v),
{
}

/// A successful encode lands inside the ciphertext interval.
pub proof fn lemma_encrypt_rec_in_out_range(m: int, in_range: ValueRange, out_range: ValueRange)
    ensures
        encrypt_rec_spec(m, in_range, out_range) matches Ok(c) ==> out_range.spec_contains(c),
    decreases out_range.spec_size(),
{
    if in_range.spec_size() == 1 {
        if out_range.wf() {
            crate::stats::lemma_bisect_in_range(
                out_range.start as int,
                out_range.end as int,
                tape_spec(m as i32),
            );
        }
    } else {
        let mid = mid_of(out_range);
        match sample_hgd_spec(in_range, out_range, mid, tape_spec(mid as i32)) {
            Err(_) => {},
            Ok(p) => {
                let x = p.0;
                if m <= x {
                    lemma_encrypt_rec_in_out_range(
                        m,
                        ValueRange { start: in_range.start, end: x as i32 },
                        ValueRange { start: out_range.start, end: mid as i32 },
                    );
                } else if x + 1 > in_range.end {
                } else {
                    lemma_encrypt_rec_in_out_range(
                        m,
                        ValueRange { start: (x + 1) as i32, end: in_range.end },
                        ValueRange { start: (mid + 1) as i32, end: out_range.end },
                    );
                }
            },
        }
    }
}

/// A successful decode lands inside the plaintext interval.
pub proof fn lemma_decrypt_rec_in_in_range(c: int, in_range: ValueRange, out_range: ValueRange)
    ensures
        decrypt_rec_spec(c, in_range, out_range) matches Ok(m) ==> in_range.spec_contains(m),
    decreases out_range.spec_size(),
{
    if out_range.spec_size() == 1 {
        if in_range.wf() {
            crate::stats::lemma_bisect_in_range(
                in_range.start as int,
                in_range.end as int,
                tape_spec(c as i32),
            );
        }
    } else {
        let mid = mid_of(out_range);
        match sample_hgd_spec(in_range, out_range, mid, tape_spec(mid as i32)) {
            Err(_) => {},
            Ok(p) => {
                let x = p.0;
                if c <= mid {
                    lemma_decrypt_rec_in_in_range(
                        c,
                        ValueRange { start: in_range.start, end: x as i32 },
                        ValueRange { start: out_range.start, end: mid as i32 },
                    );
                } else if x + 1 > in_range.end {
                } else {
                    lemma_decrypt_rec_in_in_range(
                        c,
                        ValueRange { start: (x + 1) as i32, end: in_range.end },
                        ValueRange { start: (mid + 1) as i32, end: out_range.end },
                    );
                }
            },
        }
    }
}

} // verus!
