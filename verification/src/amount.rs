use vstd::prelude::*;

use crate::common::{AMOUNT_SCALE, DOT_BYTE, NINE_BYTE, ZERO_BYTE};

verus! {

/// A decimal digit byte.
pub open spec fn is_digit(b: u8) -> bool {
    ZERO_BYTE <= b <= NINE_BYTE
}

/// Every byte of the sequence is a decimal digit.
pub open spec fn all_digits(s: Seq<u8>) -> bool {
    forall|i: int| 0 <= i < s.len() ==> is_digit(#[trigger] s[i])
}

/// The number the digit bytes spell in base ten.
pub open spec fn digits_val(s: Seq<u8>) -> int
    decreases s.len(),
{
    if s.len() == 0 {
        0
    } else {
        digits_val(s.drop_last()) * 10 + (s.last() - ZERO_BYTE)
    }
}

/// Ten to the `n`.
pub open spec fn pow10(n: nat) -> int
    decreases n,
{
    if n == 0 {
        1
    } else {
        10 * pow10((n - 1) as nat)
    }
}

/// Index of the first occurrence of `b` in `s`, or the length of `s`
/// when `b` does not occur.
pub open spec fn first_byte(s: Seq<u8>, b: u8) -> nat
    decreases s.len(),
{
    if s.len() == 0 {
        0
    } else if s[0] == b {
        0
    } else {
        (1 + first_byte(s.drop_first(), b)) as nat
    }
}

/// `first_byte` points at the first occurrence: nothing before it
/// matches, and it matches unless it is the length.
pub proof fn lemma_first_byte(s: Seq<u8>, b: u8)
    ensures
        first_byte(s, b) <= s.len(),
        forall|j: int| 0 <= j < first_byte(s, b) ==> s[j] != b,
        first_byte(s, b) < s.len() ==> s[first_byte(s, b) as int] == b,
    decreases s.len(),
{
    if s.len() > 0 && s[0] != b {
        lemma_first_byte(s.drop_first(), b);
        assert forall|j: int| 0 <= j < first_byte(s, b) implies s[j] != b by {
            if j > 0 {
                assert(s.drop_first()[j - 1] == s[j]);
            }
        }
        if first_byte(s, b) < s.len() {
            assert(s.drop_first()[first_byte(s.drop_first(), b) as int] == s[first_byte(
                s,
                b,
            ) as int]);
        }
    }
}

/// Reading one more digit multiplies the prefix value by ten and adds
/// the digit.
pub proof fn lemma_digits_val_extend(s: Seq<u8>, i: int)
    requires
        0 <= i < s.len(),
    ensures
        digits_val(s.subrange(0, i + 1)) == digits_val(s.subrange(0, i)) * 10 + (s[i] - ZERO_BYTE),
{
    assert(s.subrange(0, i + 1).drop_last() =~= s.subrange(0, i));
    assert(s.subrange(0, i + 1).last() == s[i]);
}

/// The value of an all-digit sequence is nonnegative.
pub proof fn lemma_digits_val_nonneg(s: Seq<u8>)
    requires
        all_digits(s),
    ensures
        digits_val(s) >= 0,
    decreases s.len(),
{
    if s.len() > 0 {
        assert(all_digits(s.drop_last())) by {
            assert(forall|i: int| 0 <= i < s.len() - 1 ==> s.drop_last()[i] == #[trigger] s[i]);
        }
        lemma_digits_val_nonneg(s.drop_last());
        assert(is_digit(s[s.len() - 1]));
    }
}

/// The value of a prefix never exceeds the value of the whole.
pub proof fn lemma_digits_val_prefix(s: Seq<u8>, i: int)
    requires
        0 <= i <= s.len(),
        all_digits(s),
    ensures
        digits_val(s.subrange(0, i)) <= digits_val(s),
    decreases s.len() - i,
{
    if i == s.len() {
        assert(s.subrange(0, i) =~= s);
    } else {
        lemma_digits_val_extend(s, i);
        assert(all_digits(s.subrange(0, i))) by {
            assert(forall|j: int| 0 <= j < i ==> s.subrange(0, i)[j] == #[trigger] s[j]);
        }
        lemma_digits_val_nonneg(s.subrange(0, i));
        assert(is_digit(s[i]));
        lemma_digits_val_prefix(s, i + 1);
    }
}

/// An all-digit sequence of length `n` spells a value below ten to
/// the `n`.
pub proof fn lemma_digits_val_bound(s: Seq<u8>)
    requires
        all_digits(s),
    ensures
        digits_val(s) < pow10(s.len() as nat),
    decreases s.len(),
{
    if s.len() > 0 {
        assert(all_digits(s.drop_last())) by {
            assert(forall|i: int| 0 <= i < s.len() - 1 ==> s.drop_last()[i] == #[trigger] s[i]);
        }
        lemma_digits_val_bound(s.drop_last());
        assert(is_digit(s[s.len() - 1]));
    }
}

/// Ten to the `n` is positive.
pub proof fn lemma_pow10_pos(n: nat)
    ensures
        pow10(n) >= 1,
    decreases n,
{
    if n > 0 {
        lemma_pow10_pos((n - 1) as nat);
    }
}

/// Powers of ten multiply by adding exponents.
pub proof fn lemma_pow10_add(a: nat, b: nat)
    ensures
        pow10(a) * pow10(b) == pow10(a + b),
    decreases a,
{
    if a == 0 {
    } else {
        let pa1 = pow10((a - 1) as nat);
        lemma_pow10_add((a - 1) as nat, b);
        assert(pow10(a) == 10 * pa1);
        assert(pow10(a) * pow10(b) == 10 * (pa1 * pow10(b))) by(nonlinear_arith)
            requires
                pow10(a) == 10 * pa1,
        ;
        assert(pow10(a + b) == 10 * pow10((a + b - 1) as nat));
    }
}

/// The fixed-point value of `s` in 1/10000 units: one or more digits,
/// optionally followed by a dot and one to four fractional digits.
/// Anything else has no value, and neither does a value too large for
/// a u64 to carry.
pub open spec fn amount_of(s: Seq<u8>) -> Option<u64> {
    let d = first_byte(s, DOT_BYTE) as int;
    if d == s.len() {
        if s.len() >= 1 && all_digits(s) && digits_val(s) * 10000 <= u64::MAX {
            Some((digits_val(s) * 10000) as u64)
        } else {
            None
        }
    } else {
        let ip = s.subrange(0, d);
        let fp = s.subrange(d + 1, s.len() as int);
        if ip.len() >= 1 && 1 <= fp.len() <= 4 && all_digits(ip) && all_digits(fp) && digits_val(
            ip,
        ) * 10000 + digits_val(fp) * pow10((4 - fp.len()) as nat) <= u64::MAX {
            Some((digits_val(ip) * 10000 + digits_val(fp) * pow10((4 - fp.len()) as nat)) as u64)
        } else {
            None
        }
    }
}

/// Parses a nonempty all-digit sequence into its base-ten value, when
/// that value fits a u64.
pub fn parse_digits(s: &[u8]) -> (r: Option<u64>)
    ensures
        r == (if s@.len() >= 1 && all_digits(s@) && digits_val(s@) <= u64::MAX {
            Some(digits_val(s@) as u64)
        } else {
            None::<u64>
        }),
{
    let n = s.len();
    if n == 0 {
        return None;
    }
    let mut i: usize = 0;
    while i < n
        invariant
            n == s@.len(),
            i <= n,
            forall|j: int| 0 <= j < i ==> is_digit(#[trigger] s@[j]),
        decreases n - i,
    {
        let c = s[i];
        if c < ZERO_BYTE || c > NINE_BYTE {
            proof {
                assert(!is_digit(s@[i as int]));
            }
            return None;
        }
        i = i + 1;
    }
    assert(all_digits(s@));
    let mut acc: u64 = 0;
    let mut k: usize = 0;
    while k < n
        invariant
            n == s@.len(),
            k <= n,
            all_digits(s@),
            acc as int == digits_val(s@.subrange(0, k as int)),
        decreases n - k,
    {
        proof {
            assert(is_digit(s@[k as int]));
            lemma_digits_val_extend(s@, k as int);
        }
        let d = (s[k] - ZERO_BYTE) as u64;
        let acc10 = match acc.checked_mul(10) {
            Some(v) => v,
            None => {
                proof {
                    assert(digits_val(s@.subrange(0, k as int + 1)) > u64::MAX);
                    lemma_digits_val_prefix(s@, k as int + 1);
                }
                return None;
            },
        };
        acc = match acc10.checked_add(d) {
            Some(v) => v,
            None => {
                proof {
                    assert(digits_val(s@.subrange(0, k as int + 1)) > u64::MAX);
                    lemma_digits_val_prefix(s@, k as int + 1);
                }
                return None;
            },
        };
        k = k + 1;
    }
    proof {
        assert(s@.subrange(0, n as int) =~= s@);
    }
    Some(acc)
}

/// Parses a fixed-point decimal exactly as `amount_of` gives.
pub fn parse_amount(s: &[u8]) -> (r: Option<u64>)
    ensures
        r == amount_of(s@),
{
    let n = s.len();
    let mut d: usize = 0;
    while d < n && s[d] != DOT_BYTE
        invariant
            n == s@.len(),
            d <= n,
            forall|j: int| 0 <= j < d ==> s@[j] != DOT_BYTE,
        decreases n - d,
    {
        d = d + 1;
    }
    proof {
        lemma_first_byte(s@, DOT_BYTE);
        let fb = first_byte(s@, DOT_BYTE) as int;
        if fb < d {
            assert(s@[fb] == DOT_BYTE);
            assert(false);
        }
        if d < fb {
            assert(d < n);
            assert(s@[d as int] == DOT_BYTE);
            assert(false);
        }
    }
    if d == n {
        match parse_digits(s) {
            None => {
                proof {
                    if s@.len() >= 1 && all_digits(s@) {
                        lemma_digits_val_nonneg(s@);
                        assert(digits_val(s@) > u64::MAX);
                        assert(digits_val(s@) * 10000 > u64::MAX) by(nonlinear_arith)
                            requires
                                digits_val(s@) > u64::MAX,
                        ;
                    }
                }
                None
            },
            Some(v) => {
                proof {
                    lemma_digits_val_nonneg(s@);
                }
                let scaled = v.checked_mul(AMOUNT_SCALE);
                scaled
            },
        }
    } else {
        let ip = &s[0..d];
        let fp = &s[d + 1..n];
        if fp.len() < 1 || fp.len() > 4 {
            return None;
        }
        let ipv = match parse_digits(ip) {
            Some(v) => v,
            None => {
                proof {
                    if ip@.len() >= 1 && all_digits(ip@) {
                        lemma_digits_val_nonneg(ip@);
                        assert(digits_val(ip@) > u64::MAX);
                        if all_digits(s@.subrange(d as int + 1, n as int)) {
                            lemma_digits_val_nonneg(s@.subrange(d as int + 1, n as int));
                            assert(digits_val(ip@) * 10000 > u64::MAX) by(nonlinear_arith)
                                requires
                                    digits_val(ip@) > u64::MAX,
                            ;
                            lemma_pow10_pos((4 - s@.subrange(d as int + 1, n as int).len()) as nat);
                            assert(digits_val(s@.subrange(d as int + 1, n as int)) * pow10(
                                (4 - s@.subrange(d as int + 1, n as int).len()) as nat,
                            ) >= 0) by(nonlinear_arith)
                                requires
                                    digits_val(s@.subrange(d as int + 1, n as int)) >= 0 && pow10(
                                        (4 - s@.subrange(d as int + 1, n as int).len()) as nat,
                                    ) >= 0,
                            ;
                        }
                    }
                }
                return None;
            },
        };
        let fpv = match parse_digits(fp) {
            Some(v) => v,
            None => {
                proof {
                    if fp@.len() >= 1 && all_digits(fp@) {
                        lemma_digits_val_bound(fp@);
                        assert(pow10(0) == 1);
                        assert(pow10(1) == 10);
                        assert(pow10(2) == 100);
                        assert(pow10(3) == 1000);
                        assert(pow10(4) == 10000);
                        assert(false);
                    }
                }
                return None;
            },
        };
        let scale: u64 = if fp.len() == 1 {
            1000
        } else if fp.len() == 2 {
            100
        } else if fp.len() == 3 {
            10
        } else {
            1
        };
        proof {
            assert(pow10(0) == 1);
            assert(pow10(1) == 10);
            assert(pow10(2) == 100);
            assert(pow10(3) == 1000);
            assert(scale as int == pow10((4 - fp@.len()) as nat));
            lemma_digits_val_bound(fp@);
            lemma_digits_val_nonneg(fp@);
            lemma_pow10_add(fp@.len() as nat, (4 - fp@.len()) as nat);
            assert(pow10(4) == 10000);
            assert((fpv as int) * (scale as int) < 10000) by(nonlinear_arith)
                requires
                    (fpv as int) < pow10(fp@.len() as nat) && (fpv as int) >= 0 && (
                    scale as int) == pow10((4 - fp@.len()) as nat) && (scale as int) >= 1 && pow10(
                        fp@.len() as nat,
                    ) * pow10((4 - fp@.len()) as nat) == 10000,
            ;
        }
        let frac = fpv * scale;
        let base = match ipv.checked_mul(AMOUNT_SCALE) {
            Some(v) => v,
            None => {
                proof {
                    assert(ip@ == s@.subrange(0, d as int));
                    assert(fp@ == s@.subrange(d as int + 1, n as int));
                    lemma_digits_val_nonneg(ip@);
                    lemma_digits_val_nonneg(fp@);
                    lemma_pow10_pos((4 - fp@.len()) as nat);
                    assert(digits_val(fp@) * pow10((4 - fp@.len()) as nat) >= 0)
                        by(nonlinear_arith)
                        requires
                            digits_val(fp@) >= 0 && pow10((4 - fp@.len()) as nat) >= 1,
                    ;
                    assert(digits_val(ip@) * 10000 > u64::MAX);
                    assert(amount_of(s@) == None::<u64>);
                }
                return None;
            },
        };
        proof {
            assert(ip@ == s@.subrange(0, d as int));
            assert(fp@ == s@.subrange(d as int + 1, n as int));
        }
        let total = match base.checked_add(frac) {
            Some(v) => v,
            None => {
                proof {
                    lemma_digits_val_nonneg(ip@);
                    assert((frac as int) == digits_val(fp@) * pow10((4 - fp@.len()) as nat));
                    assert(amount_of(s@) == None::<u64>);
                }
                return None;
            },
        };
        proof {
            lemma_digits_val_nonneg(ip@);
            assert((total as int) == digits_val(ip@) * 10000 + digits_val(fp@) * pow10(
                (4 - fp@.len()) as nat,
            ));
            assert(amount_of(s@) == Some(total));
        }
        Some(total)
    }
}

/// The decimal digit bytes of `n`, most significant first.
pub open spec fn u64_digits(n: nat) -> Seq<u8>
    decreases n,
{
    if n < 10 {
        seq![(ZERO_BYTE + n) as u8]
    } else {
        u64_digits(n / 10) + seq![(ZERO_BYTE + n % 10) as u8]
    }
}

/// Appends the decimal digits of `n`.
pub fn push_u64(out: &mut Vec<u8>, n: u64)
    ensures
        final(out)@ == old(out)@ + u64_digits(n as nat),
    decreases n,
{
    if n >= 10 {
        push_u64(out, n / 10);
        out.push(ZERO_BYTE + (n % 10) as u8);
        proof {
            assert(out@ =~= old(out)@ + u64_digits(n as nat));
        }
    } else {
        out.push(ZERO_BYTE + n as u8);
        proof {
            assert(out@ =~= old(out)@ + u64_digits(n as nat));
        }
    }
}

/// The exactly-four fractional digit bytes of `f`, which is below
/// 10000.
pub open spec fn frac4_digits(f: nat) -> Seq<u8> {
    seq![
        (ZERO_BYTE + f / 1000 % 10) as u8,
        (ZERO_BYTE + f / 100 % 10) as u8,
        (ZERO_BYTE + f / 10 % 10) as u8,
        (ZERO_BYTE + f % 10) as u8,
    ]
}

/// The rendering of a fixed-point amount: the whole part, a dot, and
/// exactly four fractional digits.
pub open spec fn render_amount(v: u64) -> Seq<u8> {
    u64_digits((v / 10000) as nat) + seq![DOT_BYTE] + frac4_digits((v % 10000) as nat)
}

/// Appends the fixed-point rendering of `v`.
pub fn push_amount(out: &mut Vec<u8>, v: u64)
    ensures
        final(out)@ == old(out)@ + render_amount(v),
{
    push_u64(out, v / AMOUNT_SCALE);
    out.push(DOT_BYTE);
    let f = v % AMOUNT_SCALE;
    out.push(ZERO_BYTE + ((f / 1000) % 10) as u8);
    out.push(ZERO_BYTE + ((f / 100) % 10) as u8);
    out.push(ZERO_BYTE + ((f / 10) % 10) as u8);
    out.push(ZERO_BYTE + (f % 10) as u8);
    proof {
        assert(out@ =~= old(out)@ + render_amount(v));
    }
}

} // verus!
