//! Decimal text for machine integers: verified parsing and formatting.
//!
//! [`int_of_dec`] is the meaning of a decimal token (an optional sign
//! followed by one or more digits, leading zeroes allowed); [`dec_of_nat`]
//! is the canonical rendering of a number.  The two round-trip
//! ([`lemma_dec_roundtrip`]), which is what makes the pretty-printer's
//! integers re-parseable.

use vstd::prelude::*;

verus! {

/// `b` is an ASCII digit.
pub open spec fn is_digit(b: u8) -> bool {
    48 <= b <= 57
}

/// Every byte of `s` is an ASCII digit.
pub open spec fn all_digits(s: Seq<u8>) -> bool {
    forall|i: int| 0 <= i < s.len() ==> is_digit(#[trigger] s[i])
}

/// The number the digit string `s` denotes (most significant first).
pub open spec fn digits_val(s: Seq<u8>) -> int
    decreases s.len(),
{
    if s.len() == 0 {
        0
    } else {
        digits_val(s.drop_last()) * 10 + (s.last() - 48)
    }
}

/// The body of a decimal token after any sign: one or more digits.
pub open spec fn dec_body(s: Seq<u8>) -> Option<int> {
    if s.len() > 0 && all_digits(s) {
        Some(digits_val(s))
    } else {
        None
    }
}

/// The integer a decimal token denotes: an optional `+` (or, where
/// `signed` holds, `-`) followed by one or more digits; anything else
/// denotes nothing.
pub open spec fn int_of_dec(s: Seq<u8>, signed: bool) -> Option<int> {
    if s.len() == 0 {
        None
    } else if s[0] == 43 {
        dec_body(s.skip(1))
    } else if s[0] == 45 {
        if signed {
            match dec_body(s.skip(1)) {
                Some(v) => Some(-v),
                None => None,
            }
        } else {
            None
        }
    } else {
        dec_body(s)
    }
}

/// A digit string denotes a non-negative number.
pub proof fn lemma_digits_val_nonneg(s: Seq<u8>)
    requires
        all_digits(s),
    ensures
        digits_val(s) >= 0,
    decreases s.len(),
{
    if s.len() > 0 {
        assert(all_digits(s.drop_last()));
        lemma_digits_val_nonneg(s.drop_last());
    }
}

/// The digits of `s[from..]`, as a number, if they are one or more digits
/// denoting at most `u64::MAX`.
fn dec_mag(s: &[u8], from: usize) -> (r: Option<u64>)
    requires
        from <= s@.len(),
    ensures
        ({
            let sub = s@.skip(from as int);
            match r {
                Some(v) => sub.len() > 0 && all_digits(sub) && v as int == digits_val(sub),
                None => sub.len() == 0 || !all_digits(sub) || digits_val(sub) > u64::MAX,
            }
        }),
{
    let ghost sub = s@.skip(from as int);
    let n = s.len();
    if from >= n {
        return None;
    }
    let mut i = from;
    let mut acc: u128 = 0;
    let mut over = false;
    while i < n
        invariant
            from <= i <= n,
            n == s@.len(),
            sub == s@.skip(from as int),
            all_digits(sub.take(i - from)),
            !over ==> acc <= u64::MAX as u128 && acc as int == digits_val(sub.take(i - from)),
            over ==> digits_val(sub.take(i - from)) > u64::MAX,
        decreases n - i,
    {
        let b = s[i];
        if b < 48 || b > 57 {
            proof {
                assert(sub[i - from] == b);
                assert(!all_digits(sub));
            }
            return None;
        }
        proof {
            let pre = sub.take(i - from);
            let nxt = sub.take(i + 1 - from);
            assert(nxt.drop_last() =~= pre);
            assert(nxt.last() == b);
            lemma_digits_val_nonneg(pre);
            assert(all_digits(nxt));
        }
        if !over {
            let d: u128 = (b - 48) as u128;
            let next: u128 = acc * 10 + d;
            if next > u64::MAX as u128 {
                over = true;
            } else {
                acc = next;
            }
        } else {
            proof {
                let pre = sub.take(i - from);
                assert(digits_val(sub.take(i + 1 - from)) == digits_val(pre) * 10 + (s@[i as int]
                    - 48));
                assert(digits_val(pre) * 10 >= digits_val(pre)) by (nonlinear_arith)
                    requires
                        digits_val(pre) >= 0,
                ;
                lemma_digits_val_nonneg(pre);
            }
        }
        i += 1;
    }
    proof {
        assert(sub.take(n - from) =~= sub);
    }
    if over {
        None
    } else {
        Some(acc as u64)
    }
}

/// Parses an unsigned decimal token (optional `+`, then digits), bounded
/// by `u64::MAX`.
pub fn parse_dec_u64(s: &[u8]) -> (r: Option<u64>)
    ensures
        (match r {
            Some(v) => int_of_dec(s@, false) == Some(v as int),
            None => (match int_of_dec(s@, false) {
                Some(v) => v > u64::MAX,
                None => true,
            }),
        }),
{
    if s.len() == 0 {
        return None;
    }
    if s[0] == 43 {
        dec_mag(s, 1)
    } else if s[0] == 45 {
        None
    } else {
        let r = dec_mag(s, 0);
        proof {
            assert(s@.skip(0) =~= s@);
        }
        r
    }
}

/// Parses a signed decimal token (optional `+` or `-`, then digits),
/// within the machine range.
pub fn parse_dec_i64(s: &[u8]) -> (r: Option<i64>)
    ensures
        (match r {
            Some(v) => int_of_dec(s@, true) == Some(v as int),
            None => (match int_of_dec(s@, true) {
                Some(v) => !(i64::MIN <= v <= i64::MAX),
                None => true,
            }),
        }),
{
    if s.len() == 0 {
        return None;
    }
    if s[0] == 45 {
        match dec_mag(s, 1) {
            Some(m) => {
                if m <= i64::MAX as u64 {
                    Some(-(m as i64))
                } else if m == i64::MAX as u64 + 1 {
                    Some(i64::MIN)
                } else {
                    proof {
                        lemma_digits_val_nonneg(s@.skip(1));
                    }
                    None
                }
            },
            None => {
                proof {
                    if s@.skip(1).len() > 0 && all_digits(s@.skip(1)) {
                        lemma_digits_val_nonneg(s@.skip(1));
                    }
                }
                None
            },
        }
    } else if s[0] == 43 {
        match dec_mag(s, 1) {
            Some(m) => {
                if m <= i64::MAX as u64 {
                    Some(m as i64)
                } else {
                    None
                }
            },
            None => None,
        }
    } else {
        let ghost whole = s@;
        proof {
            assert(s@.skip(0) =~= s@);
        }
        match dec_mag(s, 0) {
            Some(m) => {
                if m <= i64::MAX as u64 {
                    Some(m as i64)
                } else {
                    None
                }
            },
            None => None,
        }
    }
}

/// The canonical decimal rendering of a non-negative number: no sign, no
/// leading zero (except for zero itself).
pub open spec fn dec_of_nat(v: int) -> Seq<u8>
    decreases v,
{
    if v <= 0 {
        seq![48u8]
    } else if v < 10 {
        seq![(48 + v) as u8]
    } else {
        dec_of_nat(v / 10).push((48 + v % 10) as u8)
    }
}

/// The canonical decimal rendering of an integer: a `-` sign where it is
/// negative.
pub open spec fn dec_of_int(v: int) -> Seq<u8> {
    if v < 0 {
        seq![45u8] + dec_of_nat(-v)
    } else {
        dec_of_nat(v)
    }
}

/// The canonical rendering is made of digits and denotes the number it
/// was made from.
pub proof fn lemma_dec_of_nat_val(v: int)
    requires
        v >= 0,
    ensures
        all_digits(dec_of_nat(v)),
        dec_of_nat(v).len() > 0,
        digits_val(dec_of_nat(v)) == v,
    decreases v,
{
    if v <= 0 {
        let s = dec_of_nat(v);
        assert(s =~= seq![48u8]);
        assert(s.drop_last() =~= Seq::<u8>::empty());
        assert(digits_val(s) == digits_val(Seq::<u8>::empty()) * 10 + (s.last() - 48));
        assert(is_digit(s[0]));
        assert(digits_val(s) == 0);
    } else if v < 10 {
        let s = dec_of_nat(v);
        assert(s =~= seq![(48 + v) as u8]);
        assert(s.drop_last() =~= Seq::<u8>::empty());
        assert(digits_val(s) == digits_val(Seq::<u8>::empty()) * 10 + (s.last() - 48));
        assert(is_digit(s[0]));
        assert(digits_val(s) == v);
    } else {
        lemma_dec_of_nat_val(v / 10);
        let s = dec_of_nat(v);
        assert(s =~= dec_of_nat(v / 10).push((48 + v % 10) as u8));
        assert(s.drop_last() =~= dec_of_nat(v / 10));
        assert(0 <= v % 10 < 10 && v == (v / 10) * 10 + v % 10) by (nonlinear_arith);
        assert(s.last() == (48 + v % 10) as u8);
        assert(digits_val(s) == digits_val(dec_of_nat(v / 10)) * 10 + (s.last() - 48));
        assert(digits_val(s) == v);
        assert forall|i: int| 0 <= i < s.len() implies is_digit(#[trigger] s[i]) by {
            if i < s.len() - 1 {
                assert(s[i] == dec_of_nat(v / 10)[i]);
            } else {
                assert(s[i] == (48 + v % 10) as u8);
            }
        }
    }
}

/// Round-trip: parsing the canonical rendering of `v` yields `v` again.
pub proof fn lemma_dec_roundtrip(v: int)
    requires
        i64::MIN <= v <= i64::MAX,
    ensures
        int_of_dec(dec_of_int(v), true) == Some(v),
        v >= 0 ==> int_of_dec(dec_of_int(v), false) == Some(v),
{
    if v < 0 {
        lemma_dec_of_nat_val(-v);
        let s = seq![45u8] + dec_of_nat(-v);
        assert(s[0] == 45);
        assert(s.skip(1) =~= dec_of_nat(-v));
    } else {
        lemma_dec_of_nat_val(v);
        let s = dec_of_nat(v);
        assert(s[0] != 43 && s[0] != 45) by {
            assert(is_digit(s[0]));
        }
    }
}

/// Renders `v` in canonical decimal.
pub fn u64_to_dec(v: u64) -> (r: Vec<u8>)
    ensures
        r@ == dec_of_nat(v as int),
{
    let mut digits: Vec<u8> = Vec::new();
    let mut rest: u64 = v;
    if rest == 0 {
        digits.push(48);
        proof {
            assert(digits@ =~= dec_of_nat(0));
        }
        return digits;
    }
    // Collect the digits least significant first, then reverse.
    while rest > 0
        invariant
            v > 0,
            rest <= v,
            rest > 0 ==> dec_of_nat(v as int) == dec_of_nat(rest as int) + digits@.reverse(),
            rest == 0 ==> dec_of_nat(v as int) == digits@.reverse(),
        decreases rest,
    {
        let ghost pre = digits@;
        let ghost prev = rest as int;
        let d: u8 = (rest % 10) as u8;
        digits.push(48 + d);
        rest = rest / 10;
        proof {
            assert(digits@.reverse() =~= seq![(48 + prev % 10) as u8] + pre.reverse());
            if rest > 0 {
                assert(dec_of_nat(prev) == dec_of_nat(prev / 10).push((48 + prev % 10) as u8));
                assert(dec_of_nat(prev / 10).push((48 + prev % 10) as u8) + pre.reverse()
                    =~= dec_of_nat(prev / 10) + (seq![(48 + prev % 10) as u8] + pre.reverse()));
            } else {
                assert(prev < 10);
                assert(dec_of_nat(prev) =~= seq![(48 + prev % 10) as u8]);
                assert(dec_of_nat(prev) + pre.reverse() =~= seq![(48 + prev % 10) as u8]
                    + pre.reverse());
            }
        }
    }
    let n = digits.len();
    let mut out: Vec<u8> = Vec::new();
    for i in 0..n
        invariant
            n == digits@.len(),
            out@.len() == i,
            forall|j: int| 0 <= j < i ==> out@[j] == digits@[n - 1 - j],
    {
        out.push(digits[n - 1 - i]);
    }
    proof {
        assert(out@ =~= digits@.reverse());
    }
    out
}

/// Renders `v` in canonical decimal, with a `-` sign where negative.
pub fn i64_to_dec(v: i64) -> (r: Vec<u8>)
    ensures
        r@ == dec_of_int(v as int),
{
    if v >= 0 {
        u64_to_dec(v as u64)
    } else {
        let mag: u64 = if v == i64::MIN {
            0x8000_0000_0000_0000u64
        } else {
            (-v) as u64
        };
        let tail = u64_to_dec(mag);
        let mut out: Vec<u8> = Vec::new();
        out.push(45);
        let mut rest = tail;
        out.append(&mut rest);
        proof {
            assert(out@ =~= seq![45u8] + dec_of_nat(-(v as int)));
        }
        out
    }
}

} // verus!
