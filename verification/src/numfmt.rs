use vstd::prelude::*;

use vstd::arithmetic::div_mod::lemma_fundamental_div_mod;
use vstd::slice::slice_index_get;

verus! {

/// An ASCII decimal digit.
pub open spec fn is_digit(b: u8) -> bool {
    48 <= b <= 57
}

pub open spec fn all_digits(s: Seq<u8>) -> bool {
    forall|i: int| 0 <= i < s.len() ==> is_digit(#[trigger] s[i])
}

/// The decimal digits of a nonnegative integer, most significant first.
pub open spec fn dec_digits(n: int) -> Seq<u8>
    decreases n,
{
    if n < 10 {
        seq![(48 + n) as u8]
    } else {
        dec_digits(n / 10) + seq![(48 + n % 10) as u8]
    }
}

/// The decimal text of an integer: a minus sign for negative values,
/// then the digits.
pub open spec fn dec_int_bytes(n: int) -> Seq<u8> {
    if n < 0 {
        seq![45u8] + dec_digits(-n)
    } else {
        dec_digits(n)
    }
}

/// The value of a digit string, most significant first.
pub open spec fn digits_val(s: Seq<u8>) -> int
    decreases s.len(),
{
    if s.len() == 0 {
        0
    } else {
        digits_val(s.drop_last()) * 10 + (s.last() - 48)
    }
}

/// The value of an optional-sign decimal literal, exactly the strings that
/// parsing an integer from text accepts; `None` for anything else.
pub open spec fn int_literal_val(s: Seq<u8>) -> Option<int> {
    if s.len() == 0 {
        None
    } else if s[0] == 43 || s[0] == 45 {
        let digs = s.drop_first();
        if digs.len() > 0 && all_digits(digs) {
            if s[0] == 45 {
                Some(-digits_val(digs))
            } else {
                Some(digits_val(digs))
            }
        } else {
            None
        }
    } else {
        if all_digits(s) {
            Some(digits_val(s))
        } else {
            None
        }
    }
}

/// What parsing a 64-bit signed integer returns: the literal's value when
/// the text is a literal and the value fits, `None` otherwise.
pub open spec fn parse_i64_spec(s: Seq<u8>) -> Option<i64> {
    match int_literal_val(s) {
        Some(v) => if i64::MIN <= v <= i64::MAX {
            Some(v as i64)
        } else {
            None
        },
        None => None,
    }
}

pub proof fn lemma_dec_digits_wf(n: int)
    requires
        n >= 0,
    ensures
        dec_digits(n).len() >= 1,
        all_digits(dec_digits(n)),
        digits_val(dec_digits(n)) == n,
    decreases n,
{
    if n < 10 {
        assert(dec_digits(n) == seq![(48 + n) as u8]);
        assert(dec_digits(n).drop_last() =~= Seq::<u8>::empty());
        assert(dec_digits(n).last() == (48 + n) as u8);
        assert(digits_val(dec_digits(n)) == digits_val(Seq::<u8>::empty()) * 10 + ((48 + n) as u8
            - 48));
    } else {
        lemma_dec_digits_wf(n / 10);
        lemma_fundamental_div_mod(n, 10);
        let d = dec_digits(n / 10);
        let last = (48 + n % 10) as u8;
        assert((d + seq![last]).drop_last() =~= d);
        assert((d + seq![last]).last() == last);
        assert forall|i: int| 0 <= i < dec_digits(n).len() implies is_digit(
            #[trigger] dec_digits(n)[i],
        ) by {
            if i < d.len() {
                assert(dec_digits(n)[i] == d[i]);
            }
        }
    }
}

pub proof fn lemma_digits_val_nonneg(s: Seq<u8>)
    requires
        all_digits(s),
    ensures
        digits_val(s) >= 0,
    decreases s.len(),
{
    if s.len() == 0 {
    } else {
        assert(all_digits(s.drop_last())) by {
            assert(forall|i: int| 0 <= i < s.len() - 1 ==> s.drop_last()[i] == s[i]);
        }
        lemma_digits_val_nonneg(s.drop_last());
    }
}

/// A digit string is worth at least any of its prefixes.
pub proof fn lemma_digits_val_prefix(s: Seq<u8>, k: int)
    requires
        all_digits(s),
        0 <= k <= s.len(),
    ensures
        digits_val(s) >= digits_val(s.subrange(0, k)),
    decreases s.len() - k,
{
    if k == s.len() {
        assert(s.subrange(0, k) =~= s);
    } else {
        lemma_digits_val_prefix(s, k + 1);
        let p = s.subrange(0, k);
        let p1 = s.subrange(0, k + 1);
        assert(p1.drop_last() =~= p);
        assert(p1.last() == s[k]);
        assert(all_digits(p)) by {
            assert(forall|i: int| 0 <= i < k ==> p[i] == s[i]);
        }
        lemma_digits_val_nonneg(p);
        assert(digits_val(p1) == digits_val(p) * 10 + (s[k] - 48));
        assert(digits_val(p) * 10 >= digits_val(p)) by (nonlinear_arith)
            requires
                digits_val(p) >= 0,
        ;
    }
}

/// Formats a 64-bit unsigned integer in decimal.
pub fn fmt_u64(n: u64) -> (r: Vec<u8>)
    ensures
        r@ == dec_digits(n as int),
{
    let mut x: u64 = n;
    let mut rev: Vec<u8> = Vec::new();
    let d0: u8 = (x % 10) as u8 + 48;
    rev.push(d0);
    proof {
        if n >= 10 {
            lemma_fundamental_div_mod(n as int, 10);
        }
        assert(rev@.reverse() =~= seq![d0]);
    }
    x = x / 10;
    while x > 0
        invariant
            rev@.len() >= 1,
            x > 0 ==> dec_digits(n as int) =~= dec_digits(x as int) + rev@.reverse(),
            x == 0 ==> dec_digits(n as int) =~= rev@.reverse(),
        decreases x,
    {
        let d: u8 = (x % 10) as u8 + 48;
        let ghost rev_old = rev@;
        rev.push(d);
        proof {
            assert(rev@.reverse() =~= seq![d] + rev_old.reverse());
            if x >= 10 {
                lemma_fundamental_div_mod(x as int, 10);
                assert(dec_digits(x as int) == dec_digits(x as int / 10) + seq![d]);
                assert(dec_digits(x as int / 10) + seq![d] + rev_old.reverse() =~= dec_digits(
                    x as int / 10,
                ) + (seq![d] + rev_old.reverse()));
            } else {
                assert(dec_digits(x as int) =~= seq![d]);
                assert(seq![d] + rev_old.reverse() =~= dec_digits(x as int) + rev_old.reverse());
            }
        }
        x = x / 10;
    }
    let mut out: Vec<u8> = Vec::new();
    let mut i: usize = rev.len();
    while i > 0
        invariant
            0 <= i <= rev@.len(),
            out@.len() == rev@.len() - i,
            forall|j: int| 0 <= j < out@.len() ==> #[trigger] out@[j] == rev@[rev@.len() - 1 - j],
        decreases i,
    {
        i = i - 1;
        let b = rev[i];
        out.push(b);
    }
    proof {
        assert(out@ =~= rev@.reverse());
    }
    out
}

/// Formats a 64-bit signed integer in decimal, minus sign first when
/// negative.
pub fn fmt_i64(n: i64) -> (r: Vec<u8>)
    ensures
        r@ == dec_int_bytes(n as int),
{
    if n >= 0 {
        fmt_u64(n as u64)
    } else {
        let mag: u64 = ((-(n as i128)) as u64);
        let digits = fmt_u64(mag);
        let mut out: Vec<u8> = Vec::new();
        out.push(45u8);
        let mut i: usize = 0;
        while i < digits.len()
            invariant
                0 <= i <= digits@.len(),
                out@.len() == i + 1,
                out@[0] == 45u8,
                forall|j: int| 0 <= j < i ==> #[trigger] out@[j + 1] == digits@[j],
            decreases digits@.len() - i,
        {
            let b = digits[i];
            out.push(b);
            i = i + 1;
        }
        proof {
            assert(mag as int == -(n as int));
            assert(digits@ == dec_digits(-(n as int)));
            assert forall|j: int| 0 <= j < out@.len() implies out@[j] == (seq![45u8] + dec_digits(
                -(n as int),
            ))[j] by {
                if j > 0 {
                    assert(out@[(j - 1) + 1] == digits@[j - 1]);
                }
            }
            assert(out@ =~= seq![45u8] + dec_digits(-(n as int)));
        }
        out
    }
}

/// Parses a 64-bit signed integer from decimal text: accepts an optional
/// sign followed by at least one digit, when the value fits.
pub fn parse_i64(bytes: &[u8]) -> (r: Option<i64>)
    ensures
        r == parse_i64_spec(bytes@),
{
    let n = bytes.len();
    if n == 0 {
        return None;
    }
    let first = *slice_index_get(bytes, 0);
    let neg: bool = first == 45;
    let start: usize = if first == 43 || first == 45 {
        1
    } else {
        0
    };
    if n == start {
        return None;
    }
    let ghost digs = if start == 1 {
        bytes@.drop_first()
    } else {
        bytes@
    };
    proof {
        assert(digs =~= bytes@.subrange(start as int, n as int));
    }
    let mut k: usize = start;
    let mut acc: u128 = 0;
    while k < n
        invariant
            bytes@.len() == n,
            start <= k <= n,
            start == 0 || start == 1,
            start == 1 ==> (bytes@[0] == 43 || bytes@[0] == 45),
            start == 0 ==> !(bytes@[0] == 43 || bytes@[0] == 45),
            n > start,
            neg == (bytes@[0] == 45),
            digs == bytes@.subrange(start as int, n as int),
            all_digits(digs.subrange(0, k - start)),
            acc == digits_val(digs.subrange(0, k - start)),
            acc <= 0x8000_0000_0000_0000,
        decreases n - k,
    {
        let b = *slice_index_get(bytes, k);
        if b < 48 || b > 57 {
            proof {
                assert(digs[k - start] == b);
                assert(!all_digits(digs));
                if start == 1 {
                    assert(digs =~= bytes@.drop_first());
                } else {
                    assert(digs =~= bytes@);
                }
            }
            return None;
        }
        let d: u128 = (b - 48) as u128;
        let ghost pre = digs.subrange(0, k - start);
        acc = acc * 10 + d;
        k = k + 1;
        proof {
            assert(digs.subrange(0, k - start).drop_last() =~= pre);
            assert(digs.subrange(0, k - start).last() == b);
            assert(all_digits(digs.subrange(0, k - start)));
        }
        if acc > 0x8000_0000_0000_0000 {
            proof {
                if all_digits(digs) {
                    lemma_digits_val_prefix(digs, k - start);
                    assert(digits_val(digs) >= acc);
                    assert(digits_val(digs) > 0x8000_0000_0000_0000);
                    if start == 1 {
                        assert(int_literal_val(bytes@) == Some(
                            if neg {
                                -digits_val(digs)
                            } else {
                                digits_val(digs)
                            },
                        ));
                    } else {
                        assert(digs =~= bytes@);
                        assert(int_literal_val(bytes@) == Some(digits_val(digs)));
                    }
                    assert(parse_i64_spec(bytes@) is None);
                } else {
                    if start == 1 {
                        assert(digs =~= bytes@.drop_first());
                    } else {
                        assert(digs =~= bytes@);
                    }
                    assert(int_literal_val(bytes@) is None);
                }
            }
            return None;
        }
    }
    proof {
        assert(digs.subrange(0, n - start) =~= digs);
        assert(all_digits(digs));
        assert(acc == digits_val(digs));
        if start == 1 {
            assert(digs =~= bytes@.drop_first());
        } else {
            assert(digs =~= bytes@);
        }
    }
    if neg {
        if acc == 0x8000_0000_0000_0000 {
            Some(i64::MIN)
        } else {
            Some(-(acc as i64))
        }
    } else {
        if acc > 0x7FFF_FFFF_FFFF_FFFF {
            None
        } else {
            Some(acc as i64)
        }
    }
}

/// Formatting an integer and parsing the text back returns the integer.
pub proof fn lemma_dec_int_round_trip(n: i64)
    ensures
        parse_i64_spec(dec_int_bytes(n as int)) == Some(n),
{
    if n >= 0 {
        lemma_dec_digits_wf(n as int);
        let s = dec_digits(n as int);
        assert(is_digit(s[0]));
        assert(s[0] != 43 && s[0] != 45);
    } else {
        lemma_dec_digits_wf(-(n as int));
        let s = dec_int_bytes(n as int);
        assert(s[0] == 45);
        assert(s.drop_first() =~= dec_digits(-(n as int)));
    }
}

} // verus!
