//! Decimal numerals: the digits of a number, and parsing a numeral back.

use vstd::prelude::*;

verus! {

/// ASCII decimal digit (`'0'..='9'`).
pub open spec fn is_dec_digit(b: u8) -> bool {
    48 <= b <= 57
}

pub open spec fn all_dec_digits(s: Seq<u8>) -> bool {
    forall|i: int| 0 <= i < s.len() ==> is_dec_digit(s[i])
}

/// Value of a digit string read in base 10, most significant digit first.
pub open spec fn dec_val(s: Seq<u8>) -> int
    decreases s.len(),
{
    if s.len() == 0 {
        0
    } else {
        dec_val(s.drop_last()) * 10 + (s.last() - 48)
    }
}

/// The canonical decimal digits of `n`: no sign, no leading zeros.
pub open spec fn dec_digits(n: nat) -> Seq<u8>
    decreases n,
{
    if n < 10 {
        seq![(48 + n) as u8]
    } else {
        dec_digits(n / 10).push((48 + n % 10) as u8)
    }
}

/// The digits of a numeral, after an optional leading `+` sign.
pub open spec fn num_body(s: Seq<u8>) -> Seq<u8> {
    if s.len() > 0 && s[0] == 43 {
        s.drop_first()
    } else {
        s
    }
}

/// A non-negative decimal numeral as `str::parse` to an unsigned integer
/// type accepts it: an optional `+` sign followed by at least one digit.
pub open spec fn is_num_shape(s: Seq<u8>) -> bool {
    num_body(s).len() >= 1 && all_dec_digits(num_body(s))
}

/// What parsing `s` as a non-negative integer of at most `max` yields:
/// `Some` exactly when the shape is right and the value is in bounds.
pub open spec fn spec_parse_num(s: Seq<u8>, max: int) -> Option<int> {
    if is_num_shape(s) && dec_val(num_body(s)) <= max {
        Some(dec_val(num_body(s)))
    } else {
        None
    }
}

pub proof fn lemma_dec_digits_shape(n: nat)
    ensures
        dec_digits(n).len() >= 1,
        all_dec_digits(dec_digits(n)),
    decreases n,
{
    if n >= 10 {
        lemma_dec_digits_shape(n / 10);
        assert forall|i: int| 0 <= i < dec_digits(n).len() implies is_dec_digit(
            dec_digits(n)[i],
        ) by {
            if i < dec_digits(n / 10).len() {
                assert(dec_digits(n)[i] == dec_digits(n / 10)[i]);
            }
        }
    }
}

pub proof fn lemma_dec_val_nonneg(s: Seq<u8>)
    requires
        all_dec_digits(s),
    ensures
        dec_val(s) >= 0,
    decreases s.len(),
{
    if s.len() > 0 {
        assert(all_dec_digits(s.drop_last())) by {
            assert forall|i: int| 0 <= i < s.drop_last().len() implies is_dec_digit(
                s.drop_last()[i],
            ) by {
                assert(s.drop_last()[i] == s[i]);
            }
        }
        lemma_dec_val_nonneg(s.drop_last());
    }
}

/// Reading the canonical digits of `n` back gives `n`.
pub proof fn lemma_dec_val_digits(n: nat)
    ensures
        dec_val(dec_digits(n)) == n,
    decreases n,
{
    if n < 10 {
        assert(dec_digits(n).drop_last() =~= Seq::<u8>::empty());
        assert(dec_digits(n).last() == (48 + n) as u8);
        assert((48 + n) as u8 == 48 + n);
        assert(dec_val(Seq::<u8>::empty()) == 0);
        assert(dec_val(dec_digits(n)) == dec_val(dec_digits(n).drop_last()) * 10 + (dec_digits(
            n,
        ).last() - 48));
        assert(dec_val(dec_digits(n)) == n);
    } else {
        lemma_dec_val_digits(n / 10);
        assert(dec_digits(n).drop_last() =~= dec_digits(n / 10));
        assert(0 <= n % 10 < 10);
        assert(dec_digits(n).last() == (48 + n % 10) as u8);
        assert((48 + n % 10) as u8 == 48 + n % 10);
        assert(dec_val(dec_digits(n)) == (n / 10) * 10 + n % 10);
        vstd::arithmetic::div_mod::lemma_fundamental_div_mod(n as int, 10);
    }
}

/// A canonical numeral of a value within `max` parses back to that value.
pub proof fn lemma_parse_of_dec_digits(n: nat, max: int)
    requires
        n <= max,
    ensures
        spec_parse_num(dec_digits(n), max) == Some(n as int),
{
    lemma_dec_digits_shape(n);
    assert(is_dec_digit(dec_digits(n)[0]));
    assert(num_body(dec_digits(n)) =~= dec_digits(n));
    lemma_dec_val_digits(n);
}

/// The decimal digits of `n`, most significant first.
pub fn to_dec(n: u64) -> (r: Vec<u8>)
    ensures
        r@ == dec_digits(n as nat),
    decreases n,
{
    if n < 10 {
        let mut r: Vec<u8> = Vec::new();
        r.push(48 + (n as u8));
        proof {
            assert(r@ =~= dec_digits(n as nat));
        }
        r
    } else {
        let mut r = to_dec(n / 10);
        r.push(48 + ((n % 10) as u8));
        r
    }
}

/// Parse an optional `+` sign and decimal digits as a value of at most
/// `max`, as `str::parse` to an unsigned integer type does; `None` on an
/// empty body, a stray byte, or a value over `max`.
pub fn parse_num(s: &Vec<u8>, max: u64) -> (r: Option<u64>)
    ensures
        match r {
            Some(v) => spec_parse_num(s@, max as int) == Some(v as int),
            None => spec_parse_num(s@, max as int) is None,
        },
{
    let start: usize = if s.len() > 0 && s[0] == 43 {
        1
    } else {
        0
    };
    if s.len() == start {
        proof {
            assert(num_body(s@).len() == 0);
        }
        return None;
    }
    proof {
        assert(num_body(s@) =~= s@.subrange(start as int, s@.len() as int));
    }
    let mut val: u64 = 0;
    let mut over: bool = false;
    let mut i: usize = start;
    while i < s.len()
        invariant
            start <= i <= s@.len(),
            s@.len() > start,
            start == 1 ==> s@.len() > 0 && s@[0] == 43,
            start == 0 || start == 1,
            num_body(s@) =~= s@.subrange(start as int, s@.len() as int),
            all_dec_digits(s@.subrange(start as int, i as int)),
            !over ==> val == dec_val(s@.subrange(start as int, i as int)) && val <= max,
            over ==> dec_val(s@.subrange(start as int, i as int)) > max,
        decreases s@.len() - i,
    {
        let b = s[i];
        if b < 48 || b > 57 {
            proof {
                assert(num_body(s@)[i - start] == s@[i as int]);
                assert(!is_dec_digit(num_body(s@)[i - start]));
            }
            return None;
        }
        let d: u64 = (b - 48) as u64;
        proof {
            let pre = s@.subrange(start as int, i as int);
            let ext = s@.subrange(start as int, i + 1);
            assert(ext.drop_last() =~= pre);
            assert(ext.last() == s@[i as int]);
            assert(dec_val(ext) == dec_val(pre) * 10 + (b - 48));
            assert(all_dec_digits(ext)) by {
                assert forall|j: int| 0 <= j < ext.len() implies is_dec_digit(ext[j]) by {
                    if j < pre.len() {
                        assert(ext[j] == pre[j]);
                    }
                }
            }
            lemma_dec_val_nonneg(pre);
        }
        if !over {
            if d > max || val > (max - d) / 10 {
                proof {
                    let pre = s@.subrange(start as int, i as int);
                    if d <= max {
                        vstd::arithmetic::div_mod::lemma_fundamental_div_mod(
                            (max - d) as int,
                            10,
                        );
                    }
                }
                over = true;
            } else {
                proof {
                    vstd::arithmetic::div_mod::lemma_fundamental_div_mod((max - d) as int, 10);
                }
                val = val * 10 + d;
            }
        } else {
            proof {
                let pre = s@.subrange(start as int, i as int);
                lemma_dec_val_nonneg(pre);
            }
        }
        i += 1;
    }
    proof {
        assert(s@.subrange(start as int, i as int) =~= num_body(s@));
    }
    if over {
        None
    } else {
        Some(val)
    }
}

} // verus!
