//! Decimal text for 64-bit ids: the digit form of a number, its value, and
//! verified helpers to render and read it.

use vstd::prelude::*;

verus! {

/// An ASCII decimal digit.
pub open spec fn is_digit(b: u8) -> bool {
    48 <= b && b <= 57
}

/// The decimal digits of `n`, most significant first, no leading zeros.
pub open spec fn spec_dec(n: nat) -> Seq<u8>
    decreases n,
{
    if n < 10 {
        seq![(48 + n) as u8]
    } else {
        spec_dec(n / 10).push((48 + n % 10) as u8)
    }
}

/// The value of a digit sequence.
pub open spec fn dec_val(s: Seq<u8>) -> nat
    decreases s.len(),
{
    if s.len() == 0 {
        0
    } else {
        dec_val(s.drop_last()) * 10 + ((s.last() - 48) as nat)
    }
}

/// Every byte in `s` is a digit.
pub open spec fn all_digits(s: Seq<u8>) -> bool {
    forall|i: int| 0 <= i < s.len() ==> is_digit(s[i])
}

/// The digit form of a number is non-empty, all digits, and starts with '0'
/// only for the number zero itself.
pub proof fn lemma_spec_dec_digits(n: nat)
    ensures
        spec_dec(n).len() >= 1,
        all_digits(spec_dec(n)),
        spec_dec(n)[0] == 48 <==> n == 0,
    decreases n,
{
    if n >= 10 {
        lemma_spec_dec_digits(n / 10);
        assert forall|i: int| 0 <= i < spec_dec(n).len() implies is_digit(spec_dec(n)[i]) by {
            if i < spec_dec(n).len() - 1 {
                assert(spec_dec(n)[i] == spec_dec(n / 10)[i]);
            }
        }
        assert(spec_dec(n)[0] == spec_dec(n / 10)[0]);
    }
}

/// Reading back the digit form of a number gives the number.
pub proof fn lemma_dec_val_spec_dec(n: nat)
    ensures
        dec_val(spec_dec(n)) == n,
    decreases n,
{
    if n < 10 {
        assert(spec_dec(n) == seq![(48 + n) as u8]);
        assert(spec_dec(n).drop_last() =~= Seq::<u8>::empty());
        assert(dec_val(Seq::<u8>::empty()) == 0);
        assert(spec_dec(n).last() == (48 + n) as u8);
        assert(((48 + n) as u8 - 48) as nat == n);
        assert(dec_val(spec_dec(n)) == 0 * 10 + n);
    } else {
        lemma_dec_val_spec_dec(n / 10);
        assert(spec_dec(n).drop_last() =~= spec_dec(n / 10));
        assert(spec_dec(n).last() == (48 + n % 10) as u8);
        assert(((48 + n % 10) as u8 - 48) as nat == n % 10);
        assert(dec_val(spec_dec(n)) == (n / 10) * 10 + n % 10);
    }
}

/// Append the decimal digits of `n` to `out`.
pub fn push_dec_u64(out: &mut Vec<u8>, n: u64)
    ensures
        final(out)@ == old(out)@ + spec_dec(n as nat),
    decreases n,
{
    if n >= 10 {
        push_dec_u64(out, n / 10);
        out.push(48 + (n % 10) as u8);
        proof {
            assert(out@ =~= old(out)@ + spec_dec(n as nat));
        }
    } else {
        out.push(48 + n as u8);
        proof {
            assert(out@ =~= old(out)@ + spec_dec(n as nat));
        }
    }
}

/// The value of the digit run `s[start..end]`, or nothing when it does not
/// fit in 64 bits.
pub fn dec_value_of(s: &Vec<u8>, start: usize, end: usize) -> (r: Option<u64>)
    requires
        start <= end <= s@.len(),
        forall|k: int| start <= k < end ==> is_digit(s@[k]),
    ensures
        match r {
            Some(v) => v as nat == dec_val(s@.subrange(start as int, end as int)),
            None => dec_val(s@.subrange(start as int, end as int)) > u64::MAX,
        },
{
    let mut acc: u64 = 0;
    let mut over = false;
    let mut k = start;
    while k < end
        invariant
            start <= k <= end <= s@.len(),
            forall|j: int| start <= j < end ==> is_digit(s@[j]),
            !over ==> acc as nat == dec_val(s@.subrange(start as int, k as int)),
            over ==> dec_val(s@.subrange(start as int, k as int)) > u64::MAX,
        decreases end - k,
    {
        let d = s[k] - 48;
        proof {
            assert(s@.subrange(start as int, k + 1 as int).drop_last() =~= s@.subrange(
                start as int,
                k as int,
            ));
            assert(s@.subrange(start as int, k + 1 as int).last() == s@[k as int]);
        }
        if !over {
            if acc > (u64::MAX - d as u64) / 10 {
                proof {
                    let q = (u64::MAX - d) as int / 10;
                    assert(q * 10 + 10 > u64::MAX - d);
                    assert(acc * 10 >= q * 10 + 10) by (nonlinear_arith)
                        requires
                            acc as int >= q + 1,
                    ;
                }
                over = true;
            } else {
                proof {
                    let q = (u64::MAX - d) as int / 10;
                    assert(q * 10 <= u64::MAX - d);
                    assert(acc * 10 <= q * 10) by (nonlinear_arith)
                        requires
                            acc as int <= q,
                    ;
                }
                acc = acc * 10 + d as u64;
            }
        } else {
            proof {
                assert(dec_val(s@.subrange(start as int, k + 1 as int)) >= dec_val(
                    s@.subrange(start as int, k as int),
                ) * 10);
            }
        }
        k += 1;
    }
    if over {
        None
    } else {
        Some(acc)
    }
}

} // verus!
