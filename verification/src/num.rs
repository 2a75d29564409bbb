//! Decimal digit strings: the integer and length fields of the wire
//! format, with their exact byte representation.
use vstd::prelude::*;

verus! {

/// The byte is an ASCII decimal digit.
pub open spec fn is_digit(b: u8) -> bool {
    48 <= b <= 57
}

/// A non-empty, all-digit byte string.
pub open spec fn is_digits(s: Seq<u8>) -> bool {
    s.len() > 0 && forall|i: int| 0 <= i < s.len() ==> is_digit(#[trigger] s[i])
}

/// The number a digit string denotes, most significant digit first.
pub open spec fn dec_val(s: Seq<u8>) -> nat
    decreases s.len(),
{
    if s.len() == 0 {
        0
    } else {
        dec_val(s.drop_last()) * 10 + (s.last() - 48) as nat
    }
}

/// The canonical digit string of a number: no leading zero except for
/// the number zero itself.
pub open spec fn dec_repr(n: nat) -> Seq<u8>
    decreases n,
{
    if n < 10 {
        seq![(n + 48) as u8]
    } else {
        dec_repr(n / 10).push((n % 10 + 48) as u8)
    }
}

/// The canonical digit string is all digits and denotes its number.
pub proof fn lemma_dec_repr(n: nat)
    ensures
        is_digits(dec_repr(n)),
        dec_val(dec_repr(n)) == n,
    decreases n,
{
    if n < 10 {
        let s = dec_repr(n);
        assert(s =~= seq![(n + 48) as u8]);
        assert(s.drop_last() =~= Seq::<u8>::empty());
        assert(dec_val(Seq::<u8>::empty()) == 0);
        assert(dec_val(s) == dec_val(s.drop_last()) * 10 + (s.last() - 48) as nat);
    } else {
        lemma_dec_repr(n / 10);
        let s = dec_repr(n);
        assert(s.drop_last() =~= dec_repr(n / 10));
        assert(dec_val(s) == (n / 10) * 10 + n % 10);
    }
}

/// Reading more digits never shrinks the denoted number.
pub proof fn lemma_dec_val_prefix(s: Seq<u8>, k: int)
    requires
        0 <= k <= s.len(),
        forall|i: int| 0 <= i < s.len() ==> is_digit(#[trigger] s[i]),
    ensures
        dec_val(s.take(k)) <= dec_val(s),
    decreases s.len() - k,
{
    if k == s.len() {
        assert(s.take(k) =~= s);
    } else {
        lemma_dec_val_prefix(s, k + 1);
        assert(s.take(k + 1).drop_last() =~= s.take(k));
        assert(s.take(k + 1).last() == s[k]);
        assert(dec_val(s.take(k + 1)) == dec_val(s.take(k)) * 10 + (s[k] - 48) as nat);
    }
}

/// Parses a digit string into a number; rejects empty strings, strings
/// with a non-digit byte, and values too large for the machine word.
pub fn parse_u64(s: &Vec<u8>) -> (r: Option<u64>)
    ensures
        r matches Some(v) ==> is_digits(s@) && dec_val(s@) == v,
        r is None ==> !(is_digits(s@) && dec_val(s@) <= u64::MAX),
{
    if s.len() == 0 {
        return None;
    }
    let mut acc: u64 = 0;
    let mut i: usize = 0;
    while i < s.len()
        invariant
            0 <= i <= s.len(),
            acc == dec_val(s@.take(i as int)),
            forall|j: int| 0 <= j < i ==> is_digit(#[trigger] s@[j]),
        decreases s.len() - i,
    {
        let b = s[i];
        if b < 48 || b > 57 {
            return None;
        }
        let d: u64 = (b - 48) as u64;
        if acc > (u64::MAX - d) / 10 {
            proof {
                assert(s@.take(i + 1).drop_last() =~= s@.take(i as int));
                assert(dec_val(s@.take(i + 1)) == acc * 10 + d);
                assert(acc * 10 + d > u64::MAX) by (nonlinear_arith)
                    requires
                        acc > (u64::MAX - d) / 10,
                        d <= 9,
                        acc >= 0,
                ;
                if is_digits(s@) {
                    lemma_dec_val_prefix(s@, i + 1);
                }
            }
            return None;
        }
        proof {
            assert(acc * 10 + d <= u64::MAX) by (nonlinear_arith)
                requires
                    acc <= (u64::MAX - d) / 10,
                    d <= 9,
                    acc >= 0,
            ;
            assert(s@.take(i + 1).drop_last() =~= s@.take(i as int));
            assert(dec_val(s@.take(i + 1)) == acc * 10 + d);
        }
        acc = acc * 10 + d;
        i = i + 1;
    }
    proof {
        assert(s@.take(i as int) =~= s@);
    }
    Some(acc)
}

/// Appends the canonical digit string of `n`.
pub fn push_dec(out: &mut Vec<u8>, n: u64)
    ensures
        final(out)@ == old(out)@ + dec_repr(n as nat),
    decreases n,
{
    if n < 10 {
        out.push(48 + n as u8);
        proof {
            assert(out@ =~= old(out)@ + dec_repr(n as nat));
        }
    } else {
        push_dec(out, n / 10);
        out.push(48 + (n % 10) as u8);
        proof {
            assert(out@ =~= old(out)@ + dec_repr(n as nat));
        }
    }
}

} // verus!
