use vstd::prelude::*;

use crate::digits::{
    all_digits, dec_rep, digit_of, digits_value, is_digit_char, lemma_digits_value_of_dec_rep,
    lemma_digits_value_prefix_le, lemma_digits_value_snoc, push_dec_rep,
};
use crate::{BitcoinQuantity, Error};

verus! {

/// `s` without a single leading `'+'`, the one sign a satoshi-count
/// literal may carry.
pub open spec fn strip_plus(s: Seq<char>) -> Seq<char> {
    if s.len() > 0 && s[0] == '+' {
        s.skip(1)
    } else {
        s
    }
}

/// `s` is a well-formed non-negative 64-bit integer literal up to its
/// value: an optional `'+'` followed by at least one decimal digit.
pub open spec fn is_satoshi_literal(s: Seq<char>) -> bool {
    strip_plus(s).len() > 0 && all_digits(strip_plus(s))
}

impl BitcoinQuantity {
    /// Renders the satoshi count as a plain decimal-digit string. This is
    /// the structured-serialization form: always a digit string, never a
    /// bare number, so consumers cannot lose precision to floats.
    pub fn to_satoshi_string(self) -> (out: String)
        ensures
            out@ == dec_rep(self@ as nat),
    {
        let mut out = String::new();
        push_dec_rep(self.satoshi(), &mut out);
        proof {
            assert(Seq::<char>::empty() + dec_rep(self@ as nat) =~= dec_rep(self@ as nat));
        }
        out
    }

    /// Parses a decimal-digit string as a satoshi count. Succeeds exactly
    /// on well-formed non-negative 64-bit integer literals whose value
    /// fits in 64 bits; anything else reports `InvalidSmallestUnitFormat`.
    pub fn from_satoshi_string(s: &str) -> (r: Result<BitcoinQuantity, Error>)
        ensures
            r is Ok <==> is_satoshi_literal(s@) && digits_value(strip_plus(s@)) <= u64::MAX,
            r matches Ok(q) ==> q@ == digits_value(strip_plus(s@)),
            r matches Err(e) ==> e == Error::InvalidSmallestUnitFormat,
    {
        let len = s.unicode_len();
        let start: usize = if len > 0 && s.get_char(0) == '+' {
            1
        } else {
            0
        };
        let ghost t = strip_plus(s@);
        proof {
            if start == 0 {
                assert(t =~= s@.skip(0));
            }
        }
        if start == len {
            return Err(Error::InvalidSmallestUnitFormat);
        }
        let mut acc: u64 = 0;
        let mut i: usize = start;
        proof {
            assert(t.take(0) =~= Seq::<char>::empty());
        }
        while i < len
            invariant
                start <= i <= len,
                len == s@.len(),
                start <= 1,
                t == strip_plus(s@),
                t == s@.skip(start as int),
                t.len() == len - start,
                all_digits(t.take(i - start)),
                acc == digits_value(t.take(i - start)),
            decreases len - i,
        {
            let c = s.get_char(i);
            proof {
                assert(t[i - start] == s@[i as int]);
            }
            match digit_of(c) {
                None => {
                    proof {
                        assert(!is_digit_char(t[i - start]));
                    }
                    return Err(Error::InvalidSmallestUnitFormat);
                },
                Some(d) => {
                    if acc > u64::MAX / 10 || (acc == u64::MAX / 10 && d > u64::MAX % 10) {
                        proof {
                            let k = i - start;
                            assert(t.take(k + 1) =~= t.take(k).push(t[k]));
                            lemma_digits_value_snoc(t.take(k), t[k]);
                            assert(digits_value(t.take(k + 1)) > u64::MAX);
                            if all_digits(t) {
                                lemma_digits_value_prefix_le(t, k + 1);
                            }
                        }
                        return Err(Error::InvalidSmallestUnitFormat);
                    }
                    proof {
                        let k = i - start;
                        assert(t.take(k + 1) =~= t.take(k).push(t[k]));
                        lemma_digits_value_snoc(t.take(k), t[k]);
                    }
                    acc = acc * 10 + d;
                },
            }
            i += 1;
        }
        proof {
            assert(t.take(len - start) =~= t);
        }
        Ok(BitcoinQuantity::from_satoshi(acc))
    }
}

/// Rendering a satoshi count and parsing it back yields the same count:
/// the digit string that `to_satoshi_string` produces for `n` is a
/// well-formed satoshi literal and reads back as exactly `n`, so
/// `from_satoshi_string` returns `Ok` of the original amount.
pub proof fn lemma_satoshi_string_round_trip(n: u64)
    ensures
        is_satoshi_literal(dec_rep(n as nat)),
        digits_value(strip_plus(dec_rep(n as nat))) == n,
{
    lemma_digits_value_of_dec_rep(n as nat);
    assert(is_digit_char(dec_rep(n as nat)[0]));
    assert(dec_rep(n as nat)[0] != '+');
    assert(strip_plus(dec_rep(n as nat)) == dec_rep(n as nat));
}

} // verus!
