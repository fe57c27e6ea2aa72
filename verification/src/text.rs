use vstd::prelude::*;

use crate::digits::{
    all_digits, dec_rep, digit_char, digit_of, digit_val_exec, digit_value, digits_value,
    is_digit_char, lemma_digits_value_bound, lemma_digits_value_nonneg,
    lemma_digits_value_prefix_le, lemma_digits_value_snoc, lemma_pow10_8, lemma_pow10_adds,
    lemma_pow10_le, lemma_pow10_pos, padded_rep, pow10, pow10_u64, push_dec_rep, push_padded_rep,
    strip_trailing_zeros,
};
use crate::{BitcoinQuantity, Error, SATS_PER_BITCOIN};

verus! {

/// `s` without a single leading sign character.
pub open spec fn strip_sign(s: Seq<char>) -> Seq<char> {
    if s.len() > 0 && (s[0] == '+' || s[0] == '-') {
        s.skip(1)
    } else {
        s
    }
}

/// The text carries a minus sign.
pub open spec fn is_negative(s: Seq<char>) -> bool {
    s.len() > 0 && s[0] == '-'
}

/// Index of the first `'.'` in `t`, or `t.len()` when there is none.
pub open spec fn dot_pos(t: Seq<char>) -> int
    decreases t.len(),
{
    if t.len() == 0 {
        0
    } else if t[0] == '.' {
        0
    } else {
        1 + dot_pos(t.skip(1))
    }
}

/// The digits before the first `'.'` (all of `t` when there is no dot).
pub open spec fn int_part(t: Seq<char>) -> Seq<char> {
    t.take(dot_pos(t))
}

/// The digits after the first `'.'` (empty when there is no dot).
pub open spec fn frac_part(t: Seq<char>) -> Seq<char> {
    if dot_pos(t) == t.len() {
        Seq::empty()
    } else {
        t.skip(dot_pos(t) + 1)
    }
}

/// The unsigned body of a decimal number: decimal digits around at most
/// one `'.'`, with at least one digit in all.
pub open spec fn valid_decimal_body(t: Seq<char>) -> bool {
    &&& all_digits(int_part(t))
    &&& all_digits(frac_part(t))
    &&& int_part(t).len() + frac_part(t).len() >= 1
}

/// `s` is a syntactically valid decimal number: an optional sign followed
/// by a valid unsigned body.
pub open spec fn is_valid_decimal(s: Seq<char>) -> bool {
    valid_decimal_body(strip_sign(s))
}

/// Satoshi value of the fraction digits `f`: the first eight digits read
/// as a count, rounded half away from zero on the ninth digit.
pub open spec fn frac_sats(f: Seq<char>) -> int {
    if f.len() <= 8 {
        digits_value(f) * pow10((8 - f.len()) as nat)
    } else {
        digits_value(f.take(8)) + if digit_value(f[8]) >= 5 {
            1int
        } else {
            0int
        }
    }
}

/// Exact satoshi value that the unsigned decimal body `t` denotes.
pub open spec fn body_sats(t: Seq<char>) -> int {
    digits_value(int_part(t)) * (SATS_PER_BITCOIN as int) + frac_sats(frac_part(t))
}

/// Satoshi count that parsing `s` yields: negative amounts saturate to
/// zero and values beyond 64 bits saturate to `u64::MAX`, as a cast from
/// a wider number to `u64` would.
pub open spec fn parsed_sats(s: Seq<char>) -> int {
    if is_negative(s) {
        0
    } else if body_sats(strip_sign(s)) > u64::MAX {
        u64::MAX as int
    } else {
        body_sats(strip_sign(s))
    }
}

/// `dot_pos` lands on the first dot: it stays within the string, points
/// at a `'.'` unless there is none, and nothing before it is a `'.'`.
pub proof fn lemma_dot_pos(t: Seq<char>)
    ensures
        0 <= dot_pos(t) <= t.len(),
        dot_pos(t) < t.len() ==> t[dot_pos(t)] == '.',
        forall|i: int| 0 <= i < dot_pos(t) ==> t[i] != '.',
    decreases t.len(),
{
    if t.len() > 0 && t[0] != '.' {
        lemma_dot_pos(t.skip(1));
        if dot_pos(t) < t.len() {
            assert(t[dot_pos(t)] == t.skip(1)[dot_pos(t) - 1]);
        }
        assert forall|i: int| 0 <= i < dot_pos(t) implies t[i] != '.' by {
            if i > 0 {
                assert(t[i] == t.skip(1)[i - 1]);
            }
        }
    }
}

/// Fraction digits denote between zero and one whole bitcoin's worth of
/// satoshis.
pub proof fn lemma_frac_sats_bounds(f: Seq<char>)
    requires
        all_digits(f),
    ensures
        0 <= frac_sats(f) <= pow10(8),
{
    lemma_pow10_8();
    if f.len() <= 8 {
        lemma_digits_value_nonneg(f);
        lemma_digits_value_bound(f);
        lemma_pow10_pos((8 - f.len()) as nat);
        lemma_pow10_adds(f.len(), (8 - f.len()) as nat);
        assert(0 <= digits_value(f) * pow10((8 - f.len()) as nat) <= pow10(8))
            by (nonlinear_arith)
            requires
                0 <= digits_value(f) < pow10(f.len()),
                pow10((8 - f.len()) as nat) >= 1,
                pow10(f.len()) * pow10((8 - f.len()) as nat) == pow10(8),
        ;
    } else {
        assert(all_digits(f.take(8)));
        lemma_digits_value_nonneg(f.take(8));
        lemma_digits_value_bound(f.take(8));
        assert(f.take(8).len() == 8);
    }
}

impl BitcoinQuantity {
    /// Parses free-form decimal text as an amount of whole bitcoin.
    /// Succeeds exactly on syntactically valid decimal numbers and
    /// reports `InvalidDecimalFormat` on anything else. The value is
    /// scaled to satoshis, rounding half away from zero on the ninth
    /// fraction digit; negative amounts saturate to zero and oversized
    /// ones to `u64::MAX`, as the cast from a wider number would.
    pub fn from_str(s: &str) -> (r: Result<BitcoinQuantity, Error>)
        ensures
            r is Ok <==> is_valid_decimal(s@),
            r matches Ok(q) ==> q@ == parsed_sats(s@),
            r matches Err(e) ==> e == Error::InvalidDecimalFormat,
    {
        let len = s.unicode_len();
        let mut neg = false;
        let mut start: usize = 0;
        if len > 0 {
            let c0 = s.get_char(0);
            if c0 == '-' {
                neg = true;
                start = 1;
            } else if c0 == '+' {
                start = 1;
            }
        }
        let ghost t = strip_sign(s@);
        proof {
            if start == 0 {
                assert(t =~= s@.skip(0));
            }
        }
        // First pass: locate the dot and check that everything else is a digit.
        let mut dot: usize = len;
        let mut ndigits: usize = 0;
        let mut i: usize = start;
        while i < len
            invariant
                start <= i <= len,
                start <= 1,
                len == s@.len(),
                neg == is_negative(s@),
                t == strip_sign(s@),
                t == s@.skip(start as int),
                t.len() == len - start,
                dot == len || (start <= dot && dot < i && t[dot - start] == '.'),
                dot == len ==> forall|j: int|
                    0 <= j < i - start ==> is_digit_char(#[trigger] t[j]),
                dot < len ==> forall|j: int|
                    0 <= j < dot - start ==> is_digit_char(#[trigger] t[j]),
                dot < len ==> forall|j: int|
                    dot - start < j < i - start ==> is_digit_char(#[trigger] t[j]),
                ndigits == if dot == len {
                    i - start
                } else {
                    i - start - 1
                },
            decreases len - i,
        {
            let c = s.get_char(i);
            proof {
                assert(t[i - start] == s@[i as int]);
            }
            if c == '.' {
                if dot < len {
                    proof {
                        lemma_dot_pos(t);
                        let dp = dot_pos(t);
                        if dp < dot - start {
                            assert(is_digit_char(t[dp]));
                            assert(false);
                        }
                        if dp > dot - start {
                            assert(t[dot - start] != '.');
                            assert(false);
                        }
                        assert(frac_part(t) == t.skip(dp + 1));
                        assert(frac_part(t)[i - dot - 1] == t[i - start]);
                        assert(!all_digits(frac_part(t)));
                    }
                    return Err(Error::InvalidDecimalFormat);
                }
                dot = i;
            } else {
                match digit_of(c) {
                    None => {
                        proof {
                            lemma_dot_pos(t);
                            let dp = dot_pos(t);
                            if dot == len {
                                if dp <= i - start {
                                    if dp < i - start {
                                        assert(is_digit_char(t[dp]));
                                    }
                                    assert(t[dp] == '.');
                                    assert(false);
                                }
                                assert(int_part(t)[i - start] == t[i - start]);
                                assert(!all_digits(int_part(t)));
                            } else {
                                if dp < dot - start {
                                    assert(is_digit_char(t[dp]));
                                    assert(false);
                                }
                                if dp > dot - start {
                                    assert(t[dot - start] != '.');
                                    assert(false);
                                }
                                assert(frac_part(t) == t.skip(dp + 1));
                                assert(frac_part(t)[i - dot - 1] == t[i - start]);
                                assert(!all_digits(frac_part(t)));
                            }
                        }
                        return Err(Error::InvalidDecimalFormat);
                    },
                    Some(_) => {
                        ndigits = ndigits + 1;
                    },
                }
            }
            i = i + 1;
        }
        proof {
            lemma_dot_pos(t);
            if dot == len {
                if dot_pos(t) < t.len() {
                    assert(is_digit_char(t[dot_pos(t)]));
                    assert(false);
                }
                assert(int_part(t) =~= t);
                assert(frac_part(t) =~= Seq::<char>::empty());
            } else {
                let dp = dot_pos(t);
                if dp < dot - start {
                    assert(is_digit_char(t[dp]));
                    assert(false);
                }
                if dp > dot - start {
                    assert(t[dot - start] != '.');
                    assert(false);
                }
            }
        }
        let ghost ip = int_part(t);
        let ghost fp = frac_part(t);
        proof {
            assert forall|m: int| 0 <= m < ip.len() implies is_digit_char(#[trigger] ip[m]) by {
                assert(ip[m] == t[m]);
            }
            if dot < len {
                assert forall|m: int| 0 <= m < fp.len() implies is_digit_char(#[trigger] fp[m]) by {
                    assert(fp[m] == t[m + (dot - start) + 1]);
                }
            }
            assert(all_digits(ip));
            assert(all_digits(fp));
        }
        if ndigits == 0 {
            proof {
                assert(ip.len() + fp.len() == 0);
            }
            return Err(Error::InvalidDecimalFormat);
        }
        proof {
            assert(ip.len() + fp.len() == ndigits);
            assert(is_valid_decimal(s@));
        }
        if neg {
            return Ok(BitcoinQuantity::from_satoshi(0));
        }
        // Second pass: read the digits before the dot.
        let dend: usize = if dot < len {
            dot
        } else {
            len
        };
        proof {
            assert(ip =~= t.take(dend - start));
        }
        let mut acc: u64 = 0;
        let mut i2: usize = start;
        proof {
            assert(ip.take(0) =~= Seq::<char>::empty());
        }
        while i2 < dend
            invariant
                start <= i2 <= dend <= len,
                start <= 1,
                len == s@.len(),
                t == strip_sign(s@),
                t == s@.skip(start as int),
                t.len() == len - start,
                ip == int_part(t),
                fp == frac_part(t),
                all_digits(ip),
                all_digits(fp),
                ip.len() == dend - start,
                ip == t.take(dend - start),
                is_valid_decimal(s@),
                valid_decimal_body(t),
                !is_negative(s@),
                acc == digits_value(ip.take(i2 - start)),
            decreases dend - i2,
        {
            let c = s.get_char(i2);
            proof {
                assert(ip[i2 - start] == t[i2 - start]);
                assert(t[i2 - start] == s@[i2 as int]);
            }
            let d = digit_val_exec(c);
            proof {
                let k = i2 - start;
                assert(ip.take(k + 1) =~= ip.take(k).push(ip[k]));
                lemma_digits_value_snoc(ip.take(k), ip[k]);
            }
            if acc > u64::MAX / 10 || (acc == u64::MAX / 10 && d > u64::MAX % 10) {
                proof {
                    lemma_digits_value_prefix_le(ip, i2 - start + 1);
                    lemma_frac_sats_bounds(fp);
                    assert(body_sats(t) > u64::MAX) by (nonlinear_arith)
                        requires
                            digits_value(ip) > u64::MAX,
                            frac_sats(fp) >= 0,
                            body_sats(t) == digits_value(ip) * (SATS_PER_BITCOIN as int)
                                + frac_sats(fp),
                            SATS_PER_BITCOIN as int >= 1,
                    ;
                }
                return Ok(BitcoinQuantity::from_satoshi(u64::MAX));
            }
            acc = acc * 10 + d;
            i2 = i2 + 1;
        }
        proof {
            assert(ip.take(dend - start) =~= ip);
        }
        // Scale the whole-bitcoin digits to satoshis.
        if acc > u64::MAX / SATS_PER_BITCOIN {
            proof {
                lemma_frac_sats_bounds(fp);
            }
            return Ok(BitcoinQuantity::from_satoshi(u64::MAX));
        }
        let base: u64 = acc * SATS_PER_BITCOIN;
        // Third pass: read at most eight fraction digits and round on the ninth.
        let mut fsats: u64 = 0;
        if dot < len {
            let nfrac: usize = len - dot - 1;
            let m: usize = if nfrac > 8 {
                8
            } else {
                nfrac
            };
            proof {
                assert(fp.len() == nfrac);
                assert(fp.take(0) =~= Seq::<char>::empty());
                lemma_pow10_8();
            }
            let mut facc: u64 = 0;
            let mut j: usize = 0;
            while j < m
                invariant
                    j <= m <= 8,
                    m <= fp.len(),
                    fp.len() > 8 ==> m == 8,
                    fp.len() <= 8 ==> m == fp.len(),
                    len == s@.len(),
                    start <= 1,
                    start <= dot < len,
                    t == strip_sign(s@),
                    t == s@.skip(start as int),
                    t.len() == len - start,
                    dot_pos(t) == dot - start,
                    fp == frac_part(t),
                    fp == t.skip(dot - start + 1),
                    fp.len() == len - dot - 1,
                    all_digits(fp),
                    facc == digits_value(fp.take(j as int)),
                    facc < pow10(j as nat),
                decreases m - j,
            {
                let c = s.get_char(dot + 1 + j);
                proof {
                    assert(fp[j as int] == t[j + (dot - start) + 1]);
                    assert(t[j + (dot - start) + 1] == s@[(dot + 1 + j) as int]);
                }
                let d = digit_val_exec(c);
                proof {
                    assert(fp.take(j + 1) =~= fp.take(j as int).push(fp[j as int]));
                    lemma_digits_value_snoc(fp.take(j as int), fp[j as int]);
                    assert(pow10((j + 1) as nat) == 10 * pow10(j as nat));
                    lemma_pow10_le((j + 1) as nat, 8);
                    lemma_pow10_8();
                }
                facc = facc * 10 + d;
                j = j + 1;
            }
            if nfrac <= 8 {
                proof {
                    assert(fp.take(m as int) =~= fp);
                    lemma_digits_value_nonneg(fp);
                    lemma_digits_value_bound(fp);
                    lemma_pow10_adds(fp.len(), (8 - fp.len()) as nat);
                    lemma_pow10_pos((8 - fp.len()) as nat);
                    lemma_pow10_8();
                    assert(digits_value(fp) * pow10((8 - fp.len()) as nat) <= pow10(8))
                        by (nonlinear_arith)
                        requires
                            0 <= digits_value(fp) < pow10(fp.len()),
                            pow10((8 - fp.len()) as nat) >= 1,
                            pow10(fp.len()) * pow10((8 - fp.len()) as nat) == pow10(8),
                    ;
                }
                let w: u64 = (8 - nfrac) as u64;
                let p = pow10_u64(w);
                fsats = facc * p;
            } else {
                fsats = facc;
                let c9 = s.get_char(dot + 9);
                proof {
                    assert(fp[8] == t[8 + (dot - start) + 1]);
                    assert(t[8 + (dot - start) + 1] == s@[(dot + 9) as int]);
                }
                let d9 = digit_val_exec(c9);
                if d9 >= 5 {
                    proof {
                        lemma_pow10_8();
                    }
                    fsats = fsats + 1;
                }
            }
        } else {
            proof {
                assert(fp.len() == 0);
                assert(digits_value(fp) == 0);
            }
        }
        proof {
            lemma_frac_sats_bounds(fp);
            lemma_pow10_8();
            assert(fsats == frac_sats(fp));
        }
        // Combine, saturating at the largest representable amount.
        if base > u64::MAX - fsats {
            proof {
                assert(body_sats(t) == acc * (SATS_PER_BITCOIN as int) + fsats);
            }
            return Ok(BitcoinQuantity::from_satoshi(u64::MAX));
        }
        let total: u64 = base + fsats;
        proof {
            assert(body_sats(t) == acc * (SATS_PER_BITCOIN as int) + fsats);
        }
        Ok(BitcoinQuantity::from_satoshi(total))
    }

    /// Renders the amount in whole bitcoin followed by the unit suffix:
    /// the exact decimal form of `satoshi / 10^8`, with trailing zeros of
    /// the fraction dropped and no decimal point on integral amounts.
    pub fn to_string(self) -> (out: String)
        ensures
            out@ == btc_display(self@),
    {
        proof {
            lemma_pow10_8();
        }
        let sats = self.satoshi();
        let whole = sats / SATS_PER_BITCOIN;
        let rem0 = sats % SATS_PER_BITCOIN;
        let mut out = String::new();
        push_dec_rep(whole, &mut out);
        proof {
            assert(Seq::<char>::empty() + dec_rep(whole as nat) =~= dec_rep(whole as nat));
        }
        if rem0 > 0 {
            let dot = ".";
            proof {
                reveal_strlit(".");
            }
            out.append(dot);
            let mut rem = rem0;
            let mut width: u64 = 8;
            while rem % 10 == 0
                invariant
                    1 <= rem < pow10(width as nat),
                    width <= 8,
                    strip_trailing_zeros(padded_rep(rem as nat, width as nat))
                        == strip_trailing_zeros(padded_rep(rem0 as nat, 8)),
                decreases width,
            {
                proof {
                    if width == 0 {
                        assert(pow10(0) == 1);
                        assert(false);
                    }
                    let p = padded_rep(rem as nat, width as nat);
                    assert(p == padded_rep((rem / 10) as nat, (width - 1) as nat).push(
                        digit_char((rem % 10) as int),
                    ));
                    assert(p.last() == '0');
                    assert(p.drop_last() =~= padded_rep((rem / 10) as nat, (width - 1) as nat));
                    assert(rem / 10 >= 1);
                    assert(pow10(width as nat) == 10 * pow10((width - 1) as nat));
                }
                rem = rem / 10;
                width = width - 1;
            }
            proof {
                if width == 0 {
                    assert(pow10(0) == 1);
                    assert(false);
                }
                let p = padded_rep(rem as nat, width as nat);
                assert(p.last() == digit_char((rem % 10) as int));
                assert(p.last() != '0');
                assert(strip_trailing_zeros(p) == p);
            }
            push_padded_rep(rem, width, &mut out);
        }
        let suffix = " BTC";
        proof {
            reveal_strlit(" BTC");
        }
        out.append(suffix);
        proof {
            reveal_strlit(".");
            reveal_strlit(" BTC");
            assert(out@ =~= btc_display(self@));
        }
        out
    }
}

/// The rendering of `sats` satoshis as whole bitcoin, without the unit
/// suffix.
pub open spec fn btc_rep(sats: u64) -> Seq<char> {
    if sats % SATS_PER_BITCOIN == 0 {
        dec_rep((sats / SATS_PER_BITCOIN) as nat)
    } else {
        dec_rep((sats / SATS_PER_BITCOIN) as nat) + seq!['.'] + strip_trailing_zeros(
            padded_rep((sats % SATS_PER_BITCOIN) as nat, 8),
        )
    }
}

/// The full display form: the bitcoin amount followed by `" BTC"`.
pub open spec fn btc_display(sats: u64) -> Seq<char> {
    btc_rep(sats) + seq![' ', 'B', 'T', 'C']
}

} // verus!
