use vstd::prelude::*;

verus! {

/// True when `c` is an ASCII decimal digit.
pub open spec fn is_digit_char(c: char) -> bool {
    '0' <= c && c <= '9'
}

/// Numeric value of an ASCII decimal digit.
pub open spec fn digit_value(c: char) -> int {
    c as int - '0' as int
}

/// Decimal digit character for `d`; meaningful for `0 <= d < 10`.
pub open spec fn digit_char(d: int) -> char {
    if d == 0 {
        '0'
    } else if d == 1 {
        '1'
    } else if d == 2 {
        '2'
    } else if d == 3 {
        '3'
    } else if d == 4 {
        '4'
    } else if d == 5 {
        '5'
    } else if d == 6 {
        '6'
    } else if d == 7 {
        '7'
    } else if d == 8 {
        '8'
    } else {
        '9'
    }
}

/// Every character of `s` is an ASCII decimal digit.
pub open spec fn all_digits(s: Seq<char>) -> bool {
    forall|i: int| 0 <= i < s.len() ==> is_digit_char(#[trigger] s[i])
}

/// Value of a digit string read as a base-10 number; the empty string
/// reads as 0.
pub open spec fn digits_value(s: Seq<char>) -> int
    decreases s.len(),
{
    if s.len() == 0 {
        0
    } else {
        digits_value(s.drop_last()) * 10 + digit_value(s.last())
    }
}

/// Canonical decimal representation of `n`: no leading zeros except for
/// `n == 0`, which reads as the single digit `0`.
pub open spec fn dec_rep(n: nat) -> Seq<char>
    decreases n,
{
    if n < 10 {
        seq![digit_char(n as int)]
    } else {
        dec_rep(n / 10).push(digit_char((n % 10) as int))
    }
}

/// `10^k`.
pub open spec fn pow10(k: nat) -> nat
    decreases k,
{
    if k == 0 {
        1
    } else {
        10 * pow10((k - 1) as nat)
    }
}

/// `n` written with exactly `width` digits, padded with leading zeros;
/// meaningful for `n < 10^width`.
pub open spec fn padded_rep(n: nat, width: nat) -> Seq<char>
    decreases width,
{
    if width == 0 {
        Seq::empty()
    } else {
        padded_rep(n / 10, (width - 1) as nat).push(digit_char((n % 10) as int))
    }
}

/// `s` with every trailing `'0'` removed.
pub open spec fn strip_trailing_zeros(s: Seq<char>) -> Seq<char>
    decreases s.len(),
{
    if s.len() > 0 && s.last() == '0' {
        strip_trailing_zeros(s.drop_last())
    } else {
        s
    }
}

/// A string of digits reads as a non-negative number.
pub proof fn lemma_digits_value_nonneg(s: Seq<char>)
    requires
        all_digits(s),
    ensures
        digits_value(s) >= 0,
    decreases s.len(),
{
    if s.len() > 0 {
        assert(all_digits(s.drop_last()));
        lemma_digits_value_nonneg(s.drop_last());
    }
}

/// Extending a digit string on the right multiplies its value by ten and
/// adds the new digit.
pub proof fn lemma_digits_value_snoc(s: Seq<char>, c: char)
    ensures
        digits_value(s.push(c)) == digits_value(s) * 10 + digit_value(c),
{
    assert(s.push(c).drop_last() =~= s);
    assert(s.push(c).last() == c);
}

/// Reading a longer prefix of a digit string never reads a smaller value.
pub proof fn lemma_digits_value_prefix_le(s: Seq<char>, i: int)
    requires
        all_digits(s),
        0 <= i <= s.len(),
    ensures
        digits_value(s.take(i)) <= digits_value(s),
    decreases s.len() - i,
{
    if i < s.len() {
        lemma_digits_value_prefix_le(s, i + 1);
        assert(s.take(i + 1).drop_last() =~= s.take(i));
        assert(s.take(i + 1).last() == s[i]);
        lemma_digits_value_nonneg(s.take(i));
        assert(is_digit_char(s[i]));
        assert(digits_value(s.take(i + 1)) == digits_value(s.take(i)) * 10 + digit_value(s[i]));
        assert(digits_value(s.take(i)) * 10 >= digits_value(s.take(i))) by (nonlinear_arith)
            requires digits_value(s.take(i)) >= 0;
    } else {
        assert(s.take(i) =~= s);
    }
}

/// The canonical representation of a number reads back as that number.
pub proof fn lemma_digits_value_of_dec_rep(n: nat)
    ensures
        digits_value(dec_rep(n)) == n,
        all_digits(dec_rep(n)),
        dec_rep(n).len() >= 1,
    decreases n,
{
    if n < 10 {
        let s = seq![digit_char(n as int)];
        assert(dec_rep(n) == s);
        assert(s.len() == 1);
        assert(s.drop_last() =~= Seq::<char>::empty());
        assert(digits_value(Seq::<char>::empty()) == 0);
        assert(s.last() == digit_char(n as int));
        assert(digits_value(s) == digit_value(digit_char(n as int)));
        assert(digit_value(digit_char(n as int)) == n);
    } else {
        lemma_digits_value_of_dec_rep(n / 10);
        lemma_digits_value_snoc(dec_rep(n / 10), digit_char((n % 10) as int));
        assert(digit_value(digit_char((n % 10) as int)) == n % 10);
        assert(forall|i: int| 0 <= i < dec_rep(n).len() ==> is_digit_char(#[trigger] dec_rep(n)[i]))
            by {
            assert forall|i: int| 0 <= i < dec_rep(n).len() implies is_digit_char(
                #[trigger] dec_rep(n)[i],
            ) by {
                if i < dec_rep(n / 10).len() {
                    assert(dec_rep(n)[i] == dec_rep(n / 10)[i]);
                } else {
                    assert(dec_rep(n)[i] == digit_char((n % 10) as int));
                }
            }
        }
    }
}

/// Returns the value of `c` as a decimal digit, or `None` when `c` is not
/// one.
pub fn digit_of(c: char) -> (d: Option<u64>)
    ensures
        d is Some <==> is_digit_char(c),
        d matches Some(v) ==> v == digit_value(c) && v < 10,
{
    if '0' <= c && c <= '9' {
        Some((c as u64) - ('0' as u64))
    } else {
        None
    }
}

/// String slice holding the single decimal digit `d`.
pub fn digit_str(d: u64) -> (s: &'static str)
    requires
        d < 10,
    ensures
        s@ == seq![digit_char(d as int)],
{
    let s: &'static str = match d {
        0 => "0",
        1 => "1",
        2 => "2",
        3 => "3",
        4 => "4",
        5 => "5",
        6 => "6",
        7 => "7",
        8 => "8",
        _ => "9",
    };
    proof {
        reveal_strlit("0");
        reveal_strlit("1");
        reveal_strlit("2");
        reveal_strlit("3");
        reveal_strlit("4");
        reveal_strlit("5");
        reveal_strlit("6");
        reveal_strlit("7");
        reveal_strlit("8");
        reveal_strlit("9");
        assert(s@ =~= seq![digit_char(d as int)]);
    }
    s
}

/// Appends the canonical decimal representation of `n` to `out`.
pub fn push_dec_rep(n: u64, out: &mut String)
    ensures
        final(out)@ == old(out)@ + dec_rep(n as nat),
    decreases n,
{
    if n >= 10 {
        push_dec_rep(n / 10, out);
    }
    let s = digit_str(n % 10);
    out.append(s);
    proof {
        if n < 10 {
            assert(old(out)@ + seq![digit_char((n % 10) as int)] =~= old(out)@ + dec_rep(
                n as nat,
            ));
        } else {
            assert(old(out)@ + dec_rep((n / 10) as nat) + seq![digit_char((n % 10) as int)]
                =~= old(out)@ + dec_rep(n as nat));
        }
    }
}

/// Appends `n` to `out` as exactly `width` decimal digits with leading
/// zeros.
pub fn push_padded_rep(n: u64, width: u64, out: &mut String)
    requires
        n < pow10(width as nat),
    ensures
        final(out)@ == old(out)@ + padded_rep(n as nat, width as nat),
    decreases width,
{
    if width > 0 {
        proof {
            assert(pow10(width as nat) == 10 * pow10((width - 1) as nat));
            assert(n / 10 < pow10((width - 1) as nat)) by (nonlinear_arith)
                requires
                    n < 10 * pow10((width - 1) as nat),
                    pow10((width - 1) as nat) >= 1,
            ;
            lemma_pow10_pos((width - 1) as nat);
        }
        push_padded_rep(n / 10, width - 1, out);
        let s = digit_str(n % 10);
        out.append(s);
        proof {
            assert(old(out)@ + padded_rep((n / 10) as nat, (width - 1) as nat) + seq![
                digit_char((n % 10) as int),
            ] =~= old(out)@ + padded_rep(n as nat, width as nat));
        }
    } else {
        proof {
            assert(old(out)@ + padded_rep(n as nat, 0) =~= old(out)@);
        }
    }
}

/// `10^k` is positive.
pub proof fn lemma_pow10_pos(k: nat)
    ensures
        pow10(k) >= 1,
    decreases k,
{
    if k > 0 {
        lemma_pow10_pos((k - 1) as nat);
    }
}

/// Powers of ten grow with the exponent.
pub proof fn lemma_pow10_le(a: nat, b: nat)
    requires
        a <= b,
    ensures
        pow10(a) <= pow10(b),
    decreases b,
{
    if a < b {
        lemma_pow10_le(a, (b - 1) as nat);
        lemma_pow10_pos((b - 1) as nat);
        assert(pow10(b) == 10 * pow10((b - 1) as nat));
    }
}

/// Powers of ten multiply by adding exponents.
pub proof fn lemma_pow10_adds(a: nat, b: nat)
    ensures
        pow10(a) * pow10(b) == pow10(a + b),
    decreases a,
{
    if a == 0 {
        assert(pow10(0) == 1);
        assert(pow10(0) * pow10(b) == pow10(b)) by (nonlinear_arith)
            requires
                pow10(0) == 1,
        ;
    } else {
        lemma_pow10_adds((a - 1) as nat, b);
        assert(pow10(a) * pow10(b) == 10 * (pow10((a - 1) as nat) * pow10(b)))
            by (nonlinear_arith)
            requires
                pow10(a) == 10 * pow10((a - 1) as nat),
        ;
        assert(pow10(a + b) == 10 * pow10((a + b - 1) as nat));
    }
}

/// One bitcoin is `10^8` satoshis.
pub proof fn lemma_pow10_8()
    ensures
        pow10(8) == 100_000_000,
{
    assert(pow10(0) == 1);
    assert(pow10(1) == 10);
    assert(pow10(2) == 100);
    assert(pow10(3) == 1000);
    assert(pow10(4) == 10000);
    assert(pow10(5) == 100000);
    assert(pow10(6) == 1000000);
    assert(pow10(7) == 10000000);
    assert(pow10(8) == 100000000);
}

/// A string of `len` digits reads as a value below `10^len`.
pub proof fn lemma_digits_value_bound(s: Seq<char>)
    requires
        all_digits(s),
    ensures
        digits_value(s) < pow10(s.len()),
    decreases s.len(),
{
    if s.len() == 0 {
        assert(pow10(0) == 1);
    } else {
        assert(all_digits(s.drop_last()));
        lemma_digits_value_bound(s.drop_last());
        assert(is_digit_char(s.last()));
        assert(pow10(s.len()) == 10 * pow10((s.len() - 1) as nat));
    }
}

/// Numeric value of the decimal digit `c`.
pub fn digit_val_exec(c: char) -> (d: u64)
    requires
        is_digit_char(c),
    ensures
        d == digit_value(c),
        d < 10,
{
    (c as u64) - ('0' as u64)
}

/// `10^k` as a machine integer, for small `k`.
pub fn pow10_u64(k: u64) -> (r: u64)
    requires
        k <= 8,
    ensures
        r == pow10(k as nat),
{
    proof {
        lemma_pow10_8();
    }
    let mut r: u64 = 1;
    let mut j: u64 = 0;
    while j < k
        invariant
            j <= k <= 8,
            r == pow10(j as nat),
            r <= 100_000_000,
        decreases k - j,
    {
        proof {
            lemma_pow10_8();
            lemma_pow10_adds(j as nat, (8 - j) as nat);
            lemma_pow10_pos((8 - j) as nat);
            assert(pow10((j + 1) as nat) == 10 * pow10(j as nat));
            assert(pow10((j + 1) as nat) * pow10((8 - j - 1) as nat) == pow10(8)) by {
                lemma_pow10_adds((j + 1) as nat, (8 - j - 1) as nat);
            }
            lemma_pow10_pos((8 - j - 1) as nat);
            assert(pow10((j + 1) as nat) <= pow10(8)) by (nonlinear_arith)
                requires
                    pow10((j + 1) as nat) * pow10((8 - j - 1) as nat) == pow10(8),
                    pow10((8 - j - 1) as nat) >= 1,
                    pow10((j + 1) as nat) >= 0,
            ;
        }
        r = r * 10;
        j = j + 1;
    }
    r
}

} // verus!
