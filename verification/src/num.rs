//! Decimal digit strings: printing integers and reading them back.
use vstd::prelude::*;

verus! {

/// The decimal digit character for d in [0, 9].
pub open spec fn digit_char(d: int) -> char {
    if d == 0 {
        '0'
    } else if d == 1 {
        '1'
    } else if d == 2 {
        '2'
    } else if d == 3 {
        '3'
    } else if d == 4 {
        '4'
    } else if d == 5 {
        '5'
    } else if d == 6 {
        '6'
    } else if d == 7 {
        '7'
    } else if d == 8 {
        '8'
    } else {
        '9'
    }
}

/// A decimal digit character.
pub open spec fn is_digit(c: char) -> bool {
    '0' <= c <= '9'
}

/// The numeric value of a digit character.
pub open spec fn digit_val(c: char) -> int {
    c as int - 48
}

/// The shortest decimal form of n >= 0, most significant digit first.
pub open spec fn dec_chars(n: int) -> Seq<char>
    decreases n,
{
    if n < 10 {
        seq![digit_char(n)]
    } else {
        dec_chars(n / 10) + seq![digit_char(n % 10)]
    }
}

/// The decimal form of n padded with leading zeros to exactly w digits.
pub open spec fn pad_chars(n: int, w: int) -> Seq<char>
    decreases w,
{
    if w <= 0 {
        Seq::empty()
    } else {
        pad_chars(n / 10, w - 1) + seq![digit_char(n % 10)]
    }
}

/// The value of a digit string, most significant digit first.
pub open spec fn dec_val(cs: Seq<char>) -> int
    decreases cs.len(),
{
    if cs.len() == 0 {
        0
    } else {
        dec_val(cs.drop_last()) * 10 + digit_val(cs.last())
    }
}

/// Reading a digit back gives its value.
pub proof fn lemma_digit_roundtrip(d: int)
    requires
        0 <= d < 10,
    ensures
        digit_val(digit_char(d)) == d,
        is_digit(digit_char(d)),
{
}

/// Reading a printed number back gives the number.
pub proof fn lemma_dec_roundtrip(n: int)
    requires
        n >= 0,
    ensures
        dec_val(dec_chars(n)) == n,
        dec_chars(n).len() >= 1,
        forall|i: int| 0 <= i < dec_chars(n).len() ==> is_digit(#[trigger] dec_chars(n)[i]),
    decreases n,
{
    if n < 10 {
        lemma_digit_roundtrip(n);
        let whole = dec_chars(n);
        assert(whole.drop_last() =~= Seq::<char>::empty());
        assert(whole.last() == digit_char(n));
        assert(dec_val(whole) == dec_val(Seq::<char>::empty()) * 10 + digit_val(digit_char(n)));
    } else {
        lemma_dec_roundtrip(n / 10);
        lemma_digit_roundtrip(n % 10);
        let pre = dec_chars(n / 10);
        let whole = dec_chars(n);
        assert(whole.drop_last() =~= pre);
        assert(whole.last() == digit_char(n % 10));
        assert(dec_val(whole) == dec_val(pre) * 10 + digit_val(digit_char(n % 10)));
        vstd::arithmetic::div_mod::lemma_fundamental_div_mod(n, 10);
    }
}

/// Reading a zero-padded number back gives the number, when it fits.
pub proof fn lemma_pad_roundtrip(n: int, w: int, p: int)
    requires
        0 <= n < p,
        w >= 0,
        p == vstd::arithmetic::power::pow(10, w as nat),
    ensures
        dec_val(pad_chars(n, w)) == n,
        pad_chars(n, w).len() == w,
        forall|i: int| 0 <= i < w ==> is_digit(#[trigger] pad_chars(n, w)[i]),
    decreases w,
{
    if w == 0 {
        assert(p == 1) by {
            vstd::arithmetic::power::lemma_pow0(10);
        }
    } else {
        assert(p == 10 * vstd::arithmetic::power::pow(10, (w - 1) as nat)) by {
            vstd::arithmetic::power::lemma_pow1(10);
            vstd::arithmetic::power::lemma_pow_adds(10, 1, (w - 1) as nat);
        }
        let p1 = vstd::arithmetic::power::pow(10, (w - 1) as nat);
        assert(n / 10 < p1) by (nonlinear_arith)
            requires
                0 <= n < 10 * p1,
                p1 >= 0,
        ;
        lemma_pad_roundtrip(n / 10, w - 1, p1);
        lemma_digit_roundtrip(n % 10);
        let pre = pad_chars(n / 10, w - 1);
        let whole = pad_chars(n, w);
        assert(whole.drop_last() =~= pre);
        vstd::arithmetic::div_mod::lemma_fundamental_div_mod(n, 10);
    }
}

/// Small powers of ten, in the form the padding lemma asks for.
pub proof fn lemma_vstd_pow10()
    ensures
        vstd::arithmetic::power::pow(10, 0) == 1,
        vstd::arithmetic::power::pow(10, 1) == 10,
        vstd::arithmetic::power::pow(10, 2) == 100,
        vstd::arithmetic::power::pow(10, 3) == 1000,
        vstd::arithmetic::power::pow(10, 4) == 10000,
        vstd::arithmetic::power::pow(10, 5) == 100000,
        vstd::arithmetic::power::pow(10, 6) == 1000000,
{
    vstd::arithmetic::power::lemma_pow0(10);
    vstd::arithmetic::power::lemma_pow1(10);
    vstd::arithmetic::power::lemma_pow_adds(10, 1, 1);
    vstd::arithmetic::power::lemma_pow_adds(10, 2, 1);
    vstd::arithmetic::power::lemma_pow_adds(10, 3, 1);
    vstd::arithmetic::power::lemma_pow_adds(10, 4, 1);
    vstd::arithmetic::power::lemma_pow_adds(10, 5, 1);
}

/// Append one decimal digit character.
pub fn push_digit(out: &mut String, d: u64)
    requires
        d < 10,
    ensures
        final(out)@ == old(out)@ + seq![digit_char(d as int)],
{
    if d == 0 {
        out.append("0");
        proof {
            reveal_strlit("0");
            assert(out@ =~= old(out)@ + seq![digit_char(d as int)]);
        }
    } else if d == 1 {
        out.append("1");
        proof {
            reveal_strlit("1");
            assert(out@ =~= old(out)@ + seq![digit_char(d as int)]);
        }
    } else if d == 2 {
        out.append("2");
        proof {
            reveal_strlit("2");
            assert(out@ =~= old(out)@ + seq![digit_char(d as int)]);
        }
    } else if d == 3 {
        out.append("3");
        proof {
            reveal_strlit("3");
            assert(out@ =~= old(out)@ + seq![digit_char(d as int)]);
        }
    } else if d == 4 {
        out.append("4");
        proof {
            reveal_strlit("4");
            assert(out@ =~= old(out)@ + seq![digit_char(d as int)]);
        }
    } else if d == 5 {
        out.append("5");
        proof {
            reveal_strlit("5");
            assert(out@ =~= old(out)@ + seq![digit_char(d as int)]);
        }
    } else if d == 6 {
        out.append("6");
        proof {
            reveal_strlit("6");
            assert(out@ =~= old(out)@ + seq![digit_char(d as int)]);
        }
    } else if d == 7 {
        out.append("7");
        proof {
            reveal_strlit("7");
            assert(out@ =~= old(out)@ + seq![digit_char(d as int)]);
        }
    } else if d == 8 {
        out.append("8");
        proof {
            reveal_strlit("8");
            assert(out@ =~= old(out)@ + seq![digit_char(d as int)]);
        }
    } else {
        out.append("9");
        proof {
            reveal_strlit("9");
            assert(out@ =~= old(out)@ + seq![digit_char(d as int)]);
        }
    }
}

/// Append the shortest decimal form of n.
pub fn push_dec(out: &mut String, n: u64)
    ensures
        final(out)@ == old(out)@ + dec_chars(n as int),
    decreases n,
{
    if n >= 10 {
        push_dec(out, n / 10);
        push_digit(out, n % 10);
        proof {
            assert(out@ =~= old(out)@ + dec_chars(n as int));
        }
    } else {
        push_digit(out, n);
    }
}

/// Append n zero-padded to w digits.
pub fn push_pad(out: &mut String, n: u64, w: u64)
    ensures
        final(out)@ == old(out)@ + pad_chars(n as int, w as int),
    decreases w,
{
    if w == 0 {
        proof {
            assert(out@ =~= old(out)@ + pad_chars(n as int, 0));
        }
    } else {
        push_pad(out, n / 10, w - 1);
        push_digit(out, n % 10);
        proof {
            assert(out@ =~= old(out)@ + pad_chars(n as int, w as int));
        }
    }
}

} // verus!
