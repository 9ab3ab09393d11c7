//! Rendering of magnitudes as decimal text: digit sequences, zero-padded
//! fractions, signed exponents, and thousands grouping.

use vstd::prelude::*;
use vstd::utf8::is_ascii_chars;
use crate::numeric::ndigits;

verus! {

/// The character for one decimal digit.
pub open spec fn digit_char(d: nat) -> char {
    if d == 0 {
        '0'
    } else if d == 1 {
        '1'
    } else if d == 2 {
        '2'
    } else if d == 3 {
        '3'
    } else if d == 4 {
        '4'
    } else if d == 5 {
        '5'
    } else if d == 6 {
        '6'
    } else if d == 7 {
        '7'
    } else if d == 8 {
        '8'
    } else {
        '9'
    }
}

/// Decimal digit characters of `n`, most significant first; `0` is `"0"`.
pub open spec fn dec_digits(n: nat) -> Seq<char>
    decreases n,
{
    if n < 10 {
        seq![digit_char(n)]
    } else {
        dec_digits(n / 10).push(digit_char(n % 10))
    }
}

pub proof fn lemma_dec_digits_props(n: nat)
    ensures
        dec_digits(n).len() == ndigits(n),
        is_ascii_chars(dec_digits(n)),
        forall|i: int|
            0 <= i < dec_digits(n).len() ==> is_digit_value(#[trigger] dec_digits(n)[i]),
    decreases n,
{
    if n < 10 {
    } else {
        lemma_dec_digits_props(n / 10);
    }
}

/// A character standing for a decimal digit.
pub open spec fn is_digit_value(c: char) -> bool {
    '0' <= c && c <= '9'
}

/// `digits` with a comma inserted before every group of three digits,
/// counted from the right.
pub open spec fn group_commas(s: Seq<char>) -> Seq<char>
    decreases s.len(),
{
    if s.len() <= 3 {
        s
    } else {
        group_commas(s.take(s.len() - 3)) + seq![','] + s.skip(s.len() - 3)
    }
}

/// The digit characters of the last `scale` decimal places of `mag`,
/// zero-padded on the left.
pub open spec fn frac_digits(mag: nat, scale: nat) -> Seq<char>
    decreases scale,
{
    if scale == 0 {
        Seq::<char>::empty()
    } else {
        frac_digits(mag / 10, (scale - 1) as nat) + seq![digit_char(mag % 10)]
    }
}

/// A signed integer rendered in decimal.
pub open spec fn int_str(e: int) -> Seq<char> {
    if e < 0 {
        seq!['-'] + dec_digits((-e) as nat)
    } else {
        dec_digits(e as nat)
    }
}

/// `mag` with its trailing decimal zeros removed: the significant digits.
pub open spec fn strip0(m: nat) -> nat
    decreases m,
{
    if m >= 10 && m % 10 == 0 {
        strip0(m / 10)
    } else {
        m
    }
}

/// The one-character string for digit `d`.
fn digit_str(d: u8) -> (r: &'static str)
    requires
        d <= 9,
    ensures
        r@ =~= seq![digit_char(d as nat)],
        is_ascii_chars(r@),
{
    let s = "0123456789";
    proof {
        reveal_strlit("0123456789");
        assert(s@.len() == 10);
    }
    let r = s.substring_ascii(d as usize, d as usize + 1);
    proof {
        assert(r@ =~= seq![s@[d as int]]);
        assert(s@[d as int] == digit_char(d as nat));
    }
    r
}

/// Renders `n` in decimal.
pub fn decimal_string(n: u128) -> (r: String)
    ensures
        r@ == dec_digits(n as nat),
        is_ascii_chars(r@),
        r@.len() >= 1,
    decreases n,
{
    proof {
        lemma_dec_digits_props(n as nat);
    }
    if n < 10 {
        let r = digit_str(n as u8).to_owned();
        proof {
            assert(r@ =~= dec_digits(n as nat));
        }
        r
    } else {
        let mut r = decimal_string(n / 10);
        r.append(digit_str((n % 10) as u8));
        proof {
            assert(r@ =~= dec_digits(n as nat));
        }
        r
    }
}

/// Renders the last `scale` decimal places of `mag`, zero-padded.
pub fn frac_string(mag: u128, scale: u32) -> (r: String)
    ensures
        r@ == frac_digits(mag as nat, scale as nat),
        is_ascii_chars(r@),
        r@.len() == scale,
    decreases scale,
{
    if scale == 0 {
        let r = String::new();
        proof {
            assert(r@ =~= frac_digits(mag as nat, 0));
        }
        r
    } else {
        let mut r = frac_string(mag / 10, scale - 1);
        r.append(digit_str((mag % 10) as u8));
        proof {
            assert(r@ =~= frac_digits(mag as nat, scale as nat));
        }
        r
    }
}

/// Renders a signed exponent.
pub fn exponent_string(e: i64) -> (r: String)
    requires
        -100 <= e <= 100,
    ensures
        r@ == int_str(e as int),
        is_ascii_chars(r@),
        r@.len() >= 1,
{
    if e < 0 {
        let mut r = String::from_str("-");
        proof {
            reveal_strlit("-");
            assert(r@ =~= seq!['-']);
        }
        r.append(decimal_string((-e) as u128).as_str());
        r
    } else {
        decimal_string(e as u128)
    }
}

/// Removes the trailing decimal zeros of `m`.
pub fn strip_zeros(m: u128) -> (r: u128)
    ensures
        r == strip0(m as nat),
{
    let mut v: u128 = m;
    while v >= 10 && v % 10 == 0
        invariant
            strip0(v as nat) == strip0(m as nat),
        decreases v,
    {
        v = v / 10;
    }
    v
}

/// Relies on `num_format`'s `ToFormattedString` with `Locale::en`, which
/// renders an unsigned integer's decimal digits in groups of three from the
/// right, separated by commas.
#[verifier::external_body]
pub fn group_thousands(n: u64) -> (r: String)
    ensures
        r@ == group_commas(dec_digits(n as nat)),
{
    num_format::ToFormattedString::to_formatted_string(&n, &num_format::Locale::en)
}

/// Grouping touches no digit: it only interleaves commas, so the grouped
/// text of an ASCII digit string is still ASCII.
pub proof fn lemma_group_commas_ascii(s: Seq<char>)
    requires
        is_ascii_chars(s),
    ensures
        is_ascii_chars(group_commas(s)),
    decreases s.len(),
{
    if s.len() > 3 {
        let pre = s.take(s.len() - 3);
        assert(is_ascii_chars(pre)) by {
            assert(forall|i: int| 0 <= i < pre.len() ==> pre[i] == s[i]);
        }
        lemma_group_commas_ascii(pre);
        assert(is_ascii_chars(seq![','])) by {
            assert(seq![','][0] == ',');
        }
    }
}

} // verus!
