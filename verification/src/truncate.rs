//! Truncation of a rendered number to a maximum count of digit characters.
//!
//! The cut keeps every character up to and including the one on which the
//! running digit count reaches the requested maximum, so signs, separators
//! and the decimal point survive as long as they stand before the cut.

use vstd::prelude::*;
use vstd::utf8::is_ascii_chars;

verus! {

/// The ten decimal digit characters.
pub open spec fn is_digit_char(c: char) -> bool {
    '0' <= c && c <= '9'
}

/// Length of the prefix kept when truncating `s` to `max` digit characters:
/// the scan stops after the character on which the running digit count
/// reaches `max` exactly; if it never does, the whole string is kept.
pub open spec fn trunc_len(s: Seq<char>, max: int) -> int
    decreases s.len(),
{
    if s.len() == 0 {
        0
    } else {
        let m2: int = if is_digit_char(s[0]) {
            max - 1
        } else {
            max
        };
        if m2 == 0 {
            1
        } else {
            1 + trunc_len(s.drop_first(), m2)
        }
    }
}

pub proof fn lemma_trunc_len_bounds(s: Seq<char>, max: int)
    ensures
        0 <= trunc_len(s, max) <= s.len(),
    decreases s.len(),
{
    if s.len() > 0 {
        let m2: int = if is_digit_char(s[0]) {
            max - 1
        } else {
            max
        };
        if m2 != 0 {
            lemma_trunc_len_bounds(s.drop_first(), m2);
        }
    }
}

/// Once the allowance is negative it can never reach zero again, so the
/// whole string is kept.
pub proof fn lemma_trunc_len_neg(s: Seq<char>, max: int)
    requires
        max <= -1,
    ensures
        trunc_len(s, max) == s.len(),
    decreases s.len(),
{
    if s.len() > 0 {
        let m2: int = if is_digit_char(s[0]) {
            max - 1
        } else {
            max
        };
        lemma_trunc_len_neg(s.drop_first(), m2);
    }
}

/// Truncation to a maximum count of digit characters.
pub trait Truncate: View<V = Seq<char>> {
    /// Returns the prefix of `self` that `trunc_len` describes: everything
    /// up to and including the character on which the digit count reaches
    /// `max_count`, or the whole string if it never does.
    fn truncate_nums(&self, max_count: usize) -> (r: &str)
        requires
            is_ascii_chars(self@),
        ensures
            r@ == self@.subrange(0, trunc_len(self@, max_count as int)),
            is_ascii_chars(r@),
    ;
}

impl Truncate for String {
    fn truncate_nums(&self, max_count: usize) -> (r: &str) {
        let s: &str = self.as_str();
        let n: usize = s.unicode_len();
        proof {
            lemma_trunc_len_bounds(s@, max_count as int);
        }
        let cut: usize = if n == 0 {
            0
        } else if max_count == 0 {
            let c0 = s.get_char(0);
            if '0' <= c0 && c0 <= '9' {
                proof {
                    assert(s@.drop_first() =~= s@.subrange(1, n as int));
                    lemma_trunc_len_neg(s@.drop_first(), -1);
                }
                n
            } else {
                1
            }
        } else {
            let mut i: usize = 0;
            let mut rem: usize = max_count;
            let mut cut_at: usize = n;
            let mut found: bool = false;
            proof {
                assert(s@.skip(0) =~= s@);
            }
            while i < n && !found
                invariant
                    0 <= i <= n,
                    n == s@.len(),
                    is_ascii_chars(s@),
                    !found ==> 1 <= rem,
                    rem <= max_count,
                    !found ==> trunc_len(s@, max_count as int) == i + trunc_len(
                        s@.skip(i as int),
                        rem as int,
                    ),
                    found ==> cut_at == trunc_len(s@, max_count as int),
                    found ==> cut_at <= n,
                decreases n - i, (if found { 0int } else { 1int }),
            {
                let c = s.get_char(i);
                proof {
                    assert(s@.skip(i as int)[0] == s@[i as int]);
                    assert(s@.skip(i as int).drop_first() =~= s@.skip(i as int + 1));
                    lemma_trunc_len_bounds(s@.skip(i as int + 1), (rem - 1) as int);
                    lemma_trunc_len_bounds(s@.skip(i as int + 1), rem as int);
                }
                if '0' <= c && c <= '9' {
                    if rem == 1 {
                        cut_at = i + 1;
                        found = true;
                    } else {
                        rem = rem - 1;
                        i = i + 1;
                    }
                } else {
                    i = i + 1;
                }
            }
            proof {
                if !found {
                    assert(s@.skip(n as int) =~= Seq::<char>::empty());
                }
            }
            if found {
                cut_at
            } else {
                n
            }
        };
        let r = s.substring_ascii(0, cut);
        r
    }
}

} // verus!
