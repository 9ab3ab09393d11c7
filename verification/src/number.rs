//! A number as the calculator edits and shows it.
//!
//! Besides its numeric value, a number remembers one piece of display
//! state: whether a decimal point has been entered (`point`), which keeps
//! trailing fractional zeros and a lone trailing point visible while the
//! user types.  The significant-figure budget caps both digit entry and the
//! rendered text.

use vstd::prelude::*;
use vstd::utf8::is_ascii_chars;
use crate::numeric::NumericValue;
use crate::numeric::norm_spec;
use crate::numeric::normalize;
use crate::numeric::pow10;
use crate::numeric::pow10_u128;
use crate::numeric::ndigits;
use crate::numeric::ndigits_u128;
use crate::numeric::lemma_mag_bound;
use crate::numeric::lemma_pow10_pos;
use crate::numeric::lemma_pow10_adds;
use crate::numeric::lemma_pow10_mono;
use crate::numeric::lemma_pow10_37;
use crate::numeric::lemma_div_bound;
use crate::numeric::lemma_norm_props;
use crate::numeric::MAG_LIMIT;
use crate::render::dec_digits;
use crate::render::frac_digits;
use crate::render::group_commas;
use crate::render::int_str;
use crate::render::strip0;
use crate::render::decimal_string;
use crate::render::frac_string;
use crate::render::exponent_string;
use crate::render::strip_zeros;
use crate::render::group_thousands;
use crate::render::lemma_dec_digits_props;
use crate::render::lemma_group_commas_ascii;
use crate::truncate::Truncate;
use crate::truncate::trunc_len;

verus! {

/// Number of significant figures kept for every value the calculator makes.
pub const SIG_FIGURES: u8 = 9;

/// A numeric value together with its in-progress textual state.
#[derive(Debug, Clone, Copy, PartialEq)]
pub struct Number {
    /// The numeric value.
    pub value: NumericValue,
    /// Whether the text carries a decimal point.  Keeps `"1."` and `"1.0"`
    /// apart from `"1"` while the user is typing.
    pub point: bool,
    /// Significant-figure budget; always `Some(SIG_FIGURES)` for numbers the
    /// calculator creates.
    pub sf: Option<u8>,
}

impl Number {
    /// Well-formedness: the value is in range, a decimal point only stands
    /// on a finite number, every fractional digit is announced by the
    /// point, and the significant-figure budget is the fixed one.
    pub open spec fn inv(self) -> bool {
        &&& self.value.wf()
        &&& self.point ==> (self.value is Finite)
        &&& ((self.value is Finite) && self.value.f_scale() > 0) ==> self.point
        &&& self.sf == Some(SIG_FIGURES)
    }

    /// Count of digit characters in the number's text: integer digits
    /// (counting a bare `0`) plus fractional digits.
    pub open spec fn spec_text_digits(self) -> nat {
        ndigits(self.value.f_mag() / pow10(self.value.f_scale())) + self.value.f_scale()
    }

    /// The canonical number for a raw value: trailing fractional zeros are
    /// stripped and the point recorded exactly when fractional digits
    /// remain, as a machine-printed value would show.
    pub open spec fn spec_from_value(v: NumericValue) -> Number {
        match v {
            NumericValue::Finite { neg, mag, scale } => {
                let c = norm_spec(neg, mag as nat, scale as nat);
                Number { value: c, point: c.f_scale() > 0, sf: Some(SIG_FIGURES) }
            },
            _ => Number { value: v, point: false, sf: Some(SIG_FIGURES) },
        }
    }

    /// Digit append.  A number whose text already holds the full budget of
    /// digit characters ignores the digit; a bare zero is replaced rather
    /// than extended (no leading zeros); otherwise the digit lands at the
    /// end, after the decimal point if one was entered.  Values that are
    /// not finite ignore digits.
    pub open spec fn spec_concat(self, d: nat) -> Number {
        match self.value {
            NumericValue::Finite { neg, mag, scale } => {
                if self.sf is Some && self.spec_text_digits() >= self.sf->0 {
                    self
                } else if mag == 0 && !self.point {
                    Number { value: NumericValue::Finite { neg, mag: d as u128, scale }, ..self }
                } else if self.point {
                    Number {
                        value: NumericValue::Finite {
                            neg,
                            mag: (mag * 10 + d) as u128,
                            scale: (scale + 1) as u32,
                        },
                        ..self
                    }
                } else {
                    Number {
                        value: NumericValue::Finite { neg, mag: (mag * 10 + d) as u128, scale },
                        ..self
                    }
                }
            },
            _ => self,
        }
    }

    /// Decimal point entry: a no-op once the text already carries a point
    /// (so a fractional part can never gain a second point); otherwise the
    /// point is appended.  Values that are not finite are unchanged.
    pub open spec fn spec_decimalise(self) -> Number {
        if self.value is Finite && !self.point {
            Number { point: true, ..self }
        } else {
            self
        }
    }

    /// Sign toggle, rebuilding the text from the value: pending display
    /// state (a trailing point or fractional zeros) is lost, as when any
    /// fresh value is stored.
    pub open spec fn spec_negate(self) -> Number {
        Number { sf: self.sf, ..Self::spec_from_value(self.value.spec_negated()) }
    }

    /// Storing a value rebuilds the text wholesale; only the budget is kept.
    pub open spec fn spec_set_value(self, v: NumericValue) -> Number {
        Number { sf: self.sf, ..Self::spec_from_value(v) }
    }

    /// The fresh zero.
    pub fn zero() -> (r: Number)
        ensures
            r == (Number {
                value: NumericValue::Finite { neg: false, mag: 0, scale: 0 },
                point: false,
                sf: Some(SIG_FIGURES),
            }),
            r.inv(),
    {
        Number {
            value: NumericValue::Finite { neg: false, mag: 0, scale: 0 },
            point: false,
            sf: Some(SIG_FIGURES),
        }
    }

    /// A number for a small machine integer.
    pub fn from_u8(n: u8) -> (r: Number)
        ensures
            r == (Number {
                value: NumericValue::Finite { neg: false, mag: n as u128, scale: 0 },
                point: false,
                sf: Some(SIG_FIGURES),
            }),
            r.inv(),
    {
        Number {
            value: NumericValue::Finite { neg: false, mag: n as u128, scale: 0 },
            point: false,
            sf: Some(SIG_FIGURES),
        }
    }

    /// The canonical number for a computed value.
    pub fn from_value(v: NumericValue) -> (r: Number)
        requires
            v.wf(),
        ensures
            r == Self::spec_from_value(v),
            r.inv(),
    {
        match v {
            NumericValue::Finite { neg, mag, scale } => {
                proof {
                    lemma_norm_props(neg, mag as nat, scale as nat);
                }
                let c = normalize(neg, mag, scale);
                let point = match c {
                    NumericValue::Finite { scale: s2, .. } => s2 > 0,
                    _ => false,
                };
                Number { value: c, point, sf: Some(SIG_FIGURES) }
            },
            _ => Number { value: v, point: false, sf: Some(SIG_FIGURES) },
        }
    }

    /// The numeric value.
    pub fn get_value(&self) -> (r: NumericValue)
        ensures
            r == self.value,
    {
        self.value
    }

    /// The numeric value, under its shorter accessor name.
    pub fn value(&self) -> (r: NumericValue)
        ensures
            r == self.value,
    {
        self.value
    }

    /// Overwrites the number with a computed value, rebuilding the text.
    pub fn set_value(&mut self, v: NumericValue)
        requires
            v.wf(),
            old(self).inv(),
        ensures
            *final(self) == old(self).spec_set_value(v),
            final(self).inv(),
    {
        let sf = self.sf;
        let mut n = Number::from_value(v);
        n.sf = sf;
        *self = n;
    }

    /// Appends one decimal digit to the number, as `spec_concat` describes.
    pub fn concat(&mut self, digit: u8)
        requires
            digit <= 9,
            old(self).inv(),
        ensures
            *final(self) == old(self).spec_concat(digit as nat),
            final(self).inv(),
    {
        match self.value {
            NumericValue::Finite { neg, mag, scale } => {
                proof {
                    lemma_pow10_pos(scale as nat);
                    lemma_mag_bound(mag as nat, scale as nat);
                    lemma_pow10_37();
                }
                let p = pow10_u128(scale);
                let digits = ndigits_u128(mag / p) + scale;
                let cap: u32 = match self.sf {
                    Some(sf) => sf as u32,
                    None => 0,
                };
                if self.sf.is_some() && digits >= cap {
                    return ;
                }
                proof {
                    let td = self.spec_text_digits();
                    assert(td < 9);
                    assert(mag < pow10(td)) by {
                        lemma_mag_bound(mag as nat, scale as nat);
                    }
                    lemma_pow10_mono(td, 8);
                    lemma_pow10_mono(9, 37);
                    assert(pow10(9) == 10 * pow10(8));
                }
                if mag == 0 && !self.point {
                    self.value = NumericValue::Finite { neg, mag: digit as u128, scale };
                } else if self.point {
                    self.value = NumericValue::Finite {
                        neg,
                        mag: mag * 10 + digit as u128,
                        scale: scale + 1,
                    };
                } else {
                    self.value = NumericValue::Finite { neg, mag: mag * 10 + digit as u128, scale };
                }
            },
            _ => {},
        }
    }

    /// Appends one decimal digit; `append` and `concat` are the same
    /// operation under two customary names.
    pub fn append(&mut self, digit: u8)
        requires
            digit <= 9,
            old(self).inv(),
        ensures
            *final(self) == old(self).spec_concat(digit as nat),
            final(self).inv(),
    {
        self.concat(digit);
    }

    /// Appends a decimal point if the number does not already carry one.
    pub fn decimalise(&mut self)
        requires
            old(self).inv(),
        ensures
            *final(self) == old(self).spec_decimalise(),
            final(self).inv(),
    {
        match self.value {
            NumericValue::Finite { .. } => {
                if !self.point {
                    self.point = true;
                }
            },
            _ => {},
        }
    }

    /// Flips the number's sign, rebuilding the text from the value.
    pub fn negate(&mut self)
        requires
            old(self).inv(),
        ensures
            *final(self) == old(self).spec_negate(),
            final(self).inv(),
    {
        let v = self.value.negated();
        self.set_value(v);
    }

    /// Decimal exponent of a finite value: the power of ten of its leading
    /// significant digit; zero for the value zero.
    pub open spec fn spec_exponent(mag: nat, scale: nat) -> int {
        if mag == 0 {
            0
        } else {
            ndigits(mag) - 1 - scale
        }
    }

    /// Exponential rendering: sign, the significant digits of the magnitude
    /// with a point after the first, truncated so that coefficient and
    /// exponent together respect the significant-figure budget (at least one
    /// coefficient digit always survives), then `e` and the exponent.
    pub open spec fn spec_expo_text(neg: bool, mag: nat, e: int, sf: int) -> Seq<char> {
        let es = int_str(e);
        let digits = dec_digits(strip0(mag));
        let coeff = if digits.len() > 1 {
            seq![digits[0]] + seq!['.'] + digits.skip(1)
        } else {
            digits
        };
        let signed = if neg {
            seq!['-'] + coeff
        } else {
            coeff
        };
        let maxlen: int = if sf - (es.len() + 1) >= 1 {
            sf - (es.len() + 1)
        } else {
            1
        };
        signed.subrange(0, trunc_len(signed, maxlen)) + seq!['e'] + es
    }

    /// Plain rendering: sign, the integer part grouped in threes by commas,
    /// then (when a point was entered) the point and the stored fractional
    /// digits; the whole text is cut at the significant-figure budget.
    pub open spec fn spec_plain_text(
        neg: bool,
        mag: nat,
        scale: nat,
        point: bool,
        sf: Option<u8>,
    ) -> Seq<char> {
        let body = group_commas(dec_digits(mag / pow10(scale))) + (if point {
            seq!['.'] + frac_digits(mag, scale)
        } else {
            Seq::<char>::empty()
        });
        let signed = if neg {
            seq!['-'] + body
        } else {
            body
        };
        if sf is Some {
            signed.subrange(0, trunc_len(signed, sf->0 as int))
        } else {
            signed
        }
    }

    /// The rendered text of the number: `NaN` and signed `inf` for the
    /// special values; exponential notation once the exponent's size reaches
    /// the significant-figure budget; grouped plain notation otherwise.
    pub open spec fn spec_display(self) -> Seq<char> {
        match self.value {
            NumericValue::NotANumber => seq!['N', 'a', 'N'],
            NumericValue::Infinite { neg } => if neg {
                seq!['-', 'i', 'n', 'f']
            } else {
                seq!['i', 'n', 'f']
            },
            NumericValue::Finite { neg, mag, scale } => {
                let e = Self::spec_exponent(mag as nat, scale as nat);
                let ea: int = if e < 0 {
                    -e
                } else {
                    e
                };
                if self.sf is Some && ea >= self.sf->0 {
                    Self::spec_expo_text(neg, mag as nat, e, self.sf->0 as int)
                } else {
                    Self::spec_plain_text(neg, mag as nat, scale as nat, self.point, self.sf)
                }
            },
        }
    }

    /// Renders the number for display, as `spec_display` describes.
    pub fn to_display_string(&self) -> (r: String)
        requires
            self.inv(),
        ensures
            r@ == self.spec_display(),
    {
        match self.value {
            NumericValue::NotANumber => {
                let r = String::from_str("NaN");
                proof {
                    reveal_strlit("NaN");
                    assert(r@ =~= seq!['N', 'a', 'N']);
                }
                r
            },
            NumericValue::Infinite { neg } => {
                if neg {
                    let r = String::from_str("-inf");
                    proof {
                        reveal_strlit("-inf");
                        assert(r@ =~= seq!['-', 'i', 'n', 'f']);
                    }
                    r
                } else {
                    let r = String::from_str("inf");
                    proof {
                        reveal_strlit("inf");
                        assert(r@ =~= seq!['i', 'n', 'f']);
                    }
                    r
                }
            },
            NumericValue::Finite { neg, mag, scale } => {
                let l = ndigits_u128(mag);
                let e: i64 = if mag == 0 {
                    0
                } else {
                    l as i64 - 1 - scale as i64
                };
                let ea: i64 = if e < 0 {
                    -e
                } else {
                    e
                };
                let use_expo = match self.sf {
                    Some(sf) => ea >= sf as i64,
                    None => false,
                };
                if use_expo {
                    let sf = match self.sf {
                        Some(sf) => sf,
                        None => 0,
                    };
                    self.render_expo(neg, mag, e, sf)
                } else {
                    self.render_plain(neg, mag, scale)
                }
            },
        }
    }

    /// Builds the exponential form.
    fn render_expo(&self, neg: bool, mag: u128, e: i64, sf: u8) -> (r: String)
        requires
            self.inv(),
            (self.value is Finite),
            neg == self.value.f_neg(),
            mag == self.value.f_mag(),
            -100 <= e <= 100,
            e == Self::spec_exponent(mag as nat, self.value.f_scale()),
            self.sf == Some(sf),
        ensures
            r@ == Self::spec_expo_text(neg, mag as nat, e as int, sf as int),
    {
        let es = exponent_string(e);
        let stripped = strip_zeros(mag);
        let ds = decimal_string(stripped);
        proof {
            lemma_dec_digits_props(strip0(mag as nat));
        }
        let dlen = ds.unicode_len();
        let mut signed = String::new();
        if neg {
            signed.append("-");
            proof {
                reveal_strlit("-");
            }
        }
        if dlen > 1 {
            signed.append(ds.as_str().substring_ascii(0, 1));
            signed.append(".");
            signed.append(ds.as_str().substring_ascii(1, dlen));
            proof {
                reveal_strlit(".");
                assert(ds@.subrange(0, 1) =~= seq![ds@[0]]);
                assert(ds@.subrange(1, dlen as int) =~= ds@.skip(1));
            }
        } else {
            signed.append(ds.as_str());
        }
        proof {
            let digits = dec_digits(strip0(mag as nat));
            let coeff = if digits.len() > 1 {
                seq![digits[0]] + seq!['.'] + digits.skip(1)
            } else {
                digits
            };
            let sgn = if neg {
                seq!['-'] + coeff
            } else {
                coeff
            };
            assert(signed@ =~= sgn);
            assert(is_ascii_chars(signed@)) by {
                reveal_strlit("-");
                reveal_strlit(".");
            }
        }
        let eslen = es.unicode_len();
        proof {
            let ecap: nat = if e < 0 {
                (-e) as nat
            } else {
                e as nat
            };
            lemma_dec_digits_props(ecap);
            assert(pow10(3) == 1000) by {
                reveal_with_fuel(pow10, 5);
            }
            crate::numeric::lemma_ndigits_bound(ecap, 3);
            assert(es@.len() <= 4);
        }
        let maxlen: usize = if sf as usize >= eslen + 2 {
            sf as usize - (eslen + 1)
        } else {
            1
        };
        let cut = signed.truncate_nums(maxlen);
        let mut out = cut.to_owned();
        out.append("e");
        proof {
            reveal_strlit("e");
        }
        out.append(es.as_str());
        proof {
            assert(out@ =~= Self::spec_expo_text(neg, mag as nat, e as int, sf as int));
        }
        out
    }

    /// Builds the grouped plain form.
    fn render_plain(&self, neg: bool, mag: u128, scale: u32) -> (r: String)
        requires
            self.inv(),
            (self.value is Finite),
            neg == self.value.f_neg(),
            mag == self.value.f_mag(),
            scale == self.value.f_scale(),
            ({
                let e = Self::spec_exponent(mag as nat, scale as nat);
                (if e < 0 {
                    -e
                } else {
                    e
                }) < SIG_FIGURES
            }),
        ensures
            r@ == Self::spec_plain_text(neg, mag as nat, scale as nat, self.point, self.sf),
    {
        proof {
            lemma_pow10_pos(scale as nat);
        }
        let p = pow10_u128(scale);
        let ip = mag / p;
        proof {
            lemma_ip_small(mag as nat, scale as nat);
        }
        let grouped = group_thousands(ip as u64);
        let mut signed = String::new();
        if neg {
            signed.append("-");
            proof {
                reveal_strlit("-");
            }
        }
        signed.append(grouped.as_str());
        if self.point {
            signed.append(".");
            proof {
                reveal_strlit(".");
            }
            let fs = frac_string(mag, scale);
            signed.append(fs.as_str());
        }
        proof {
            let body = group_commas(dec_digits((mag as nat / pow10(scale as nat)))) + (
            if self.point {
                seq!['.'] + frac_digits(mag as nat, scale as nat)
            } else {
                Seq::<char>::empty()
            });
            let sgn = if neg {
                seq!['-'] + body
            } else {
                body
            };
            assert((ip as u64) as nat == mag as nat / pow10(scale as nat));
            assert(signed@ =~= sgn);
            assert(is_ascii_chars(signed@)) by {
                reveal_strlit("-");
                reveal_strlit(".");
                lemma_dec_digits_props(mag as nat / pow10(scale as nat));
                lemma_group_commas_ascii(dec_digits(mag as nat / pow10(scale as nat)));
            }
        }
        match self.sf {
            Some(sf) => {
                let cut = signed.truncate_nums(sf as usize);
                cut.to_owned()
            },
            None => signed,
        }
    }
}

/// Entering the decimal point is idempotent: a second `decimalise` right
/// after a first changes nothing, textual state included.
pub proof fn lemma_decimalise_idempotent(n: Number)
    ensures
        n.spec_decimalise().spec_decimalise() == n.spec_decimalise(),
{
}

/// In the plain-notation range the integer part stays under `10^9`, so it
/// fits the grouping routine's word size.
proof fn lemma_ip_small(mag: nat, scale: nat)
    requires
        mag < MAG_LIMIT,
        ({
            let e = Number::spec_exponent(mag, scale);
            (if e < 0 {
                -e
            } else {
                e
            }) < SIG_FIGURES
        }),
    ensures
        mag / pow10(scale) < pow10(9),
        pow10(9) < u64::MAX,
{
    lemma_pow10_pos(scale);
    assert(pow10(9) < u64::MAX) by {
        reveal_with_fuel(pow10, 11);
    }
    if mag == 0 {
        lemma_pow10_pos(9);
    } else {
        let l = ndigits(mag);
        crate::numeric::lemma_ndigits_upper(mag);
        if l >= scale + 1 {
            assert(l - 1 - scale < 9);
            lemma_pow10_adds((l - scale) as nat, scale);
            lemma_div_bound(mag, pow10(scale), pow10((l - scale) as nat));
            lemma_pow10_mono((l - scale) as nat, 9);
        } else {
            lemma_pow10_mono(l, scale);
            lemma_div_bound(mag, pow10(scale), 1);
            lemma_pow10_pos(9);
        }
    }
}

} // verus!
