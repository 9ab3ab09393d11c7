//! The expression-buffer state machine.
//!
//! The buffer holds numbers at even indices and operators at odd ones; only
//! the last token may be a pending operator.  Reduction walks the buffer
//! from the right, so a deferred multiply or divide binds before the add or
//! subtract to its left, and after a reduction the last operator/operand
//! pair is kept so that repeated equals re-applies it.

use vstd::prelude::*;
use crate::number::Number;
use crate::numeric::NumericValue;
use crate::numeric::ndigits;
use crate::numeric::pow10;
use crate::numeric::lemma_ndigits_upper;
use crate::numeric::lemma_ndigits_bound;
use crate::numeric::lemma_pow10_mono;
use crate::numeric::lemma_pow10_pos;
use crate::operator::Operator;
use crate::operator::spec_apply;

verus! {

/// One entry of the expression buffer.
#[derive(Debug, Clone, Copy, PartialEq)]
pub enum Token {
    Number(Number),
    Operator(Operator),
}

pub open spec fn tok_num(t: Token) -> Number {
    t->Number_0
}

pub open spec fn tok_op(t: Token) -> Operator {
    t->Operator_0
}

/// The abstract state of a calculator: the engine's view.
pub struct CalcState {
    pub buffer: Seq<Token>,
    pub display_index: int,
    pub is_cleared: bool,
    pub is_editing: bool,
}

/// Buffer shape: numbers and operators strictly alternate, starting with a
/// number, and every number is well formed.
pub open spec fn wf_buffer(s: Seq<Token>) -> bool {
    &&& s.len() >= 1
    &&& forall|i: int| 0 <= i < s.len() && i % 2 == 0 ==> (#[trigger] s[i]) is Number
    &&& forall|i: int| 0 <= i < s.len() && i % 2 == 1 ==> (#[trigger] s[i]) is Operator
    &&& forall|i: int| 0 <= i < s.len() && i % 2 == 0 ==> tok_num(#[trigger] s[i]).inv()
}

impl CalcState {
    /// Engine invariant: a well-formed buffer and a display index resting
    /// on a number slot.
    pub open spec fn wf(self) -> bool {
        &&& wf_buffer(self.buffer)
        &&& 0 <= self.display_index < self.buffer.len()
        &&& self.display_index % 2 == 0
    }
}

/// The number slot the zero state shows.
pub open spec fn zero_number() -> Number {
    Number {
        value: NumericValue::Finite { neg: false, mag: 0, scale: 0 },
        point: false,
        sf: Some(crate::number::SIG_FIGURES),
    }
}

/// The canonical cleared state: one zero, nothing pending.
pub open spec fn fresh_state() -> CalcState {
    CalcState {
        buffer: seq![Token::Number(zero_number())],
        display_index: 0,
        is_cleared: true,
        is_editing: false,
    }
}

/// Right-to-left reduction of the buffer: each number combines, through the
/// operator before it, with the value of everything to its right, so the
/// rightmost pair binds first.  A buffer whose last token is a pending
/// operator reduces to its leading number alone.
pub open spec fn buffer_eval(s: Seq<Token>) -> NumericValue
    decreases s.len(),
{
    if s.len() == 0 {
        NumericValue::NotANumber
    } else if s.len() % 2 == 0 {
        tok_num(s[0]).value
    } else if s.len() == 1 {
        tok_num(s[0]).value
    } else {
        spec_apply(tok_op(s[1]), tok_num(s[0]).value, buffer_eval(s.skip(2)))
    }
}

/// The operator nearest the end of the buffer, if any.
pub open spec fn last_op_spec(s: Seq<Token>) -> Option<Operator>
    decreases s.len(),
{
    if s.len() == 0 {
        None
    } else if s.last() is Operator {
        Some(tok_op(s.last()))
    } else {
        last_op_spec(s.drop_last())
    }
}

/// Clear: a cleared calculator resets wholesale; an uncleared one only
/// blanks the leading slot and moves the display there, leaving any pending
/// tokens behind it in place.
pub open spec fn clear_spec(c: CalcState) -> CalcState {
    if c.is_cleared {
        fresh_state()
    } else {
        CalcState {
            buffer: c.buffer.update(0, Token::Number(zero_number())),
            display_index: 0,
            is_cleared: true,
            is_editing: c.is_editing,
        }
    }
}

/// Equals: with nothing pending (at most a number and an operator) only the
/// editing flag drops.  Otherwise the buffer's value lands in slot zero,
/// the display moves there, and of a longer chain the first operator and
/// operand are dropped so that exactly one operator/operand pair remains as
/// the repeat-equals memory.
pub open spec fn calculate_spec(c: CalcState) -> CalcState {
    if c.buffer.len() <= 2 {
        CalcState { is_editing: false, ..c }
    } else {
        let r = Number::spec_from_value(buffer_eval(c.buffer));
        let b1 = c.buffer.update(0, Token::Number(r));
        let b2 = if b1.len() > 3 {
            b1.remove(1).remove(1)
        } else {
            b1
        };
        CalcState { buffer: b2, display_index: 0, is_cleared: c.is_cleared, is_editing: false }
    }
}

/// Operator entry.  A pending operator is replaced.  After a number: a
/// tighter-binding operator is deferred (pushed) so it can reduce first;
/// otherwise the chain is reduced and the buffer restarts from the result;
/// in both remaining cases everything past the leading number is discarded
/// and the operator becomes pending.
pub open spec fn submit_operator_spec(c: CalcState, op: Operator) -> CalcState {
    if c.buffer.last() is Operator {
        CalcState { buffer: c.buffer.update(c.buffer.len() - 1, Token::Operator(op)), is_editing: false, ..c }
    } else {
        if c.display_index > 0 && last_op_spec(c.buffer) is Some && last_op_spec(
            c.buffer,
        )->0.spec_order() > op.spec_order() {
            CalcState { buffer: c.buffer.push(Token::Operator(op)), is_editing: false, ..c }
        } else {
            let c2 = if c.display_index > 0 {
                calculate_spec(c)
            } else {
                CalcState { is_editing: false, ..c }
            };
            CalcState { buffer: c2.buffer.take(1).push(Token::Operator(op)), ..c2 }
        }
    }
}

/// Digit entry.  While editing, the digit goes to the displayed number;
/// otherwise a fresh one-digit number replaces slot zero.  After a pending
/// operator a new operand slot opens and the display moves onto it.  Digit
/// entry always leaves the calculator editing and uncleared.
pub open spec fn submit_number_spec(c: CalcState, d: nat) -> CalcState {
    if c.buffer.last() is Number {
        if c.is_editing {
            let n = tok_num(c.buffer[c.display_index]).spec_concat(d);
            CalcState {
                buffer: c.buffer.update(c.display_index, Token::Number(n)),
                is_editing: true,
                is_cleared: false,
                ..c
            }
        } else {
            CalcState {
                buffer: c.buffer.update(0, Token::Number(digit_number(d))),
                is_editing: true,
                is_cleared: false,
                ..c
            }
        }
    } else {
        CalcState {
            buffer: c.buffer.push(Token::Number(digit_number(d))),
            display_index: c.display_index + 2,
            is_editing: true,
            is_cleared: false,
            ..c
        }
    }
}

/// The one-digit number a digit press creates.
pub open spec fn digit_number(d: nat) -> Number {
    Number {
        value: NumericValue::Finite { neg: false, mag: d as u128, scale: 0 },
        point: false,
        sf: Some(crate::number::SIG_FIGURES),
    }
}

/// Decimal-point entry: outside editing it behaves as typing `0` first;
/// then the displayed number gains its point.
pub open spec fn submit_decimal_spec(c: CalcState) -> CalcState {
    let c1 = if !c.is_editing {
        submit_number_spec(c, 0)
    } else {
        c
    };
    let n = tok_num(c1.buffer[c1.display_index]).spec_decimalise();
    CalcState { buffer: c1.buffer.update(c1.display_index, Token::Number(n)), ..c1 }
}

/// Sign toggle: only the displayed number changes (its value negated, its
/// text rebuilt), and the calculator is left editing.  Everything else —
/// any first operand and pending operator — stays as it was.
pub open spec fn submit_negative_spec(c: CalcState) -> CalcState {
    let n = tok_num(c.buffer[c.display_index]).spec_negate();
    CalcState {
        buffer: c.buffer.update(c.display_index, Token::Number(n)),
        is_editing: true,
        ..c
    }
}

/// The constant one hundred.
pub open spec fn hundred() -> NumericValue {
    NumericValue::Finite { neg: false, mag: 100, scale: 0 }
}

/// Percentage: a pending chain is reduced first, then the displayed number
/// is divided by one hundred in place.
pub open spec fn submit_percentage_spec(c: CalcState) -> CalcState {
    let c1 = if c.display_index > 0 {
        calculate_spec(c)
    } else {
        c
    };
    let n0 = tok_num(c1.buffer[c1.display_index]);
    let n = n0.spec_set_value(crate::numeric::spec_div(n0.value, hundred()));
    CalcState { buffer: c1.buffer.update(c1.display_index, Token::Number(n)), ..c1 }
}

/// The pending operator, if the buffer ends with one.
pub open spec fn active_op_spec(s: Seq<Token>) -> Option<Operator> {
    if s.len() >= 1 && s.last() is Operator {
        Some(tok_op(s.last()))
    } else {
        None
    }
}

/// The states digit entry walks through: a single number slot under
/// editing, uncleared.
pub open spec fn entry_state(m: nat) -> CalcState {
    CalcState {
        buffer: seq![Token::Number(digit_number(m))],
        display_index: 0,
        is_cleared: false,
        is_editing: true,
    }
}

/// One digit falling on an integer under entry: dropped once the
/// significant-figure budget is reached, otherwise appended in base ten
/// (which collapses leading zeros, since extending zero gives the digit).
pub open spec fn digit_step(m: nat, d: nat) -> nat {
    if ndigits(m) >= crate::number::SIG_FIGURES {
        m
    } else {
        m * 10 + d
    }
}

/// `digit_step` folded over a digit sequence.
pub open spec fn entered_from(m: nat, ds: Seq<u8>) -> nat
    decreases ds.len(),
{
    if ds.len() == 0 {
        m
    } else {
        entered_from(digit_step(m, ds[0] as nat), ds.drop_first())
    }
}

/// `submit_number` folded over a digit sequence.
pub open spec fn enter_digits(c: CalcState, ds: Seq<u8>) -> CalcState
    decreases ds.len(),
{
    if ds.len() == 0 {
        c
    } else {
        enter_digits(submit_number_spec(c, ds[0] as nat), ds.drop_first())
    }
}

/// The base-ten reading of a digit string.
pub open spec fn digits_value(ds: Seq<u8>) -> nat
    decreases ds.len(),
{
    if ds.len() == 0 {
        0
    } else {
        (ds[0] * pow10((ds.len() - 1) as nat) + digits_value(ds.drop_first())) as nat
    }
}

proof fn lemma_entry_go(m: nat, ds: Seq<u8>)
    requires
        forall|i: int| 0 <= i < ds.len() ==> ds[i] <= 9,
        m < pow10(9),
    ensures
        enter_digits(entry_state(m), ds) == entry_state(entered_from(m, ds)),
        entered_from(m, ds) < pow10(9),
    decreases ds.len(),
{
    if ds.len() > 0 {
        let d = ds[0] as nat;
        let c = entry_state(m);
        let n0 = tok_num(c.buffer[0]);
        assert(n0 == digit_number(m));
        assert(pow10(9) < u128::MAX) by {
            reveal_with_fuel(pow10, 11);
        }
        assert((m as u128) as nat == m);
        assert(n0.spec_text_digits() == ndigits(m)) by {
            assert(pow10(0) == 1);
            assert(n0.value.f_scale() == 0);
            assert(n0.value.f_mag() == m);
            vstd::arithmetic::div_mod::lemma_fundamental_div_mod(m as int, 1);
            assert(m / 1 == m);
        }
        let n1 = n0.spec_concat(d);
        let m2 = digit_step(m, d);
        assert(n1 == digit_number(m2)) by {
            if ndigits(m) >= crate::number::SIG_FIGURES {
            } else {
                lemma_ndigits_upper(m);
                lemma_pow10_mono(ndigits(m), 8);
                assert(pow10(9) == 10 * pow10(8));
                assert(m * 10 + d < pow10(9));
                assert(((m * 10 + d) as u128) as nat == m * 10 + d);
            }
        }
        assert(m2 < pow10(9)) by {
            if ndigits(m) < crate::number::SIG_FIGURES {
                lemma_ndigits_upper(m);
                lemma_pow10_mono(ndigits(m), 8);
                assert(pow10(9) == 10 * pow10(8));
            }
        }
        let c1 = submit_number_spec(c, d);
        assert(c1.buffer =~= entry_state(m2).buffer);
        assert(c1 == entry_state(m2));
        lemma_entry_go(m2, ds.drop_first());
    }
}

/// Entering a digit sequence into a fresh calculator leaves a single
/// number: the digits read in base ten, leading zeros collapsed and digits
/// beyond the significant-figure budget dropped — with no sign, no point
/// and no fraction.  `submit_number` composition is exactly digit-string
/// parsing under the budget.
pub proof fn lemma_digit_entry(ds: Seq<u8>)
    requires
        forall|i: int| 0 <= i < ds.len() ==> ds[i] <= 9,
    ensures
        ({
            let c = enter_digits(fresh_state(), ds);
            &&& c.buffer.len() == 1
            &&& c.display_index == 0
            &&& tok_num(c.buffer[0]).value == (NumericValue::Finite {
                neg: false,
                mag: entered_from(0, ds) as u128,
                scale: 0,
            })
            &&& tok_num(c.buffer[0]).point == false
            &&& entered_from(0, ds) < pow10(9)
        }),
{
    if ds.len() == 0 {
        assert(pow10(9) >= 1) by {
            lemma_pow10_pos(9);
        }
    } else {
        let d = ds[0] as nat;
        let c0 = fresh_state();
        let c1 = submit_number_spec(c0, d);
        assert(c1.buffer =~= entry_state(d).buffer);
        assert(c1 == entry_state(d));
        assert(digit_step(0, d) == d);
        assert(d < pow10(9)) by {
            lemma_pow10_mono(1, 9);
            assert(pow10(1) == 10 * pow10(0));
            assert(pow10(0) == 1);
        }
        lemma_entry_go(d, ds.drop_first());
    }
}

/// Within the nine-digit budget no digit is dropped: digit entry reads the
/// digit string exactly as a base-ten numeral.
pub proof fn lemma_digit_entry_exact(ds: Seq<u8>)
    requires
        forall|i: int| 0 <= i < ds.len() ==> ds[i] <= 9,
        digits_value(ds) < pow10(9),
        ds.len() >= 1 ==> ds[0] != 0,
    ensures
        entered_from(0, ds) == digits_value(ds),
{
    lemma_entered_exact(0, ds);
}

proof fn lemma_entered_exact(m: nat, ds: Seq<u8>)
    requires
        forall|i: int| 0 <= i < ds.len() ==> ds[i] <= 9,
        m * pow10(ds.len() as nat) + digits_value(ds) < pow10(9),
        m == 0 && ds.len() >= 1 ==> ds[0] != 0,
    ensures
        entered_from(m, ds) == m * pow10(ds.len() as nat) + digits_value(ds),
    decreases ds.len(),
{
    if ds.len() == 0 {
        assert(pow10(0) == 1);
        assert(m * pow10(0) == m) by (nonlinear_arith)
            requires
                pow10(0) == 1,
        ;
        assert(entered_from(m, ds) == m * pow10(ds.len() as nat) + digits_value(ds));
    } else {
        let d = ds[0] as nat;
        let len = ds.len() as nat;
        let rest = ds.drop_first();
        lemma_pow10_pos((len - 1) as nat);
        assert(pow10(len) == 10 * pow10((len - 1) as nat));
        assert(m * pow10(len) == (m * 10) * pow10((len - 1) as nat)) by (nonlinear_arith)
            requires
                pow10(len) == 10 * pow10((len - 1) as nat),
        ;
        assert(ndigits(m) < crate::number::SIG_FIGURES) by {
            if m > 0 {
                assert(m * 10 <= m * pow10(len)) by (nonlinear_arith)
                    requires
                        pow10(len) >= 10,
                        m >= 0,
                ;
                assert(m * 10 < pow10(9));
                assert(pow10(9) == 10 * pow10(8));
                lemma_ndigits_bound(m, 8);
            } else {
                assert(ndigits(0) == 1);
            }
        }
        let m2 = (m * 10 + d) as nat;
        assert(digit_step(m, d) == m2);
        assert(m2 * pow10((len - 1) as nat) + digits_value(rest) == m * pow10(len) + digits_value(
            ds,
        )) by (nonlinear_arith)
            requires
                m2 == m * 10 + d,
                m * pow10(len) == (m * 10) * pow10((len - 1) as nat),
                digits_value(ds) == d * pow10((len - 1) as nat) + digits_value(rest),
        ;
        if m == 0 {
            assert(d != 0);
            assert(m2 != 0);
        }
        lemma_entered_exact(m2, rest);
        assert(entered_from(m, ds) == entered_from(digit_step(m, d), rest));
        assert(entered_from(m, ds) == m * pow10(ds.len() as nat) + digits_value(ds));
    }
}

/// After a completed binary operation, equals applies the pending
/// operator/operand pair to the leading number and keeps the pair in place,
/// so each further equals re-applies the same pair to the newest result.
pub proof fn lemma_repeat_equals(c: CalcState)
    requires
        c.wf(),
        c.buffer.len() == 3,
    ensures
        ({
            let a = tok_num(c.buffer[0]).value;
            let op = tok_op(c.buffer[1]);
            let b = tok_num(c.buffer[2]).value;
            let r1 = Number::spec_from_value(spec_apply(op, a, b));
            let c1 = calculate_spec(c);
            let c2 = calculate_spec(c1);
            &&& c1.buffer.len() == 3
            &&& c1.buffer[0] == Token::Number(r1)
            &&& c1.buffer[1] == c.buffer[1]
            &&& c1.buffer[2] == c.buffer[2]
            &&& c1.display_index == 0
            &&& c2.buffer.len() == 3
            &&& c2.buffer[0] == Token::Number(
                Number::spec_from_value(spec_apply(op, r1.value, b)),
            )
            &&& c2.buffer[1] == c.buffer[1]
            &&& c2.buffer[2] == c.buffer[2]
        }),
{
    let a = tok_num(c.buffer[0]).value;
    let op = tok_op(c.buffer[1]);
    let b = tok_num(c.buffer[2]).value;
    lemma_eval_three(c.buffer);
    let r1 = Number::spec_from_value(spec_apply(op, a, b));
    let c1 = calculate_spec(c);
    assert(c1.buffer =~= c.buffer.update(0, Token::Number(r1)));
    lemma_eval_three(c1.buffer);
}

/// Unfolds `buffer_eval` on a three-token buffer.
proof fn lemma_eval_three(s: Seq<Token>)
    requires
        s.len() == 3,
    ensures
        buffer_eval(s) == spec_apply(tok_op(s[1]), tok_num(s[0]).value, tok_num(s[2]).value),
{
    assert(s.skip(2) =~= seq![s[2]]);
    assert(buffer_eval(s.skip(2)) == tok_num(s[2]).value);
}

/// Pushing a token of the parity the buffer's end expects keeps it well
/// formed.
proof fn lemma_wf_push(s: Seq<Token>, t: Token)
    requires
        wf_buffer(s),
        (s.len() % 2 == 0) == (t is Number),
        (t is Number) ==> tok_num(t).inv(),
    ensures
        wf_buffer(s.push(t)),
{
    let u = s.push(t);
    assert forall|i: int| 0 <= i < u.len() && i % 2 == 0 implies (#[trigger] u[i]) is Number by {
        if i < s.len() {
            assert(u[i] == s[i]);
        } else {
            assert(u[i] == t);
        }
    }
    assert forall|i: int| 0 <= i < u.len() && i % 2 == 1 implies (#[trigger] u[i]) is Operator by {
        if i < s.len() {
            assert(u[i] == s[i]);
        } else {
            assert(u[i] == t);
        }
    }
    assert forall|i: int| 0 <= i < u.len() && i % 2 == 0 implies tok_num(#[trigger] u[i]).inv() by {
        if i < s.len() {
            assert(u[i] == s[i]);
        } else {
            assert(u[i] == t);
        }
    }
}

/// A four-function calculator with iOS-style button semantics.
pub struct Calculator {
    /// The expression buffer.
    pub buffer: Vec<Token>,
    /// Index of the number currently shown and edited.
    pub display_index: usize,
    /// Whether the calculator is in its cleared state.
    pub is_cleared: bool,
    /// Whether the next digit extends the displayed number.
    pub is_editing: bool,
}

impl View for Calculator {
    type V = CalcState;

    open spec fn view(&self) -> CalcState {
        CalcState {
            buffer: self.buffer@,
            display_index: self.display_index as int,
            is_cleared: self.is_cleared,
            is_editing: self.is_editing,
        }
    }
}

impl Calculator {
    /// A calculator in the canonical cleared state.
    pub fn new() -> (r: Calculator)
        ensures
            r@ == fresh_state(),
            r@.wf(),
    {
        let mut buffer: Vec<Token> = Vec::new();
        buffer.push(Token::Number(Number::zero()));
        let r = Calculator { buffer, display_index: 0, is_cleared: true, is_editing: false };
        proof {
            assert(r@.buffer =~= fresh_state().buffer);
            assert(r@ == fresh_state());
        }
        r
    }

    /// A calculator assembled from explicit parts; the caller answers for
    /// the buffer's shape.
    pub fn from_parts(
        buffer: Vec<Token>,
        display_index: usize,
        is_cleared: bool,
        is_editing: bool,
    ) -> (r: Calculator)
        ensures
            r@.buffer == buffer@,
            r@.display_index == display_index as int,
            r@.is_cleared == is_cleared,
            r@.is_editing == is_editing,
    {
        Calculator { buffer, display_index, is_cleared, is_editing }
    }

    /// Whether the calculator is in its cleared state.
    pub fn cleared(&self) -> (r: bool)
        ensures
            r == self@.is_cleared,
    {
        self.is_cleared
    }

    /// Clears the calculator, as `clear_spec` describes: a full reset when
    /// already cleared, else a shallow clear of the displayed entry.
    pub fn clear(&mut self)
        requires
            old(self)@.wf(),
        ensures
            final(self)@ == clear_spec(old(self)@),
            final(self)@.wf(),
    {
        if self.is_cleared {
            *self = Calculator::new();
            proof {
                assert(final(self)@ == clear_spec(old(self)@));
            }
        } else {
            self.display_index = 0;
            self.buffer.set(0, Token::Number(Number::zero()));
            self.is_cleared = true;
        }
    }

    /// The number currently displayed.
    pub fn output(&self) -> (r: Number)
        requires
            self@.wf(),
        ensures
            r == tok_num(self@.buffer[self@.display_index]),
            r.inv(),
    {
        match self.buffer[self.display_index] {
            Token::Number(n) => n,
            Token::Operator(_) => {
                proof {
                    assert(false);
                }
                Number::zero()
            },
        }
    }

    /// Value of the buffer from slot `i` (a number slot) rightward.
    #[verifier::rlimit(100)]
    fn eval_from(&self, i: usize) -> (r: NumericValue)
        requires
            self@.wf(),
            i < self@.buffer.len(),
            i % 2 == 0,
            self@.buffer.len() % 2 == 1,
        ensures
            r == buffer_eval(self@.buffer.skip(i as int)),
            r.wf(),
        decreases self@.buffer.len() - i,
    {
        let ghost s = self@.buffer;
        if self.buffer.len() - i <= 2 {
            proof {
                assert(s.skip(i as int).len() == 1);
            }
            let r = match self.buffer[i] {
                Token::Number(n) => n.get_value(),
                Token::Operator(_) => {
                    proof {
                        assert(false);
                    }
                    NumericValue::NotANumber
                },
            };
            proof {
                assert(s.skip(i as int)[0] == s[i as int]);
            }
            r
        } else {
            let rest = self.eval_from(i + 2);
            let (a, op) = match (self.buffer[i], self.buffer[i + 1]) {
                (Token::Number(n), Token::Operator(o)) => (n.get_value(), o),
                _ => {
                    proof {
                        assert(false);
                    }
                    (NumericValue::NotANumber, Operator::Add)
                },
            };
            let r = op.apply(a, rest);
            proof {
                let t = s.skip(i as int);
                assert(t[0] == s[i as int]);
                assert(t[1] == s[i as int + 1]);
                assert(t.skip(2) =~= s.skip(i as int + 2));
                assert(t.len() % 2 == 1 && t.len() >= 3);
            }
            r
        }
    }

    /// Reduces the whole buffer to its value.
    fn evaluate(&self) -> (r: NumericValue)
        requires
            self@.wf(),
        ensures
            r == buffer_eval(self@.buffer),
            r.wf(),
    {
        if self.buffer.len() % 2 == 0 {
            match self.buffer[0] {
                Token::Number(n) => n.get_value(),
                Token::Operator(_) => {
                    proof {
                        assert(false);
                    }
                    NumericValue::NotANumber
                },
            }
        } else {
            let r = self.eval_from(0);
            proof {
                assert(self@.buffer.skip(0) =~= self@.buffer);
            }
            r
        }
    }

    /// Performs the equals operation, as `calculate_spec` describes.
    pub fn calculate(&mut self)
        requires
            old(self)@.wf(),
        ensures
            final(self)@ == calculate_spec(old(self)@),
            final(self)@.wf(),
    {
        self.is_editing = false;
        if self.buffer.len() <= 2 {
            return ;
        }
        let result = self.evaluate();
        let n = Number::from_value(result);
        self.buffer.set(0, Token::Number(n));
        self.display_index = 0;
        if self.buffer.len() > 3 {
            let _ = self.buffer.remove(1);
            let _ = self.buffer.remove(1);
        }
        proof {
            let c = old(self)@;
            let b1 = c.buffer.update(
                0,
                Token::Number(Number::spec_from_value(buffer_eval(c.buffer))),
            );
            let fb = final(self)@.buffer;
            if b1.len() > 3 {
                assert(fb =~= b1.remove(1).remove(1));
            }
            assert(final(self)@ == calculate_spec(c));
            assert forall|i: int| 0 <= i < fb.len() && i % 2 == 0 implies (#[trigger] fb[i])
                is Number && tok_num(fb[i]).inv() by {
                if b1.len() > 3 && i >= 1 {
                    assert(fb[i] == b1[i + 2]);
                }
            }
            assert forall|i: int| 0 <= i < fb.len() && i % 2 == 1 implies (#[trigger] fb[i])
                is Operator by {
                if b1.len() > 3 && i >= 1 {
                    assert(fb[i] == b1[i + 2]);
                }
            }
        }
    }

    /// Equals; `submit_equals` and `calculate` are the same operation under
    /// two customary names.
    pub fn submit_equals(&mut self)
        requires
            old(self)@.wf(),
        ensures
            final(self)@ == calculate_spec(old(self)@),
            final(self)@.wf(),
    {
        self.calculate();
    }

    /// The pending operator, if the buffer ends with one.
    pub fn active_operator(&self) -> (r: Option<Operator>)
        requires
            self@.buffer.len() >= 1,
        ensures
            r == active_op_spec(self@.buffer),
    {
        match self.buffer[self.buffer.len() - 1] {
            Token::Operator(op) => Some(op),
            Token::Number(_) => None,
        }
    }

    /// The operator nearest the end of the buffer, if any.
    pub fn last_operator(&self) -> (r: Option<Operator>)
        ensures
            r == last_op_spec(self@.buffer),
    {
        let n = self.buffer.len();
        let mut i: usize = n;
        proof {
            assert(self@.buffer.take(n as int) =~= self@.buffer);
        }
        while i > 0
            invariant
                i <= n,
                n == self@.buffer.len(),
                last_op_spec(self@.buffer) == last_op_spec(self@.buffer.take(i as int)),
            decreases i,
        {
            proof {
                let t = self@.buffer.take(i as int);
                assert(t.last() == self@.buffer[i - 1]);
                assert(t.drop_last() =~= self@.buffer.take(i as int - 1));
            }
            match self.buffer[i - 1] {
                Token::Operator(op) => {
                    return Some(op);
                },
                Token::Number(_) => {
                    i = i - 1;
                },
            }
        }
        proof {
            assert(self@.buffer.take(0) =~= Seq::<Token>::empty());
        }
        None
    }

    /// Submits an operator, as `submit_operator_spec` describes.
    pub fn submit_operator(&mut self, operator: Operator)
        requires
            old(self)@.wf(),
        ensures
            final(self)@ == submit_operator_spec(old(self)@, operator),
            final(self)@.wf(),
    {
        self.is_editing = false;
        let n = self.buffer.len();
        match self.buffer[n - 1] {
            Token::Operator(active) => {
                if active != operator {
                    self.buffer.set(n - 1, Token::Operator(operator));
                } else {
                    proof {
                        assert(self@.buffer =~= old(self)@.buffer.update(
                            n - 1,
                            Token::Operator(operator),
                        ));
                    }
                }
            },
            Token::Number(_) => {
                if self.display_index > 0 {
                    let prev = self.last_operator();
                    let deferred = match prev {
                        Some(p) => p.before(&operator),
                        None => false,
                    };
                    if deferred {
                        self.buffer.push(Token::Operator(operator));
                        proof {
                            let fb = final(self)@.buffer;
                            assert(final(self)@ == submit_operator_spec(old(self)@, operator));
                            assert forall|i: int|
                                0 <= i < fb.len() && i % 2 == 1 implies (#[trigger] fb[i])
                                is Operator by {
                                if i < old(self)@.buffer.len() {
                                    assert(fb[i] == old(self)@.buffer[i]);
                                }
                            }
                        }
                        return ;
                    }
                    self.calculate();
                }
                self.buffer.truncate(1);
                self.buffer.push(Token::Operator(operator));
            },
        }
    }

    /// Submits a digit, as `submit_number_spec` describes.
    pub fn submit_number(&mut self, number: u8)
        requires
            old(self)@.wf(),
            number <= 9,
        ensures
            final(self)@ == submit_number_spec(old(self)@, number as nat),
            final(self)@.wf(),
    {
        let n = self.buffer.len();
        match self.buffer[n - 1] {
            Token::Number(_) => {
                if self.is_editing {
                    let di = self.display_index;
                    match self.buffer[di] {
                        Token::Number(num) => {
                            let mut num2 = num;
                            num2.concat(number);
                            self.buffer.set(di, Token::Number(num2));
                        },
                        Token::Operator(_) => {
                            proof {
                                assert(false);
                            }
                        },
                    }
                } else {
                    self.buffer.set(0, Token::Number(Number::from_u8(number)));
                }
            },
            Token::Operator(_) => {
                proof {
                    let c = old(self)@;
                    let m = c.buffer.len() - 1;
                    assert(c.buffer[m] is Operator);
                    if m % 2 == 0 {
                        assert(c.buffer[m] is Number);
                    }
                    assert(c.buffer.len() % 2 == 0);
                    assert(c.display_index <= c.buffer.len() - 2);
                }
                self.buffer.push(Token::Number(Number::from_u8(number)));
                self.display_index = self.display_index + 2;
                proof {
                    lemma_wf_push(old(self)@.buffer, Token::Number(digit_number(number as nat)));
                }
            },
        }
        self.is_editing = true;
        self.is_cleared = false;
    }

    /// Submits the decimal point, as `submit_decimal_spec` describes.
    pub fn submit_decimal(&mut self)
        requires
            old(self)@.wf(),
        ensures
            final(self)@ == submit_decimal_spec(old(self)@),
            final(self)@.wf(),
    {
        if !self.is_editing {
            self.submit_number(0);
        }
        let di = self.display_index;
        match self.buffer[di] {
            Token::Number(num) => {
                let mut num2 = num;
                num2.decimalise();
                self.buffer.set(di, Token::Number(num2));
            },
            Token::Operator(_) => {
                proof {
                    assert(false);
                }
            },
        }
    }

    /// Toggles the displayed number's sign, as `submit_negative_spec`
    /// describes: no other buffer slot changes.
    pub fn submit_negative(&mut self)
        requires
            old(self)@.wf(),
        ensures
            final(self)@ == submit_negative_spec(old(self)@),
            final(self)@.wf(),
    {
        let di = self.display_index;
        match self.buffer[di] {
            Token::Number(num) => {
                let mut num2 = num;
                num2.negate();
                self.buffer.set(di, Token::Number(num2));
            },
            Token::Operator(_) => {
                proof {
                    assert(false);
                }
            },
        }
        self.is_editing = true;
    }

    /// Converts the displayed number to a percentage, as
    /// `submit_percentage_spec` describes.
    pub fn submit_percentage(&mut self)
        requires
            old(self)@.wf(),
        ensures
            final(self)@ == submit_percentage_spec(old(self)@),
            final(self)@.wf(),
    {
        if self.display_index > 0 {
            self.calculate();
        }
        let di = self.display_index;
        match self.buffer[di] {
            Token::Number(num) => {
                let mut num2 = num;
                let v = num2.get_value();
                let h = NumericValue::Finite { neg: false, mag: 100, scale: 0 };
                num2.set_value(v.div_values(h));
                self.buffer.set(di, Token::Number(num2));
            },
            Token::Operator(_) => {
                proof {
                    assert(false);
                }
            },
        }
    }
}

} // verus!
