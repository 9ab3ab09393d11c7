//! A four-function calculator engine with iOS-style button semantics.
//!
//! The engine keeps an editable expression buffer (numbers alternating with
//! operators), resolves operator precedence by reducing the buffer right to
//! left, and formats results with thousands grouping, significant-figure
//! truncation, and exponential notation for large or small magnitudes.
//!
//! Numeric values are exact sign/magnitude decimals (an integer magnitude and
//! a base-ten scale) with explicit infinite and not-a-number states standing
//! in for the overflow and division-by-zero outcomes of machine floats.

mod numeric;
mod render;
mod number;
mod calculator;
mod operator;
mod truncate;

pub use numeric::NumericValue;
pub use numeric::MAG_LIMIT;
pub use numeric::SCALE_MAX;
pub use operator::Operator;
pub use operator::UnknownOperatorError;
pub use truncate::Truncate;
pub use number::Number;
pub use calculator::Calculator;
pub use calculator::Token;
