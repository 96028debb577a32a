//! The errors that cross the index's interface.

use vstd::prelude::*;
use vstd::string::StringExecFns;

verus! {

/// What can go wrong at the interface of the index.
#[derive(Debug, Clone)]
pub enum VcalError {
    /// A vector does not have the dimensionality of the index.
    DimensionMismatch { expected: usize, found: usize },
    /// A search on an index that never held a vector.
    EmptyIndex,
    /// A snapshot could not be encoded or decoded.
    Serialize(String),
}

/// The decimal digit `d`.
pub open spec fn digit_text(d: nat) -> Seq<char> {
    if d == 0 {
        "0"@
    } else if d == 1 {
        "1"@
    } else if d == 2 {
        "2"@
    } else if d == 3 {
        "3"@
    } else if d == 4 {
        "4"@
    } else if d == 5 {
        "5"@
    } else if d == 6 {
        "6"@
    } else if d == 7 {
        "7"@
    } else if d == 8 {
        "8"@
    } else {
        "9"@
    }
}

/// The number `n` in decimal, without leading zeros.
pub open spec fn decimal_text(n: nat) -> Seq<char>
    decreases n,
{
    if n < 10 {
        digit_text(n)
    } else {
        decimal_text(n / 10) + digit_text(n % 10)
    }
}

/// The decimal digit `d`.
pub fn digit(d: usize) -> (text: &'static str)
    requires
        d < 10,
    ensures
        text@ == digit_text(d as nat),
{
    if d == 0 {
        "0"
    } else if d == 1 {
        "1"
    } else if d == 2 {
        "2"
    } else if d == 3 {
        "3"
    } else if d == 4 {
        "4"
    } else if d == 5 {
        "5"
    } else if d == 6 {
        "6"
    } else if d == 7 {
        "7"
    } else if d == 8 {
        "8"
    } else {
        "9"
    }
}

/// The number `n` in decimal, without leading zeros.
pub fn decimal(n: usize) -> (text: String)
    ensures
        text@ == decimal_text(n as nat),
    decreases n,
{
    if n < 10 {
        digit(n).to_owned()
    } else {
        decimal(n / 10).concat(digit(n % 10))
    }
}

impl VcalError {
    /// What the error says, for display.
    pub open spec fn text(&self) -> Seq<char> {
        match self {
            VcalError::DimensionMismatch { expected, found } => "dimension mismatch: expected "@
                + decimal_text(*expected as nat) + ", got "@ + decimal_text(*found as nat),
            VcalError::EmptyIndex => "index is empty"@,
            VcalError::Serialize(msg) => "serialization error: "@ + msg@,
        }
    }

    /// The error as a line of text.
    pub fn message(&self) -> (text: String)
        ensures
            text@ == self.text(),
    {
        match self {
            VcalError::DimensionMismatch { expected, found } => {
                let head = "dimension mismatch: expected ".to_owned();
                let first = decimal(*expected);
                let second = decimal(*found);
                head.concat(first.as_str()).concat(", got ").concat(second.as_str())
            },
            VcalError::EmptyIndex => "index is empty".to_owned(),
            VcalError::Serialize(msg) => {
                let head = "serialization error: ".to_owned();
                head.concat(msg.as_str())
            },
        }
    }
}

} // verus!
