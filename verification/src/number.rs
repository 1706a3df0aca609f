//! Binary64 figures that may be infinite or undefined.

use vstd::prelude::*;

use crate::binary64::{self, Binary, Float};
use crate::decimal::{self, show};

verus! {

/// The mathematical model of [`Number`].
pub enum Figure {
    Finite(Binary),
    Infinite,
    Undefined,
}

/// A figure: a quotient with a divisor of zero is infinite, or undefined
/// where the dividend is zero as well.
#[derive(Clone, Copy, Debug)]
pub enum Number {
    Finite(Float),
    Infinite,
    Undefined,
}

impl View for Number {
    type V = Figure;

    open spec fn view(&self) -> Figure {
        match self {
            Number::Finite(f) => Figure::Finite(f@),
            Number::Infinite => Figure::Infinite,
            Number::Undefined => Figure::Undefined,
        }
    }
}

/// `a / b` of two finite numbers.
pub open spec fn ratio(a: Binary, b: Binary) -> Figure {
    if b.m != 0 {
        Figure::Finite(binary64::quotient(a, b))
    } else if a.m != 0 {
        Figure::Infinite
    } else {
        Figure::Undefined
    }
}

/// `x / y`.
pub open spec fn figure_ratio(x: Figure, y: Figure) -> Figure {
    match (x, y) {
        (Figure::Finite(a), Figure::Finite(b)) => ratio(a, b),
        (Figure::Finite(_), Figure::Infinite) => Figure::Finite(Binary { m: 0, e: 0 }),
        (Figure::Infinite, Figure::Finite(_)) => Figure::Infinite,
        _ => Figure::Undefined,
    }
}

/// `x * b`, for a finite `b`.
pub open spec fn figure_product(x: Figure, b: Binary) -> Figure {
    match x {
        Figure::Finite(a) => Figure::Finite(binary64::product(a, b)),
        Figure::Infinite => if b.m != 0 {
            Figure::Infinite
        } else {
            Figure::Undefined
        },
        Figure::Undefined => Figure::Undefined,
    }
}

/// `x < y`; never true of an undefined figure.
pub open spec fn figure_less(x: Figure, y: Figure) -> bool {
    match (x, y) {
        (Figure::Finite(a), Figure::Finite(b)) => binary64::less(a, b),
        (Figure::Finite(_), Figure::Infinite) => true,
        _ => false,
    }
}

/// A figure with `places` places.
pub open spec fn figure_text(x: Figure, places: nat) -> Seq<char> {
    match x {
        Figure::Finite(a) => decimal::shown(a, places),
        Figure::Infinite => "inf"@,
        Figure::Undefined => "NaN"@,
    }
}

/// The size of the exponent of a finite figure.
pub open spec fn figure_reach(x: Figure) -> int {
    match x {
        Figure::Finite(a) => binary64::reach(a),
        _ => 0,
    }
}

impl Number {
    /// `a / b` of two finite numbers.
    pub fn ratio_of(a: Float, b: Float) -> (r: Number)
        requires
            binary64::reach(a@) <= binary64::exponent_room(),
            binary64::reach(b@) <= binary64::exponent_room(),
        ensures
            r@ == ratio(a@, b@),
            figure_reach(r@) <= binary64::reach(a@) + binary64::reach(b@) + 129,
    {
        if !b.is_zero() {
            Number::Finite(a.over(b))
        } else if !a.is_zero() {
            Number::Infinite
        } else {
            Number::Undefined
        }
    }

    /// `self / other`.
    pub fn over(self, other: Number) -> (r: Number)
        requires
            figure_reach(self@) <= binary64::exponent_room(),
            figure_reach(other@) <= binary64::exponent_room(),
        ensures
            r@ == figure_ratio(self@, other@),
            figure_reach(r@) <= figure_reach(self@) + figure_reach(other@) + 129,
    {
        match (self, other) {
            (Number::Finite(a), Number::Finite(b)) => Number::ratio_of(a, b),
            (Number::Finite(_), Number::Infinite) => Number::Finite(Float::zero()),
            (Number::Infinite, Number::Finite(_)) => Number::Infinite,
            _ => Number::Undefined,
        }
    }

    /// `self * b`.
    pub fn times(self, b: Float) -> (r: Number)
        requires
            figure_reach(self@) <= binary64::exponent_room(),
            binary64::reach(b@) <= binary64::exponent_room(),
        ensures
            r@ == figure_product(self@, b@),
            figure_reach(r@) <= figure_reach(self@) + binary64::reach(b@) + 129,
    {
        match self {
            Number::Finite(a) => Number::Finite(a.times(b)),
            Number::Infinite => if b.is_zero() {
                Number::Undefined
            } else {
                Number::Infinite
            },
            Number::Undefined => Number::Undefined,
        }
    }

    /// Whether `self < other`.
    pub fn is_less(self, other: Number) -> (b: bool)
        ensures
            b == figure_less(self@, other@),
    {
        match (self, other) {
            (Number::Finite(a), Number::Finite(b)) => a.is_less(b),
            (Number::Finite(_), Number::Infinite) => true,
            _ => false,
        }
    }

    /// Writes the figure with `places` places.
    pub fn show(self, places: u32) -> (s: String)
        requires
            places <= 6,
        ensures
            s@ == figure_text(self@, places as nat),
    {
        match self {
            Number::Finite(a) => show(a, places),
            Number::Infinite => "inf".to_owned(),
            Number::Undefined => "NaN".to_owned(),
        }
    }
}

} // verus!
