//! Ranges of integers, and expressions of one variable: what the
//! constraints of a placement are made of.

use crate::relation::InvertibleRelation;
use vstd::prelude::*;
use vstd::std_specs::ops::AddSpecImpl;

verus! {

/// The constraints cannot be met, or a coordinate leaves the range of `i32`.
#[derive(Clone, Copy, Debug, PartialEq, Eq, Structural)]
pub struct Infeasible;

/// A free variable of the problem, by its index among the variables.
#[derive(Clone, Copy, Debug, PartialEq, Eq, Structural)]
pub struct Variable {
    pub index: usize,
}

/// `v` brought into the range of `i32`.
pub open spec fn clip(v: int) -> i32 {
    if v < i32::MIN {
        i32::MIN
    } else if v > i32::MAX {
        i32::MAX
    } else {
        v as i32
    }
}

fn clip_to_i32(v: i64) -> (res: i32)
    ensures
        res == clip(v as int),
{
    if v < i32::MIN as i64 {
        i32::MIN
    } else if v > i32::MAX as i64 {
        i32::MAX
    } else {
        v as i32
    }
}

/// An inclusive range `min <= value <= max`. As the relation of a variable
/// `neg` to a variable `pos` it bounds `pos - neg`.
#[derive(Clone, Copy, Debug, PartialEq, Eq, Structural)]
pub struct Constraint {
    pub min: i32,
    pub max: i32,
}

impl Constraint {
    /// `value` lies in the range.
    pub open spec fn holds(self, value: int) -> bool {
        self.min <= value <= self.max
    }

    /// The range that bounds nothing.
    pub open spec fn spec_unconstrained() -> Constraint {
        Constraint { min: i32::MIN, max: i32::MAX }
    }

    /// The range moved by `delta`, each bound kept within `i32`.
    pub open spec fn shifted(self, delta: int) -> Constraint {
        Constraint { min: clip(self.min + delta), max: clip(self.max + delta) }
    }

    /// The range of `-value`, each bound kept within `i32`.
    pub open spec fn negated(self) -> Constraint {
        Constraint { min: clip(-self.max), max: clip(-self.min) }
    }

    /// The values that lie in both ranges, if there are any.
    pub open spec fn intersection(self, other: Constraint) -> Option<Constraint> {
        let min = if self.min >= other.min { self.min } else { other.min };
        let max = if self.max <= other.max { self.max } else { other.max };
        if min > max {
            None
        } else {
            Some(Constraint { min, max })
        }
    }

    /// The range is wide enough to count as no bound at all.
    pub open spec fn spec_is_unconstrained(self) -> bool {
        self.min <= i32::MIN / 2 && self.max >= i32::MAX
    }

    /// The range from `min` to `max`, both included.
    pub fn new(min: i32, max: i32) -> (res: Constraint)
        ensures
            res == (Constraint { min, max }),
    {
        Constraint { min, max }
    }

    /// The range that bounds nothing.
    pub fn unconstrained() -> (res: Constraint)
        ensures
            res == Constraint::spec_unconstrained(),
    {
        Constraint { min: i32::MIN, max: i32::MAX }
    }

    /// Whether `value` lies in the range.
    pub fn contains(&self, value: i32) -> (res: bool)
        ensures
            res == self.holds(value as int),
    {
        self.min <= value && value <= self.max
    }

    pub(crate) fn contains_wide(&self, value: i64) -> (res: bool)
        ensures
            res == self.holds(value as int),
    {
        self.min as i64 <= value && value <= self.max as i64
    }

    /// Whether the range is wide enough to count as no bound at all.
    pub fn is_unconstrained(&self) -> (res: bool)
        ensures
            res == self.spec_is_unconstrained(),
    {
        self.min <= i32::MIN / 2 && self.max >= i32::MAX
    }

    /// The range of the values that meet both `self` and `other`.
    pub fn merge(&self, other: &Constraint) -> (res: Result<Constraint, Infeasible>)
        ensures
            res.is_ok() == self.intersection(*other).is_some(),
            res.is_ok() ==> Some(res.unwrap()) == self.intersection(*other),
    {
        let min = if self.min >= other.min { self.min } else { other.min };
        let max = if self.max <= other.max { self.max } else { other.max };
        if min > max {
            Err(Infeasible)
        } else {
            Ok(Constraint { min, max })
        }
    }

    /// The range moved by `delta`.
    pub(crate) fn shift(&self, delta: i64) -> (res: Constraint)
        requires
            -0x1_0000_0000 <= delta <= 0x1_0000_0000,
        ensures
            res == self.shifted(delta as int),
    {
        Constraint { min: clip_to_i32(self.min as i64 + delta), max: clip_to_i32(self.max as i64 + delta) }
    }
}

impl core::ops::Add<i32> for Constraint {
    type Output = Constraint;

    fn add(self, rhs: i32) -> (res: Constraint) {
        self.shift(rhs as i64)
    }
}

impl AddSpecImpl<i32> for Constraint {
    open spec fn obeys_add_spec() -> bool {
        true
    }

    open spec fn add_req(self, rhs: i32) -> bool {
        true
    }

    open spec fn add_spec(self, rhs: i32) -> Constraint {
        self.shifted(rhs as int)
    }
}

impl InvertibleRelation for Constraint {
    open spec fn inverse_spec(&self) -> Constraint {
        self.negated()
    }

    fn inverse(&self) -> (res: Constraint) {
        Constraint { min: clip_to_i32(-(self.max as i64)), max: clip_to_i32(-(self.min as i64)) }
    }
}

/// A constant, or a variable plus a constant.
#[derive(Clone, Copy, Debug, PartialEq, Eq, Structural)]
pub struct Expression {
    pub constant: i32,
    pub variable: Option<Variable>,
}

impl Expression {
    /// Value of the expression where the variables have the values `values`.
    pub open spec fn value(self, values: Seq<int>) -> int {
        match self.variable {
            Some(v) => self.constant + values[v.index as int],
            None => self.constant as int,
        }
    }

    /// The expression names no variable, or one of the first `nb_variables`.
    pub open spec fn in_scope(self, nb_variables: nat) -> bool {
        match self.variable {
            Some(v) => v.index < nb_variables,
            None => true,
        }
    }

    /// The expression that is the constant `value`.
    pub fn constant(value: i32) -> (res: Expression)
        ensures
            res == (Expression { constant: value, variable: None }),
    {
        Expression { constant: value, variable: None }
    }
}

impl core::ops::Add<i32> for Expression {
    type Output = Expression;

    fn add(self, rhs: i32) -> (res: Expression) {
        Expression { constant: self.constant + rhs, variable: self.variable }
    }
}

impl AddSpecImpl<i32> for Expression {
    open spec fn obeys_add_spec() -> bool {
        true
    }

    open spec fn add_req(self, rhs: i32) -> bool {
        i32::MIN <= self.constant + rhs <= i32::MAX
    }

    open spec fn add_spec(self, rhs: i32) -> Expression {
        Expression { constant: (self.constant + rhs) as i32, variable: self.variable }
    }
}

impl Expression {
    /// The expression once the variable `removed` has been replaced by
    /// `kept + delta` (by the constant `delta` where `kept` is `None`), and
    /// the variables behind it have moved down by one.
    pub open spec fn replaced(self, removed: int, delta: int, kept: Option<Variable>) -> Expression {
        match self.variable {
            Some(v) => if v.index == removed {
                Expression { constant: (self.constant + delta) as i32, variable: kept }
            } else if v.index > removed {
                Expression { constant: self.constant, variable: Some(Variable { index: (v.index - 1) as usize }) }
            } else {
                self
            },
            None => self,
        }
    }

    /// The constant of `replaced` lies in the range of `i32`.
    pub open spec fn replacement_fits(self, removed: int, delta: int) -> bool {
        match self.variable {
            Some(v) => v.index == removed ==> i32::MIN <= self.constant + delta <= i32::MAX,
            None => true,
        }
    }
}

} // verus!
