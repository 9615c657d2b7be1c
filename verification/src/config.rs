//! The search configuration and the reasons for which one is refused.

use crate::counting::{binomial, checked_power, combination, power};
use vstd::prelude::*;

verus! {

/// The denominator of every fraction in this crate: a rate or a random draw
/// `x` stands for the real number `x / UNIT`.
pub const UNIT: u64 = 9_007_199_254_740_992;

/// Why a configuration is refused.
#[derive(Clone, Copy, Debug, PartialEq, Eq, Structural)]
pub enum ConfigError {
    /// Fewer than three parameters.
    TooFewParameters,
    /// A strength below two, or not below the number of parameters.
    StrengthOutOfRange,
    /// An alphabet of fewer than two or more than ten symbols.
    AlphabetOutOfRange,
    /// The coverage map has more cells than a `usize` can count.
    SpaceTooLarge,
    /// A population without a single harmony.
    EmptyPopulation,
    /// An adjustment rate above one.
    RateOutOfRange,
    /// A run that is asked for zero times.
    NoRepetitions,
    /// A given test case that is none of the parameter space.
    ForeignTestCase,
}

/// What a search is run with.
#[derive(Clone, Copy, Debug)]
pub struct Config {
    /// The number of parameters, at least three.
    pub p_num: usize,
    /// The number of symbols of each parameter, from two to ten.
    pub p_values: usize,
    /// The strength, at least two and below the number of parameters.
    pub t_value: usize,
    /// The number of harmonies of a population, at least one.
    pub harmony_size: usize,
    /// The share of generations that make a guided move, as a number of
    /// `1 / UNIT`, at most `UNIT`.
    pub adjust_rate: u64,
}

/// The number of cells of a coverage map: one row for each subset of
/// `t_value` parameters, one cell for each assignment of symbols to it.
pub open spec fn full_target(p_num: usize, p_values: usize, t_value: usize) -> nat {
    binomial(p_num as nat, t_value as nat) * power(p_values as nat, t_value as nat)
}

/// The first reason, if any, for which a parameter space is refused.
pub open spec fn space_error(p_num: usize, p_values: usize, t_value: usize) -> Option<ConfigError> {
    if p_num < 3 {
        Some(ConfigError::TooFewParameters)
    } else if t_value < 2 || t_value >= p_num {
        Some(ConfigError::StrengthOutOfRange)
    } else if p_values < 2 || p_values > 10 {
        Some(ConfigError::AlphabetOutOfRange)
    } else if full_target(p_num, p_values, t_value) > usize::MAX {
        Some(ConfigError::SpaceTooLarge)
    } else {
        None
    }
}

/// The parameter space is one that a search accepts.
pub open spec fn valid_space(p_num: usize, p_values: usize, t_value: usize) -> bool {
    space_error(p_num, p_values, t_value) is None
}

/// In a valid space a row's width and the number of rows each fit a `usize`,
/// and neither is zero.
pub proof fn lemma_valid_space(p_num: usize, p_values: usize, t_value: usize)
    requires
        valid_space(p_num, p_values, t_value),
    ensures
        1 <= binomial(p_num as nat, t_value as nat) <= usize::MAX,
        1 <= power(p_values as nat, t_value as nat) <= usize::MAX,
{
    let rows = binomial(p_num as nat, t_value as nat);
    let width = power(p_values as nat, t_value as nat);
    crate::counting::lemma_power_grows(p_values as nat, 0, t_value as nat);
    crate::counting::lemma_binomial_diagonal((p_num - t_value) as nat, 0, t_value as nat);
    assert(binomial((p_num - t_value) as nat, 0) == 1);
    assert(rows <= rows * width && width <= rows * width) by (nonlinear_arith)
        requires
            rows >= 1,
            width >= 1,
    ;
}

impl Config {
    /// The parameter space of the configuration, with a choice of stamps.
    pub open spec fn space(self, print_map: bool) -> crate::model::Space {
        crate::model::Space {
            p_num: self.p_num,
            p_values: self.p_values,
            t_value: self.t_value,
            print_map,
        }
    }

    /// The first reason, if any, for which the configuration is refused.
    pub open spec fn error(self) -> Option<ConfigError> {
        match space_error(self.p_num, self.p_values, self.t_value) {
            Some(reason) => Some(reason),
            None => if self.harmony_size < 1 {
                Some(ConfigError::EmptyPopulation)
            } else if self.adjust_rate > UNIT {
                Some(ConfigError::RateOutOfRange)
            } else {
                None
            },
        }
    }

    /// Accepts the configuration and gives the number of cells to cover, or
    /// says why the configuration is refused.
    pub fn validate(&self) -> (checked: Result<usize, ConfigError>)
        ensures
            match checked {
                Ok(target) => self.error() is None && target == full_target(
                    self.p_num,
                    self.p_values,
                    self.t_value,
                ),
                Err(reason) => self.error() == Some(reason),
            },
    {
        match check_space(self.p_num, self.p_values, self.t_value) {
            Err(reason) => Err(reason),
            Ok((rows, width)) => {
                if self.harmony_size < 1 {
                    Err(ConfigError::EmptyPopulation)
                } else if self.adjust_rate > UNIT {
                    Err(ConfigError::RateOutOfRange)
                } else {
                    Ok(rows * width)
                }
            },
        }
    }
}

/// The number of cells to cover, `C(p_num, t_value) * p_values^t_value`, or
/// `None` when it does not fit in a `usize`.
pub fn full_coverage(p_num: usize, p_values: usize, t_value: usize) -> (target: Option<usize>)
    ensures
        match target {
            Some(cells) => cells == full_target(p_num, p_values, t_value),
            None => full_target(p_num, p_values, t_value) > usize::MAX,
        },
{
    let rows = combination(p_num, t_value);
    let width = checked_power(p_values, t_value);
    let ghost r = binomial(p_num as nat, t_value as nat);
    let ghost w = power(p_values as nat, t_value as nat);
    match (rows, width) {
        (Some(rows), Some(width)) => {
            let cells = rows.checked_mul(width);
            cells
        },
        (Some(rows), None) => {
            if rows == 0 {
                assert(r * w == 0) by (nonlinear_arith)
                    requires
                        r == 0,
                ;
                Some(0)
            } else {
                assert(r * w >= w) by (nonlinear_arith)
                    requires
                        r >= 1,
                ;
                None
            }
        },
        (None, Some(width)) => {
            if width == 0 {
                assert(r * w == 0) by (nonlinear_arith)
                    requires
                        w == 0,
                ;
                Some(0)
            } else {
                assert(r * w >= r) by (nonlinear_arith)
                    requires
                        w >= 1,
                ;
                None
            }
        },
        (None, None) => {
            assert(r * w >= r) by (nonlinear_arith)
                requires
                    w >= 1,
            ;
            None
        },
    }
}

/// The number of all test cases there are, `p_values^p_num`, or `None` when
/// it does not fit in a `usize`.
pub fn exhaustive_size(p_num: usize, p_values: usize) -> (size: Option<usize>)
    ensures
        match size {
            Some(all) => all == power(p_values as nat, p_num as nat),
            None => power(p_values as nat, p_num as nat) > usize::MAX,
        },
{
    checked_power(p_values, p_num)
}

/// Accepts a parameter space and gives the layout of its coverage map, the
/// number of rows and the width of a row, or says why the space is refused.
pub fn check_space(p_num: usize, p_values: usize, t_value: usize) -> (checked: Result<
    (usize, usize),
    ConfigError,
>)
    ensures
        match checked {
            Ok((rows, width)) => {
                &&& valid_space(p_num, p_values, t_value)
                &&& rows == binomial(p_num as nat, t_value as nat)
                &&& width == power(p_values as nat, t_value as nat)
                &&& rows * width == full_target(p_num, p_values, t_value)
            },
            Err(reason) => space_error(p_num, p_values, t_value) == Some(reason),
        },
{
    if p_num < 3 {
        return Err(ConfigError::TooFewParameters);
    }
    if t_value < 2 || t_value >= p_num {
        return Err(ConfigError::StrengthOutOfRange);
    }
    if p_values < 2 || p_values > 10 {
        return Err(ConfigError::AlphabetOutOfRange);
    }
    let ghost r = binomial(p_num as nat, t_value as nat);
    let ghost w = power(p_values as nat, t_value as nat);
    proof {
        crate::counting::lemma_power_grows(p_values as nat, 0, t_value as nat);
        crate::counting::lemma_binomial_diagonal((p_num - t_value) as nat, 0, t_value as nat);
        assert(binomial((p_num - t_value) as nat, 0) == 1);
        assert(r <= r * w && w <= r * w) by (nonlinear_arith)
            requires
                r >= 1,
                w >= 1,
        ;
    }
    match (combination(p_num, t_value), checked_power(p_values, t_value)) {
        (Some(rows), Some(width)) => {
            match rows.checked_mul(width) {
                Some(_) => Ok((rows, width)),
                None => Err(ConfigError::SpaceTooLarge),
            }
        },
        _ => Err(ConfigError::SpaceTooLarge),
    }
}

} // verus!
