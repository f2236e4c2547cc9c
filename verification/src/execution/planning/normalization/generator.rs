//! This module defines [VariableGenerator] and the naming of generated variables.

use vstd::prelude::*;

use crate::execution::planning::verification::smt::append_decimal;

use crate::rule_model::components::variable::Variable;

verus! {

/// The character of a decimal digit.
pub open spec fn digit_char(d: nat) -> char {
    if d == 0 { '0' }
    else if d == 1 { '1' }
    else if d == 2 { '2' }
    else if d == 3 { '3' }
    else if d == 4 { '4' }
    else if d == 5 { '5' }
    else if d == 6 { '6' }
    else if d == 7 { '7' }
    else if d == 8 { '8' }
    else { '9' }
}

/// The decimal representation of a natural number, without leading zeros.
pub open spec fn decimal(n: nat) -> Seq<char>
    decreases n,
{
    if n < 10 {
        seq![digit_char(n)]
    } else {
        decimal(n / 10).push(digit_char(n % 10))
    }
}

/// Returns `prefix` followed by the decimal representation of `n`.
pub(crate) fn numbered_name(prefix: &str, n: usize) -> (name: String)
    ensures
        name@ == prefix@ + decimal(n as nat),
{
    let mut name = prefix.to_owned();
    append_decimal(&mut name, n as u64);
    name
}

/// Generates variables that are fresh within one normalization.
#[derive(Debug, Clone, Copy, Default)]
pub struct VariableGenerator {
    /// The number of variables generated so far
    pub counter: usize,
}

impl VariableGenerator {
    /// Create a new generator that has not generated any variable yet.
    pub fn new() -> (generator: Self)
        ensures
            generator.counter == 0,
    {
        VariableGenerator { counter: 0 }
    }

    /// Return a new variable; its name is the prefix followed by the number
    /// of variables generated before it plus one.
    pub fn fresh_variable(&mut self) -> (variable: Variable)
        requires
            old(self).counter < usize::MAX,
        ensures
            final(self).counter == old(self).counter + 1,
            variable@ == "__GENERATED_"@ + decimal(final(self).counter as nat),
    {
        self.counter = self.counter + 1;
        let name = numbered_name("__GENERATED_", self.counter);
        Variable::universal(name.as_str())
    }
}

} // verus!
