//! This module defines filter predicates on predicates represented as solver terms

use vstd::prelude::*;

use crate::execution::planning::normalization::operation::{operation_variables, Operation};
use crate::execution::planning::verification::smt::{bool_term, SmtTerm};
use crate::rule_model::components::term::variable_names;
use crate::rule_model::components::variable::{Primitive, PrimitiveView};

use super::z3_translation::{
    cache_lookup, cache_view, operation_term, primitive_term, translatable, CacheEntry, RuleTranslator,
};

verus! {

/// The one variable of a filter operation.
pub open spec fn filter_variable(op: Operation) -> Seq<char> {
    choose|v: Seq<char>| operation_variables(op) == set![v]
}

/// The term of the filter applied to a term: the filter's variable stands
/// for the term.
pub open spec fn filter_term(op: Operation, t: SmtTerm) -> SmtTerm {
    operation_term(op, seq![(filter_variable(op), t)])
}

/// Represents a simple filter expression
#[derive(Debug)]
pub struct Filter {
    /// The filter: a comparison over one variable
    pub filter_operation: Operation,
}

impl Filter {
    /// Creates a new filter
    pub fn new(filter_operation: Operation) -> (filter: Self)
        ensures
            filter.filter_operation == filter_operation,
    {
        Filter { filter_operation }
    }

    /// Applies the filter to the given term: the filter's variable stands
    /// for the term of the primitive
    pub fn get_filter(&self, term: &Primitive, var_cache: &Vec<CacheEntry>) -> (t: SmtTerm)
        requires
            exists|v: Seq<char>| operation_variables(self.filter_operation) == set![v],
            term@ matches PrimitiveView::Variable(v) ==> cache_lookup(cache_view(var_cache@), v) is Some,
            translatable(self.filter_operation, seq![(filter_variable(self.filter_operation),
                primitive_term(term@, cache_view(var_cache@)))]),
            bool_term(filter_term(self.filter_operation, primitive_term(term@, cache_view(var_cache@)))),
        ensures
            t == filter_term(self.filter_operation, primitive_term(term@, cache_view(var_cache@))),
    {
        let translator = RuleTranslator::new();
        let vars = self.filter_operation.variables();
        let ghost v = filter_variable(self.filter_operation);
        proof {
            assert(variable_names(vars@).to_set().contains(v));
            assert(variable_names(vars@).contains(v));
            assert(vars@.len() > 0);
            assert(variable_names(vars@).to_set().contains(vars@[0]@)) by {
                assert(variable_names(vars@)[0] == vars@[0]@);
            }
        }
        let op_var = vars[0].clone();
        let smt_term = translator.translate_primitive(term, var_cache);
        let mut var_cache_new: Vec<CacheEntry> = Vec::new();
        var_cache_new.push((op_var, smt_term));
        assert(cache_view(var_cache_new@) =~= seq![(v, primitive_term(term@, cache_view(var_cache@)))]);
        translator.translate_operation(&self.filter_operation, &var_cache_new)
    }
}

} // verus!
