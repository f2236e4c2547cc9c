//! Generates the completion of a program: its rules as implications over
//! the predicates of the program, which the solver's fixedpoint engine
//! takes as rules

use vstd::prelude::*;
use vstd::string::{StrSliceExecFns, StringExecFns};

use crate::execution::planning::normalization::atom::{BodyAtom, HeadAtom};
use crate::execution::planning::normalization::generator::{decimal, numbered_name};
use crate::execution::planning::normalization::operation::Operation;
use crate::execution::planning::normalization::program::{facts_predicates, rules_predicates, NormalizedProgram};
use crate::execution::planning::normalization::rule::{body_predicates, head_predicates, NormalizedRule};
use crate::rule_model::components::tag::Tag;
use crate::rule_model::components::variable::{Primitive, PrimitiveView, Variable};

use super::clauses::{
    append_formula, append_predicate_symbol, formula_views, implication_views, FormulaView, Implication,
    PredicateFormula,
};
use super::rule_verification::z3_translation::{cache_lookup, cache_view, operation_term, operation_terms, primitive_term};
use super::rule_verification::{create_var_cache, lemma_body_atom_variable, lemma_head_atom_variable, lemma_rule_cache, rule_cache};
use super::rule_verifier::{
    body_atom_formula, body_atom_translates, boolean_conditions, boolean_translatable, declaration_views,
    declared_with_arity, declarations_of, head_atom_formula, head_atom_translates, lemma_declared_arity,
    lemma_body_atom_predicate, lemma_head_atom_predicate, lemma_truth_operations, single_arities, truth_operations,
    RuleVerifier,
};
use super::smt::{append_decimal, append_var, SmtTerm};

verus! {

/// The conclusion of the implications of a rule: the applications of its
/// positive body atoms and its operations.
pub open spec fn rule_conclusion(rule: NormalizedRule, decls: Seq<(Seq<char>, usize)>, cache: Seq<(Seq<char>, SmtTerm)>)
    -> Seq<FormulaView>
{
    rule.positive@.map_values(|b: BodyAtom| body_atom_formula(b, decls, cache)) + operation_terms(rule.operations@, cache).map_values(
        |t: SmtTerm| FormulaView::Term(t))
}

/// The implications of a rule: for each head atom, its application implies
/// the conclusion of the rule.
pub open spec fn rule_implications(rule: NormalizedRule, decls: Seq<(Seq<char>, usize)>, cache: Seq<(Seq<char>, SmtTerm)>)
    -> Seq<(FormulaView, Seq<FormulaView>)>
{
    rule.head@.map_values(|h: HeadAtom| (head_atom_formula(h, decls, cache), rule_conclusion(rule, decls, cache)))
}

/// Whether the rule translates into implications: the predicates of its
/// atoms are declared with their arities, and its operations are conditions
/// over its variables.
pub open spec fn completion_translatable(rule: NormalizedRule, decls: Seq<(Seq<char>, usize)>) -> bool {
    &&& forall|i: int| 0 <= i < rule.positive@.len() ==> declared_with_arity(decls, (#[trigger] rule.positive@[i]).predicate@,
        rule.positive@[i].terms@.len())
    &&& forall|i: int| 0 <= i < rule.head@.len() ==> declared_with_arity(decls, (#[trigger] rule.head@[i]).predicate@,
        rule.head@[i].terms@.len())
    &&& truth_operations(rule.operations@, rule.spec_variables())
}

/// The number of variables of the rules, together.
pub open spec fn rules_variable_count(rules: Seq<NormalizedRule>) -> nat
    decreases rules.len(),
{
    if rules.len() == 0 {
        0
    } else {
        rules_variable_count(rules.drop_last()) + rules.last().spec_variables().len()
    }
}

/// Whether the program can be completed: each of its predicates has one
/// arity, its rules' operations are conditions over their variables, and
/// the fresh constants of all rules are numbered within machine integers.
pub open spec fn completable_program(program: NormalizedProgram, counter: nat) -> bool {
    &&& single_arities(rules_predicates(program.rules@).union(facts_predicates(program.facts@)))
    &&& forall|i: int| 0 <= i < program.rules@.len() ==> truth_operations((#[trigger] program.rules@[i]).operations@,
        program.rules@[i].spec_variables())
    &&& counter + rules_variable_count(program.rules@) <= usize::MAX
}

/// The translation preconditions of a rule that translates into
/// implications, for its cache.
proof fn lemma_completion_rule(rule: NormalizedRule, decls: Seq<(Seq<char>, usize)>, cache: Seq<(Seq<char>, SmtTerm)>, start: nat)
    requires
        completion_translatable(rule, decls),
        rule_cache(rule, cache, start),
    ensures
        forall|i: int| 0 <= i < rule.positive@.len() ==> body_atom_translates(#[trigger] rule.positive@[i], decls, cache),
        forall|i: int| 0 <= i < rule.head@.len() ==> head_atom_translates(#[trigger] rule.head@[i], decls, cache),
        boolean_conditions(rule.operations@, cache),
{
    lemma_rule_cache(rule, cache, start);
    assert forall|i: int| 0 <= i < rule.positive@.len() implies body_atom_translates(#[trigger] rule.positive@[i], decls, cache) by {
        let atom = rule.positive@[i];
        assert forall|k: int| 0 <= k < atom.terms@.len() implies cache_lookup(cache, (#[trigger] atom.terms@[k])@) is Some by {
            lemma_body_atom_variable(rule.positive@, i, k);
            assert(rule.spec_variables().contains(atom.terms@[k]@));
        }
    }
    assert forall|i: int| 0 <= i < rule.head@.len() implies head_atom_translates(#[trigger] rule.head@[i], decls, cache) by {
        let atom = rule.head@[i];
        assert forall|k: int| 0 <= k < atom.terms@.len() implies ((#[trigger] atom.terms@[k])@ matches PrimitiveView::Variable(v)
            ==> cache_lookup(cache, v) is Some) by {
            lemma_head_atom_variable(rule.head@, i, k);
            match atom.terms@[k]@ {
                PrimitiveView::Variable(v) => { assert(rule.spec_variables().contains(v)); },
                PrimitiveView::Ground(_) => {},
            }
        }
    }
    lemma_truth_operations(rule.operations@, rule.spec_variables(), cache);
}

/// The variables of a prefix of the rules are no more than those of all.
proof fn lemma_variable_count_prefix(rules: Seq<NormalizedRule>, i: int)
    requires
        0 <= i <= rules.len(),
    ensures
        rules_variable_count(rules.take(i)) <= rules_variable_count(rules),
    decreases rules.len(),
{
    if i < rules.len() {
        lemma_variable_count_prefix(rules.drop_last(), i);
        assert(rules.drop_last().take(i) =~= rules.take(i));
    } else {
        assert(rules.take(i) =~= rules);
    }
}

/// The predicates of the atoms of a rule are among those of the rules.
proof fn lemma_rule_predicates(rules: Seq<NormalizedRule>, i: int)
    requires
        0 <= i < rules.len(),
    ensures
        head_predicates(rules[i].head@).subset_of(rules_predicates(rules)),
        body_predicates(rules[i].positive@).subset_of(rules_predicates(rules)),
    decreases rules.len(),
{
    if i < rules.len() - 1 {
        lemma_rule_predicates(rules.drop_last(), i);
        assert(rules.drop_last()[i] == rules[i]);
    }
}

/// Appends the implications as rules of a fixedpoint script, named by the
/// rule's id.
fn append_rules(out: &mut String, clauses: &Vec<Implication>, id: usize) {
    let n = clauses.len();
    let mut i: usize = 0;
    while i < n
        invariant
            n == clauses@.len(),
            0 <= i <= n,
        decreases n - i,
    {
        let clause = &clauses[i];
        out.append("(rule (=> ");
        append_formula(out, &clause.premise);
        out.append(" ");
        let m = clause.conclusion.len();
        if m == 0 {
            out.append("true");
        } else {
            out.append("(and ");
            let mut j: usize = 0;
            while j < m
                invariant
                    m == clause.conclusion@.len(),
                    0 <= j <= m,
                decreases m - j,
            {
                append_formula(out, &clause.conclusion[j]);
                out.append(" ");
                j = j + 1;
            }
            out.append(")");
        }
        out.append(") |");
        append_decimal(out, id as u64);
        out.append("|)\n");
        i = i + 1;
    }
}

/// Appends the declarations of the predicates as relations of a fixedpoint
/// script.
fn append_relations(out: &mut String, decls: &Vec<(Tag, usize)>) {
    let n = decls.len();
    let mut k: usize = 0;
    while k < n
        invariant
            n == decls@.len(),
            0 <= k <= n,
        decreases n - k,
    {
        out.append("(declare-rel ");
        append_predicate_symbol(out, k);
        out.append(" (");
        let arity = decls[k].1;
        let mut j: usize = 0;
        while j < arity
            invariant
                0 <= j <= arity,
            decreases arity - j,
        {
            out.append("Int ");
            j = j + 1;
        }
        out.append("))\n");
        k = k + 1;
    }
}

/// Hands a fixedpoint script to a new fixedpoint context of z3, which
/// registers its relations and adds its rules.
///
/// Calls `z3::Fixedpoint::new` and `z3::Fixedpoint::from_string`. Nothing is
/// stated of the result: z3 answers an error for a text that it cannot take.
#[verifier::external_body]
fn z3_fixedpoint_from_script(script: &String) -> (r: Result<(), String>) {
    let fp = z3::Fixedpoint::new();
    fp.from_string(script.as_str())
}

/// Struct for converting programs to first-order theories
#[derive(Debug, Copy, Clone)]
pub struct Completion {
    /// The number of fresh variables generated so far
    pub fresh_var_counter: usize,
}

impl Completion {
    /// Generates a new var for the program: `V` followed by the incremented counter
    pub fn get_fresh_var(&mut self) -> (name: String)
        requires
            old(self).fresh_var_counter < usize::MAX,
        ensures
            final(self).fresh_var_counter == old(self).fresh_var_counter + 1,
            name@ == seq!['V'] + decimal(final(self).fresh_var_counter as nat),
    {
        self.fresh_var_counter = self.fresh_var_counter + 1;
        proof { reveal_strlit("V"); }
        numbered_name("V", self.fresh_var_counter)
    }

    /// Translates a (normalized) body atom: its declared predicate applied
    /// to the terms of its variables
    pub fn translate_body_atom(&self, atom: &BodyAtom, var_cache: &Vec<(Variable, SmtTerm)>,
        predicate_to_z3_fun: &Vec<(Tag, usize)>) -> (f: PredicateFormula)
        requires
            body_atom_translates(*atom, declaration_views(predicate_to_z3_fun@), cache_view(var_cache@)),
        ensures
            f@ == body_atom_formula(*atom, declaration_views(predicate_to_z3_fun@), cache_view(var_cache@)),
    {
        RuleVerifier::new().translate_body_atom(atom, var_cache, predicate_to_z3_fun)
    }

    /// Translates a (normalized) head atom: its declared predicate applied
    /// to the terms of its primitives
    pub fn translate_head_atom(&self, atom: &HeadAtom, var_cache: &Vec<(Variable, SmtTerm)>,
        predicate_to_z3_fun: &Vec<(Tag, usize)>) -> (f: PredicateFormula)
        requires
            head_atom_translates(*atom, declaration_views(predicate_to_z3_fun@), cache_view(var_cache@)),
        ensures
            f@ == head_atom_formula(*atom, declaration_views(predicate_to_z3_fun@), cache_view(var_cache@)),
    {
        RuleVerifier::new().translate_head_atom(atom, var_cache, predicate_to_z3_fun)
    }

    /// Translates a primitive into an integer term
    pub fn translate_primitive(&self, prim: &Primitive, var_cache: &Vec<(Variable, SmtTerm)>) -> (t: SmtTerm)
        requires
            prim@ matches PrimitiveView::Variable(v) ==> cache_lookup(cache_view(var_cache@), v) is Some,
        ensures
            t == primitive_term(prim@, cache_view(var_cache@)),
    {
        RuleVerifier::new().translate_primitive(prim, var_cache)
    }

    /// Translates an operation: the operator of its kind applied to its first
    /// two subterms, where an equality compares two truth values or two
    /// integers
    pub fn translate_operation(&self, op: &Operation, var_cache: &Vec<(Variable, SmtTerm)>) -> (t: SmtTerm)
        requires
            boolean_translatable(*op, cache_view(var_cache@)),
        ensures
            t == operation_term(*op, cache_view(var_cache@)),
    {
        RuleVerifier::new().translate_operation(op, var_cache)
    }

    /// Translates a (normalized) rule: each head atom implies the body
    /// atoms and the operations of the rule; the variables of the rule
    /// become fresh constants, numbered from the counter on
    pub fn translate_rule(&mut self, rule: &NormalizedRule, predicate_to_z3_fun: &Vec<(Tag, usize)>) -> (clauses: Vec<Implication>)
        requires
            completion_translatable(*rule, declaration_views(predicate_to_z3_fun@)),
            old(self).fresh_var_counter + rule.spec_variables().len() <= usize::MAX,
        ensures
            final(self).fresh_var_counter == old(self).fresh_var_counter + rule.spec_variables().len(),
            exists|cache: Seq<(Seq<char>, SmtTerm)>| #[trigger] rule_cache(*rule, cache, old(self).fresh_var_counter as nat)
                && implication_views(clauses@) == rule_implications(*rule, declaration_views(predicate_to_z3_fun@), cache),
    {
        let ghost decls = declaration_views(predicate_to_z3_fun@);
        let ghost start = self.fresh_var_counter;
        let var_cache = create_var_cache(rule, &mut self.fresh_var_counter);
        let ghost cache = cache_view(var_cache@);
        proof { lemma_completion_rule(*rule, decls, cache, start as nat); }
        let verifier = RuleVerifier::new();
        let mut conclusion_template: Vec<PredicateFormula> = Vec::new();
        let n = rule.positive.len();
        let mut i: usize = 0;
        while i < n
            invariant
                n == rule.positive@.len(),
                decls == declaration_views(predicate_to_z3_fun@),
                cache == cache_view(var_cache@),
                forall|i: int| 0 <= i < rule.positive@.len() ==> body_atom_translates(#[trigger] rule.positive@[i], decls, cache),
                0 <= i <= n,
                formula_views(conclusion_template@) == rule.positive@.map_values(|b: BodyAtom| body_atom_formula(b, decls, cache)).take(i as int),
            decreases n - i,
        {
            assert(body_atom_translates(rule.positive@[i as int], decls, cache));
            let f = self.translate_body_atom(&rule.positive[i], &var_cache, predicate_to_z3_fun);
            let ghost before = formula_views(conclusion_template@);
            conclusion_template.push(f);
            assert(formula_views(conclusion_template@) =~= before.push(f@));
            assert(formula_views(conclusion_template@) =~= rule.positive@.map_values(|b: BodyAtom| body_atom_formula(b, decls, cache)).take(i + 1));
            i = i + 1;
        }
        assert(rule.positive@.map_values(|b: BodyAtom| body_atom_formula(b, decls, cache)).take(n as int)
            =~= rule.positive@.map_values(|b: BodyAtom| body_atom_formula(b, decls, cache)));
        let mut clauses: Vec<Implication> = Vec::new();
        let h = rule.head.len();
        let mut j: usize = 0;
        while j < h
            invariant
                h == rule.head@.len(),
                decls == declaration_views(predicate_to_z3_fun@),
                cache == cache_view(var_cache@),
                forall|i: int| 0 <= i < rule.head@.len() ==> head_atom_translates(#[trigger] rule.head@[i], decls, cache),
                boolean_conditions(rule.operations@, cache),
                formula_views(conclusion_template@) == rule.positive@.map_values(|b: BodyAtom| body_atom_formula(b, decls, cache)),
                0 <= j <= h,
                implication_views(clauses@) == rule_implications(*rule, decls, cache).take(j as int),
            decreases h - j,
        {
            assert(head_atom_translates(rule.head@[j as int], decls, cache));
            let premise = self.translate_head_atom(&rule.head[j], &var_cache, predicate_to_z3_fun);
            let mut conclusion = self.copy_body(&conclusion_template);
            let operations = verifier.translate_conditions(&rule.operations, &var_cache);
            let ghost atoms = formula_views(conclusion@);
            let k = operations.len();
            let mut l: usize = 0;
            while l < k
                invariant
                    k == operations@.len(),
                    0 <= l <= k,
                    formula_views(conclusion@) == atoms + operations@.take(l as int).map_values(|t: SmtTerm| FormulaView::Term(t)),
                decreases k - l,
            {
                let ghost prior = formula_views(conclusion@);
                conclusion.push(PredicateFormula::Term(operations[l].clone()));
                assert(formula_views(conclusion@) =~= prior.push(FormulaView::Term(operations@[l as int])));
                assert(operations@.take(l + 1).map_values(|t: SmtTerm| FormulaView::Term(t))
                    =~= operations@.take(l as int).map_values(|t: SmtTerm| FormulaView::Term(t)).push(FormulaView::Term(operations@[l as int])));
                l = l + 1;
            }
            assert(operations@.take(k as int) =~= operations@);
            assert(formula_views(conclusion@) =~= rule_conclusion(*rule, decls, cache));
            let ghost before = implication_views(clauses@);
            let clause = Implication { premise, conclusion };
            clauses.push(clause);
            assert(implication_views(clauses@) =~= before.push(clause@));
            assert(implication_views(clauses@) =~= rule_implications(*rule, decls, cache).take(j + 1));
            j = j + 1;
        }
        assert(rule_implications(*rule, decls, cache).take(h as int) =~= rule_implications(*rule, decls, cache));
        assert(rule_cache(*rule, cache, start as nat));
        clauses
    }

    /// A copy of the formulas.
    fn copy_body(&self, formulas: &Vec<PredicateFormula>) -> (copy: Vec<PredicateFormula>)
        ensures
            formula_views(copy@) == formula_views(formulas@),
    {
        let mut copy: Vec<PredicateFormula> = Vec::new();
        let n = formulas.len();
        let mut i: usize = 0;
        while i < n
            invariant
                n == formulas@.len(),
                0 <= i <= n,
                formula_views(copy@) == formula_views(formulas@).take(i as int),
            decreases n - i,
        {
            let f = formulas[i].copy();
            let ghost before = formula_views(copy@);
            copy.push(f);
            assert(formula_views(copy@) =~= before.push(f@));
            assert(formula_views(copy@) =~= formula_views(formulas@).take(i + 1));
            i = i + 1;
        }
        assert(formula_views(formulas@).take(n as int) =~= formula_views(formulas@));
        copy
    }

    /// Translate a program into Horn clauses for the solver's fixedpoint
    /// engine: its predicates become relations, and each rule, with its
    /// variables as fresh variables, the rules of its implications, named by
    /// the rule's id
    pub fn translate_program(&self, program: &NormalizedProgram)
        requires
            completable_program(*program, self.fresh_var_counter as nat),
    {
        let mut completion = *self;
        let preds = program.predicates();
        let predicate_to_z3_fun = declarations_of(&preds);
        let ghost decls = declaration_views(predicate_to_z3_fun@);
        let ghost rules = program.rules@;
        let start = completion.fresh_var_counter;
        let mut rules_text = String::new();
        let n = program.rules.len();
        let mut i: usize = 0;
        while i < n
            invariant
                n == rules.len(),
                rules == program.rules@,
                decls == declaration_views(predicate_to_z3_fun@),
                decls.to_set() == rules_predicates(rules).union(facts_predicates(program.facts@)),
                completable_program(*program, start as nat),
                0 <= i <= n,
                completion.fresh_var_counter == start + rules_variable_count(rules.take(i as int)),
            decreases n - i,
        {
            let rule = &program.rules[i];
            proof {
                lemma_variable_count_prefix(rules, i + 1);
                assert(rules.take(i + 1).drop_last() =~= rules.take(i as int));
                lemma_rule_predicates(rules, i as int);
                assert forall|j: int| 0 <= j < rule.positive@.len() implies declared_with_arity(decls,
                    (#[trigger] rule.positive@[j]).predicate@, rule.positive@[j].terms@.len()) by {
                    lemma_body_atom_predicate(rule.positive@, j);
                    assert(rule.positive@[j].terms@.len() == rule.positive@[j].terms.len());
                    lemma_declared_arity(decls, rule.positive@[j].predicate@, rule.positive@[j].terms@.len() as usize);
                }
                assert forall|j: int| 0 <= j < rule.head@.len() implies declared_with_arity(decls,
                    (#[trigger] rule.head@[j]).predicate@, rule.head@[j].terms@.len()) by {
                    lemma_head_atom_predicate(rule.head@, j);
                    assert(rule.head@[j].terms@.len() == rule.head@[j].terms.len());
                    lemma_declared_arity(decls, rule.head@[j].predicate@, rule.head@[j].terms@.len() as usize);
                }
                assert(truth_operations(rules[i as int].operations@, rules[i as int].spec_variables()));
            }
            let clauses = completion.translate_rule(rule, &predicate_to_z3_fun);
            append_rules(&mut rules_text, &clauses, rule.id);
            i = i + 1;
        }
        let mut script = String::new();
        append_relations(&mut script, &predicate_to_z3_fun);
        let end = completion.fresh_var_counter;
        let mut k = start;
        while k < end
            invariant
                start <= k <= end,
            decreases end - k,
        {
            script.append("(declare-var ");
            append_var(&mut script, k);
            script.append(" Int)\n");
            k = k + 1;
        }
        script.append(rules_text.as_str());
        let _registered: Result<(), String> = z3_fixedpoint_from_script(&script);
    }
}

} // verus!
