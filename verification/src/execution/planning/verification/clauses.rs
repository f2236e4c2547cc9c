//! Formulas over uninterpreted predicates, their meaning, and their
//! rendering as SMT-LIB scripts that declare the predicates.

use vstd::prelude::*;
use vstd::string::{StrSliceExecFns, StringExecFns};

use crate::execution::planning::normalization::generator::{decimal, numbered_name};

use super::smt::{
    append_declarations, append_term, append_var, collect_vars, declarations_text, eval_bool, eval_int,
    lemma_decimal_nul_free, lemma_declarations_nul_free, lemma_nul_free_concat, lemma_term_nul_free, nul_free,
    term_text, terms_vars, z3_check_script, SatOutcome, SmtTerm,
};

verus! {

/// The application of a declared predicate, given by its number, to
/// integer terms.
#[derive(Debug)]
pub struct PredicateApplication {
    /// The number of the predicate among the declared ones
    pub predicate: usize,
    /// The arguments
    pub args: Vec<SmtTerm>,
}

/// A formula over declared predicates: the application of one, or a term.
#[derive(Debug)]
pub enum PredicateFormula {
    /// A predicate applied to integer terms
    Application(PredicateApplication),
    /// A term of the solver's language
    Term(SmtTerm),
}

/// The mathematical form of a formula.
pub enum FormulaView {
    /// The predicate with the given number applied to the terms
    Application(usize, Seq<SmtTerm>),
    /// A term of the solver's language
    Term(SmtTerm),
}

impl View for PredicateFormula {
    type V = FormulaView;

    open spec fn view(&self) -> FormulaView {
        match self {
            PredicateFormula::Application(a) => FormulaView::Application(a.predicate, a.args@),
            PredicateFormula::Term(t) => FormulaView::Term(*t),
        }
    }
}

impl PredicateFormula {
    /// A copy of the formula.
    pub fn copy(&self) -> (f: Self)
        ensures
            f@ == self@,
    {
        match self {
            PredicateFormula::Application(a) => {
                let mut args: Vec<SmtTerm> = Vec::new();
                let n = a.args.len();
                let mut i: usize = 0;
                while i < n
                    invariant
                        n == a.args@.len(),
                        0 <= i <= n,
                        args@ == a.args@.take(i as int),
                    decreases n - i,
                {
                    args.push(a.args[i].clone());
                    assert(args@ =~= a.args@.take(i + 1));
                    i = i + 1;
                }
                assert(a.args@.take(n as int) =~= a.args@);
                PredicateFormula::Application(PredicateApplication { predicate: a.predicate, args })
            },
            PredicateFormula::Term(t) => PredicateFormula::Term(t.clone()),
        }
    }
}

/// The views of the formulas.
pub open spec fn formula_views(fs: Seq<PredicateFormula>) -> Seq<FormulaView> {
    fs.map_values(|f: PredicateFormula| f@)
}

/// An implication from the application of a declared predicate to the
/// conjunction of formulas.
#[derive(Debug)]
pub struct Implication {
    /// The premise
    pub premise: PredicateFormula,
    /// The formulas of the conclusion, which hold together
    pub conclusion: Vec<PredicateFormula>,
}

impl View for Implication {
    type V = (FormulaView, Seq<FormulaView>);

    open spec fn view(&self) -> (FormulaView, Seq<FormulaView>) {
        (self.premise@, formula_views(self.conclusion@))
    }
}

/// The views of the implications.
pub open spec fn implication_views(clauses: Seq<Implication>) -> Seq<(FormulaView, Seq<FormulaView>)> {
    clauses.map_values(|c: Implication| c@)
}

/// The integers that the terms denote under an assignment.
pub open spec fn eval_ints(ts: Seq<SmtTerm>, m: spec_fn(usize) -> int) -> Seq<int> {
    ts.map_values(|t: SmtTerm| eval_int(t, m))
}

/// Whether the formula holds under an assignment of the constants and an
/// interpretation of the predicates.
pub open spec fn formula_holds(f: FormulaView, m: spec_fn(usize) -> int, p: spec_fn(usize, Seq<int>) -> bool) -> bool {
    match f {
        FormulaView::Application(k, args) => p(k, eval_ints(args, m)),
        FormulaView::Term(t) => eval_bool(t, m),
    }
}

/// Whether every formula holds under the assignment and the interpretation.
pub open spec fn formulas_hold(fs: Seq<FormulaView>, m: spec_fn(usize) -> int, p: spec_fn(usize, Seq<int>) -> bool) -> bool {
    forall|i: int| 0 <= i < fs.len() ==> #[trigger] formula_holds(fs[i], m, p)
}

/// Whether some assignment of the constants and interpretation of the
/// predicates satisfies all formulas.
pub open spec fn formulas_satisfiable(fs: Seq<FormulaView>) -> bool {
    exists|m: spec_fn(usize) -> int, p: spec_fn(usize, Seq<int>) -> bool| #[trigger] formulas_hold(fs, m, p)
}

/// The SMT-LIB name of the predicate with the given number.
pub open spec fn predicate_symbol(k: usize) -> Seq<char> {
    seq!['p'] + decimal(k as nat)
}

/// The sort `Int`, `n` times, each followed by a space.
pub open spec fn int_sorts_text(n: nat) -> Seq<char>
    decreases n,
{
    if n == 0 {
        Seq::empty()
    } else {
        int_sorts_text((n - 1) as nat) + seq!['I', 'n', 't', ' ']
    }
}

/// The declarations of the predicates, numbered in order, each with the
/// given number of integer arguments.
pub open spec fn predicate_declarations_text(arities: Seq<usize>) -> Seq<char>
    decreases arities.len(),
{
    if arities.len() == 0 {
        Seq::empty()
    } else {
        predicate_declarations_text(arities.drop_last()) + seq!['(', 'd', 'e', 'c', 'l', 'a', 'r', 'e', '-', 'f', 'u', 'n', ' ']
            + predicate_symbol((arities.len() - 1) as usize) + seq![' ', '('] + int_sorts_text(arities.last() as nat)
            + seq![')', ' ', 'B', 'o', 'o', 'l', ')', '\n']
    }
}

/// The texts of the arguments, each followed by a space.
pub open spec fn arguments_text(ts: Seq<SmtTerm>) -> Seq<char>
    decreases ts.len(),
{
    if ts.len() == 0 {
        Seq::empty()
    } else {
        arguments_text(ts.drop_last()) + term_text(ts.last()) + seq![' ']
    }
}

/// The SMT-LIB text of a formula.
pub open spec fn formula_text(f: FormulaView) -> Seq<char> {
    match f {
        FormulaView::Application(k, args) => if args.len() == 0 {
            predicate_symbol(k)
        } else {
            seq!['('] + predicate_symbol(k) + seq![' '] + arguments_text(args) + seq![')']
        },
        FormulaView::Term(t) => term_text(t),
    }
}

/// The terms of a formula.
pub open spec fn formula_terms(f: FormulaView) -> Seq<SmtTerm> {
    match f {
        FormulaView::Application(_, args) => args,
        FormulaView::Term(t) => seq![t],
    }
}

/// The terms of the formulas, formula by formula.
pub open spec fn formulas_terms(fs: Seq<FormulaView>) -> Seq<SmtTerm>
    decreases fs.len(),
{
    if fs.len() == 0 {
        Seq::empty()
    } else {
        formulas_terms(fs.drop_last()) + formula_terms(fs.last())
    }
}

/// The assertions of the formulas.
pub open spec fn formula_assertions_text(fs: Seq<FormulaView>) -> Seq<char>
    decreases fs.len(),
{
    if fs.len() == 0 {
        Seq::empty()
    } else {
        formula_assertions_text(fs.drop_last()) + seq!['(', 'a', 's', 's', 'e', 'r', 't', ' '] + formula_text(fs.last())
            + seq![')', '\n']
    }
}

/// The SMT-LIB script that declares the predicates with the given arities
/// and the constants of the formulas, and asserts the formulas.
pub open spec fn clause_script_text(arities: Seq<usize>, fs: Seq<FormulaView>) -> Seq<char> {
    predicate_declarations_text(arities) + declarations_text(terms_vars(formulas_terms(fs))) + formula_assertions_text(fs)
}

/// Appends the name of a predicate.
pub(crate) fn append_predicate_symbol(out: &mut String, k: usize)
    ensures
        final(out)@ == old(out)@ + predicate_symbol(k),
{
    proof { reveal_strlit("p"); }
    let name = numbered_name("p", k);
    out.append(name.as_str());
}

/// Appends the declarations of the predicates.
fn append_predicate_declarations(out: &mut String, arities: &Vec<usize>)
    ensures
        final(out)@ == old(out)@ + predicate_declarations_text(arities@),
{
    let ghost start = out@;
    let n = arities.len();
    let mut k: usize = 0;
    assert(start =~= start + predicate_declarations_text(arities@.take(0)));
    while k < n
        invariant
            n == arities@.len(),
            0 <= k <= n,
            out@ == start + predicate_declarations_text(arities@.take(k as int)),
        decreases n - k,
    {
        proof {
            reveal_strlit("(declare-fun ");
            reveal_strlit(" (");
            reveal_strlit("Int ");
            reveal_strlit(") Bool)\n");
        }
        let ghost before = out@;
        out.append("(declare-fun ");
        append_predicate_symbol(out, k);
        out.append(" (");
        let ghost sorts_start = out@;
        let arity = arities[k];
        let mut j: usize = 0;
        while j < arity
            invariant
                0 <= j <= arity,
                out@ == sorts_start + int_sorts_text(j as nat),
            decreases arity - j,
        {
            proof { reveal_strlit("Int "); }
            out.append("Int ");
            j = j + 1;
            assert(out@ =~= sorts_start + int_sorts_text(j as nat));
        }
        out.append(") Bool)\n");
        assert(arities@.take(k + 1).drop_last() =~= arities@.take(k as int));
        assert(arities@.take(k + 1).last() == arities@[k as int]);
        k = k + 1;
        assert(out@ =~= start + predicate_declarations_text(arities@.take(k as int)));
    }
    assert(arities@.take(n as int) =~= arities@);
}

/// Appends the text of a formula.
pub(crate) fn append_formula(out: &mut String, f: &PredicateFormula)
    ensures
        final(out)@ == old(out)@ + formula_text(f@),
{
    let ghost start = out@;
    match f {
        PredicateFormula::Application(a) => {
            if a.args.len() == 0 {
                append_predicate_symbol(out, a.predicate);
            } else {
                proof { reveal_strlit("("); reveal_strlit(" "); reveal_strlit(")"); }
                out.append("(");
                append_predicate_symbol(out, a.predicate);
                out.append(" ");
                let ghost args_start = out@;
                let n = a.args.len();
                let mut k: usize = 0;
                assert(args_start =~= args_start + arguments_text(a.args@.take(0)));
                while k < n
                    invariant
                        n == a.args@.len(),
                        0 <= k <= n,
                        out@ == args_start + arguments_text(a.args@.take(k as int)),
                    decreases n - k,
                {
                    proof { reveal_strlit(" "); }
                    append_term(out, &a.args[k]);
                    out.append(" ");
                    assert(a.args@.take(k + 1).drop_last() =~= a.args@.take(k as int));
                    k = k + 1;
                    assert(out@ =~= args_start + arguments_text(a.args@.take(k as int)));
                }
                assert(a.args@.take(n as int) =~= a.args@);
                out.append(")");
                assert(out@ =~= start + formula_text(f@));
            }
        },
        PredicateFormula::Term(t) => append_term(out, t),
    }
}

/// Appends the assertions of the formulas.
fn append_formula_assertions(out: &mut String, fs: &Vec<PredicateFormula>)
    ensures
        final(out)@ == old(out)@ + formula_assertions_text(formula_views(fs@)),
{
    let ghost start = out@;
    let n = fs.len();
    let mut k: usize = 0;
    assert(start =~= start + formula_assertions_text(formula_views(fs@).take(0)));
    while k < n
        invariant
            n == fs@.len(),
            0 <= k <= n,
            out@ == start + formula_assertions_text(formula_views(fs@).take(k as int)),
        decreases n - k,
    {
        proof { reveal_strlit("(assert "); reveal_strlit(")\n"); }
        out.append("(assert ");
        append_formula(out, &fs[k]);
        out.append(")\n");
        assert(formula_views(fs@).take(k + 1).drop_last() =~= formula_views(fs@).take(k as int));
        assert(formula_views(fs@).take(k + 1).last() == fs@[k as int]@);
        k = k + 1;
        assert(out@ =~= start + formula_assertions_text(formula_views(fs@).take(k as int)));
    }
    assert(formula_views(fs@).take(n as int) =~= formula_views(fs@));
}

/// Returns the terms of the formulas, formula by formula.
fn collect_formula_terms(fs: &Vec<PredicateFormula>) -> (terms: Vec<SmtTerm>)
    ensures
        terms@ == formulas_terms(formula_views(fs@)),
{
    let mut terms: Vec<SmtTerm> = Vec::new();
    let n = fs.len();
    let mut k: usize = 0;
    while k < n
        invariant
            n == fs@.len(),
            0 <= k <= n,
            terms@ == formulas_terms(formula_views(fs@).take(k as int)),
        decreases n - k,
    {
        let ghost before = terms@;
        assert(formula_views(fs@).take(k + 1).drop_last() =~= formula_views(fs@).take(k as int));
        assert(formula_views(fs@).take(k + 1).last() == fs@[k as int]@);
        match &fs[k] {
            PredicateFormula::Application(a) => {
                let m = a.args.len();
                let mut j: usize = 0;
                while j < m
                    invariant
                        m == a.args@.len(),
                        0 <= j <= m,
                        terms@ == before + a.args@.take(j as int),
                    decreases m - j,
                {
                    terms.push(a.args[j].clone());
                    assert(a.args@.take(j + 1) =~= a.args@.take(j as int).push(a.args@[j as int]));
                    j = j + 1;
                }
                assert(a.args@.take(m as int) =~= a.args@);
            },
            PredicateFormula::Term(t) => {
                terms.push(t.clone());
                assert(terms@ =~= before + seq![*t]);
            },
        }
        k = k + 1;
        assert(terms@ =~= formulas_terms(formula_views(fs@).take(k as int)));
    }
    assert(formula_views(fs@).take(n as int) =~= formula_views(fs@));
    terms
}

/// Returns the SMT-LIB script that declares the predicates with the given
/// arities and the constants of the formulas, and asserts the formulas.
pub fn render_clause_script(arities: &Vec<usize>, fs: &Vec<PredicateFormula>) -> (script: String)
    ensures
        script@ == clause_script_text(arities@, formula_views(fs@)),
{
    let terms = collect_formula_terms(fs);
    let vars = collect_vars(&terms);
    let mut out = String::new();
    append_predicate_declarations(&mut out, arities);
    append_declarations(&mut out, &vars);
    append_formula_assertions(&mut out, fs);
    assert(out@ =~= clause_script_text(arities@, formula_views(fs@)));
    out
}

proof fn lemma_predicate_symbol_nul_free(k: usize)
    ensures
        nul_free(predicate_symbol(k)),
{
    lemma_decimal_nul_free(k as nat);
    lemma_nul_free_concat(seq!['p'], decimal(k as nat));
}

proof fn lemma_int_sorts_nul_free(n: nat)
    ensures
        nul_free(int_sorts_text(n)),
    decreases n,
{
    if n > 0 {
        lemma_int_sorts_nul_free((n - 1) as nat);
        lemma_nul_free_concat(int_sorts_text((n - 1) as nat), seq!['I', 'n', 't', ' ']);
    }
}

proof fn lemma_predicate_declarations_nul_free(arities: Seq<usize>)
    ensures
        nul_free(predicate_declarations_text(arities)),
    decreases arities.len(),
{
    if arities.len() > 0 {
        lemma_predicate_declarations_nul_free(arities.drop_last());
        lemma_predicate_symbol_nul_free((arities.len() - 1) as usize);
        lemma_int_sorts_nul_free(arities.last() as nat);
        let a = predicate_declarations_text(arities.drop_last());
        let b = seq!['(', 'd', 'e', 'c', 'l', 'a', 'r', 'e', '-', 'f', 'u', 'n', ' '];
        let c = predicate_symbol((arities.len() - 1) as usize);
        let d = seq![' ', '('];
        let e = int_sorts_text(arities.last() as nat);
        let f = seq![')', ' ', 'B', 'o', 'o', 'l', ')', '\n'];
        lemma_nul_free_concat(a, b);
        lemma_nul_free_concat(a + b, c);
        lemma_nul_free_concat(a + b + c, d);
        lemma_nul_free_concat(a + b + c + d, e);
        lemma_nul_free_concat(a + b + c + d + e, f);
    }
}

proof fn lemma_arguments_nul_free(ts: Seq<SmtTerm>)
    ensures
        nul_free(arguments_text(ts)),
    decreases ts.len(),
{
    if ts.len() > 0 {
        lemma_arguments_nul_free(ts.drop_last());
        lemma_term_nul_free(ts.last());
        lemma_nul_free_concat(arguments_text(ts.drop_last()), term_text(ts.last()));
        lemma_nul_free_concat(arguments_text(ts.drop_last()) + term_text(ts.last()), seq![' ']);
    }
}

pub(crate) proof fn lemma_formula_nul_free(f: FormulaView)
    ensures
        nul_free(formula_text(f)),
{
    match f {
        FormulaView::Application(k, args) => {
            lemma_predicate_symbol_nul_free(k);
            if args.len() > 0 {
                lemma_arguments_nul_free(args);
                let b = seq!['('] + predicate_symbol(k);
                lemma_nul_free_concat(seq!['('], predicate_symbol(k));
                lemma_nul_free_concat(b, seq![' ']);
                lemma_nul_free_concat(b + seq![' '], arguments_text(args));
                lemma_nul_free_concat(b + seq![' '] + arguments_text(args), seq![')']);
            }
        },
        FormulaView::Term(t) => lemma_term_nul_free(t),
    }
}

proof fn lemma_formula_assertions_nul_free(fs: Seq<FormulaView>)
    ensures
        nul_free(formula_assertions_text(fs)),
    decreases fs.len(),
{
    if fs.len() > 0 {
        lemma_formula_assertions_nul_free(fs.drop_last());
        lemma_formula_nul_free(fs.last());
        let a = formula_assertions_text(fs.drop_last());
        let b = seq!['(', 'a', 's', 's', 'e', 'r', 't', ' '];
        lemma_nul_free_concat(a, b);
        lemma_nul_free_concat(a + b, formula_text(fs.last()));
        lemma_nul_free_concat(a + b + formula_text(fs.last()), seq![')', '\n']);
    }
}

/// What a check of formulas found: the script that was checked, the
/// solver's answer, and the values of the asked constants in its model.
#[derive(Debug)]
pub struct FormulaCheck {
    /// The SMT-LIB script of the check
    pub script: String,
    /// The solver's answer
    pub outcome: SatOutcome,
    /// The values that the solver's model gives the asked constants, where
    /// it gives them
    pub values: Vec<Option<String>>,
}

/// Checks whether the formulas are satisfiable, with the predicates of the
/// given arities declared; the answer `Unsat` is only given for formulas
/// that no assignment and interpretation of the predicates satisfies, and
/// the values of the given constants in the solver's model are returned
pub fn check_formulas(arities: &Vec<usize>, fs: &Vec<PredicateFormula>, constants: &Vec<usize>) -> (r: FormulaCheck)
    ensures
        r.script@ == clause_script_text(arities@, formula_views(fs@)),
        r.outcome == SatOutcome::Unsat ==> !formulas_satisfiable(formula_views(fs@)),
{
    let script = render_clause_script(arities, fs);
    let mut names: Vec<String> = Vec::new();
    let n = constants.len();
    let mut k: usize = 0;
    while k < n
        invariant
            n == constants@.len(),
            0 <= k <= n,
            names@.len() == k,
            forall|i: int| 0 <= i < k ==> nul_free(#[trigger] names@[i]@),
        decreases n - k,
    {
        let mut name = String::new();
        append_var(&mut name, constants[k]);
        proof {
            lemma_decimal_nul_free(constants@[k as int] as nat);
            lemma_nul_free_concat(seq!['v'], decimal(constants@[k as int] as nat));
            assert(name@ =~= seq!['v'] + decimal(constants@[k as int] as nat));
        }
        names.push(name);
        k = k + 1;
    }
    proof {
        lemma_predicate_declarations_nul_free(arities@);
        let views = formula_views(fs@);
        lemma_declarations_nul_free(terms_vars(formulas_terms(views)));
        lemma_formula_assertions_nul_free(views);
        let a = predicate_declarations_text(arities@);
        let b = declarations_text(terms_vars(formulas_terms(views)));
        lemma_nul_free_concat(a, b);
        lemma_nul_free_concat(a + b, formula_assertions_text(views));
    }
    let (outcome, values) = z3_check_script(&script, &names);
    FormulaCheck { script, outcome, values }
}

} // verus!
