//! Terms of the SMT solver's language over integer constants, their meaning,
//! and their rendering as SMT-LIB scripts.

use vstd::prelude::*;
use vstd::string::{StrSliceExecFns, StringExecFns};

use crate::execution::planning::normalization::generator::{decimal, digit_char, numbered_name};

use super::clauses::{clause_script_text, formulas_satisfiable, FormulaView};

verus! {

/// The binary operators of solver terms.
#[derive(Debug, Clone, Copy, PartialEq, Eq, Structural)]
pub enum SmtOp {
    /// Integer addition
    Add,
    /// Integer subtraction
    Sub,
    /// Integer multiplication
    Mul,
    /// Integer division
    Div,
    /// Equality of two integers or of two truth values
    Eq,
    /// Disequality of two integers or of two truth values
    Ne,
    /// Greater or equal
    Ge,
    /// Greater
    Gt,
    /// Less or equal
    Le,
    /// Less
    Lt,
    /// Conjunction
    And,
    /// Disjunction
    Or,
}

/// A term of the solver's language: integer constants are numbered.
#[derive(Debug)]
pub enum SmtTerm {
    /// The integer constant with the given number
    Var(usize),
    /// An integer literal
    Int(i64),
    /// A boolean literal
    Bool(bool),
    /// A binary operator applied to two terms
    Apply(SmtOp, Box<SmtTerm>, Box<SmtTerm>),
    /// Negation
    Not(Box<SmtTerm>),
}

/// Whether the operator maps integers to an integer.
pub open spec fn arithmetic_op(op: SmtOp) -> bool {
    op == SmtOp::Add || op == SmtOp::Sub || op == SmtOp::Mul || op == SmtOp::Div
}

/// Whether the operator compares integers.
pub open spec fn comparison_op(op: SmtOp) -> bool {
    op == SmtOp::Eq || op == SmtOp::Ne || op == SmtOp::Ge || op == SmtOp::Gt || op == SmtOp::Le || op == SmtOp::Lt
}

/// Whether the term denotes an integer.
pub open spec fn int_term(t: SmtTerm) -> bool
    decreases t,
{
    match t {
        SmtTerm::Var(_) => true,
        SmtTerm::Int(_) => true,
        SmtTerm::Apply(op, a, b) => arithmetic_op(op) && int_term(*a) && int_term(*b),
        _ => false,
    }
}

/// Whether the term denotes a truth value.
pub open spec fn bool_term(t: SmtTerm) -> bool
    decreases t,
{
    match t {
        SmtTerm::Bool(_) => true,
        SmtTerm::Apply(op, a, b) => (comparison_op(op) && int_term(*a) && int_term(*b))
            || ((op == SmtOp::Eq || op == SmtOp::Ne || op == SmtOp::And || op == SmtOp::Or) && bool_term(*a)
            && bool_term(*b)),
        SmtTerm::Not(a) => bool_term(*a),
        _ => false,
    }
}

/// The integer that a term denotes under an assignment of the constants.
/// Division is the solver's integer division, which rounds such that the
/// remainder is not negative.
pub open spec fn eval_int(t: SmtTerm, m: spec_fn(usize) -> int) -> int
    decreases t,
{
    match t {
        SmtTerm::Var(v) => m(v),
        SmtTerm::Int(i) => i as int,
        SmtTerm::Apply(op, a, b) => {
            let x = eval_int(*a, m);
            let y = eval_int(*b, m);
            match op {
                SmtOp::Add => x + y,
                SmtOp::Sub => x - y,
                SmtOp::Mul => x * y,
                SmtOp::Div => x / y,
                _ => 0,
            }
        },
        _ => 0,
    }
}

/// The truth value that a term denotes under an assignment of the constants:
/// an equality of two truth values compares them, as the solver does.
pub open spec fn eval_bool(t: SmtTerm, m: spec_fn(usize) -> int) -> bool
    decreases t,
{
    match t {
        SmtTerm::Bool(b) => b,
        SmtTerm::Apply(op, a, b) => match op {
            SmtOp::Eq => if bool_term(*a) && bool_term(*b) {
                eval_bool(*a, m) == eval_bool(*b, m)
            } else {
                eval_int(*a, m) == eval_int(*b, m)
            },
            SmtOp::Ne => if bool_term(*a) && bool_term(*b) {
                eval_bool(*a, m) != eval_bool(*b, m)
            } else {
                eval_int(*a, m) != eval_int(*b, m)
            },
            SmtOp::Ge => eval_int(*a, m) >= eval_int(*b, m),
            SmtOp::Gt => eval_int(*a, m) > eval_int(*b, m),
            SmtOp::Le => eval_int(*a, m) <= eval_int(*b, m),
            SmtOp::Lt => eval_int(*a, m) < eval_int(*b, m),
            SmtOp::And => eval_bool(*a, m) && eval_bool(*b, m),
            SmtOp::Or => eval_bool(*a, m) || eval_bool(*b, m),
            _ => false,
        },
        SmtTerm::Not(a) => !eval_bool(*a, m),
        _ => false,
    }
}

/// Whether every assertion holds under the assignment.
pub open spec fn holds_all(assertions: Seq<SmtTerm>, m: spec_fn(usize) -> int) -> bool {
    forall|i: int| 0 <= i < assertions.len() ==> #[trigger] eval_bool(assertions[i], m)
}

/// Whether some assignment of the constants satisfies all assertions.
pub open spec fn satisfiable(assertions: Seq<SmtTerm>) -> bool {
    exists|m: spec_fn(usize) -> int| #[trigger] holds_all(assertions, m)
}

/// The conjunction of the terms, `true` for none.
pub open spec fn conjunction(ts: Seq<SmtTerm>) -> SmtTerm
    decreases ts.len(),
{
    if ts.len() == 0 {
        SmtTerm::Bool(true)
    } else {
        SmtTerm::Apply(SmtOp::And, Box::new(conjunction(ts.drop_last())), Box::new(ts.last()))
    }
}

/// The disjunction of the terms, `false` for none.
pub open spec fn disjunction(ts: Seq<SmtTerm>) -> SmtTerm
    decreases ts.len(),
{
    if ts.len() == 0 {
        SmtTerm::Bool(false)
    } else {
        SmtTerm::Apply(SmtOp::Or, Box::new(disjunction(ts.drop_last())), Box::new(ts.last()))
    }
}

/// The SMT-LIB symbol of an operator.
pub open spec fn op_text(op: SmtOp) -> Seq<char> {
    match op {
        SmtOp::Add => seq!['+'],
        SmtOp::Sub => seq!['-'],
        SmtOp::Mul => seq!['*'],
        SmtOp::Div => seq!['d', 'i', 'v'],
        SmtOp::Eq => seq!['='],
        SmtOp::Ne => seq!['d', 'i', 's', 't', 'i', 'n', 'c', 't'],
        SmtOp::Ge => seq!['>', '='],
        SmtOp::Gt => seq!['>'],
        SmtOp::Le => seq!['<', '='],
        SmtOp::Lt => seq!['<'],
        SmtOp::And => seq!['a', 'n', 'd'],
        SmtOp::Or => seq!['o', 'r'],
    }
}

/// The SMT-LIB name of the integer constant with the given number.
pub open spec fn var_text(v: usize) -> Seq<char> {
    seq!['v'] + decimal(v as nat)
}

/// The SMT-LIB text of an integer literal.
pub open spec fn int_text(i: i64) -> Seq<char> {
    if i >= 0 {
        decimal(i as nat)
    } else {
        seq!['(', '-', ' '] + decimal((-i) as nat) + seq![')']
    }
}

/// The SMT-LIB text of a term.
pub open spec fn term_text(t: SmtTerm) -> Seq<char>
    decreases t,
{
    match t {
        SmtTerm::Var(v) => var_text(v),
        SmtTerm::Int(i) => int_text(i),
        SmtTerm::Bool(b) => if b { seq!['t', 'r', 'u', 'e'] } else { seq!['f', 'a', 'l', 's', 'e'] },
        SmtTerm::Apply(op, a, b) => seq!['('] + op_text(op) + seq![' '] + term_text(*a) + seq![' '] + term_text(*b) + seq![')'],
        SmtTerm::Not(a) => seq!['(', 'n', 'o', 't', ' '] + term_text(*a) + seq![')'],
    }
}

/// The texts of the terms, each followed by `sep`.
pub open spec fn terms_text(ts: Seq<SmtTerm>, sep: Seq<char>) -> Seq<char>
    decreases ts.len(),
{
    if ts.len() == 0 {
        Seq::empty()
    } else {
        terms_text(ts.drop_last(), sep) + term_text(ts.last()) + sep
    }
}

/// Appends `x` unless it is there already.
pub open spec fn add_new(acc: Seq<usize>, x: usize) -> Seq<usize> {
    if acc.contains(x) { acc } else { acc.push(x) }
}

/// The numbers of the constants of the term appended to `acc`, each once,
/// in the order of their first occurrence.
pub open spec fn term_vars_into(acc: Seq<usize>, t: SmtTerm) -> Seq<usize>
    decreases t,
{
    match t {
        SmtTerm::Var(v) => add_new(acc, v),
        SmtTerm::Apply(_, a, b) => term_vars_into(term_vars_into(acc, *a), *b),
        SmtTerm::Not(a) => term_vars_into(acc, *a),
        _ => acc,
    }
}

/// The numbers of the constants of the terms, each once, in the order of
/// their first occurrence.
pub open spec fn terms_vars(ts: Seq<SmtTerm>) -> Seq<usize>
    decreases ts.len(),
{
    if ts.len() == 0 {
        Seq::empty()
    } else {
        term_vars_into(terms_vars(ts.drop_last()), ts.last())
    }
}

/// The declarations of the integer constants.
pub open spec fn declarations_text(vars: Seq<usize>) -> Seq<char>
    decreases vars.len(),
{
    if vars.len() == 0 {
        Seq::empty()
    } else {
        declarations_text(vars.drop_last()) + seq!['(', 'd', 'e', 'c', 'l', 'a', 'r', 'e', '-', 'c', 'o', 'n', 's', 't', ' ']
            + var_text(vars.last()) + seq![' ', 'I', 'n', 't', ')', '\n']
    }
}

/// The assertions of the terms.
pub open spec fn assertions_text(ts: Seq<SmtTerm>) -> Seq<char>
    decreases ts.len(),
{
    if ts.len() == 0 {
        Seq::empty()
    } else {
        assertions_text(ts.drop_last()) + seq!['(', 'a', 's', 's', 'e', 'r', 't', ' '] + term_text(ts.last()) + seq![')', '\n']
    }
}

/// The SMT-LIB script that declares the constants of the assertions and
/// asserts them.
pub open spec fn script_text(assertions: Seq<SmtTerm>) -> Seq<char> {
    declarations_text(terms_vars(assertions)) + assertions_text(assertions)
}

/// The SMT-LIB script that declares the constants of the assertions and of
/// the objective, asserts the assertions and maximizes (or minimizes) the
/// objective.
pub open spec fn optimization_text(assertions: Seq<SmtTerm>, objective: SmtTerm, maximize: bool) -> Seq<char> {
    declarations_text(terms_vars(assertions.push(objective))) + assertions_text(assertions)
        + (if maximize {
            seq!['(', 'm', 'a', 'x', 'i', 'm', 'i', 'z', 'e', ' ']
        } else {
            seq!['(', 'm', 'i', 'n', 'i', 'm', 'i', 'z', 'e', ' ']
        }) + term_text(objective) + seq![')', '\n']
}

impl Clone for SmtTerm {
    fn clone(&self) -> (t: Self)
        ensures
            t == *self,
        decreases self,
    {
        match self {
            SmtTerm::Var(v) => SmtTerm::Var(*v),
            SmtTerm::Int(i) => SmtTerm::Int(*i),
            SmtTerm::Bool(b) => SmtTerm::Bool(*b),
            SmtTerm::Apply(op, a, b) => SmtTerm::Apply(*op, Box::new((**a).clone()), Box::new((**b).clone())),
            SmtTerm::Not(a) => SmtTerm::Not(Box::new((**a).clone())),
        }
    }
}

/// Returns the text of a decimal digit.
fn digit_text(d: u64) -> (text: &'static str)
    requires
        d < 10,
    ensures
        text@ == seq![digit_char(d as nat)],
{
    if d == 0 { proof { reveal_strlit("0"); } "0" }
    else if d == 1 { proof { reveal_strlit("1"); } "1" }
    else if d == 2 { proof { reveal_strlit("2"); } "2" }
    else if d == 3 { proof { reveal_strlit("3"); } "3" }
    else if d == 4 { proof { reveal_strlit("4"); } "4" }
    else if d == 5 { proof { reveal_strlit("5"); } "5" }
    else if d == 6 { proof { reveal_strlit("6"); } "6" }
    else if d == 7 { proof { reveal_strlit("7"); } "7" }
    else if d == 8 { proof { reveal_strlit("8"); } "8" }
    else { proof { reveal_strlit("9"); } "9" }
}

/// Appends the decimal representation of `n`.
pub fn append_decimal(out: &mut String, n: u64)
    ensures
        final(out)@ == old(out)@ + decimal(n as nat),
    decreases n,
{
    if n < 10 {
        out.append(digit_text(n));
    } else {
        append_decimal(out, n / 10);
        out.append(digit_text(n % 10));
        assert(decimal(n as nat) == decimal((n / 10) as nat).push(digit_char((n % 10) as nat)));
    }
}

/// Appends the text of an integer literal.
fn append_int(out: &mut String, i: i64)
    ensures
        final(out)@ == old(out)@ + int_text(i),
{
    if i >= 0 {
        append_decimal(out, i as u64);
    } else {
        proof { reveal_strlit("(- "); reveal_strlit(")"); }
        out.append("(- ");
        let magnitude: i128 = -(i as i128);
        append_decimal(out, magnitude as u64);
        out.append(")");
        assert(magnitude as u64 as nat == (-i) as nat);
    }
}

/// Appends the name of an integer constant.
pub(crate) fn append_var(out: &mut String, v: usize)
    ensures
        final(out)@ == old(out)@ + var_text(v),
{
    proof { reveal_strlit("v"); }
    let name = numbered_name("v", v);
    out.append(name.as_str());
}

/// Returns the SMT-LIB symbol of an operator.
fn op_symbol(op: SmtOp) -> (text: &'static str)
    ensures
        text@ == op_text(op),
{
    match op {
        SmtOp::Add => { proof { reveal_strlit("+"); } "+" },
        SmtOp::Sub => { proof { reveal_strlit("-"); } "-" },
        SmtOp::Mul => { proof { reveal_strlit("*"); } "*" },
        SmtOp::Div => { proof { reveal_strlit("div"); } "div" },
        SmtOp::Eq => { proof { reveal_strlit("="); } "=" },
        SmtOp::Ne => { proof { reveal_strlit("distinct"); } "distinct" },
        SmtOp::Ge => { proof { reveal_strlit(">="); } ">=" },
        SmtOp::Gt => { proof { reveal_strlit(">"); } ">" },
        SmtOp::Le => { proof { reveal_strlit("<="); } "<=" },
        SmtOp::Lt => { proof { reveal_strlit("<"); } "<" },
        SmtOp::And => { proof { reveal_strlit("and"); } "and" },
        SmtOp::Or => { proof { reveal_strlit("or"); } "or" },
    }
}

/// Appends the SMT-LIB text of a term.
pub fn append_term(out: &mut String, t: &SmtTerm)
    ensures
        final(out)@ == old(out)@ + term_text(*t),
    decreases t,
{
    proof {
        reveal_strlit("(");
        reveal_strlit(")");
        reveal_strlit(" ");
        reveal_strlit("true");
        reveal_strlit("false");
        reveal_strlit("(not ");
    }
    let ghost start = out@;
    match t {
        SmtTerm::Var(v) => append_var(out, *v),
        SmtTerm::Int(i) => append_int(out, *i),
        SmtTerm::Bool(b) => {
            if *b {
                out.append("true");
            } else {
                out.append("false");
            }
        },
        SmtTerm::Apply(op, a, b) => {
            out.append("(");
            out.append(op_symbol(*op));
            out.append(" ");
            append_term(out, a);
            out.append(" ");
            append_term(out, b);
            out.append(")");
            assert(out@ =~= start + term_text(*t));
        },
        SmtTerm::Not(a) => {
            out.append("(not ");
            append_term(out, a);
            out.append(")");
            assert(out@ =~= start + term_text(*t));
        },
    }
}

/// Appends the numbers of the constants of the term that are not yet in `acc`.
fn collect_term_vars(t: &SmtTerm, acc: &mut Vec<usize>)
    ensures
        final(acc)@ == term_vars_into(old(acc)@, *t),
    decreases t,
{
    match t {
        SmtTerm::Var(v) => {
            let n = acc.len();
            let mut k: usize = 0;
            let mut found = false;
            while k < n
                invariant
                    n == acc@.len(),
                    0 <= k <= n,
                    found == exists|j: int| 0 <= j < k && acc@[j] == *v,
                decreases n - k,
            {
                if acc[k] == *v {
                    found = true;
                }
                k = k + 1;
            }
            if !found {
                acc.push(*v);
            }
        },
        SmtTerm::Apply(_, a, b) => {
            collect_term_vars(a, acc);
            collect_term_vars(b, acc);
        },
        SmtTerm::Not(a) => collect_term_vars(a, acc),
        _ => {},
    }
}

/// Returns the numbers of the constants of the terms, each once.
pub(crate) fn collect_vars(ts: &Vec<SmtTerm>) -> (vars: Vec<usize>)
    ensures
        vars@ == terms_vars(ts@),
{
    let mut vars: Vec<usize> = Vec::new();
    let n = ts.len();
    let mut k: usize = 0;
    while k < n
        invariant
            n == ts@.len(),
            0 <= k <= n,
            vars@ == terms_vars(ts@.take(k as int)),
        decreases n - k,
    {
        collect_term_vars(&ts[k], &mut vars);
        assert(ts@.take(k + 1).drop_last() =~= ts@.take(k as int));
        k = k + 1;
    }
    assert(ts@.take(n as int) =~= ts@);
    vars
}

/// Appends the declarations of the constants.
pub(crate) fn append_declarations(out: &mut String, vars: &Vec<usize>)
    ensures
        final(out)@ == old(out)@ + declarations_text(vars@),
{
    proof { reveal_strlit("(declare-const "); reveal_strlit(" Int)\n"); }
    let ghost start = out@;
    let n = vars.len();
    let mut k: usize = 0;
    assert(start =~= start + declarations_text(vars@.take(0)));
    while k < n
        invariant
            n == vars@.len(),
            0 <= k <= n,
            out@ == start + declarations_text(vars@.take(k as int)),
        decreases n - k,
    {
        proof { reveal_strlit("(declare-const "); reveal_strlit(" Int)\n"); }
        out.append("(declare-const ");
        append_var(out, vars[k]);
        out.append(" Int)\n");
        assert(vars@.take(k + 1).drop_last() =~= vars@.take(k as int));
        assert(vars@.take(k + 1).last() == vars@[k as int]);
        k = k + 1;
        assert(out@ =~= start + declarations_text(vars@.take(k as int)));
    }
    assert(vars@.take(n as int) =~= vars@);
}

/// Appends the assertions of the terms.
pub(crate) fn append_assertions(out: &mut String, ts: &Vec<SmtTerm>)
    ensures
        final(out)@ == old(out)@ + assertions_text(ts@),
{
    proof { reveal_strlit("(assert "); reveal_strlit(")\n"); }
    let ghost start = out@;
    let n = ts.len();
    let mut k: usize = 0;
    assert(start =~= start + assertions_text(ts@.take(0)));
    while k < n
        invariant
            n == ts@.len(),
            0 <= k <= n,
            out@ == start + assertions_text(ts@.take(k as int)),
        decreases n - k,
    {
        proof { reveal_strlit("(assert "); reveal_strlit(")\n"); }
        out.append("(assert ");
        append_term(out, &ts[k]);
        out.append(")\n");
        assert(ts@.take(k + 1).drop_last() =~= ts@.take(k as int));
        assert(ts@.take(k + 1).last() == ts@[k as int]);
        k = k + 1;
        assert(out@ =~= start + assertions_text(ts@.take(k as int)));
    }
    assert(ts@.take(n as int) =~= ts@);
}

/// Returns the SMT-LIB script that declares the constants of the assertions
/// and asserts them.
pub fn render_script(assertions: &Vec<SmtTerm>) -> (script: String)
    ensures
        script@ == script_text(assertions@),
{
    let vars = collect_vars(assertions);
    let mut out = String::new();
    append_declarations(&mut out, &vars);
    append_assertions(&mut out, assertions);
    assert(out@ =~= script_text(assertions@));
    out
}

/// Returns the SMT-LIB script that declares the constants, asserts the
/// assertions and maximizes (or minimizes) the objective.
pub fn render_optimization(assertions: &Vec<SmtTerm>, objective: &SmtTerm, maximize: bool) -> (script: String)
    ensures
        script@ == optimization_text(assertions@, *objective, maximize),
{
    proof { reveal_strlit("(maximize "); reveal_strlit("(minimize "); reveal_strlit(")\n"); }
    let mut all = assertions.clone();
    all.push(objective.clone());
    assert forall|i: int| 0 <= i < assertions@.len() implies all@[i] == assertions@[i] by {}
    assert(all@ =~= assertions@.push(*objective));
    let vars = collect_vars(&all);
    let mut out = String::new();
    append_declarations(&mut out, &vars);
    append_assertions(&mut out, assertions);
    if maximize {
        out.append("(maximize ");
    } else {
        out.append("(minimize ");
    }
    append_term(&mut out, objective);
    out.append(")\n");
    assert(out@ =~= optimization_text(assertions@, *objective, maximize));
    out
}

/// Whether the text holds no NUL character.
pub open spec fn nul_free(s: Seq<char>) -> bool {
    forall|i: int| 0 <= i < s.len() ==> #[trigger] s[i] != '\0'
}

pub(crate) proof fn lemma_nul_free_concat(a: Seq<char>, b: Seq<char>)
    requires
        nul_free(a),
        nul_free(b),
    ensures
        nul_free(a + b),
{
    assert forall|i: int| 0 <= i < (a + b).len() implies #[trigger] (a + b)[i] != '\0' by {
        if i < a.len() {
            assert((a + b)[i] == a[i]);
        } else {
            assert((a + b)[i] == b[i - a.len()]);
        }
    }
}

pub(crate) proof fn lemma_decimal_nul_free(n: nat)
    ensures
        nul_free(decimal(n)),
    decreases n,
{
    if n >= 10 {
        lemma_decimal_nul_free(n / 10);
        lemma_nul_free_concat(decimal(n / 10), seq![digit_char(n % 10)]);
        assert(decimal(n / 10).push(digit_char(n % 10)) =~= decimal(n / 10) + seq![digit_char(n % 10)]);
    }
}

pub(crate) proof fn lemma_term_nul_free(t: SmtTerm)
    ensures
        nul_free(term_text(t)),
    decreases t,
{
    match t {
        SmtTerm::Var(v) => {
            lemma_decimal_nul_free(v as nat);
            lemma_nul_free_concat(seq!['v'], decimal(v as nat));
        },
        SmtTerm::Int(i) => {
            if i >= 0 {
                lemma_decimal_nul_free(i as nat);
            } else {
                lemma_decimal_nul_free((-i) as nat);
                lemma_nul_free_concat(seq!['(', '-', ' '], decimal((-i) as nat));
                lemma_nul_free_concat(seq!['(', '-', ' '] + decimal((-i) as nat), seq![')']);
            }
        },
        SmtTerm::Bool(_) => {},
        SmtTerm::Apply(op, a, b) => {
            lemma_term_nul_free(*a);
            lemma_term_nul_free(*b);
            let parts = seq!['('] + op_text(op);
            lemma_nul_free_concat(seq!['('], op_text(op));
            lemma_nul_free_concat(parts, seq![' ']);
            lemma_nul_free_concat(parts + seq![' '], term_text(*a));
            lemma_nul_free_concat(parts + seq![' '] + term_text(*a), seq![' ']);
            lemma_nul_free_concat(parts + seq![' '] + term_text(*a) + seq![' '], term_text(*b));
            lemma_nul_free_concat(parts + seq![' '] + term_text(*a) + seq![' '] + term_text(*b), seq![')']);
        },
        SmtTerm::Not(a) => {
            lemma_term_nul_free(*a);
            lemma_nul_free_concat(seq!['(', 'n', 'o', 't', ' '], term_text(*a));
            lemma_nul_free_concat(seq!['(', 'n', 'o', 't', ' '] + term_text(*a), seq![')']);
        },
    }
}

pub(crate) proof fn lemma_declarations_nul_free(vars: Seq<usize>)
    ensures
        nul_free(declarations_text(vars)),
    decreases vars.len(),
{
    if vars.len() > 0 {
        lemma_declarations_nul_free(vars.drop_last());
        lemma_decimal_nul_free(vars.last() as nat);
        let d = seq!['(', 'd', 'e', 'c', 'l', 'a', 'r', 'e', '-', 'c', 'o', 'n', 's', 't', ' '];
        let e = seq![' ', 'I', 'n', 't', ')', '\n'];
        lemma_nul_free_concat(seq!['v'], decimal(vars.last() as nat));
        lemma_nul_free_concat(declarations_text(vars.drop_last()), d);
        lemma_nul_free_concat(declarations_text(vars.drop_last()) + d, var_text(vars.last()));
        lemma_nul_free_concat(declarations_text(vars.drop_last()) + d + var_text(vars.last()), e);
    }
}

proof fn lemma_assertions_nul_free(ts: Seq<SmtTerm>)
    ensures
        nul_free(assertions_text(ts)),
    decreases ts.len(),
{
    if ts.len() > 0 {
        lemma_assertions_nul_free(ts.drop_last());
        lemma_term_nul_free(ts.last());
        let a = seq!['(', 'a', 's', 's', 'e', 'r', 't', ' '];
        lemma_nul_free_concat(assertions_text(ts.drop_last()), a);
        lemma_nul_free_concat(assertions_text(ts.drop_last()) + a, term_text(ts.last()));
        lemma_nul_free_concat(assertions_text(ts.drop_last()) + a + term_text(ts.last()), seq![')', '\n']);
    }
}

/// The outcomes of a satisfiability check.
#[derive(Debug, Clone, Copy, PartialEq, Eq, Structural)]
pub enum SatOutcome {
    /// The assertions are satisfiable
    Sat,
    /// The assertions are unsatisfiable
    Unsat,
    /// The solver could not decide
    Unknown,
}

/// Checks the assertions of an SMT-LIB script with z3, and returns, when
/// the solver has a model, the values that it gives the named integer
/// constants.
///
/// Calls `z3::Solver::new`, `z3::Solver::from_string` (which panics on a NUL
/// character), `z3::Solver::check`, `z3::Solver::get_model` and
/// `z3::Model::get_const_interp` on constants made by `z3::ast::Int::new_const`
/// (which, like `from_string`, panics on a NUL character). The contract states the soundness of z3
/// for unsatisfiability: an answer `Unsat` means that no assignment of the
/// declared integer constants (and no interpretation of the declared
/// predicates) satisfies the asserted formulas. Nothing is claimed of the
/// answers `Sat` and `Unknown`, nor of the model's values.
#[verifier::external_body]
pub(crate) fn z3_check_script(script: &String, constants: &Vec<String>) -> (r: (SatOutcome, Vec<Option<String>>))
    requires
        nul_free(script@),
        forall|i: int| 0 <= i < constants@.len() ==> nul_free(#[trigger] constants@[i]@),
    ensures
        r.0 == SatOutcome::Unsat ==> forall|a: Seq<SmtTerm>| script_text(a) == script@ ==> !#[trigger] satisfiable(a),
        r.0 == SatOutcome::Unsat ==> forall|arities: Seq<usize>, fs: Seq<FormulaView>|
            #[trigger] clause_script_text(arities, fs) == script@ ==> !formulas_satisfiable(fs),
{
    let solver = z3::Solver::new();
    solver.from_string(script.as_str());
    let outcome = match solver.check() {
        z3::SatResult::Sat => SatOutcome::Sat,
        z3::SatResult::Unsat => SatOutcome::Unsat,
        z3::SatResult::Unknown => SatOutcome::Unknown,
    };
    let values = match solver.get_model() {
        Some(model) => constants.iter().map(|c| model.get_const_interp(&z3::ast::Int::new_const(c.as_str()))
            .map(|v| v.to_string())).collect(),
        None => Vec::new(),
    };
    (outcome, values)
}

/// The text of the upper bound that z3's optimizer reports for the first
/// objective of an SMT-LIB script.
pub uninterp spec fn z3_upper_bound(script: Seq<char>) -> Option<Seq<char>>;

/// The text of the lower bound that z3's optimizer reports for the first
/// objective of an SMT-LIB script.
pub uninterp spec fn z3_lower_bound(script: Seq<char>) -> Option<Seq<char>>;

/// The texts of an optional string.
pub open spec fn text_option(o: Option<String>) -> Option<Seq<char>> {
    match o {
        Some(s) => Some(s@),
        None => None,
    }
}

/// Returns the upper bound that z3's optimizer finds for the objective.
///
/// Calls `z3::Optimize::new`, `z3::Optimize::from_string` (which panics on a
/// NUL character), `z3::Optimize::check` and `z3::Optimize::get_upper` for
/// the first objective, and writes the bound as text. What the text is, is
/// named by [z3_upper_bound], as a function of the script: an unbounded
/// objective is reported as a text holding `oo`.
#[verifier::external_body]
fn z3_upper_bound_of(script: &String) -> (r: Option<String>)
    requires
        nul_free(script@),
    ensures
        text_option(r) == z3_upper_bound(script@),
{
    let optimize = z3::Optimize::new();
    optimize.from_string(script.as_str());
    optimize.check(&[]);
    optimize.get_upper(0).map(|a| a.to_string())
}

/// Returns the lower bound that z3's optimizer finds for the objective.
///
/// Calls `z3::Optimize::new`, `z3::Optimize::from_string` (which panics on a
/// NUL character), `z3::Optimize::check` and `z3::Optimize::get_lower` for
/// the first objective, and writes the bound as text. What the text is, is
/// named by [z3_lower_bound], as a function of the script: an unbounded
/// objective is reported as a text holding `oo`.
#[verifier::external_body]
fn z3_lower_bound_of(script: &String) -> (r: Option<String>)
    requires
        nul_free(script@),
    ensures
        text_option(r) == z3_lower_bound(script@),
{
    let optimize = z3::Optimize::new();
    optimize.from_string(script.as_str());
    optimize.check(&[]);
    optimize.get_lower(0).map(|a| a.to_string())
}

/// Checks whether the assertions are satisfiable; the answer `Unsat` is
/// only given for unsatisfiable assertions
pub fn check_sat(assertions: &Vec<SmtTerm>) -> (r: SatOutcome)
    ensures
        r == SatOutcome::Unsat ==> !satisfiable(assertions@),
{
    let script = render_script(assertions);
    proof {
        lemma_declarations_nul_free(terms_vars(assertions@));
        lemma_assertions_nul_free(assertions@);
        lemma_nul_free_concat(declarations_text(terms_vars(assertions@)), assertions_text(assertions@));
    }
    z3_check_script(&script, &Vec::new()).0
}

proof fn lemma_optimization_nul_free(assertions: Seq<SmtTerm>, objective: SmtTerm, maximize: bool)
    ensures
        nul_free(optimization_text(assertions, objective, maximize)),
{
    lemma_declarations_nul_free(terms_vars(assertions.push(objective)));
    lemma_assertions_nul_free(assertions);
    lemma_term_nul_free(objective);
    let head = declarations_text(terms_vars(assertions.push(objective))) + assertions_text(assertions);
    let cmd = if maximize {
        seq!['(', 'm', 'a', 'x', 'i', 'm', 'i', 'z', 'e', ' ']
    } else {
        seq!['(', 'm', 'i', 'n', 'i', 'm', 'i', 'z', 'e', ' ']
    };
    lemma_nul_free_concat(declarations_text(terms_vars(assertions.push(objective))), assertions_text(assertions));
    lemma_nul_free_concat(head, cmd);
    lemma_nul_free_concat(head + cmd, term_text(objective));
    lemma_nul_free_concat(head + cmd + term_text(objective), seq![')', '\n']);
}

/// Returns the upper bound of the objective under the assertions, as z3's
/// optimizer reports it
pub fn upper_bound(assertions: &Vec<SmtTerm>, objective: &SmtTerm) -> (r: Option<String>)
    ensures
        text_option(r) == z3_upper_bound(optimization_text(assertions@, *objective, true)),
{
    let script = render_optimization(assertions, objective, true);
    proof { lemma_optimization_nul_free(assertions@, *objective, true); }
    z3_upper_bound_of(&script)
}

/// Returns the lower bound of the objective under the assertions, as z3's
/// optimizer reports it
pub fn lower_bound(assertions: &Vec<SmtTerm>, objective: &SmtTerm) -> (r: Option<String>)
    ensures
        text_option(r) == z3_lower_bound(optimization_text(assertions@, *objective, false)),
{
    let script = render_optimization(assertions, objective, false);
    proof { lemma_optimization_nul_free(assertions@, *objective, false); }
    z3_lower_bound_of(&script)
}

/// Whether the text holds `oo`, z3's sign of an infinite bound.
pub open spec fn mentions_infinity(s: Seq<char>) -> bool {
    exists|i: int| 0 <= i < s.len() - 1 && #[trigger] s[i] == 'o' && s[i + 1] == 'o'
}

/// The texts of the terms, each followed by `sep`.
pub fn render_terms(ts: &Vec<SmtTerm>, sep: &str) -> (text: String)
    ensures
        text@ == terms_text(ts@, sep@),
{
    let mut text = String::new();
    let n = ts.len();
    let mut i: usize = 0;
    assert(ts@.take(0) =~= Seq::<SmtTerm>::empty());
    while i < n
        invariant
            n == ts@.len(),
            0 <= i <= n,
            text@ == terms_text(ts@.take(i as int), sep@),
        decreases n - i,
    {
        append_term(&mut text, &ts[i]);
        text.append(sep);
        assert(ts@.take(i + 1).drop_last() =~= ts@.take(i as int));
        i = i + 1;
    }
    assert(ts@.take(n as int) =~= ts@);
    text
}

/// Returns true if the reported bound is finite: there is one, and it is
/// not infinite
pub fn bound_is_finite(bound: &Option<String>) -> (r: bool)
    ensures
        r == (text_option(*bound) matches Some(s) && !mentions_infinity(s)),
{
    match bound {
        Some(text) => {
            assert(text_option(*bound) == Some(text@));
            let s = text.as_str();
            let n = s.unicode_len();
            let mut i: usize = 0;
            while i < n
                invariant
                    n == s@.len(),
                    s@ == text@,
                    text_option(*bound) == Some(text@),
                    forall|j: int| 0 <= j < i && j < n - 1 ==> !(#[trigger] s@[j] == 'o' && s@[j + 1] == 'o'),
                decreases n - i,
            {
                if i + 1 < n && s.get_char(i) == 'o' && s.get_char(i + 1) == 'o' {
                    assert(s@[i as int] == 'o' && s@[i + 1] == 'o');
                    assert(mentions_infinity(text@));
                    return false;
                }
                i = i + 1;
            }
            true
        },
        None => false,
    }
}

/// The term that replaces the constant `v`: that of the first pair for it.
pub open spec fn substitution_of(pairs: Seq<(usize, SmtTerm)>, v: usize) -> Option<SmtTerm>
    decreases pairs.len(),
{
    if pairs.len() == 0 {
        None
    } else if pairs[0].0 == v {
        Some(pairs[0].1)
    } else {
        substitution_of(pairs.subrange(1, pairs.len() as int), v)
    }
}

/// The term with the constants of the pairs replaced by their terms, all at once.
pub open spec fn substituted(t: SmtTerm, pairs: Seq<(usize, SmtTerm)>) -> SmtTerm
    decreases t,
{
    match t {
        SmtTerm::Var(v) => match substitution_of(pairs, v) {
            Some(u) => u,
            None => SmtTerm::Var(v),
        },
        SmtTerm::Apply(op, a, b) => SmtTerm::Apply(op, Box::new(substituted(*a, pairs)), Box::new(substituted(*b, pairs))),
        SmtTerm::Not(a) => SmtTerm::Not(Box::new(substituted(*a, pairs))),
        _ => t,
    }
}

/// Returns the term that replaces the constant `v`, if a pair names it.
fn find_substitution(pairs: &Vec<(usize, SmtTerm)>, v: usize) -> (r: Option<SmtTerm>)
    ensures
        r == substitution_of(pairs@, v),
{
    let n = pairs.len();
    let mut k: usize = 0;
    assert(pairs@.subrange(0, n as int) =~= pairs@);
    while k < n
        invariant
            n == pairs@.len(),
            0 <= k <= n,
            substitution_of(pairs@, v) == substitution_of(pairs@.subrange(k as int, n as int), v),
        decreases n - k,
    {
        let ghost rest = pairs@.subrange(k as int, n as int);
        assert(rest[0] == pairs@[k as int]);
        if pairs[k].0 == v {
            return Some(pairs[k].1.clone());
        }
        assert(rest.subrange(1, rest.len() as int) =~= pairs@.subrange(k + 1, n as int));
        k = k + 1;
    }
    None
}

/// The assignment in which each constant that a pair replaces takes the
/// value of its replacement under `m`, and every other keeps its value.
pub open spec fn substituted_model(pairs: Seq<(usize, SmtTerm)>, m: spec_fn(usize) -> int) -> spec_fn(usize) -> int {
    |v: usize| match substitution_of(pairs, v) {
        Some(u) => eval_int(u, m),
        None => m(v),
    }
}

/// A replacement that a pair gives stands in a pair.
proof fn lemma_substitution_of_pair(pairs: Seq<(usize, SmtTerm)>, v: usize)
    requires
        substitution_of(pairs, v) is Some,
    ensures
        exists|i: int| 0 <= i < pairs.len() && #[trigger] pairs[i].1 == substitution_of(pairs, v).unwrap(),
    decreases pairs.len(),
{
    if pairs[0].0 != v {
        let rest = pairs.subrange(1, pairs.len() as int);
        lemma_substitution_of_pair(rest, v);
        let i = choose|i: int| 0 <= i < rest.len() && #[trigger] rest[i].1 == substitution_of(rest, v).unwrap();
        assert(pairs[i + 1] == rest[i]);
    } else {
        assert(pairs[0].1 == substitution_of(pairs, v).unwrap());
    }
}

/// An integer term is no truth value and denotes no truth.
proof fn lemma_int_term_not_true(t: SmtTerm, m: spec_fn(usize) -> int)
    requires
        int_term(t),
    ensures
        !bool_term(t),
        !eval_bool(t, m),
{
}

/// Substitution law: a term whose constants are replaced by integer terms
/// keeps its sort and denotes, under an assignment, what the term itself
/// denotes under the assignment that gives each replaced constant the value
/// of its replacement.
pub proof fn lemma_substitution_eval(t: SmtTerm, pairs: Seq<(usize, SmtTerm)>, m: spec_fn(usize) -> int)
    requires
        forall|i: int| 0 <= i < pairs.len() ==> int_term(#[trigger] pairs[i].1),
    ensures
        int_term(substituted(t, pairs)) == int_term(t),
        bool_term(substituted(t, pairs)) == bool_term(t),
        eval_int(substituted(t, pairs), m) == eval_int(t, substituted_model(pairs, m)),
        eval_bool(substituted(t, pairs), m) == eval_bool(t, substituted_model(pairs, m)),
    decreases t,
{
    match t {
        SmtTerm::Var(v) => {
            if substitution_of(pairs, v) is Some {
                lemma_substitution_of_pair(pairs, v);
                let i = choose|i: int| 0 <= i < pairs.len() && #[trigger] pairs[i].1 == substitution_of(pairs, v).unwrap();
                lemma_int_term_not_true(pairs[i].1, m);
            }
        },
        SmtTerm::Apply(op, a, b) => {
            lemma_substitution_eval(*a, pairs, m);
            lemma_substitution_eval(*b, pairs, m);
        },
        SmtTerm::Not(a) => {
            lemma_substitution_eval(*a, pairs, m);
        },
        _ => {},
    }
}

/// Replaces the constants of the pairs by their terms, all at once.
pub fn substitute(t: &SmtTerm, pairs: &Vec<(usize, SmtTerm)>) -> (r: SmtTerm)
    ensures
        r == substituted(*t, pairs@),
    decreases t,
{
    match t {
        SmtTerm::Var(v) => match find_substitution(pairs, *v) {
            Some(u) => u,
            None => SmtTerm::Var(*v),
        },
        SmtTerm::Apply(op, a, b) => SmtTerm::Apply(*op, Box::new(substitute(a, pairs)), Box::new(substitute(b, pairs))),
        SmtTerm::Not(a) => SmtTerm::Not(Box::new(substitute(a, pairs))),
        SmtTerm::Int(i) => SmtTerm::Int(*i),
        SmtTerm::Bool(b) => SmtTerm::Bool(*b),
    }
}

} // verus!
