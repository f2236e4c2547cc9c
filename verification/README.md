# nemo static analysis, verified

Static analyses for annotated Datalog-style programs: normalization of rules
and annotations, detection of positions that only hold database values,
verification of value annotations with an SMT solver, propagation of range
restrictions, and termination checks by weak acyclicity and by termination
annotations on rule cycles. The library is written in Verus and proved
against its contracts.

Layout:

- `src/rule_model` — the rule model: tags, variables, terms, atoms and the
  annotations as written, with their validation.
- `src/execution/planning/normalization` — normalized rules, atoms,
  operations, annotations and programs.
- `src/execution/planning/verification` — the analyses: `edb_analysis`,
  `restriction`, `smt` (solver terms, their SMT-LIB text, the calls into z3),
  `rule_verification` (translation of rules, restrictions, goals, filters),
  `annotation_analysis` (rule components, propagation graphs, the analyzer),
  `termination_verification`, `type_verification`; and the
  translations that take predicates as uninterpreted functions: `clauses`
  (formulas over declared predicates and their scripts), `rule_verifier`,
  `completion` (rules as implications for z3's fixedpoint engine) and
  `smt_builder` (the lowering whose scripts go to the z3 binary).
- `src/parser/ast` — the annotation kinds and type literals of the syntax.
- `app/` — printing of the analyses' reports, and the checks that run the
  z3 binary.
- `tests/` — tests on concrete programs.
