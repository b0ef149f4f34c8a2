use polar_core::bindings::Bindings;
use polar_core::simplify::{simplify_bindings, simplify_partial, sub_this, Simplifier};
use polar_core::terms::{Operation, Operator, Symbol, Term, Value};

fn var(name: &str) -> Term {
    Term::new(Value::Variable(Symbol::new(name)))
}

fn rest_var(name: &str) -> Term {
    Term::new(Value::RestVariable(Symbol::new(name)))
}

fn num(n: i64) -> Term {
    Term::new(Value::Number(n))
}

fn list(ts: Vec<Term>) -> Term {
    Term::new(Value::List(ts))
}

fn op(operator: Operator, args: Vec<Term>) -> Term {
    Operation { operator, args }.into_term()
}

fn and(args: Vec<Term>) -> Term {
    op(Operator::And, args)
}

fn unify(l: Term, r: Term) -> Term {
    op(Operator::Unify, vec![l, r])
}

fn sym(name: &str) -> Symbol {
    Symbol::new(name)
}

#[test]
fn sub_this_renames_variable() {
    let t = unify(var("x"), num(1));
    let r = sub_this(sym("x"), t);
    assert!(r == unify(var("_this"), num(1)));
}

#[test]
fn sub_this_renames_nested_and_rest_variables() {
    let t = op(Operator::Gt, vec![list(vec![var("x"), rest_var("x"), var("y")]), num(2)]);
    let r = sub_this(sym("x"), t);
    let expected = op(
        Operator::Gt,
        vec![list(vec![var("_this"), rest_var("_this"), var("y")]), num(2)],
    );
    assert!(r == expected);
}

#[test]
fn sub_this_keeps_the_variable_itself() {
    assert!(sub_this(sym("x"), var("x")) == var("x"));
    assert!(sub_this(sym("x"), rest_var("x")) == rest_var("x"));
}

#[test]
fn sub_this_leaves_no_occurrence() {
    let t = and(vec![unify(var("x"), var("y")), op(Operator::Dot, vec![var("x"), num(1)])]);
    let r = sub_this(sym("x"), t);
    let mut vars: Vec<Symbol> = Vec::new();
    r.variables(&mut vars);
    assert!(!vars.iter().any(|s| *s == sym("x")));
    assert!(vars.iter().any(|s| *s == sym("_this")));
    assert!(vars.iter().any(|s| *s == sym("y")));
}

#[test]
fn simplify_partial_binds_ground_value() {
    let t = and(vec![unify(var("x"), num(1))]);
    let r = simplify_partial(&sym("x"), t);
    assert!(r == num(1));
}

#[test]
fn simplify_partial_ground_value_on_the_left() {
    let t = and(vec![unify(num(7), var("x"))]);
    let r = simplify_partial(&sym("x"), t);
    assert!(r == num(7));
}

#[test]
fn simplify_partial_drops_bound_other_variable() {
    let t = and(vec![unify(var("x"), num(1)), unify(var("y"), num(2))]);
    let r = simplify_partial(&sym("x"), t);
    assert!(r == num(1));
}

#[test]
fn simplify_partial_follows_variable_to_this() {
    let t = and(vec![unify(var("x"), var("y")), unify(var("y"), num(1))]);
    let r = simplify_partial(&sym("x"), t);
    assert!(r == num(1));
}

#[test]
fn simplify_partial_wraps_comparison_in_conjunction() {
    let gt = op(Operator::Gt, vec![var("x"), num(5)]);
    let t = and(vec![op(Operator::Gt, vec![var("x"), num(5)])]);
    let r = simplify_partial(&sym("x"), t);
    assert!(r == and(vec![gt]));
}

#[test]
fn simplify_partial_deduplicates_constraints_and_mirrors() {
    let t = and(vec![
        op(Operator::Gt, vec![var("x"), num(5)]),
        op(Operator::Gt, vec![var("x"), num(5)]),
        op(Operator::Lt, vec![num(5), var("x")]),
    ]);
    let r = simplify_partial(&sym("x"), t);
    assert!(r == and(vec![op(Operator::Gt, vec![var("x"), num(5)])]));
}

#[test]
fn simplify_partial_drops_true() {
    let t = and(vec![and(vec![]), op(Operator::Gt, vec![var("x"), num(5)])]);
    let r = simplify_partial(&sym("x"), t);
    assert!(r == and(vec![op(Operator::Gt, vec![var("x"), num(5)])]));
}

#[test]
fn simplify_partial_tosses_trivial_unification() {
    let t = and(vec![unify(var("y"), var("y")), op(Operator::Gt, vec![var("x"), num(1)])]);
    let r = simplify_partial(&sym("x"), t);
    assert!(r == and(vec![op(Operator::Gt, vec![var("x"), num(1)])]));
}

#[test]
fn simplify_partial_this_unified_with_itself_is_true() {
    let t = and(vec![unify(var("x"), var("x"))]);
    let r = simplify_partial(&sym("x"), t);
    assert!(r == and(vec![]));
}

#[test]
fn simplify_partial_negation_is_inverted() {
    let t = and(vec![op(Operator::Not, vec![unify(var("x"), num(1))])]);
    let r = simplify_partial(&sym("x"), t);
    assert!(r == and(vec![op(Operator::Neq, vec![var("x"), num(1)])]));
}

#[test]
fn simplify_partial_keeps_disjunction() {
    let or = op(Operator::Or, vec![unify(var("x"), num(1)), unify(var("x"), num(2))]);
    let t = and(vec![op(Operator::Or, vec![unify(var("x"), num(1)), unify(var("x"), num(2))])]);
    let r = simplify_partial(&sym("x"), t);
    assert!(r == and(vec![or]));
}

#[test]
fn simplify_partial_false_stays_false() {
    let t = and(vec![op(Operator::Or, vec![])]);
    let r = simplify_partial(&sym("x"), t);
    assert!(r == and(vec![op(Operator::Or, vec![])]));
}

#[test]
fn simplify_partial_binds_cycle_to_first_symbol() {
    let t = and(vec![
        unify(var("a"), var("b")),
        unify(var("b"), var("c")),
        op(Operator::Gt, vec![var("x"), var("a")]),
    ]);
    let r = simplify_partial(&sym("x"), t);
    assert!(r == and(vec![op(Operator::Gt, vec![var("x"), var("b")])]));
}

#[test]
fn simplify_partial_cycle_prefers_non_temporary() {
    let t = and(vec![
        unify(var("_t"), var("y")),
        op(Operator::Gt, vec![var("x"), var("_t")]),
    ]);
    let r = simplify_partial(&sym("x"), t);
    assert!(r == and(vec![op(Operator::Gt, vec![var("x"), var("y")])]));
}

#[test]
fn simplify_partial_field_of_this() {
    // _this.a = y with y used elsewhere: y is bound to _this.a.
    let dot = op(Operator::Dot, vec![var("x"), num(1)]);
    let t = and(vec![
        unify(var("y"), op(Operator::Dot, vec![var("x"), num(1)])),
        op(Operator::Gt, vec![var("y"), num(3)]),
    ]);
    let r = simplify_partial(&sym("x"), t);
    assert!(r == and(vec![op(Operator::Gt, vec![dot, num(3)])]));
}

#[test]
fn simplifier_new_has_no_bindings() {
    let s = Simplifier::new(sym("x"));
    assert!(s.deref(&var("y")) == var("y"));
}

#[test]
fn simplifier_deref_follows_binding() {
    let mut s = Simplifier::new(sym("x"));
    s.bind(sym("y"), num(3));
    assert!(s.deref(&var("y")) == num(3));
    assert!(s.deref(&rest_var("y")) == num(3));
    assert!(s.deref(&var("z")) == var("z"));
    assert!(s.deref(&num(4)) == num(4));
}

#[test]
fn simplifier_bind_derefs_value() {
    let mut s = Simplifier::new(sym("x"));
    s.bind(sym("y"), num(3));
    s.bind(sym("z"), var("y"));
    assert!(s.deref(&var("z")) == num(3));
}

#[test]
fn simplifier_rebind_same_ground_value() {
    let mut s = Simplifier::new(sym("x"));
    s.bind(sym("y"), num(3));
    s.bind(sym("y"), num(3));
    assert!(s.deref(&var("y")) == num(3));
}

#[test]
fn simplifier_simplify_partial_at_rest() {
    let mut s = Simplifier::new(sym("x"));
    let t = and(vec![op(Operator::Gt, vec![var("x"), num(1)])]);
    let r = s.simplify_partial(t);
    assert!(r == op(Operator::Gt, vec![var("x"), num(1)]));
    let again = s.simplify_partial(op(Operator::Gt, vec![var("x"), num(1)]));
    assert!(again == r);
}

fn sample_bindings() -> Bindings {
    let mut b = Bindings::new();
    b.insert(sym("x"), and(vec![op(Operator::Gt, vec![var("x"), num(1)])]));
    b.insert(sym("_t"), var("_u"));
    b.insert(sym("_u"), var("z"));
    b.insert(sym("w"), var("_t"));
    b.insert(sym("_unused"), num(5));
    b
}

#[test]
fn simplify_bindings_follows_references() {
    let r = simplify_bindings(sample_bindings(), false).unwrap();
    assert_eq!(r.len(), 3);
    assert!(*r.get(&sym("x")).unwrap() == and(vec![op(Operator::Gt, vec![var("x"), num(1)])]));
    assert!(*r.get(&sym("w")).unwrap() == var("_u"));
    assert!(*r.get(&sym("_u")).unwrap() == var("z"));
    assert!(r.get(&sym("_t")).is_none());
    assert!(r.get(&sym("_unused")).is_none());
}

#[test]
fn simplify_bindings_all() {
    let r = simplify_bindings(sample_bindings(), true).unwrap();
    assert_eq!(r.len(), 5);
    assert!(*r.get(&sym("x")).unwrap() == and(vec![op(Operator::Gt, vec![var("x"), num(1)])]));
    assert!(*r.get(&sym("_t")).unwrap() == var("z"));
    assert!(*r.get(&sym("_u")).unwrap() == var("z"));
    assert!(*r.get(&sym("w")).unwrap() == var("_u"));
    assert!(*r.get(&sym("_unused")).unwrap() == num(5));
}

#[test]
fn simplify_bindings_simplifies_partials() {
    let mut b = Bindings::new();
    b.insert(sym("x"), and(vec![unify(var("x"), num(1))]));
    let r = simplify_bindings(b, false).unwrap();
    assert!(*r.get(&sym("x")).unwrap() == num(1));
}

#[test]
fn simplify_bindings_false_partial_is_still_given_back() {
    let mut b = Bindings::new();
    b.insert(sym("x"), and(vec![op(Operator::Or, vec![])]));
    let r = simplify_bindings(b, false);
    assert!(r.is_some());
    let r = r.unwrap();
    assert!(*r.get(&sym("x")).unwrap() == and(vec![op(Operator::Or, vec![])]));
}

#[test]
fn simplify_bindings_empty() {
    let r = simplify_bindings(Bindings::new(), false).unwrap();
    assert_eq!(r.len(), 0);
    let r = simplify_bindings(Bindings::new(), true).unwrap();
    assert_eq!(r.len(), 0);
}

#[test]
fn sub_this_twice_is_once() {
    let t = and(vec![unify(var("x"), var("y")), op(Operator::Gt, vec![var("x"), num(1)])]);
    let once = sub_this(sym("x"), t);
    let copy = once.clone();
    let twice = sub_this(sym("x"), copy);
    assert!(twice == once);
}

#[test]
fn simplify_partial_single_constraint_folded() {
    // One constraint in a conjunction is replaced with itself, arguments folded.
    let t = and(vec![op(Operator::Geq, vec![var("x"), list(vec![num(1), var("y")])])]);
    let r = simplify_partial(&sym("x"), t);
    let expected = and(vec![op(Operator::Geq, vec![var("x"), list(vec![num(1), var("y")])])]);
    assert!(r == expected);
}

#[test]
fn simplifier_rebind_to_non_ground_value() {
    let mut s = Simplifier::new(sym("x"));
    s.bind(sym("y"), num(3));
    s.bind(sym("y"), var("z"));
    assert!(s.deref(&var("y")) == var("z"));
}

#[test]
fn simplify_partial_with_fuel_enough_and_none() {
    let t = and(vec![unify(var("x"), num(1))]);
    let r = polar_core::simplify::simplify_partial_with_fuel(&sym("x"), t, 100);
    assert!(r.unwrap() == num(1));
    let t = and(vec![unify(var("x"), num(1))]);
    assert!(polar_core::simplify::simplify_partial_with_fuel(&sym("x"), t, 0).is_none());
}

#[test]
fn simplify_partial_with_fuel_rejects_malformed_comparison() {
    // A unification with one side cannot be simplified.
    let t = and(vec![op(Operator::Unify, vec![var("x")]), op(Operator::Gt, vec![var("x"), num(1)])]);
    assert!(polar_core::simplify::simplify_partial_with_fuel(&sym("x"), t, 100).is_none());
}

#[test]
fn simplifier_fold_operation_negation() {
    let mut s = Simplifier::new(sym("x"));
    let o = Operation { operator: Operator::Not, args: vec![unify(var("x"), num(1))] };
    let r = s.fold_operation(o, 100).unwrap();
    assert!(r == Operation { operator: Operator::Neq, args: vec![var("x"), num(1)] });
    assert!(s.deref(&var("x")) == var("x"));
}

#[test]
fn simplifier_fold_term_one_pass() {
    let mut s = Simplifier::new(sym("x"));
    s.bind(sym("y"), num(2));
    let r = s.fold_term(op(Operator::Gt, vec![var("x"), var("y")]), 100).unwrap();
    assert!(r == op(Operator::Gt, vec![var("x"), num(2)]));
    assert!(s.fold_term(var("y"), 0).is_none());
}

#[test]
fn simplifier_simplify_partial_with_fuel() {
    let mut s = Simplifier::new(sym("x"));
    let t = and(vec![op(Operator::Gt, vec![var("x"), num(1)])]);
    let r = s.simplify_partial_with_fuel(t, 10).unwrap();
    assert!(r == op(Operator::Gt, vec![var("x"), num(1)]));
    let t = and(vec![op(Operator::Gt, vec![var("x"), num(1)])]);
    assert!(s.simplify_partial_with_fuel(t, 1).is_none());
}

#[test]
fn simplifier_try_bind_conflict() {
    let mut s = Simplifier::new(sym("x"));
    assert!(s.try_bind(sym("y"), num(3)));
    assert!(!s.try_bind(sym("y"), num(4)));
    assert!(s.deref(&var("y")) == num(3));
    assert!(s.try_bind(sym("y"), num(3)));
}

#[test]
fn variable_subber_folds_variables() {
    let v = polar_core::simplify::VariableSubber::new(sym("x"));
    assert!(v.fold_variable(sym("x")) == sym("_this"));
    assert!(v.fold_rest_variable(sym("y")) == sym("y"));
    assert!(v.fold_term(&list(vec![var("x"), num(1)])) == list(vec![var("_this"), num(1)]));
}

#[test]
fn simplify_bindings_with_fuel_rejects_non_conjunction() {
    let mut b = Bindings::new();
    b.insert(sym("x"), op(Operator::Gt, vec![var("x"), num(1)]));
    assert!(polar_core::simplify::simplify_bindings_with_fuel(b, false, 100).is_none());
    let mut b = Bindings::new();
    b.insert(sym("x"), and(vec![unify(var("x"), num(1))]));
    let r = polar_core::simplify::simplify_bindings_with_fuel(b, true, 100).unwrap().unwrap();
    assert!(*r.get(&sym("x")).unwrap() == num(1));
}
