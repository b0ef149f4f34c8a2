use polar_core::bindings::Bindings;
use polar_core::partial::invert_operation;
use polar_core::terms::{false_op, true_op, Operation, Operator, Symbol, Term, Value};

fn var(name: &str) -> Term {
    Term::new(Value::Variable(Symbol::new(name)))
}

fn num(n: i64) -> Term {
    Term::new(Value::Number(n))
}

fn op(operator: Operator, args: Vec<Term>) -> Term {
    Operation { operator, args }.into_term()
}

fn operation(operator: Operator, args: Vec<Term>) -> Operation {
    Operation { operator, args }
}

#[test]
fn symbols_starting_with_underscore_are_temporary() {
    assert!(Symbol::new("_this").is_temporary_var());
    assert!(Symbol::new("_x_12").is_temporary_var());
    assert!(!Symbol::new("x").is_temporary_var());
    assert!(!Symbol::new("").is_temporary_var());
}

#[test]
fn ground_terms() {
    assert!(num(1).is_ground());
    assert!(Term::new(Value::String("a".to_string())).is_ground());
    assert!(Term::new(Value::Boolean(true)).is_ground());
    assert!(!var("x").is_ground());
    assert!(Term::new(Value::List(vec![num(1), num(2)])).is_ground());
    assert!(!Term::new(Value::List(vec![num(1), var("y")])).is_ground());
    assert!(op(Operator::Add, vec![num(1), num(2)]).is_ground());
    assert!(!op(Operator::Add, vec![num(1), var("z")]).is_ground());
}

#[test]
fn variables_in_order_of_occurrence() {
    let t = op(
        Operator::Unify,
        vec![var("x"), Term::new(Value::List(vec![var("y"), Term::new(Value::RestVariable(Symbol::new("z")))]))],
    );
    let mut vars: Vec<Symbol> = Vec::new();
    t.variables(&mut vars);
    assert!(vars == vec![Symbol::new("x"), Symbol::new("y"), Symbol::new("z")]);
    let o = operation(Operator::And, vec![t]);
    assert!(o.variables() == vec![Symbol::new("x"), Symbol::new("y"), Symbol::new("z")]);
}

#[test]
fn equality_is_structural() {
    assert!(op(Operator::Gt, vec![var("x"), num(1)]) == op(Operator::Gt, vec![var("x"), num(1)]));
    assert!(op(Operator::Gt, vec![var("x"), num(1)]) != op(Operator::Lt, vec![var("x"), num(1)]));
    assert!(op(Operator::Gt, vec![var("x"), num(1)]) != op(Operator::Gt, vec![var("x"), num(2)]));
    assert!(var("x") != Term::new(Value::RestVariable(Symbol::new("x"))));
    assert!(var("x").clone() == var("x"));
}

#[test]
fn mirror_reverses_comparisons() {
    let gt = operation(Operator::Gt, vec![var("a"), num(1)]);
    assert!(gt.mirror() == operation(Operator::Lt, vec![num(1), var("a")]));
    let geq = operation(Operator::Geq, vec![var("a"), num(1)]);
    assert!(geq.mirror() == operation(Operator::Leq, vec![num(1), var("a")]));
    let u = operation(Operator::Unify, vec![var("a"), num(1)]);
    assert!(u.mirror() == operation(Operator::Unify, vec![num(1), var("a")]));
    let add = operation(Operator::Add, vec![var("a"), num(1)]);
    assert!(add.mirror() == add);
    assert!(gt.mirror().mirror() == gt);
}

#[test]
fn constraints_of_a_conjunction() {
    let a = operation(Operator::Gt, vec![var("x"), num(1)]);
    let b = operation(Operator::Lt, vec![var("x"), num(9)]);
    let conj = operation(Operator::And, vec![a.clone().into_term(), b.clone().into_term()]);
    let cs = conj.constraints();
    assert!(cs == vec![a.clone(), b.clone()]);
    let rebuilt = conj.clone_with_constraints(vec![b.clone()]);
    assert!(rebuilt == operation(Operator::And, vec![b.into_term()]));
}

#[test]
fn true_and_false() {
    assert!(true_op() == operation(Operator::And, vec![]));
    assert!(false_op() == operation(Operator::Or, vec![]));
}

#[test]
fn invert_conjunction_and_comparisons() {
    let o = operation(
        Operator::And,
        vec![op(Operator::Unify, vec![var("x"), num(1)]), op(Operator::Gt, vec![var("x"), num(2)])],
    );
    let inv = invert_operation(o);
    let expected = operation(
        Operator::Or,
        vec![op(Operator::Neq, vec![var("x"), num(1)]), op(Operator::Leq, vec![var("x"), num(2)])],
    );
    assert!(inv == expected);
    let neq = operation(Operator::Neq, vec![var("x"), num(1)]);
    assert!(invert_operation(neq) == operation(Operator::Unify, vec![var("x"), num(1)]));
    let lt = operation(Operator::Lt, vec![var("x"), num(1)]);
    assert!(invert_operation(lt) == operation(Operator::Geq, vec![var("x"), num(1)]));
}

#[test]
fn invert_negation_and_isa() {
    let inner = operation(Operator::Gt, vec![var("x"), num(1)]);
    let not = operation(Operator::Not, vec![inner.clone().into_term()]);
    assert!(invert_operation(not) == inner);
    let isa = operation(Operator::Isa, vec![var("x"), var("y")]);
    assert!(invert_operation(isa.clone()) == operation(Operator::Not, vec![isa.into_term()]));
    let dot = operation(Operator::Dot, vec![var("x"), num(1)]);
    assert!(invert_operation(dot.clone()) == dot);
}

#[test]
fn bindings_insert_get_replace() {
    let mut b = Bindings::new();
    assert_eq!(b.len(), 0);
    assert!(!b.contains_key(&Symbol::new("x")));
    b.insert(Symbol::new("x"), num(1));
    b.insert(Symbol::new("y"), num(2));
    assert_eq!(b.len(), 2);
    assert!(*b.get(&Symbol::new("x")).unwrap() == num(1));
    b.insert(Symbol::new("x"), num(3));
    assert_eq!(b.len(), 2);
    assert!(*b.get(&Symbol::new("x")).unwrap() == num(3));
    assert!(b.get(&Symbol::new("z")).is_none());
    let (k, v) = b.entry_at(1);
    assert!(*k == Symbol::new("y"));
    assert!(*v == num(2));
    let c = b.clone();
    b.clear();
    assert_eq!(b.len(), 0);
    assert_eq!(c.len(), 2);
    assert!(*c.get(&Symbol::new("y")).unwrap() == num(2));
}
