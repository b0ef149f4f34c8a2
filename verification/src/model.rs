//! The mathematical model of simplification: what each step of the
//! simplifier computes, over term models and maps of bindings.
//!
//! A step that the simplifier cannot complete (an argument that is not of the
//! expected shape, a conflicting binding, a negation it cannot form) is modelled
//! as `None`.  The folding functions take a fuel argument that bounds the depth
//! of the computation; `None` is also the result when the fuel runs out.
use vstd::prelude::*;
use crate::terms::{
    all_exprs, as_ops, exprs, expr_op, ground, is_temp_name, is_var, mirror_model, true_model,
    var_name, vars_of, vars_of_seq, Name, OpModel, Operator, TermModel,
};
use crate::partial::invert_model;

verus! {

/// Bindings of variable names to terms.
pub type Env = Map<Name, TermModel>;

/// The name `_this`.
pub open spec fn this_name() -> Name {
    seq!['_', 't', 'h', 'i', 's']
}

// ---------------------------------------------------------------------------
// Substituting `_this`
// ---------------------------------------------------------------------------

/// `t` with every variable and rest variable named `this` renamed to `_this`.
pub open spec fn subst_this(this: Name, t: TermModel) -> TermModel
    decreases t,
{
    match t {
        TermModel::Variable(v) => if v == this {
            TermModel::Variable(this_name())
        } else {
            t
        },
        TermModel::RestVariable(v) => if v == this {
            TermModel::RestVariable(this_name())
        } else {
            t
        },
        TermModel::List(ts) => TermModel::List(subst_this_all(this, ts)),
        TermModel::Expression(o) => TermModel::Expression(
            OpModel { operator: o.operator, args: subst_this_all(this, o.args) },
        ),
        _ => t,
    }
}

/// `subst_this` applied to each term.
pub open spec fn subst_this_all(this: Name, ts: Seq<TermModel>) -> Seq<TermModel>
    decreases ts,
{
    if ts.len() == 0 {
        Seq::empty()
    } else {
        subst_this_all(this, ts.drop_last()).push(subst_this(this, ts.last()))
    }
}

/// The term given unchanged when it is the variable `this` itself; otherwise
/// the term with every occurrence of the variable `this` renamed to `_this`.
pub open spec fn sub_this_model(this: Name, t: TermModel) -> TermModel {
    if is_var(t) && var_name(t) == this {
        t
    } else {
        subst_this(this, t)
    }
}

// ---------------------------------------------------------------------------
// Variables, `_this`, and bindings
// ---------------------------------------------------------------------------

/// `t` is a variable or rest variable named `this`.
pub open spec fn is_this(this: Name, t: TermModel) -> bool {
    is_var(t) && var_name(t) == this
}

/// Whether `t` is `this` or a chain of field accesses `this.a.b...`;
/// `None` where a field access has no argument.
pub open spec fn dot_this(this: Name, t: TermModel) -> Option<bool>
    decreases t,
{
    match t {
        TermModel::Expression(e) => if e.operator == Operator::Dot {
            if e.args.len() == 0 {
                None
            } else {
                dot_this(this, e.args[0])
            }
        } else {
            Some(false)
        },
        _ => Some(is_this(this, t)),
    }
}

/// `dot_this(l) || dot_this(r)`, evaluated from the left.
pub open spec fn dot_this_either(this: Name, l: TermModel, r: TermModel) -> Option<bool> {
    match dot_this(this, l) {
        None => None,
        Some(true) => Some(true),
        Some(false) => dot_this(this, r),
    }
}

/// One step of dereferencing: a bound variable gives its binding.
pub open spec fn deref(b: Env, t: TermModel) -> TermModel {
    if is_var(t) && b.dom().contains(var_name(t)) {
        b[var_name(t)]
    } else {
        t
    }
}

/// Binding `var` to `value` would contradict its current binding: both are
/// ground and they differ.
pub open spec fn bind_conflict(b: Env, var: Name, value: TermModel) -> bool {
    b.dom().contains(var) && ground(b[var]) && ground(deref(b, value)) && b[var] != deref(
        b,
        value,
    )
}

/// `var` bound to the dereferenced `value`; `None` on a conflict.
pub open spec fn bind_model(b: Env, var: Name, value: TermModel) -> Option<Env> {
    if bind_conflict(b, var, value) {
        None
    } else {
        Some(b.insert(var, deref(b, value)))
    }
}

// ---------------------------------------------------------------------------
// Preparing conjunctions
// ---------------------------------------------------------------------------

/// The constraints without the empty conjunction, keeping the first of any
/// constraints that are equal or mirror images of each other.
pub open spec fn dedup_model(cs: Seq<OpModel>) -> Seq<OpModel>
    decreases cs.len(),
{
    if cs.len() == 0 {
        Seq::empty()
    } else {
        let d = dedup_model(cs.drop_last());
        let c = cs.last();
        if c == true_model() || d.contains(mirror_model(c)) || d.contains(c) {
            d
        } else {
            d.push(c)
        }
    }
}

/// A unification, equality or inequality.
pub open spec fn is_comparison(op: Operator) -> bool {
    op == Operator::Unify || op == Operator::Eq || op == Operator::Neq
}

/// A comparison whose two sides are the same term.
pub open spec fn is_trivial(c: OpModel) -> bool {
    is_comparison(c.operator) && c.args[0] == c.args[1]
}

/// The constraints without trivial comparisons; `None` if a comparison does
/// not have exactly two sides.
pub open spec fn drop_trivial_model(cs: Seq<OpModel>) -> Option<Seq<OpModel>>
    decreases cs.len(),
{
    if cs.len() == 0 {
        Some(Seq::empty())
    } else {
        match drop_trivial_model(cs.drop_last()) {
            None => None,
            Some(d) => {
                let c = cs.last();
                if is_comparison(c.operator) && c.args.len() != 2 {
                    None
                } else if is_trivial(c) {
                    Some(d)
                } else {
                    Some(d.push(c))
                }
            },
        }
    }
}

// ---------------------------------------------------------------------------
// Cycles of variables unified with each other
// ---------------------------------------------------------------------------

/// Whether a constraint unifies two variables, neither of which is `_this`
/// or a field of it: `Some(Some((l, r)))` for such a unification, `Some(None)`
/// for any other constraint, `None` where the check cannot be made.
pub open spec fn unify_pair(this: Name, c: OpModel) -> Option<Option<(Name, Name)>> {
    if c.operator == Operator::Unify || c.operator == Operator::Eq {
        if c.args.len() < 2 {
            None
        } else {
            let l = c.args[0];
            let r = c.args[1];
            match dot_this_either(this, l, r) {
                None => None,
                Some(true) => Some(None),
                Some(false) => if is_var(l) && is_var(r) {
                    Some(Some((var_name(l), var_name(r))))
                } else {
                    Some(None)
                },
            }
        }
    } else {
        Some(None)
    }
}

/// The variable pairs of the unifications among the constraints, in order,
/// and the remaining constraints.
pub open spec fn unify_scan(this: Name, cs: Seq<OpModel>) -> Option<
    (Seq<(Name, Name)>, Seq<OpModel>),
>
    decreases cs.len(),
{
    if cs.len() == 0 {
        Some((Seq::empty(), Seq::empty()))
    } else {
        match unify_scan(this, cs.drop_last()) {
            None => None,
            Some((ps, rest)) => match unify_pair(this, cs.last()) {
                None => None,
                Some(Some(p)) => Some((ps.push(p), rest)),
                Some(None) => Some((ps, rest.push(cs.last()))),
            },
        }
    }
}

/// `s` with `x` added at the end unless it is already there.
pub open spec fn set_add(s: Seq<Name>, x: Name) -> Seq<Name> {
    if s.contains(x) {
        s
    } else {
        s.push(x)
    }
}

/// The first cycle from `i` on that holds `l` or `r`, or the number of cycles.
pub open spec fn first_touch(cycles: Seq<Seq<Name>>, l: Name, r: Name, i: int) -> int
    decreases cycles.len() - i,
{
    if i < 0 || i >= cycles.len() {
        cycles.len() as int
    } else if cycles[i].contains(l) || cycles[i].contains(r) {
        i
    } else {
        first_touch(cycles, l, r, i + 1)
    }
}

/// Adds the pair `(l, r)` to the first cycle that holds either of them, or
/// starts a new cycle with both.
pub open spec fn add_pair(cycles: Seq<Seq<Name>>, p: (Name, Name)) -> Seq<Seq<Name>> {
    let (l, r) = p;
    let k = first_touch(cycles, l, r, 0);
    if k < cycles.len() {
        if cycles[k].contains(l) {
            cycles.update(k, set_add(cycles[k], r))
        } else {
            cycles.update(k, set_add(cycles[k], l))
        }
    } else {
        cycles.push(set_add(seq![r], l))
    }
}

/// The cycles built from the pairs in order.
pub open spec fn build_cycles(ps: Seq<(Name, Name)>) -> Seq<Seq<Name>>
    decreases ps.len(),
{
    if ps.len() == 0 {
        Seq::empty()
    } else {
        add_pair(build_cycles(ps.drop_last()), ps.last())
    }
}

/// `a` and `b` share a name.
pub open spec fn overlaps(a: Seq<Name>, b: Seq<Name>) -> bool {
    exists|j: int| 0 <= j < b.len() && a.contains(#[trigger] b[j])
}

/// The first cycle from `i` on that shares a name with `c`, or the number of cycles.
pub open spec fn first_overlap(cycles: Seq<Seq<Name>>, c: Seq<Name>, i: int) -> int
    decreases cycles.len() - i,
{
    if i < 0 || i >= cycles.len() {
        cycles.len() as int
    } else if overlaps(cycles[i], c) {
        i
    } else {
        first_overlap(cycles, c, i + 1)
    }
}

/// `a` extended with the names of `b` that it lacks, in the order of `b`.
pub open spec fn set_union(a: Seq<Name>, b: Seq<Name>) -> Seq<Name>
    decreases b.len(),
{
    if b.len() == 0 {
        a
    } else {
        set_add(set_union(a, b.drop_last()), b.last())
    }
}

/// Merges `c` into the first cycle it overlaps, or adds it as a new cycle.
pub open spec fn join_one(joined: Seq<Seq<Name>>, c: Seq<Name>) -> Seq<Seq<Name>> {
    let k = first_overlap(joined, c, 0);
    if k < joined.len() {
        joined.update(k, set_union(joined[k], c))
    } else {
        joined.push(c)
    }
}

/// The cycles merged in order.
pub open spec fn join_cycles(cycles: Seq<Seq<Name>>) -> Seq<Seq<Name>>
    decreases cycles.len(),
{
    if cycles.len() == 0 {
        Seq::empty()
    } else {
        join_one(join_cycles(cycles.drop_last()), cycles.last())
    }
}

/// The first name from `i` on that is not temporary; the first name of the
/// cycle if there is none; the empty name for an empty cycle.
pub open spec fn pick_from(c: Seq<Name>, i: int) -> Name
    decreases c.len() - i,
{
    if i < 0 || i >= c.len() {
        if c.len() > 0 {
            c[0]
        } else {
            Seq::empty()
        }
    } else if !is_temp_name(c[i]) {
        c[i]
    } else {
        pick_from(c, i + 1)
    }
}

/// The representative of a cycle.
pub open spec fn pick(c: Seq<Name>) -> Name {
    pick_from(c, 0)
}

/// Binds each name of the cycle other than `sym` to the variable `sym`, in order.
pub open spec fn bind_cycle(b: Env, c: Seq<Name>, sym: Name) -> Option<Env>
    decreases c.len(),
{
    if c.len() == 0 {
        Some(b)
    } else {
        match bind_cycle(b, c.drop_last(), sym) {
            None => None,
            Some(b1) => if c.last() != sym {
                bind_model(b1, c.last(), TermModel::Variable(sym))
            } else {
                Some(b1)
            },
        }
    }
}

/// Binds every cycle to its representative, cycle by cycle.
pub open spec fn bind_cycles(b: Env, cycles: Seq<Seq<Name>>) -> Option<Env>
    decreases cycles.len(),
{
    if cycles.len() == 0 {
        Some(b)
    } else {
        match bind_cycles(b, cycles.drop_last()) {
            None => None,
            Some(b1) => bind_cycle(b1, cycles.last(), pick(cycles.last())),
        }
    }
}

// ---------------------------------------------------------------------------
// Turning one constraint into bindings
// ---------------------------------------------------------------------------

/// The constraints other than those equal to `c`.
pub open spec fn without(cs: Seq<OpModel>, c: OpModel) -> Seq<OpModel>
    decreases cs.len(),
{
    if cs.len() == 0 {
        Seq::empty()
    } else if cs.last() == c {
        without(cs.drop_last(), c)
    } else {
        without(cs.drop_last(), c).push(cs.last())
    }
}

/// The names of the variables of the constraints other than `c`.
pub open spec fn other_vars(cs: Seq<OpModel>, c: OpModel) -> Seq<Name> {
    vars_of_seq(exprs(without(cs, c)))
}

/// Whether the constraint can be dropped in favour of bindings, with the
/// bindings after making them; `others` are the variables of the other
/// constraints.
pub open spec fn maybe_bind_model(this: Name, b: Env, c: OpModel, others: Seq<Name>) -> Option<
    (Env, bool),
> {
    if c.operator == Operator::And {
        Some((b, c.args.len() == 0))
    } else if c.operator == Operator::Unify || c.operator == Operator::Eq {
        if c.args.len() < 2 {
            None
        } else {
            let l = c.args[0];
            let r = c.args[1];
            if l == r {
                Some((b, true))
            } else {
                let g1: Option<bool> = if is_var(l) {
                    match dot_this(this, r) {
                        None => None,
                        Some(d) => Some(d && (is_this(this, r) || others.contains(var_name(l)))),
                    }
                } else {
                    Some(false)
                };
                match g1 {
                    None => None,
                    Some(true) => match bind_model(b, var_name(l), r) {
                        None => None,
                        Some(b1) => Some((b1, true)),
                    },
                    Some(false) => {
                        let g2: Option<bool> = if is_var(r) {
                            match dot_this(this, l) {
                                None => None,
                                Some(d) => Some(
                                    d && (is_this(this, l) || others.contains(var_name(r))),
                                ),
                            }
                        } else {
                            Some(false)
                        };
                        match g2 {
                            None => None,
                            Some(true) => match bind_model(b, var_name(r), l) {
                                None => None,
                                Some(b1) => Some((b1, true)),
                            },
                            Some(false) => match dot_this_either(this, l, r) {
                                None => None,
                                Some(true) => Some((b, false)),
                                Some(false) => if is_var(l) && is_var(r) {
                                    match bind_model(b, var_name(l), r) {
                                        None => None,
                                        Some(b1) => match bind_model(b1, var_name(r), l) {
                                            None => None,
                                            Some(b2) => Some((b2, true)),
                                        },
                                    }
                                } else if is_var(l) {
                                    match bind_model(b, var_name(l), r) {
                                        None => None,
                                        Some(b1) => Some((b1, true)),
                                    }
                                } else if is_var(r) {
                                    match bind_model(b, var_name(r), l) {
                                        None => None,
                                        Some(b1) => Some((b1, true)),
                                    }
                                } else {
                                    Some((b, false))
                                },
                            },
                        }
                    },
                }
            }
        }
    } else {
        Some((b, false))
    }
}

/// The first constraint from `i` on that can be replaced with bindings, with
/// the bindings after making them.
pub open spec fn find_binding(this: Name, b: Env, cs: Seq<OpModel>, i: int) -> Option<
    (Env, Option<int>),
>
    decreases cs.len() - i,
{
    if i < 0 || i >= cs.len() {
        Some((b, None))
    } else {
        match maybe_bind_model(this, b, cs[i], other_vars(cs, cs[i])) {
            None => None,
            Some((b1, true)) => Some((b1, Some(i))),
            Some((_, false)) => find_binding(this, b, cs, i + 1),
        }
    }
}

// ---------------------------------------------------------------------------
// Folding
// ---------------------------------------------------------------------------

/// One pass of the simplifier over a term: dereference it, then fold what it holds.
pub open spec fn fold_term_model(this: Name, b: Env, t: TermModel, f: nat) -> Option<
    (Env, TermModel),
>
    decreases f, 0nat,
{
    if f == 0 {
        None
    } else {
        let d = deref(b, t);
        match d {
            TermModel::List(ts) => match fold_args_model(this, b, ts, (f - 1) as nat) {
                Some((b1, ts1)) => Some((b1, TermModel::List(ts1))),
                None => None,
            },
            TermModel::Expression(o) => match fold_op_model(this, b, o, (f - 1) as nat) {
                Some((b1, o1)) => Some((b1, TermModel::Expression(o1))),
                None => None,
            },
            _ => Some((b, d)),
        }
    }
}

/// Folds the terms in order, the bindings passing from one to the next.
pub open spec fn fold_args_model(this: Name, b: Env, ts: Seq<TermModel>, f: nat) -> Option<
    (Env, Seq<TermModel>),
>
    decreases f, ts.len() + 1,
{
    if ts.len() == 0 {
        Some((b, Seq::empty()))
    } else {
        match fold_args_model(this, b, ts.drop_last(), f) {
            None => None,
            Some((b1, xs)) => match fold_term_model(this, b1, ts.last(), f) {
                None => None,
                Some((b2, x)) => Some((b2, xs.push(x))),
            },
        }
    }
}

/// The operation with its arguments folded.
pub open spec fn gen_fold_model(this: Name, b: Env, o: OpModel, f: nat) -> Option<(Env, OpModel)>
    decreases f, o.args.len() + 2,
{
    match fold_args_model(this, b, o.args, f) {
        Some((b1, args)) => Some((b1, OpModel { operator: o.operator, args })),
        None => None,
    }
}

/// A conjunction of at least two constraints: bind the cycles of unified
/// variables, drop those unifications, replace one more constraint with
/// bindings where one can be, and fold the rest.
pub open spec fn and_case_model(this: Name, b: Env, cs: Seq<OpModel>, f: nat) -> Option<
    (Env, OpModel),
>
    decreases f, 0nat,
{
    if f == 0 {
        None
    } else {
        match unify_scan(this, cs) {
            None => None,
            Some((ps, rest)) => match bind_cycles(b, join_cycles(build_cycles(ps))) {
                None => None,
                Some(b1) => match find_binding(this, b1, rest, 0) {
                    None => None,
                    Some((b2, pos)) => {
                        let rest2 = match pos {
                            Some(i) => rest.remove(i),
                            None => rest,
                        };
                        gen_fold_model(
                            this,
                            b2,
                            OpModel { operator: Operator::And, args: exprs(rest2) },
                            (f - 1) as nat,
                        )
                    },
                },
            },
        }
    }
}

/// The arguments of a conjunction after dropping the empty conjunction and
/// duplicate constraints.
pub open spec fn prepare_and(o: OpModel) -> Option<OpModel> {
    if o.operator == Operator::And {
        if all_exprs(o.args) {
            Some(OpModel { operator: Operator::And, args: exprs(dedup_model(as_ops(o.args))) })
        } else {
            None
        }
    } else {
        Some(o)
    }
}

/// A conjunction or disjunction without its trivial comparisons.
pub open spec fn prepare_and_or(o: OpModel) -> Option<OpModel> {
    if o.operator == Operator::And || o.operator == Operator::Or {
        if all_exprs(o.args) {
            match drop_trivial_model(as_ops(o.args)) {
                Some(d) => Some(OpModel { operator: o.operator, args: exprs(d) }),
                None => None,
            }
        } else {
            None
        }
    } else {
        Some(o)
    }
}

/// One pass of the simplifier over an operation.
pub open spec fn fold_op_model(this: Name, b: Env, o: OpModel, f: nat) -> Option<(Env, OpModel)>
    decreases f, 0nat,
{
    if f == 0 {
        None
    } else {
        let f1 = (f - 1) as nat;
        match prepare_and(o) {
            None => None,
            Some(o1) => match prepare_and_or(o1) {
                None => None,
                Some(o2) => {
                    let n = o2.args.len();
                    let and_or = o2.operator == Operator::And || o2.operator == Operator::Or;
                    if and_or && n == 0 {
                        Some((b, o2))
                    } else if and_or && n == 1 {
                        gen_fold_model(this, b, expr_op(o2.args[0]), f1)
                    } else if o2.operator == Operator::And {
                        and_case_model(this, b, as_ops(o2.args), f1)
                    } else if o2.operator == Operator::Not {
                        if n != 1 {
                            None
                        } else {
                            match simplify_loop_model(this, b, o2.args[0], f1) {
                                None => None,
                                Some((_, s)) => match s {
                                    TermModel::Expression(e) => match invert_model(e) {
                                        Some(e2) => Some((b, e2)),
                                        None => None,
                                    },
                                    _ => None,
                                },
                            }
                        }
                    } else {
                        gen_fold_model(this, b, o2, f1)
                    }
                },
            },
        }
    }
}

/// Passes over the term until one leaves it unchanged; the bindings are
/// cleared between passes.
pub open spec fn simplify_loop_model(this: Name, b: Env, t: TermModel, f: nat) -> Option<
    (Env, TermModel),
>
    decreases f, 0nat,
{
    if f == 0 {
        None
    } else {
        match fold_term_model(this, b, t, (f - 1) as nat) {
            None => None,
            Some((b1, t1)) => if t1 == t {
                Some((b1, t1))
            } else {
                simplify_loop_model(this, Map::empty(), t1, (f - 1) as nat)
            },
        }
    }
}

/// Simplification of `t` comes to rest, and no step of it fails.
pub open spec fn simplify_runs(this: Name, b: Env, t: TermModel) -> bool {
    simplify_loop_model(this, b, t, max_fuel()) is Some
}

/// The bindings and the term at rest.
pub open spec fn simplify_result(this: Name, b: Env, t: TermModel) -> (Env, TermModel) {
    simplify_loop_model(this, b, t, max_fuel()).unwrap()
}

/// The largest fuel that a 64-bit counter holds: the depth of nested passes
/// and recursive steps that no machine exhausts.
pub open spec fn max_fuel() -> nat {
    u64::MAX as nat
}

// ---------------------------------------------------------------------------
// Whole simplifications
// ---------------------------------------------------------------------------

/// `_this = x` (or `x = _this`) with `x` ground becomes `x`; `_this = _this`
/// becomes true; `None` for a unification without two sides.
pub open spec fn trivial_constraint_model(this: Name, t: TermModel) -> Option<TermModel> {
    match t {
        TermModel::Expression(o) => if o.operator == Operator::Unify {
            if o.args.len() < 2 {
                None
            } else {
                let l = o.args[0];
                let r = o.args[1];
                if is_var(l) && is_var(r) && var_name(l) == this && var_name(r) == this {
                    Some(TermModel::Expression(true_model()))
                } else if is_var(l) && var_name(l) == this && ground(r) {
                    Some(r)
                } else if is_var(r) && var_name(r) == this && ground(l) {
                    Some(l)
                } else {
                    Some(t)
                }
            }
        } else {
            Some(t)
        },
        _ => Some(t),
    }
}

/// An expression other than a conjunction, wrapped in a conjunction.
pub open spec fn wrap_in_and(t: TermModel) -> TermModel {
    match t {
        TermModel::Expression(o) => if o.operator != Operator::And {
            TermModel::Expression(OpModel { operator: Operator::And, args: seq![t] })
        } else {
            t
        },
        _ => t,
    }
}

/// The simplified constraint on `var`, computed with fuel `f`; `None` where a
/// step fails or the fuel runs out.
pub open spec fn simplify_partial_at(var: Name, t: TermModel, f: nat) -> Option<TermModel> {
    match simplify_loop_model(var, Map::empty(), t, f) {
        None => None,
        Some((_, s)) => match trivial_constraint_model(var, s) {
            None => None,
            Some(s2) => Some(wrap_in_and(s2)),
        },
    }
}

/// Simplifying `t` for the variable `var` from no bindings comes to rest and no step fails.
pub open spec fn simplify_partial_ok(var: Name, t: TermModel) -> bool {
    simplify_partial_at(var, t, max_fuel()) is Some
}

/// The simplified constraint on `var`.
pub open spec fn simplify_partial_model(var: Name, t: TermModel) -> TermModel {
    simplify_partial_at(var, t, max_fuel()).unwrap()
}

// ---------------------------------------------------------------------------
// Prefixes of computations that succeed
// ---------------------------------------------------------------------------

pub proof fn lemma_fold_args_prefix(this: Name, b: Env, ts: Seq<TermModel>, f: nat, i: int)
    requires
        0 <= i <= ts.len(),
        fold_args_model(this, b, ts, f) is Some,
    ensures
        fold_args_model(this, b, ts.take(i), f) is Some,
    decreases ts.len(),
{
    if i < ts.len() {
        lemma_fold_args_prefix(this, b, ts.drop_last(), f, i);
        assert(ts.drop_last().take(i) =~= ts.take(i));
    } else {
        assert(ts.take(i) =~= ts);
    }
}

pub proof fn lemma_drop_trivial_prefix(cs: Seq<OpModel>, i: int)
    requires
        0 <= i <= cs.len(),
        drop_trivial_model(cs) is Some,
    ensures
        drop_trivial_model(cs.take(i)) is Some,
    decreases cs.len(),
{
    if i < cs.len() {
        lemma_drop_trivial_prefix(cs.drop_last(), i);
        assert(cs.drop_last().take(i) =~= cs.take(i));
    } else {
        assert(cs.take(i) =~= cs);
    }
}

pub proof fn lemma_unify_scan_prefix(this: Name, cs: Seq<OpModel>, i: int)
    requires
        0 <= i <= cs.len(),
        unify_scan(this, cs) is Some,
    ensures
        unify_scan(this, cs.take(i)) is Some,
    decreases cs.len(),
{
    if i < cs.len() {
        lemma_unify_scan_prefix(this, cs.drop_last(), i);
        assert(cs.drop_last().take(i) =~= cs.take(i));
    } else {
        assert(cs.take(i) =~= cs);
    }
}

pub proof fn lemma_bind_cycle_prefix(b: Env, c: Seq<Name>, sym: Name, i: int)
    requires
        0 <= i <= c.len(),
        bind_cycle(b, c, sym) is Some,
    ensures
        bind_cycle(b, c.take(i), sym) is Some,
    decreases c.len(),
{
    if i < c.len() {
        lemma_bind_cycle_prefix(b, c.drop_last(), sym, i);
        assert(c.drop_last().take(i) =~= c.take(i));
    } else {
        assert(c.take(i) =~= c);
    }
}

pub proof fn lemma_bind_cycles_prefix(b: Env, cycles: Seq<Seq<Name>>, i: int)
    requires
        0 <= i <= cycles.len(),
        bind_cycles(b, cycles) is Some,
    ensures
        bind_cycles(b, cycles.take(i)) is Some,
    decreases cycles.len(),
{
    if i < cycles.len() {
        lemma_bind_cycles_prefix(b, cycles.drop_last(), i);
        assert(cycles.drop_last().take(i) =~= cycles.take(i));
    } else {
        assert(cycles.take(i) =~= cycles);
    }
}

// ---------------------------------------------------------------------------
// Simplifying bindings
// ---------------------------------------------------------------------------

/// The term given back for the binding of `k`: a constraint is simplified; a
/// temporary variable bound to another variable is replaced with that
/// variable; anything else stays.
pub open spec fn entry_result(b: Env, k: Name) -> TermModel {
    let v = b[k];
    match v {
        TermModel::Expression(_) => simplify_partial_model(k, v),
        TermModel::Variable(w) => if is_temp_name(w) && b.dom().contains(w) && is_var(b[w]) {
            b[w]
        } else {
            v
        },
        TermModel::RestVariable(w) => if is_temp_name(w) && b.dom().contains(w) && is_var(b[w]) {
            b[w]
        } else {
            v
        },
        _ => v,
    }
}

/// The binding of `k` can be given back: a constraint is a conjunction whose
/// simplification completes.
pub open spec fn entry_ok(b: Env, k: Name) -> bool {
    entry_ok_at(b, k, max_fuel())
}

/// The binding of `k` can be given back with fuel `f`.
pub open spec fn entry_ok_at(b: Env, k: Name, f: nat) -> bool {
    match b[k] {
        TermModel::Expression(o) => o.operator == Operator::And && simplify_partial_at(k, b[k], f)
            is Some,
        _ => true,
    }
}

/// The variables that the term given back for `k` mentions.
pub open spec fn entry_refs(b: Env, k: Name) -> Seq<Name> {
    vars_of(entry_result(b, k))
}

/// A chain of bound names from a non-temporary one, each mentioned by the
/// term given back for the one before.
pub open spec fn is_ref_path(b: Env, p: Seq<Name>) -> bool {
    &&& p.len() > 0
    &&& !is_temp_name(p[0])
    &&& forall|i: int| 0 <= i < p.len() ==> b.dom().contains(#[trigger] p[i])
    &&& forall|i: int| 0 <= i < p.len() - 1 ==> #[trigger] entry_refs(b, p[i]).contains(p[i + 1])
}

/// `k` is reached from a non-temporary name by following mentions.
pub open spec fn reachable(b: Env, k: Name) -> bool {
    exists|p: Seq<Name>| #[trigger] is_ref_path(b, p) && p.last() == k
}

/// The names whose bindings are given back: all of them, or those reached
/// from non-temporary names.
pub open spec fn returned_names(b: Env, all: bool) -> Set<Name> {
    if all {
        b.dom()
    } else {
        Set::new(|k: Name| reachable(b, k))
    }
}

/// Every binding that is given back can be.
pub open spec fn bindings_ok(b: Env, all: bool) -> bool {
    bindings_ok_at(b, all, max_fuel())
}

/// Every binding that is given back can be, with fuel `f`.
pub open spec fn bindings_ok_at(b: Env, all: bool, f: nat) -> bool {
    forall|k: Name| #[trigger] returned_names(b, all).contains(k) ==> entry_ok_at(b, k, f)
}

/// The bindings given back.
pub open spec fn simplified_bindings_model(b: Env, all: bool) -> Env {
    Map::new(|k: Name| returned_names(b, all).contains(k), |k: Name| entry_result(b, k))
}

/// A bound non-temporary name is reached.
pub proof fn lemma_root_reachable(b: Env, k: Name)
    requires
        b.dom().contains(k),
        !is_temp_name(k),
    ensures
        reachable(b, k),
{
    let p = seq![k];
    assert(is_ref_path(b, p));
}

/// A bound name mentioned by the term given back for a reached name is reached.
pub proof fn lemma_ref_reachable(b: Env, k: Name, n: Name)
    requires
        reachable(b, k),
        entry_refs(b, k).contains(n),
        b.dom().contains(n),
    ensures
        reachable(b, n),
{
    let p = choose|p: Seq<Name>| #[trigger] is_ref_path(b, p) && p.last() == k;
    let q = p.push(n);
    assert forall|i: int| 0 <= i < q.len() - 1 implies #[trigger] entry_refs(b, q[i]).contains(q[i + 1]) by {
        if i < p.len() - 1 {
            assert(q[i] == p[i] && q[i + 1] == p[i + 1]);
        } else {
            assert(q[i] == k);
        }
    }
    assert forall|i: int| 0 <= i < q.len() implies b.dom().contains(#[trigger] q[i]) by {
        if i < p.len() {
            assert(q[i] == p[i]);
        }
    }
    assert(is_ref_path(b, q));
}

/// A set that holds the bound non-temporary names and is closed under
/// mentions holds every reached name.
pub proof fn lemma_reachable_in_closed(b: Env, s: Set<Name>, k: Name)
    requires
        forall|r: Name| b.dom().contains(r) && !is_temp_name(r) ==> s.contains(r),
        forall|r: Name, n: Name|
            s.contains(r) && #[trigger] entry_refs(b, r).contains(n) && b.dom().contains(n) ==> #[trigger] s.contains(n),
        reachable(b, k),
    ensures
        s.contains(k),
{
    let p = choose|p: Seq<Name>| #[trigger] is_ref_path(b, p) && p.last() == k;
    lemma_path_in_closed(b, s, p, p.len() - 1);
}

proof fn lemma_path_in_closed(b: Env, s: Set<Name>, p: Seq<Name>, i: int)
    requires
        forall|r: Name| b.dom().contains(r) && !is_temp_name(r) ==> s.contains(r),
        forall|r: Name, n: Name|
            s.contains(r) && #[trigger] entry_refs(b, r).contains(n) && b.dom().contains(n) ==> #[trigger] s.contains(n),
        is_ref_path(b, p),
        0 <= i < p.len(),
    ensures
        s.contains(p[i]),
    decreases i,
{
    if i == 0 {
        assert(b.dom().contains(p[0]));
    } else {
        lemma_path_in_closed(b, s, p, i - 1);
        assert(entry_refs(b, p[i - 1]).contains(p[(i - 1) + 1]));
        assert(b.dom().contains(p[i]));
    }
}

/// A simplified constraint is never the bare constant false: an expression
/// that comes out of simplification is a conjunction.
pub proof fn lemma_simplified_is_conjunction(var: Name, t: TermModel)
    requires
        simplify_partial_ok(var, t),
    ensures
        simplify_partial_model(var, t) is Expression ==> expr_op(simplify_partial_model(var, t)).operator
            == Operator::And,
{
}

// ---------------------------------------------------------------------------
// More fuel gives the same result
// ---------------------------------------------------------------------------

/// A pass that completes with fuel `f` gives the same result with any more fuel.
pub proof fn lemma_fold_term_mono(this: Name, b: Env, t: TermModel, f: nat, g: nat)
    requires
        fold_term_model(this, b, t, f) is Some,
        f <= g,
    ensures
        fold_term_model(this, b, t, g) == fold_term_model(this, b, t, f),
    decreases f, 0nat,
{
    let d = deref(b, t);
    match d {
        TermModel::List(ts) => {
            lemma_fold_args_mono(this, b, ts, (f - 1) as nat, (g - 1) as nat);
        },
        TermModel::Expression(o) => {
            lemma_fold_op_mono(this, b, o, (f - 1) as nat, (g - 1) as nat);
        },
        _ => {},
    }
}

/// Folding arguments that completes with fuel `f` gives the same result with any more fuel.
pub proof fn lemma_fold_args_mono(this: Name, b: Env, ts: Seq<TermModel>, f: nat, g: nat)
    requires
        fold_args_model(this, b, ts, f) is Some,
        f <= g,
    ensures
        fold_args_model(this, b, ts, g) == fold_args_model(this, b, ts, f),
    decreases f, ts.len() + 1,
{
    if ts.len() > 0 {
        lemma_fold_args_mono(this, b, ts.drop_last(), f, g);
        let (b1, _) = fold_args_model(this, b, ts.drop_last(), f).unwrap();
        lemma_fold_term_mono(this, b1, ts.last(), f, g);
    }
}

/// Folding an operation's arguments that completes with fuel `f` gives the same result with any more fuel.
pub proof fn lemma_gen_fold_mono(this: Name, b: Env, o: OpModel, f: nat, g: nat)
    requires
        gen_fold_model(this, b, o, f) is Some,
        f <= g,
    ensures
        gen_fold_model(this, b, o, g) == gen_fold_model(this, b, o, f),
    decreases f, o.args.len() + 2,
{
    lemma_fold_args_mono(this, b, o.args, f, g);
}

/// A pass over an operation that completes with fuel `f` gives the same result with any more fuel.
pub proof fn lemma_fold_op_mono(this: Name, b: Env, o: OpModel, f: nat, g: nat)
    requires
        fold_op_model(this, b, o, f) is Some,
        f <= g,
    ensures
        fold_op_model(this, b, o, g) == fold_op_model(this, b, o, f),
    decreases f, 0nat,
{
    let f1 = (f - 1) as nat;
    let g1 = (g - 1) as nat;
    let o2 = prepare_and_or(prepare_and(o).unwrap()).unwrap();
    let n = o2.args.len();
    let and_or = o2.operator == Operator::And || o2.operator == Operator::Or;
    if and_or && n == 0 {
    } else if and_or && n == 1 {
        lemma_gen_fold_mono(this, b, expr_op(o2.args[0]), f1, g1);
    } else if o2.operator == Operator::And {
        lemma_and_case_mono(this, b, as_ops(o2.args), f1, g1);
    } else if o2.operator == Operator::Not {
        lemma_simplify_loop_mono(this, b, o2.args[0], f1, g1);
    } else {
        lemma_gen_fold_mono(this, b, o2, f1, g1);
    }
}

/// A conjunction step that completes with fuel `f` gives the same result with any more fuel.
pub proof fn lemma_and_case_mono(this: Name, b: Env, cs: Seq<OpModel>, f: nat, g: nat)
    requires
        and_case_model(this, b, cs, f) is Some,
        f <= g,
    ensures
        and_case_model(this, b, cs, g) == and_case_model(this, b, cs, f),
    decreases f, 0nat,
{
    let (ps, rest) = unify_scan(this, cs).unwrap();
    let b1 = bind_cycles(b, join_cycles(build_cycles(ps))).unwrap();
    let (b2, pos) = find_binding(this, b1, rest, 0).unwrap();
    let rest2 = match pos {
        Some(i) => rest.remove(i),
        None => rest,
    };
    lemma_gen_fold_mono(
        this,
        b2,
        OpModel { operator: Operator::And, args: exprs(rest2) },
        (f - 1) as nat,
        (g - 1) as nat,
    );
}

/// Simplification that comes to rest with fuel `f` gives the same result with any more fuel.
pub proof fn lemma_simplify_loop_mono(this: Name, b: Env, t: TermModel, f: nat, g: nat)
    requires
        simplify_loop_model(this, b, t, f) is Some,
        f <= g,
    ensures
        simplify_loop_model(this, b, t, g) == simplify_loop_model(this, b, t, f),
    decreases f, 0nat,
{
    lemma_fold_term_mono(this, b, t, (f - 1) as nat, (g - 1) as nat);
    let (b1, t1) = fold_term_model(this, b, t, (f - 1) as nat).unwrap();
    if t1 != t {
        lemma_simplify_loop_mono(this, Map::empty(), t1, (f - 1) as nat, (g - 1) as nat);
    }
}

/// Any fuel with which simplification comes to rest gives the result at rest.
pub proof fn lemma_simplify_result_at(this: Name, b: Env, t: TermModel, f: nat)
    requires
        simplify_loop_model(this, b, t, f) is Some,
        f <= max_fuel(),
    ensures
        simplify_runs(this, b, t),
        simplify_result(this, b, t) == simplify_loop_model(this, b, t, f).unwrap(),
{
    lemma_simplify_loop_mono(this, b, t, f, max_fuel());
}

/// Any fuel with which the constraint on `var` is simplified gives the simplified constraint.
pub proof fn lemma_simplify_partial_at(var: Name, t: TermModel, f: nat)
    requires
        simplify_partial_at(var, t, f) is Some,
        f <= max_fuel(),
    ensures
        simplify_partial_ok(var, t),
        simplify_partial_model(var, t) == simplify_partial_at(var, t, f).unwrap(),
{
    lemma_simplify_loop_mono(var, Map::empty(), t, f, max_fuel());
}

} // verus!
