//! Properties of simplification that hold for every input.
use vstd::prelude::*;
use crate::terms::{
    all_exprs, expr_op, exprs, ground, has_var, is_temp_name, mirror_model, true_model,
    false_model, vars_of, vars_of_seq, Name, OpModel, Operator, TermModel, as_ops,
};
use crate::model::{
    dedup_model, deref, drop_trivial_model, entry_result, fold_op_model, fold_term_model,
    gen_fold_model, is_comparison, is_this, is_trivial, maybe_bind_model, prepare_and,
    prepare_and_or, is_ref_path, returned_names, simplified_bindings_model, simplify_loop_model,
    simplify_result, simplify_runs, subst_this, subst_this_all, this_name,
    trivial_constraint_model, sub_this_model, Env,
};

verus! {

/// Substituting `_this` for `this` leaves no occurrence of `this`, unless the
/// term is the variable `this` itself, which is given back unchanged.
pub proof fn law_sub_this_removes_variable(this: Name, t: TermModel)
    requires
        this != this_name(),
        !(t is Variable && t == TermModel::Variable(this)),
        !(t is RestVariable && t == TermModel::RestVariable(this)),
    ensures
        !has_var(sub_this_model(this, t), this),
{
    lemma_subst_this_vars(this, t);
}

proof fn lemma_subst_this_vars(this: Name, t: TermModel)
    requires
        this != this_name(),
    ensures
        !vars_of(subst_this(this, t)).contains(this),
    decreases t,
{
    match t {
        TermModel::List(ts) => {
            lemma_subst_this_all_vars(this, ts);
        },
        TermModel::Expression(o) => {
            lemma_subst_this_all_vars(this, o.args);
        },
        TermModel::Variable(v) => {
            if v == this {
                assert(vars_of(subst_this(this, t)) =~= seq![this_name()]);
            } else {
                assert(vars_of(subst_this(this, t)) =~= seq![v]);
            }
        },
        TermModel::RestVariable(v) => {
            if v == this {
                assert(vars_of(subst_this(this, t)) =~= seq![this_name()]);
            } else {
                assert(vars_of(subst_this(this, t)) =~= seq![v]);
            }
        },
        _ => {},
    }
}

proof fn lemma_subst_this_all_vars(this: Name, ts: Seq<TermModel>)
    requires
        this != this_name(),
    ensures
        !vars_of_seq(subst_this_all(this, ts)).contains(this),
    decreases ts,
{
    if ts.len() > 0 {
        let s = subst_this_all(this, ts);
        lemma_subst_this_all_vars(this, ts.drop_last());
        lemma_subst_this_vars(this, ts.last());
        assert(s.drop_last() =~= subst_this_all(this, ts.drop_last()));
        assert(s.last() == subst_this(this, ts.last()));
        assert(vars_of_seq(s) == vars_of_seq(s.drop_last()) + vars_of(s.last()));
        if vars_of_seq(s).contains(this) {
            let a = vars_of_seq(s.drop_last());
            let c = vars_of(s.last());
            let j = choose|j: int| 0 <= j < (a + c).len() && (a + c)[j] == this;
            if j < a.len() {
                assert(a[j] == this);
            } else {
                assert(c[j - a.len()] == this);
            }
        }
    }
}

/// `_this = x` with `x` ground turns into `x`.
pub proof fn law_trivial_constraint_ground(this: Name, x: TermModel)
    requires
        crate::terms::ground(x),
        !(x is Variable && x == TermModel::Variable(this)),
    ensures
        trivial_constraint_model(
            this,
            TermModel::Expression(
                OpModel { operator: Operator::Unify, args: seq![TermModel::Variable(this), x] },
            ),
        ) == Some(x),
{
    let args = seq![TermModel::Variable(this), x];
    assert(args[0] == TermModel::Variable(this));
    assert(args[1] == x);
}

/// Simplification comes to rest: the term it gives back is left unchanged by
/// one more pass of the simplifier, which also gives back the same bindings;
/// that pass starts from the initial bindings or from none.
pub proof fn law_simplify_at_rest(this: Name, b: Env, t: TermModel)
    requires
        simplify_runs(this, b, t),
    ensures
        exists|g: nat|
            #![trigger fold_term_model(this, b, simplify_result(this, b, t).1, g)]
            #![trigger fold_term_model(this, Map::empty(), simplify_result(this, b, t).1, g)]
            fold_term_model(this, b, simplify_result(this, b, t).1, g) == Some(simplify_result(this, b, t))
                || fold_term_model(this, Map::empty(), simplify_result(this, b, t).1, g) == Some(
                simplify_result(this, b, t),
            ),
{
    let f = crate::model::max_fuel();
    lemma_loop_at_rest(this, b, t, f);
    let r = simplify_loop_model(this, b, t, f);
    assert(r == Some(simplify_result(this, b, t)));
    let g = choose|g: nat|
        #![trigger fold_term_model(this, b, r.unwrap().1, g)]
        #![trigger fold_term_model(this, Map::<Name, TermModel>::empty(), r.unwrap().1, g)]
        fold_term_model(this, b, r.unwrap().1, g) == r
            || fold_term_model(this, Map::empty(), r.unwrap().1, g) == r;
    assert(fold_term_model(this, b, simplify_result(this, b, t).1, g) == Some(simplify_result(this, b, t))
        || fold_term_model(this, Map::empty(), simplify_result(this, b, t).1, g) == Some(simplify_result(this, b, t)));
}

proof fn lemma_loop_at_rest(this: Name, b: Env, t: TermModel, f: nat)
    requires
        simplify_loop_model(this, b, t, f) is Some,
    ensures
        exists|g: nat|
            #![trigger fold_term_model(this, b, simplify_loop_model(this, b, t, f).unwrap().1, g)]
            #![trigger fold_term_model(this, Map::empty(), simplify_loop_model(this, b, t, f).unwrap().1, g)]
            fold_term_model(this, b, simplify_loop_model(this, b, t, f).unwrap().1, g) == simplify_loop_model(this, b, t, f)
                || fold_term_model(this, Map::empty(), simplify_loop_model(this, b, t, f).unwrap().1, g)
                == simplify_loop_model(this, b, t, f),
    decreases f,
{
    let r = simplify_loop_model(this, b, t, f);
    let (b1, t1) = fold_term_model(this, b, t, (f - 1) as nat).unwrap();
    if t1 == t {
        assert(fold_term_model(this, b, r.unwrap().1, (f - 1) as nat) == r);
    } else {
        lemma_loop_at_rest(this, Map::empty(), t1, (f - 1) as nat);
        let g = choose|g: nat|
            #![trigger fold_term_model(this, Map::<Name, TermModel>::empty(), simplify_loop_model(this, Map::empty(), t1, (f - 1) as nat).unwrap().1, g)]
            fold_term_model(this, Map::empty(), simplify_loop_model(this, Map::empty(), t1, (f - 1) as nat).unwrap().1, g)
                == simplify_loop_model(this, Map::empty(), t1, (f - 1) as nat)
                || fold_term_model(this, Map::empty(), simplify_loop_model(this, Map::empty(), t1, (f - 1) as nat).unwrap().1, g)
                == simplify_loop_model(this, Map::empty(), t1, (f - 1) as nat);
        assert(fold_term_model(this, Map::empty(), r.unwrap().1, g) == r);
    }
}

/// Bindings made while simplifying a negation do not leak out of it: after a
/// pass over a negation the bindings are those from before.
pub proof fn law_negation_keeps_bindings(this: Name, b: Env, o: OpModel, f: nat)
    requires
        o.operator == Operator::Not,
        fold_op_model(this, b, o, f) is Some,
    ensures
        fold_op_model(this, b, o, f).unwrap().0 == b,
{
}

/// The constants true (the empty conjunction) and false (the empty
/// disjunction) are not simplified, and leave the bindings unchanged.
pub proof fn law_constants_unchanged(this: Name, b: Env, f: nat)
    requires
        f > 0,
    ensures
        fold_op_model(this, b, true_model(), f) == Some((b, true_model())),
        fold_op_model(this, b, false_model(), f) == Some((b, false_model())),
{
    assert(as_ops(true_model().args) =~= Seq::<OpModel>::empty());
    assert(exprs(Seq::<OpModel>::empty()) =~= Seq::<TermModel>::empty());
    assert(prepare_and(true_model()) == Some(true_model()));
    assert(as_ops(false_model().args) =~= Seq::<OpModel>::empty());
    assert(prepare_and_or(true_model()) == Some(true_model()));
    assert(prepare_and_or(false_model()) == Some(false_model()));
}

/// A constraint that is not replaced with bindings leaves the bindings unchanged.
pub proof fn law_kept_constraint_binds_nothing(this: Name, b: Env, c: OpModel, others: Seq<Name>)
    requires
        maybe_bind_model(this, b, c, others) matches Some((_, kept)) && !kept,
    ensures
        maybe_bind_model(this, b, c, others).unwrap().0 == b,
{
}

/// Preparing a conjunction drops every empty conjunction and keeps no
/// constraint twice, nor a constraint together with its mirror image; every
/// constraint kept was given, and every constraint given other than true is
/// kept, itself or by its mirror image.
pub proof fn law_dedup(cs: Seq<OpModel>)
    ensures
        forall|i: int| 0 <= i < dedup_model(cs).len() ==> #[trigger] dedup_model(cs)[i] != true_model(),
        forall|i: int, j: int|
            0 <= i < j < dedup_model(cs).len() ==> #[trigger] dedup_model(cs)[i] != #[trigger] dedup_model(cs)[j]
                && dedup_model(cs)[j] != mirror_model(dedup_model(cs)[i]),
        forall|i: int| 0 <= i < dedup_model(cs).len() ==> cs.contains(#[trigger] dedup_model(cs)[i]),
        forall|i: int|
            0 <= i < cs.len() && #[trigger] cs[i] != true_model() ==> dedup_model(cs).contains(cs[i])
                || dedup_model(cs).contains(mirror_model(cs[i])),
    decreases cs.len(),
{
    if cs.len() > 0 {
        let p = cs.drop_last();
        law_dedup(p);
        let d = dedup_model(p);
        let c = cs.last();
        assert forall|i: int| 0 <= i < d.len() implies cs.contains(#[trigger] d[i]) by {
            let j = choose|j: int| 0 <= j < p.len() && p[j] == d[i];
            assert(cs[j] == d[i]);
        }
        assert(cs[cs.len() - 1] == c);
        if !(c == true_model() || d.contains(mirror_model(c)) || d.contains(c)) {
            let e = d.push(c);
            assert(dedup_model(cs) == e);
            assert forall|i: int, j: int| 0 <= i < j < e.len() implies #[trigger] e[i] != #[trigger] e[j] && e[j] != mirror_model(e[i]) by {
                if j == e.len() - 1 {
                    assert(e[i] == d[i]);
                    if e[j] == mirror_model(e[i]) {
                        crate::terms::lemma_mirror_involution(d[i]);
                        assert(d.contains(mirror_model(c)));
                    }
                    assert(d.contains(d[i]));
                }
            }
            assert forall|i: int| 0 <= i < cs.len() && #[trigger] cs[i] != true_model() implies e.contains(cs[i]) || e.contains(mirror_model(cs[i])) by {
                if i < cs.len() - 1 {
                    assert(p[i] == cs[i]);
                    if d.contains(cs[i]) {
                        let k = choose|k: int| 0 <= k < d.len() && d[k] == cs[i];
                        assert(e[k] == cs[i]);
                    } else {
                        let k = choose|k: int| 0 <= k < d.len() && d[k] == mirror_model(cs[i]);
                        assert(e[k] == mirror_model(cs[i]));
                    }
                } else {
                    assert(e[e.len() - 1] == cs[i]);
                }
            }
        } else {
            assert(dedup_model(cs) == d);
            assert forall|i: int| 0 <= i < cs.len() && #[trigger] cs[i] != true_model() implies d.contains(cs[i]) || d.contains(mirror_model(cs[i])) by {
                if i < cs.len() - 1 {
                    assert(p[i] == cs[i]);
                }
            }
        }
    }
}

/// Tossing trivial comparisons keeps exactly the constraints that are not
/// trivial comparisons, in order.
pub proof fn law_drop_trivial(cs: Seq<OpModel>)
    requires
        drop_trivial_model(cs) is Some,
    ensures
        drop_trivial_model(cs).unwrap() == cs.filter(|c: OpModel| !is_trivial(c)),
    decreases cs.len(),
{
    reveal_with_fuel(Seq::filter, 1);
    if cs.len() > 0 {
        law_drop_trivial(cs.drop_last());
    }
}

/// With `all`, every binding is given back; otherwise every binding of a
/// non-temporary name is; no other name is ever given back.
pub proof fn law_simplified_bindings_names(b: Env, all: bool)
    ensures
        all ==> simplified_bindings_model(b, all).dom() == b.dom(),
        !all ==> forall|k: Name|
            b.dom().contains(k) && !is_temp_name(k) ==> #[trigger] simplified_bindings_model(b, all).dom().contains(k),
        forall|k: Name| #[trigger] simplified_bindings_model(b, all).dom().contains(k) ==> b.dom().contains(k),
{
    if all {
        assert(simplified_bindings_model(b, all).dom() =~= b.dom());
    } else {
        assert forall|k: Name| b.dom().contains(k) && !is_temp_name(k) implies #[trigger] simplified_bindings_model(b, all).dom().contains(k) by {
            crate::model::lemma_root_reachable(b, k);
        }
        assert forall|k: Name| #[trigger] simplified_bindings_model(b, all).dom().contains(k) implies b.dom().contains(k) by {
            let p = choose|p: Seq<Name>| #[trigger] is_ref_path(b, p) && p.last() == k;
            assert(b.dom().contains(p[p.len() - 1]));
        }
    }
}

/// Substituting `_this` twice is substituting it once.
pub proof fn law_sub_this_idempotent(this: Name, t: TermModel)
    requires
        this != this_name(),
    ensures
        sub_this_model(this, sub_this_model(this, t)) == sub_this_model(this, t),
{
    if !(crate::terms::is_var(t) && crate::terms::var_name(t) == this) {
        let s = subst_this(this, t);
        lemma_subst_this_vars(this, t);
        lemma_subst_this_identity(this, s);
        if crate::terms::is_var(s) && crate::terms::var_name(s) == this {
            assert(vars_of(s) =~= seq![this]);
            assert(vars_of(s)[0] == this);
        }
    }
}

/// Renaming a variable that does not occur changes nothing.
proof fn lemma_subst_this_identity(this: Name, t: TermModel)
    requires
        !vars_of(t).contains(this),
    ensures
        subst_this(this, t) == t,
    decreases t,
{
    match t {
        TermModel::List(ts) => {
            lemma_subst_this_all_identity(this, ts);
        },
        TermModel::Expression(o) => {
            lemma_subst_this_all_identity(this, o.args);
        },
        TermModel::Variable(v) => {
            assert(vars_of(t)[0] == v);
        },
        TermModel::RestVariable(v) => {
            assert(vars_of(t)[0] == v);
        },
        _ => {},
    }
}

proof fn lemma_subst_this_all_identity(this: Name, ts: Seq<TermModel>)
    requires
        !vars_of_seq(ts).contains(this),
    ensures
        subst_this_all(this, ts) == ts,
    decreases ts,
{
    if ts.len() > 0 {
        let a = vars_of_seq(ts.drop_last());
        let c = vars_of(ts.last());
        assert(vars_of_seq(ts) == a + c);
        assert(!a.contains(this)) by {
            if a.contains(this) {
                let j = choose|j: int| 0 <= j < a.len() && a[j] == this;
                assert((a + c)[j] == this);
            }
        }
        assert(!c.contains(this)) by {
            if c.contains(this) {
                let j = choose|j: int| 0 <= j < c.len() && c[j] == this;
                assert((a + c)[a.len() + j] == this);
            }
        }
        lemma_subst_this_all_identity(this, ts.drop_last());
        lemma_subst_this_identity(this, ts.last());
        assert(subst_this_all(this, ts) =~= ts);
    }
}

/// A conjunction of one constraint, other than true and other than a trivial
/// comparison, is replaced with that constraint, whose arguments are folded.
pub proof fn law_single_constraint(this: Name, b: Env, c: OpModel, f: nat)
    requires
        f > 0,
        c != true_model(),
        crate::model::is_comparison(c.operator) ==> c.args.len() == 2 && c.args[0] != c.args[1],
    ensures
        fold_op_model(
            this,
            b,
            OpModel { operator: Operator::And, args: seq![TermModel::Expression(c)] },
            f,
        ) == crate::model::gen_fold_model(this, b, c, (f - 1) as nat),
{
    let o = OpModel { operator: Operator::And, args: seq![TermModel::Expression(c)] };
    let cs = as_ops(o.args);
    assert(cs =~= seq![c]);
    assert(cs.drop_last() =~= Seq::<OpModel>::empty());
    assert(cs.last() == c);
    assert(dedup_model(cs.drop_last()) =~= Seq::<OpModel>::empty());
    assert(!Seq::<OpModel>::empty().contains(c));
    assert(!Seq::<OpModel>::empty().contains(mirror_model(c)));
    assert(dedup_model(cs) =~= seq![c]);
    assert(exprs(seq![c]) =~= seq![TermModel::Expression(c)]);
    assert(prepare_and(o) == Some(o));
    assert(drop_trivial_model(cs.drop_last()) == Some(Seq::<OpModel>::empty()));
    assert(Seq::<OpModel>::empty().push(c) =~= seq![c]);
    assert(drop_trivial_model(cs) == Some(seq![c]));
    assert(prepare_and_or(o) == Some(o));
}

/// The constant true in a conjunction is dropped without binding anything.
pub proof fn law_true_constraint_dropped(this: Name, b: Env, others: Seq<Name>)
    ensures
        maybe_bind_model(this, b, true_model(), others) == Some((b, true)),
{
}

/// A unification or equality of two equal sides is dropped without binding anything.
pub proof fn law_equal_sides_dropped(this: Name, b: Env, c: OpModel, others: Seq<Name>)
    requires
        c.operator == Operator::Unify || c.operator == Operator::Eq,
        c.args.len() >= 2,
        c.args[0] == c.args[1],
    ensures
        maybe_bind_model(this, b, c, others) == Some((b, true)),
{
}

/// A pass over a negation simplifies its argument to rest, from the current
/// bindings, and gives back the inverse of the result; the bindings are those
/// from before the pass.
pub proof fn law_negation_inverts_simplified(this: Name, b: Env, o: OpModel, f: nat)
    requires
        o.operator == Operator::Not,
        fold_op_model(this, b, o, f) is Some,
        f <= crate::model::max_fuel(),
    ensures
        o.args.len() == 1,
        simplify_runs(this, b, o.args[0]),
        simplify_result(this, b, o.args[0]).1 is Expression,
        fold_op_model(this, b, o, f) == Some(
            (b, crate::partial::invert_model(crate::terms::expr_op(simplify_result(this, b, o.args[0]).1)).unwrap()),
        ),
{
    assert(prepare_and(o) == Some(o));
    assert(prepare_and_or(o) == Some(o));
    crate::model::lemma_simplify_result_at(this, b, o.args[0], (f - 1) as nat);
}

/// Simplification gives the same result with any fuel with which it comes to rest.
pub proof fn law_simplify_fuel_independent(this: Name, b: Env, t: TermModel, f: nat, g: nat)
    requires
        simplify_loop_model(this, b, t, f) is Some,
        simplify_loop_model(this, b, t, g) is Some,
    ensures
        simplify_loop_model(this, b, t, f) == simplify_loop_model(this, b, t, g),
{
    if f <= g {
        crate::model::lemma_simplify_loop_mono(this, b, t, f, g);
    } else {
        crate::model::lemma_simplify_loop_mono(this, b, t, g, f);
    }
}

// ---------------------------------------------------------------------------
// Bindings given back
// ---------------------------------------------------------------------------

/// The bindings given back are closed under mention: a bound name that occurs
/// in the term given back for a name, a simplified constraint or any other
/// term, is given back too.
pub proof fn law_given_back_closed(b: Env, all: bool, k: Name, m: Name)
    requires
        simplified_bindings_model(b, all).dom().contains(k),
        vars_of(simplified_bindings_model(b, all)[k]).contains(m),
        b.dom().contains(m),
    ensures
        simplified_bindings_model(b, all).dom().contains(m),
{
    if !all {
        assert(returned_names(b, all).contains(k));
        assert(simplified_bindings_model(b, all)[k] == entry_result(b, k));
        crate::model::lemma_ref_reachable(b, k, m);
        assert(returned_names(b, all).contains(m));
    }
}

/// A chain of names given back, from a non-temporary one, each mentioned by
/// the term given back for the one before.
pub open spec fn is_given_back_chain(g: Env, p: Seq<Name>) -> bool {
    &&& p.len() > 0
    &&& !is_temp_name(p[0])
    &&& forall|i: int| 0 <= i < p.len() ==> g.dom().contains(#[trigger] p[i])
    &&& forall|i: int| 0 <= i < p.len() - 1 ==> vars_of(#[trigger] g[p[i]]).contains(p[i + 1])
}

/// Without `all`, every name given back is reached from a non-temporary name
/// given back by a chain of mentions in the terms given back: no binding is
/// given back that nothing asks for.
pub proof fn law_given_back_reached(b: Env, k: Name)
    requires
        simplified_bindings_model(b, false).dom().contains(k),
    ensures
        exists|p: Seq<Name>|
            #[trigger] is_given_back_chain(simplified_bindings_model(b, false), p) && p.last() == k,
{
    let g = simplified_bindings_model(b, false);
    assert(returned_names(b, false).contains(k));
    let p = choose|p: Seq<Name>| #[trigger] is_ref_path(b, p) && p.last() == k;
    assert forall|i: int| 0 <= i < p.len() implies g.dom().contains(#[trigger] p[i]) by {
        let q = p.take(i + 1);
        assert forall|j: int| 0 <= j < q.len() implies b.dom().contains(#[trigger] q[j]) by {
            assert(q[j] == p[j]);
        }
        assert forall|j: int| 0 <= j < q.len() - 1 implies #[trigger] crate::model::entry_refs(b, q[j]).contains(q[j + 1]) by {
            assert(q[j] == p[j] && q[j + 1] == p[j + 1]);
        }
        assert(is_ref_path(b, q));
        assert(q.last() == p[i]);
        assert(returned_names(b, false).contains(p[i]));
    }
    assert forall|i: int| 0 <= i < p.len() - 1 implies vars_of(#[trigger] g[p[i]]).contains(p[i + 1]) by {
        assert(g.dom().contains(p[i]));
        assert(g[p[i]] == entry_result(b, p[i]));
        assert(crate::model::entry_refs(b, p[i]).contains(p[i + 1]));
    }
    assert(is_given_back_chain(g, p));
}

// ---------------------------------------------------------------------------
// The trivial-constraint step
// ---------------------------------------------------------------------------

/// The trivial-constraint step changes only a unification of `this` with a
/// ground term or with `this`: every other term is left as it is, among them
/// a unification of `this` with a term that is not ground.
pub proof fn law_trivial_constraint_keeps_others(this: Name, t: TermModel)
    requires
        t is Expression && expr_op(t).operator == Operator::Unify ==> {
            let a = expr_op(t).args;
            &&& a.len() >= 2
            &&& !(is_this(this, a[0]) && (ground(a[1]) || is_this(this, a[1])))
            &&& !(is_this(this, a[1]) && ground(a[0]))
        },
    ensures
        trivial_constraint_model(this, t) == Some(t),
{
}

/// What the trivial-constraint step gives back is the term itself, the
/// constant true for a unification of `this` with `this`, or the ground side
/// of a unification whose other side is `this`.
pub proof fn law_trivial_constraint_result(this: Name, t: TermModel)
    requires
        trivial_constraint_model(this, t) is Some,
    ensures
        ({
            let s = trivial_constraint_model(this, t).unwrap();
            let a = expr_op(t).args;
            ||| s == t
            ||| t is Expression && expr_op(t).operator == Operator::Unify && {
                ||| is_this(this, a[0]) && is_this(this, a[1]) && s == TermModel::Expression(
                    true_model(),
                )
                ||| is_this(this, a[0]) && ground(a[1]) && s == a[1]
                ||| is_this(this, a[1]) && ground(a[0]) && s == a[0]
            }
        }),
{
}

// ---------------------------------------------------------------------------
// One pass over an operation
// ---------------------------------------------------------------------------

/// Tossing trivial comparisons from constraints none of which is one keeps them all.
proof fn lemma_drop_trivial_none(cs: Seq<OpModel>)
    requires
        forall|i: int|
            0 <= i < cs.len() && is_comparison(#[trigger] cs[i].operator) ==> cs[i].args.len() == 2
                && cs[i].args[0] != cs[i].args[1],
    ensures
        drop_trivial_model(cs) == Some(cs),
    decreases cs.len(),
{
    if cs.len() > 0 {
        let p = cs.drop_last();
        assert forall|i: int|
            0 <= i < p.len() && is_comparison(#[trigger] p[i].operator) implies p[i].args.len() == 2
                && p[i].args[0] != p[i].args[1] by {
            assert(p[i] == cs[i]);
        }
        lemma_drop_trivial_none(p);
        assert(cs.last() == cs[cs.len() - 1]);
        assert(p.push(cs.last()) =~= cs);
    }
}

/// A pass over a disjunction of two or more constraints, none of them a
/// trivial comparison, folds each disjunct under the current bindings.
pub proof fn law_disjunction_folds_disjuncts(this: Name, b: Env, o: OpModel, f: nat)
    requires
        f > 0,
        o.operator == Operator::Or,
        o.args.len() >= 2,
        all_exprs(o.args),
        forall|i: int|
            0 <= i < o.args.len() && is_comparison(#[trigger] expr_op(o.args[i]).operator) ==> expr_op(
                o.args[i],
            ).args.len() == 2 && expr_op(o.args[i]).args[0] != expr_op(o.args[i]).args[1],
    ensures
        fold_op_model(this, b, o, f) == gen_fold_model(this, b, o, (f - 1) as nat),
{
    let cs = as_ops(o.args);
    assert forall|i: int|
        0 <= i < cs.len() && is_comparison(#[trigger] cs[i].operator) implies cs[i].args.len() == 2
            && cs[i].args[0] != cs[i].args[1] by {
        assert(cs[i] == expr_op(o.args[i]));
    }
    lemma_drop_trivial_none(cs);
    assert(exprs(cs) =~= o.args) by {
        assert forall|i: int| 0 <= i < o.args.len() implies #[trigger] exprs(cs)[i] == o.args[i] by {
            assert(o.args[i] is Expression);
        }
    }
    assert(prepare_and(o) == Some(o));
    assert(prepare_and_or(o) == Some(o));
}

/// A pass over an operation other than a conjunction, a disjunction or a
/// negation folds its arguments under the current bindings.
pub proof fn law_other_operation_folds_arguments(this: Name, b: Env, o: OpModel, f: nat)
    requires
        f > 0,
        o.operator != Operator::And,
        o.operator != Operator::Or,
        o.operator != Operator::Not,
    ensures
        fold_op_model(this, b, o, f) == gen_fold_model(this, b, o, (f - 1) as nat),
{
}

/// A pass over a variable gives its binding where it is bound to anything but
/// a list or an expression, and leaves it as it is where it is not bound.
pub proof fn law_variable_dereferenced(this: Name, b: Env, v: Name, f: nat)
    requires
        f > 0,
    ensures
        b.dom().contains(v) && !(b[v] is List) && !(b[v] is Expression) ==> fold_term_model(
            this,
            b,
            TermModel::Variable(v),
            f,
        ) == Some((b, b[v])) && fold_term_model(this, b, TermModel::RestVariable(v), f) == Some(
            (b, b[v]),
        ),
        !b.dom().contains(v) ==> fold_term_model(this, b, TermModel::Variable(v), f) == Some(
            (b, TermModel::Variable(v)),
        ) && fold_term_model(this, b, TermModel::RestVariable(v), f) == Some(
            (b, TermModel::RestVariable(v)),
        ),
{
}

/// A term that a pass does not look into: neither a list nor an expression.
pub open spec fn is_atom(t: TermModel) -> bool {
    !(t is List) && !(t is Expression)
}

/// Each term dereferenced under the bindings.
pub open spec fn deref_all(b: Env, ts: Seq<TermModel>) -> Seq<TermModel> {
    ts.map_values(|t: TermModel| deref(b, t))
}

/// The constraint with each of its arguments dereferenced under the bindings.
pub open spec fn deref_args(b: Env, t: TermModel) -> TermModel {
    TermModel::Expression(
        OpModel { operator: expr_op(t).operator, args: deref_all(b, expr_op(t).args) },
    )
}

/// Every binding is to a term that a pass does not look into.
pub open spec fn atom_bindings(b: Env) -> bool {
    forall|k: Name| #[trigger] b.dom().contains(k) ==> is_atom(b[k])
}

proof fn lemma_fold_atoms(this: Name, b: Env, ts: Seq<TermModel>, g: nat)
    requires
        g > 0,
        atom_bindings(b),
        forall|i: int| 0 <= i < ts.len() ==> is_atom(#[trigger] ts[i]),
    ensures
        crate::model::fold_args_model(this, b, ts, g) == Some((b, deref_all(b, ts))),
    decreases ts.len(),
{
    if ts.len() > 0 {
        let p = ts.drop_last();
        assert forall|i: int| 0 <= i < p.len() implies is_atom(#[trigger] p[i]) by {
            assert(p[i] == ts[i]);
        }
        lemma_fold_atoms(this, b, p, g);
        assert(is_atom(ts[ts.len() - 1]));
        let t = ts.last();
        if crate::terms::is_var(t) && b.dom().contains(crate::terms::var_name(t)) {
            assert(is_atom(b[crate::terms::var_name(t)]));
        }
        assert(fold_term_model(this, b, t, g) == Some((b, deref(b, t))));
        assert(deref_all(b, p).push(deref(b, t)) =~= deref_all(b, ts));
    }
}

/// The constraints are expressions over terms that a pass does not look into,
/// with operators other than conjunction, disjunction and negation.
pub open spec fn flat_constraints(ts: Seq<TermModel>) -> bool {
    forall|i: int|
        0 <= i < ts.len() ==> {
            let c = #[trigger] expr_op(ts[i]);
            &&& ts[i] is Expression
            &&& c.operator != Operator::And
            &&& c.operator != Operator::Or
            &&& c.operator != Operator::Not
            &&& forall|j: int| 0 <= j < c.args.len() ==> is_atom(#[trigger] c.args[j])
        }
}

proof fn lemma_fold_flat_constraints(this: Name, b: Env, ts: Seq<TermModel>, g: nat)
    requires
        g >= 3,
        atom_bindings(b),
        flat_constraints(ts),
    ensures
        crate::model::fold_args_model(this, b, ts, g) == Some(
            (b, ts.map_values(|t: TermModel| deref_args(b, t))),
        ),
    decreases ts.len(),
{
    if ts.len() > 0 {
        let p = ts.drop_last();
        assert forall|i: int| 0 <= i < p.len() implies #[trigger] expr_op(p[i]) == expr_op(ts[i]) && p[i] == ts[i] by {
        }
        assert(flat_constraints(p));
        lemma_fold_flat_constraints(this, b, p, g);
        let t = ts.last();
        let c = expr_op(t);
        assert(expr_op(ts[ts.len() - 1]) == c);
        assert(t is Expression);
        lemma_fold_atoms(this, b, c.args, (g - 2) as nat);
        assert(prepare_and(c) == Some(c));
        assert(prepare_and_or(c) == Some(c));
        assert(fold_op_model(this, b, c, (g - 1) as nat) == Some(
            (b, OpModel { operator: c.operator, args: deref_all(b, c.args) }),
        ));
        assert(fold_term_model(this, b, t, g) == Some((b, deref_args(b, t))));
        assert(p.map_values(|t: TermModel| deref_args(b, t)).push(deref_args(b, t)) =~= ts.map_values(
            |t: TermModel| deref_args(b, t),
        ));
    }
}

/// A pass over a disjunction of two or more comparisons between variables and
/// constants, under bindings to variables and constants, gives the disjunction
/// with every side of every comparison dereferenced under the bindings, which
/// it leaves as they are.
pub proof fn law_disjunction_dereferenced(this: Name, b: Env, o: OpModel, f: nat)
    requires
        f >= 4,
        o.operator == Operator::Or,
        o.args.len() >= 2,
        atom_bindings(b),
        flat_constraints(o.args),
        forall|i: int|
            0 <= i < o.args.len() ==> #[trigger] is_comparison(expr_op(o.args[i]).operator) && expr_op(
                o.args[i],
            ).args.len() == 2 && expr_op(o.args[i]).args[0] != expr_op(o.args[i]).args[1],
    ensures
        fold_op_model(this, b, o, f) == Some(
            (
                b,
                OpModel {
                    operator: Operator::Or,
                    args: o.args.map_values(|t: TermModel| deref_args(b, t)),
                },
            ),
        ),
{
    assert(all_exprs(o.args)) by {
        assert forall|i: int| 0 <= i < o.args.len() implies #[trigger] o.args[i] is Expression by {
            let c = expr_op(o.args[i]);
            assert(c.operator != Operator::And);
        }
    }
    law_disjunction_folds_disjuncts(this, b, o, f);
    lemma_fold_flat_constraints(this, b, o.args, (f - 1) as nat);
}

// ---------------------------------------------------------------------------
// Replacing a constraint with bindings
// ---------------------------------------------------------------------------

/// A conjunction is replaced with bindings only when it is empty: any other
/// conjunction is kept, and binds nothing.
pub proof fn law_nonempty_conjunction_kept(this: Name, b: Env, c: OpModel, others: Seq<Name>)
    requires
        c.operator == Operator::And,
        c.args.len() > 0,
    ensures
        maybe_bind_model(this, b, c, others) == Some((b, false)),
{
}

/// A constraint is dropped only when it is the constant true, or a
/// unification or equality whose two sides are equal once dereferenced under
/// the bindings after the step: what is dropped is accounted for by them.
pub proof fn law_dropped_constraint_holds(this: Name, b: Env, c: OpModel, others: Seq<Name>)
    requires
        maybe_bind_model(this, b, c, others) matches Some((_, dropped)) && dropped,
    ensures
        ({
            let b2 = maybe_bind_model(this, b, c, others).unwrap().0;
            ||| c == true_model()
            ||| (c.operator == Operator::Unify || c.operator == Operator::Eq) && c.args.len() >= 2
                && deref(b2, c.args[0]) == deref(b2, c.args[1])
        }),
{
    if c.operator == Operator::And {
        assert(c.args =~= Seq::<TermModel>::empty());
    }
}

/// A unification or equality of a variable other than `this` with a constant,
/// either way round, is replaced with the binding of the variable to the
/// constant, unless the variable is bound to another constant already.
pub proof fn law_variable_bound_to_constant(
    this: Name,
    b: Env,
    c: OpModel,
    others: Seq<Name>,
    v: Name,
    x: TermModel,
)
    requires
        c.operator == Operator::Unify || c.operator == Operator::Eq,
        c.args.len() >= 2,
        (c.args[0] == TermModel::Variable(v) && c.args[1] == x) || (c.args[0] == x && c.args[1]
            == TermModel::Variable(v)),
        v != this,
        is_atom(x),
        ground(x),
        !(b.dom().contains(v) && ground(b[v]) && b[v] != x),
    ensures
        maybe_bind_model(this, b, c, others) == Some((b.insert(v, x), true)),
{
}

// ---------------------------------------------------------------------------
// Substituting `_this` renames variables and nothing else
// ---------------------------------------------------------------------------

/// The shape of a term: the term with the names of its variables erased.
pub open spec fn skeleton(t: TermModel) -> TermModel
    decreases t,
{
    match t {
        TermModel::Variable(_) => TermModel::Variable(Seq::empty()),
        TermModel::RestVariable(_) => TermModel::RestVariable(Seq::empty()),
        TermModel::List(ts) => TermModel::List(skeleton_all(ts)),
        TermModel::Expression(o) => TermModel::Expression(
            OpModel { operator: o.operator, args: skeleton_all(o.args) },
        ),
        _ => t,
    }
}

/// The shapes of the terms.
pub open spec fn skeleton_all(ts: Seq<TermModel>) -> Seq<TermModel>
    decreases ts,
{
    if ts.len() == 0 {
        Seq::empty()
    } else {
        skeleton_all(ts.drop_last()).push(skeleton(ts.last()))
    }
}

/// `this` renamed to `_this` in a sequence of names.
pub open spec fn rename_this(this: Name, vs: Seq<Name>) -> Seq<Name> {
    vs.map_values(|v: Name| if v == this { this_name() } else { v })
}

/// Substituting `_this` only renames variables: the result has the shape,
/// the operators and the constants of the term, and its variables are those of
/// the term, in the same order, with `this` renamed to `_this`; the variable
/// `this` itself is given back unchanged.
pub proof fn law_sub_this_renames_only(this: Name, t: TermModel)
    ensures
        skeleton(sub_this_model(this, t)) == skeleton(t),
        !is_this(this, t) ==> vars_of(sub_this_model(this, t)) == rename_this(this, vars_of(t)),
        is_this(this, t) ==> sub_this_model(this, t) == t,
{
    lemma_subst_this_renames(this, t);
}

proof fn lemma_subst_this_renames(this: Name, t: TermModel)
    ensures
        skeleton(subst_this(this, t)) == skeleton(t),
        vars_of(subst_this(this, t)) == rename_this(this, vars_of(t)),
    decreases t,
{
    match t {
        TermModel::List(ts) => {
            lemma_subst_this_all_renames(this, ts);
        },
        TermModel::Expression(o) => {
            lemma_subst_this_all_renames(this, o.args);
        },
        TermModel::Variable(v) => {
            assert(rename_this(this, vars_of(t)) =~= vars_of(subst_this(this, t)));
        },
        TermModel::RestVariable(v) => {
            assert(rename_this(this, vars_of(t)) =~= vars_of(subst_this(this, t)));
        },
        _ => {
            assert(rename_this(this, vars_of(t)) =~= Seq::<Name>::empty());
        },
    }
}

proof fn lemma_subst_this_all_renames(this: Name, ts: Seq<TermModel>)
    ensures
        skeleton_all(subst_this_all(this, ts)) == skeleton_all(ts),
        vars_of_seq(subst_this_all(this, ts)) == rename_this(this, vars_of_seq(ts)),
    decreases ts,
{
    if ts.len() == 0 {
        assert(rename_this(this, vars_of_seq(ts)) =~= Seq::<Name>::empty());
    } else {
        let s = subst_this_all(this, ts);
        lemma_subst_this_all_renames(this, ts.drop_last());
        lemma_subst_this_renames(this, ts.last());
        assert(s.drop_last() =~= subst_this_all(this, ts.drop_last()));
        assert(s.last() == subst_this(this, ts.last()));
        assert(skeleton_all(s) =~= skeleton_all(ts));
        let a = vars_of_seq(ts.drop_last());
        let c = vars_of(ts.last());
        assert(rename_this(this, a + c) =~= rename_this(this, a) + rename_this(this, c));
        assert(vars_of_seq(s) == vars_of_seq(s.drop_last()) + vars_of(s.last()));
    }
}

} // verus!
