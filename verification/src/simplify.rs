//! Simplification of partial constraints on a variable.
use vstd::prelude::*;
use crate::terms::{
    all_exprs, all_expressions, as_ops, clone_term, ground, is_var, lemma_terms_model, lemma_terms_model_take,
    names, op_eq, ops_into_terms, ops_model, term_eq, term_model, terms_model, true_model, true_op,
    false_model, false_op, is_temp_name, var_name, vars_of, Name, OpModel, Operation, Operator, Symbol, Term,
    TermModel, Value,
};
use crate::cycles::{add_pair_to_cycles, contains_symbol, cycles_model, join_all_cycles, pick_symbol};
use crate::partial::try_invert_operation;
use crate::bindings::Bindings;
use std::collections::VecDeque;
use crate::model::{
    add_pair, and_case_model, bind_conflict, bind_cycle, bind_cycles, bind_model, build_cycles,
    dedup_model, deref, dot_this, drop_trivial_model, find_binding, fold_args_model,
    fold_op_model, fold_term_model, gen_fold_model, is_comparison, is_this,
    lemma_bind_cycle_prefix, lemma_bind_cycles_prefix, lemma_drop_trivial_prefix,
    lemma_fold_args_prefix, lemma_unify_scan_prefix, maybe_bind_model, other_vars, pick,
    prepare_and, prepare_and_or, simplify_loop_model, simplify_partial_model, simplify_partial_ok,
    simplify_partial_at, entry_ok_at, bindings_ok_at, lemma_simplify_partial_at, join_cycles,
    simplify_result, simplify_runs, sub_this_model, subst_this, subst_this_all, this_name,
    trivial_constraint_model, unify_scan, without, Env, bindings_ok, entry_ok, entry_refs,
    entry_result, lemma_reachable_in_closed, lemma_ref_reachable, lemma_root_reachable,
    lemma_simplified_is_conjunction, reachable, returned_names, simplified_bindings_model,
};

verus! {

/// Renames a variable to `_this`.
pub struct VariableSubber {
    this_var: Symbol,
}

impl VariableSubber {
    /// The name of the variable to rename.
    pub closed spec fn this_var_name(&self) -> Name {
        self.this_var@
    }

    pub fn new(this_var: Symbol) -> (r: Self)
        ensures
            r.this_var_name() == this_var@,
    {
        Self { this_var }
    }

    fn this_symbol() -> (r: Symbol)
        ensures
            r@ == this_name(),
    {
        let r = Symbol::new("_this");
        proof {
            reveal_strlit("_this");
            assert(r@ =~= this_name());
        }
        r
    }

    /// `_this` for the variable being renamed; any other name unchanged.
    pub fn fold_variable(&self, v: Symbol) -> (r: Symbol)
        ensures
            r@ == (if v@ == self.this_var_name() {
                this_name()
            } else {
                v@
            }),
    {
        if v.eq_symbol(&self.this_var) {
            Self::this_symbol()
        } else {
            v
        }
    }

    /// `_this` for the rest variable being renamed; any other name unchanged.
    pub fn fold_rest_variable(&self, v: Symbol) -> (r: Symbol)
        ensures
            r@ == (if v@ == self.this_var_name() {
                this_name()
            } else {
                v@
            }),
    {
        if v.eq_symbol(&self.this_var) {
            Self::this_symbol()
        } else {
            v
        }
    }

    /// The term with the variable renamed everywhere.
    pub fn fold_term(&self, t: &Term) -> (r: Term)
        ensures
            r@ == subst_this(self.this_var_name(), t@),
        decreases t,
    {
        match &t.value {
            Value::Variable(v) => Term { value: Value::Variable(self.fold_variable(v.clone())) },
            Value::RestVariable(v) => Term {
                value: Value::RestVariable(self.fold_rest_variable(v.clone())),
            },
            Value::List(ts) => Term { value: Value::List(self.fold_list(ts)) },
            Value::Expression(o) => Term {
                value: Value::Expression(
                    Operation { operator: o.operator, args: self.fold_list(&o.args) },
                ),
            },
            _ => clone_term(t),
        }
    }

    /// The terms with the variable renamed everywhere.
    pub fn fold_list(&self, ts: &Vec<Term>) -> (r: Vec<Term>)
        ensures
            terms_model(r@) == subst_this_all(self.this_var_name(), terms_model(ts@)),
        decreases ts,
    {
        let n = ts.len();
        let mut r: Vec<Term> = Vec::new();
        let mut i: usize = 0;
        assert(ts@.take(0) =~= Seq::<Term>::empty());
        while i < n
            invariant
                n == ts.len(),
                i <= n,
                terms_model(r@) == subst_this_all(self.this_var_name(), terms_model(ts@.take(i as int))),
            decreases n - i,
        {
            let x = self.fold_term(&ts[i]);
            proof {
                lemma_terms_model_take(ts@, i as int);
                crate::terms::lemma_terms_model_push(r@, x);
            }
            r.push(x);
            i = i + 1;
        }
        assert(ts@.take(n as int) =~= ts@);
        r
    }
}

/// Substitute `_this` for a variable in a partial.
pub fn sub_this(this: Symbol, term: Term) -> (r: Term)
    ensures
        r@ == sub_this_model(this@, term@),
{
    let same = match term.value().as_symbol() {
        Some(s) => s.eq_symbol(&this),
        None => false,
    };
    if same {
        return term;
    }
    let subber = VariableSubber::new(this);
    subber.fold_term(&term)
}

/// Turn `_this = x` into `x` when it's ground.
fn simplify_trivial_constraint(this: Symbol, term: Term) -> (r: Term)
    requires
        trivial_constraint_model(this@, term@) is Some,
    ensures
        r@ == trivial_constraint_model(this@, term@).unwrap(),
{
    match &term.value {
        Value::Expression(o) => {
            if o.operator == Operator::Unify {
                proof {
                    lemma_terms_model(o.args@);
                }
                let left = &o.args[0];
                let right = &o.args[1];
                let l_this = match left.value().as_symbol() {
                    Some(v) => v.eq_symbol(&this),
                    None => false,
                };
                let r_this = match right.value().as_symbol() {
                    Some(w) => w.eq_symbol(&this),
                    None => false,
                };
                if l_this && r_this {
                    true_op().into_term()
                } else if l_this && right.is_ground() {
                    clone_term(right)
                } else if r_this && left.is_ground() {
                    clone_term(left)
                } else {
                    term
                }
            } else {
                term
            }
        },
        _ => term,
    }
}


// ---------------------------------------------------------------------------
// Preparing conjunctions
// ---------------------------------------------------------------------------

/// Whether the constraint is among the operations.
fn ops_contains(v: &Vec<Operation>, o: &Operation) -> (r: bool)
    ensures
        r == ops_model(v@).contains(o@),
{
    let n = v.len();
    let mut i: usize = 0;
    while i < n
        invariant
            n == v.len(),
            i <= n,
            forall|j: int| 0 <= j < i ==> v@[j]@ != o@,
        decreases n - i,
    {
        if op_eq(&v[i], o) {
            assert(ops_model(v@)[i as int] == o@);
            return true;
        }
        i = i + 1;
    }
    proof {
        if ops_model(v@).contains(o@) {
            let j = choose|j: int| 0 <= j < ops_model(v@).len() && ops_model(v@)[j] == o@;
            assert(v@[j]@ == o@);
        }
    }
    false
}

/// Drops empty constraints and deduplicates constraints: a constraint equal to
/// an earlier kept one, or to its mirror image, is dropped.
fn dedup_constraints(cs: &Vec<Operation>) -> (r: Vec<Operation>)
    ensures
        ops_model(r@) == dedup_model(ops_model(cs@)),
{
    let ghost m = ops_model(cs@);
    let t = true_op();
    let mut seen: Vec<Operation> = Vec::new();
    let n = cs.len();
    let mut i: usize = 0;
    assert(m.take(0) =~= Seq::<OpModel>::empty());
    assert(ops_model(seen@) =~= Seq::<OpModel>::empty());
    while i < n
        invariant
            n == cs.len(),
            i <= n,
            m == ops_model(cs@),
            t@ == true_model(),
            ops_model(seen@) == dedup_model(m.take(i as int)),
        decreases n - i,
    {
        let c = &cs[i];
        proof {
            assert(m.take(i + 1).drop_last() =~= m.take(i as int));
            assert(m.take(i + 1).last() == c@);
        }
        if !op_eq(c, &t) {
            let mirrored = c.mirror();
            if !ops_contains(&seen, &mirrored) && !ops_contains(&seen, c) {
                let ghost s0 = seen@;
                seen.push(c.clone());
                assert(ops_model(seen@) =~= ops_model(s0).push(c@));
            }
        }
        i = i + 1;
    }
    assert(m.take(n as int) =~= m);
    seen
}

fn is_comparison_op(op: Operator) -> (r: bool)
    ensures
        r == is_comparison(op),
{
    op == Operator::Unify || op == Operator::Eq || op == Operator::Neq
}

/// Drops the comparisons whose two sides are the same term; `None` where a
/// comparison does not have exactly two sides.
fn drop_trivial(cs: &Vec<Operation>) -> (r: Option<Vec<Operation>>)
    ensures
        match r {
            Some(kept) => drop_trivial_model(ops_model(cs@)) == Some(ops_model(kept@)),
            None => drop_trivial_model(ops_model(cs@)) is None,
        },
{
    let ghost m = ops_model(cs@);
    let mut kept: Vec<Operation> = Vec::new();
    let n = cs.len();
    let mut i: usize = 0;
    assert(m.take(0) =~= Seq::<OpModel>::empty());
    assert(ops_model(kept@) =~= Seq::<OpModel>::empty());
    while i < n
        invariant
            n == cs.len(),
            i <= n,
            m == ops_model(cs@),
            drop_trivial_model(m.take(i as int)) == Some(ops_model(kept@)),
        decreases n - i,
    {
        let c = &cs[i];
        proof {
            assert(m.take(i + 1).drop_last() =~= m.take(i as int));
            assert(m.take(i + 1).last() == c@);
            lemma_terms_model(c.args@);
        }
        if is_comparison_op(c.operator) && c.args.len() != 2 {
            proof {
                if drop_trivial_model(m) is Some {
                    lemma_drop_trivial_prefix(m, i + 1);
                }
            }
            return None;
        }
        let keep = if is_comparison_op(c.operator) {
            !term_eq(&c.args[0], &c.args[1])
        } else {
            true
        };
        if keep {
            let ghost k0 = kept@;
            kept.push(c.clone());
            assert(ops_model(kept@) =~= ops_model(k0).push(c@));
        }
        i = i + 1;
    }
    assert(m.take(n as int) =~= m);
    Some(kept)
}

/// The constraints other than those equal to `c`.
fn without_constraint(cs: &Vec<Operation>, c: &Operation) -> (r: Vec<Operation>)
    ensures
        ops_model(r@) == without(ops_model(cs@), c@),
{
    let ghost m = ops_model(cs@);
    let mut kept: Vec<Operation> = Vec::new();
    let n = cs.len();
    let mut i: usize = 0;
    assert(m.take(0) =~= Seq::<OpModel>::empty());
    assert(ops_model(kept@) =~= Seq::<OpModel>::empty());
    while i < n
        invariant
            n == cs.len(),
            i <= n,
            m == ops_model(cs@),
            ops_model(kept@) == without(m.take(i as int), c@),
        decreases n - i,
    {
        proof {
            assert(m.take(i + 1).drop_last() =~= m.take(i as int));
            assert(m.take(i + 1).last() == cs@[i as int]@);
        }
        if !op_eq(&cs[i], c) {
            let ghost k0 = kept@;
            kept.push(cs[i].clone());
            assert(ops_model(kept@) =~= ops_model(k0).push(cs@[i as int]@));
        }
        i = i + 1;
    }
    assert(m.take(n as int) =~= m);
    kept
}

// ---------------------------------------------------------------------------
// The simplifier
// ---------------------------------------------------------------------------

pub struct Simplifier {
    bindings: Bindings,
    this_var: Symbol,
}

impl Simplifier {
    /// The current bindings.
    pub closed spec fn env(&self) -> Env {
        self.bindings@
    }

    /// The name of the variable that the constraints are about.
    pub closed spec fn this_var_name(&self) -> Name {
        self.this_var@
    }

    pub fn new(this_var: Symbol) -> (r: Self)
        ensures
            r.env() == Map::<Name, TermModel>::empty(),
            r.this_var_name() == this_var@,
    {
        Self { this_var, bindings: Bindings::new() }
    }

    /// Binds `var` to the dereferenced `value`.  An earlier binding of `var`
    /// is replaced; it may not be a ground term other than a ground new value.
    pub fn bind(&mut self, var: Symbol, value: Term)
        requires
            !bind_conflict(old(self).env(), var@, value@),
        ensures
            final(self).env() == old(self).env().insert(var@, deref(old(self).env(), value@)),
            bind_model(old(self).env(), var@, value@) == Some(final(self).env()),
            final(self).this_var_name() == old(self).this_var_name(),
    {
        let new_value = self.deref(&value);
        if self.is_bound(&var) {
            let current_value = self.deref(&Term::var(var.clone()));
            if current_value.is_ground() && new_value.is_ground() {
                assert(current_value@ == new_value@);
            }
        }
        self.bindings.insert(var, new_value);
    }

    /// Binds `var` as `bind` does, unless that binding would contradict the
    /// current one (both ground and different): then nothing changes and the
    /// result is `false`.
    pub fn try_bind(&mut self, var: Symbol, value: Term) -> (r: bool)
        ensures
            r == !bind_conflict(old(self).env(), var@, value@),
            r ==> final(self).env() == old(self).env().insert(var@, deref(old(self).env(), value@)),
            !r ==> final(self).env() == old(self).env(),
            bind_model(old(self).env(), var@, value@) == (if r {
                Some(final(self).env())
            } else {
                None
            }),
            final(self).this_var_name() == old(self).this_var_name(),
    {
        if self.is_bound(&var) {
            let new_value = self.deref(&value);
            let current_value = self.deref(&Term::var(var.clone()));
            if current_value.is_ground() && new_value.is_ground() && !term_eq(
                &current_value,
                &new_value,
            ) {
                return false;
            }
        }
        self.bind(var, value);
        true
    }

    /// The binding of a bound variable; any other term unchanged.
    pub fn deref(&self, term: &Term) -> (r: Term)
        ensures
            r@ == deref(self.env(), term@),
    {
        match term.value().as_symbol() {
            Some(var) => match self.bindings.get(var) {
                Some(t) => clone_term(t),
                None => clone_term(term),
            },
            None => clone_term(term),
        }
    }

    fn is_bound(&self, var: &Symbol) -> (r: bool)
        ensures
            r == self.env().dom().contains(var@),
    {
        self.bindings.contains_key(var)
    }

    /// Term is a variable and the name = self.this_var
    fn is_this(&self, t: &Term) -> (r: bool)
        ensures
            r == is_this(self.this_var_name(), t@),
    {
        match t.value().as_symbol() {
            Some(v) => v.eq_symbol(&self.this_var),
            None => false,
        }
    }

    /// Either _this or _this.?
    fn is_dot_this(&self, t: &Term) -> (r: bool)
        requires
            dot_this(self.this_var_name(), t@) is Some,
        ensures
            dot_this(self.this_var_name(), t@) == Some(r),
    {
        match self.dot_this_checked(t) {
            Some(b) => b,
            None => false,
        }
    }

    /// Either _this or _this.?, or `None` for a field access without arguments.
    fn dot_this_checked(&self, t: &Term) -> (r: Option<bool>)
        ensures
            r == dot_this(self.this_var_name(), t@),
        decreases t,
    {
        match &t.value {
            Value::Expression(e) => {
                proof {
                    lemma_terms_model(e.args@);
                }
                if e.operator == Operator::Dot {
                    if e.args.len() == 0 {
                        None
                    } else {
                        self.dot_this_checked(&e.args[0])
                    }
                } else {
                    Some(false)
                }
            },
            _ => Some(self.is_this(t)),
        }
    }

    /// Returns true when the constraint can be replaced with a binding, and makes the binding.
    ///
    /// Params:
    ///     constraint: The constraint to consider removing from its parent.
    ///     other_variables: Variables referenced in the parent constraint by terms other than `constraint`.
    fn maybe_bind_constraint(&mut self, constraint: &Operation, other_variables: Vec<Symbol>) -> (r: bool)
        requires
            maybe_bind_model(
                old(self).this_var_name(),
                old(self).env(),
                constraint@,
                names(other_variables@),
            ) is Some,
        ensures
            maybe_bind_model(
                old(self).this_var_name(),
                old(self).env(),
                constraint@,
                names(other_variables@),
            ) == Some((final(self).env(), r)),
            final(self).this_var_name() == old(self).this_var_name(),
    {
        match self.try_maybe_bind_constraint(constraint, other_variables) {
            Some(b) => b,
            None => false,
        }
    }

    /// `maybe_bind_constraint`, or `None` where the constraint is not of the
    /// expected shape or a binding would contradict the current one.
    fn try_maybe_bind_constraint(&mut self, constraint: &Operation, other_variables: Vec<Symbol>) -> (r: Option<bool>)
        ensures
            match r {
                Some(b) => maybe_bind_model(
                    old(self).this_var_name(),
                    old(self).env(),
                    constraint@,
                    names(other_variables@),
                ) == Some((final(self).env(), b)),
                None => maybe_bind_model(
                    old(self).this_var_name(),
                    old(self).env(),
                    constraint@,
                    names(other_variables@),
                ) is None,
            },
            final(self).this_var_name() == old(self).this_var_name(),
    {
        match constraint.operator {
            // A conjunction of TRUE with X is X, so drop TRUE.
            Operator::And => Some(constraint.args.len() == 0),
            // Choose a unification to maybe drop.
            Operator::Unify | Operator::Eq => {
                proof {
                    lemma_terms_model(constraint.args@);
                }
                if constraint.args.len() < 2 {
                    return None;
                }
                let left = &constraint.args[0];
                let right = &constraint.args[1];
                // Drop if the sides are exactly equal.
                if term_eq(left, right) {
                    return Some(true);
                }
                // Bind l to _this or _this.? if:
                // Variable(l) = _this.? AND l is referenced in another term
                // Variable(l) = _this
                if let Some(l) = left.value().as_symbol() {
                    match self.dot_this_checked(right) {
                        None => {
                            return None;
                        },
                        Some(d) => {
                            if d && (self.is_this(right) || contains_symbol(&other_variables, l)) {
                                if self.try_bind(l.clone(), clone_term(right)) {
                                    return Some(true);
                                } else {
                                    return None;
                                }
                            }
                        },
                    }
                }
                // _this = Variable(r)
                if let Some(r) = right.value().as_symbol() {
                    match self.dot_this_checked(left) {
                        None => {
                            return None;
                        },
                        Some(d) => {
                            if d && (self.is_this(left) || contains_symbol(&other_variables, r)) {
                                if self.try_bind(r.clone(), clone_term(left)) {
                                    return Some(true);
                                } else {
                                    return None;
                                }
                            }
                        },
                    }
                }
                // If either side is _this or _this.? don't drop the constraint.
                match self.dot_this_checked(left) {
                    None => {
                        return None;
                    },
                    Some(true) => {
                        return Some(false);
                    },
                    Some(false) => {},
                }
                match self.dot_this_checked(right) {
                    None => {
                        return None;
                    },
                    Some(true) => {
                        return Some(false);
                    },
                    Some(false) => {},
                }
                match (left.value().as_symbol(), right.value().as_symbol()) {
                    // Both sides are variables, but neither is _this. Bind together.
                    (Some(l), Some(r)) => {
                        if !self.try_bind(l.clone(), clone_term(right)) {
                            return None;
                        }
                        if !self.try_bind(r.clone(), clone_term(left)) {
                            return None;
                        }
                        Some(true)
                    },
                    // One side is a variable, the other is a ground value. Bind it.
                    (Some(l), None) => {
                        if self.try_bind(l.clone(), clone_term(right)) {
                            Some(true)
                        } else {
                            None
                        }
                    },
                    (None, Some(r)) => {
                        if self.try_bind(r.clone(), clone_term(left)) {
                            Some(true)
                        } else {
                            None
                        }
                    },
                    (None, None) => Some(false),
                }
            },
            _ => Some(false),
        }
    }

    /// One pass over a term: dereference it, then fold what it holds; `None`
    /// where a step fails or the fuel runs out.
    pub fn fold_term(&mut self, t: Term, fuel: u64) -> (r: Option<Term>)
        ensures
            match r {
                Some(x) => fold_term_model(old(self).this_var_name(), old(self).env(), t@, fuel as nat)
                    == Some((final(self).env(), x@)),
                None => fold_term_model(old(self).this_var_name(), old(self).env(), t@, fuel as nat)
                    is None,
            },
            final(self).this_var_name() == old(self).this_var_name(),
        decreases fuel, 0nat,
    {
        if fuel == 0 {
            return None;
        }
        let d = self.deref(&t);
        let Term { value } = d;
        match value {
            Value::List(ts) => match self.fold_list(&ts, fuel - 1) {
                Some(ts2) => Some(Term { value: Value::List(ts2) }),
                None => None,
            },
            Value::Expression(o) => match self.fold_operation(o, fuel - 1) {
                Some(o2) => Some(o2.into_term()),
                None => None,
            },
            other => Some(Term { value: other }),
        }
    }

    /// Folds the terms in order; `None` where a step fails or the fuel runs out.
    pub fn fold_list(&mut self, ts: &Vec<Term>, fuel: u64) -> (r: Option<Vec<Term>>)
        ensures
            match r {
                Some(xs) => fold_args_model(
                    old(self).this_var_name(),
                    old(self).env(),
                    terms_model(ts@),
                    fuel as nat,
                ) == Some((final(self).env(), terms_model(xs@))),
                None => fold_args_model(
                    old(self).this_var_name(),
                    old(self).env(),
                    terms_model(ts@),
                    fuel as nat,
                ) is None,
            },
            final(self).this_var_name() == old(self).this_var_name(),
        decreases fuel, 1nat,
    {
        let ghost this = self.this_var_name();
        let ghost b0 = self.env();
        let ghost tm = terms_model(ts@);
        let ghost f = fuel as nat;
        proof {
            lemma_terms_model(ts@);
        }
        let n = ts.len();
        let mut r: Vec<Term> = Vec::new();
        let mut i: usize = 0;
        assert(tm.take(0) =~= Seq::<TermModel>::empty());
        assert(terms_model(r@) =~= Seq::<TermModel>::empty());
        while i < n
            invariant
                n == ts.len(),
                i <= n,
                tm == terms_model(ts@),
                tm.len() == n,
                forall|j: int| 0 <= j < n ==> #[trigger] tm[j] == term_model(ts@[j]),
                this == self.this_var_name(),
                this == old(self).this_var_name(),
                b0 == old(self).env(),
                f == fuel as nat,
                fold_args_model(this, b0, tm.take(i as int), f) == Some((self.env(), terms_model(r@))),
            decreases n - i,
        {
            proof {
                assert(tm.take(i + 1).drop_last() =~= tm.take(i as int));
                assert(tm.take(i + 1).last() == ts@[i as int]@);
            }
            match self.fold_term(clone_term(&ts[i]), fuel) {
                Some(x) => {
                    proof {
                        crate::terms::lemma_terms_model_push(r@, x);
                    }
                    r.push(x);
                },
                None => {
                    proof {
                        if fold_args_model(this, b0, tm, f) is Some {
                            lemma_fold_args_prefix(this, b0, tm, f, i + 1);
                        }
                    }
                    return None;
                },
            }
            i = i + 1;
        }
        assert(tm.take(n as int) =~= tm);
        Some(r)
    }

    /// The operation with its arguments folded.
    fn fold_generic(&mut self, o: Operation, fuel: u64) -> (r: Option<Operation>)
        ensures
            match r {
                Some(x) => gen_fold_model(old(self).this_var_name(), old(self).env(), o@, fuel as nat)
                    == Some((final(self).env(), x@)),
                None => gen_fold_model(old(self).this_var_name(), old(self).env(), o@, fuel as nat)
                    is None,
            },
            final(self).this_var_name() == old(self).this_var_name(),
        decreases fuel, 2nat,
    {
        match self.fold_list(&o.args, fuel) {
            Some(args) => Some(Operation { operator: o.operator, args }),
            None => None,
        }
    }

    /// One pass over an operation; `None` where a step fails or the fuel runs out.
    pub fn fold_operation(&mut self, o: Operation, fuel: u64) -> (r: Option<Operation>)
        ensures
            match r {
                Some(x) => fold_op_model(old(self).this_var_name(), old(self).env(), o@, fuel as nat)
                    == Some((final(self).env(), x@)),
                None => fold_op_model(old(self).this_var_name(), old(self).env(), o@, fuel as nat)
                    is None,
            },
            final(self).this_var_name() == old(self).this_var_name(),
        decreases fuel, 0nat,
    {
        if fuel == 0 {
            return None;
        }
        let ghost o0 = o@;
        let mut o = o;
        if o.operator == Operator::And {
            if !all_expressions(&o.args) {
                return None;
            }
            // Preprocess constraints.
            let cs = o.constraints();
            let kept = dedup_constraints(&cs);
            o = o.clone_with_constraints(kept);
        }
        assert(prepare_and(o0) == Some(o@));
        if o.operator == Operator::And || o.operator == Operator::Or {
            if !all_expressions(&o.args) {
                return None;
            }
            // Toss trivial unifications.
            let cs = o.constraints();
            match drop_trivial(&cs) {
                Some(kept) => {
                    o.args = ops_into_terms(kept);
                },
                None => {
                    return None;
                },
            }
        }
        assert(prepare_and_or(prepare_and(o0).unwrap()) == Some(o@));
        proof {
            lemma_terms_model(o.args@);
        }
        let n = o.args.len();
        let and_or = o.operator == Operator::And || o.operator == Operator::Or;
        if and_or && n == 0 {
            // Zero-argument conjunctions & disjunctions represent constants
            // TRUE and FALSE, respectively. We do not simplify them.
            return Some(o);
        }
        if and_or && n == 1 {
            // Replace one-argument conjunctions & disjunctions with their argument.
            match &o.args[0].value {
                Value::Expression(inner) => {
                    return self.fold_generic(inner.clone(), fuel - 1);
                },
                _ => {
                    return None;
                },
            }
        }
        if o.operator == Operator::And {
            // Non-trivial conjunctions. Choose a unification constraint to
            // make a binding from, maybe throw it away, and fold the rest.
            return self.fold_conjunction(o, fuel - 1);
        }
        if o.operator == Operator::Not {
            if n != 1 {
                return None;
            }
            // Negation. Simplify the negated term, saving & restoring the
            // current bindings because bindings may not leak out of a negation.
            let bindings = self.bindings.clone();
            let simplified = self.simplify_partial_with_fuel(clone_term(&o.args[0]), fuel - 1);
            self.bindings = bindings;
            match simplified {
                Some(s) => {
                    let Term { value } = s;
                    match value {
                        Value::Expression(e) => {
                            return try_invert_operation(e);
                        },
                        _ => {
                            return None;
                        },
                    }
                },
                None => {
                    return None;
                },
            }
        }
        // Default case.
        self.fold_generic(o, fuel - 1)
    }

    /// A conjunction of at least two constraints.
    fn fold_conjunction(&mut self, o: Operation, fuel: u64) -> (r: Option<Operation>)
        requires
            o.operator == Operator::And,
            all_exprs(o@.args),
        ensures
            match r {
                Some(x) => and_case_model(
                    old(self).this_var_name(),
                    old(self).env(),
                    as_ops(o@.args),
                    fuel as nat,
                ) == Some((final(self).env(), x@)),
                None => and_case_model(
                    old(self).this_var_name(),
                    old(self).env(),
                    as_ops(o@.args),
                    fuel as nat,
                ) is None,
            },
            final(self).this_var_name() == old(self).this_var_name(),
        decreases fuel, 0nat,
    {
        if fuel == 0 {
            return None;
        }
        let ghost this = self.this_var_name();
        let ghost b0 = self.env();
        let cs = o.constraints();
        let ghost m = ops_model(cs@);
        // Collect up unifies to prune out cycles.
        let mut cycles: Vec<Vec<Symbol>> = Vec::new();
        let mut rest: Vec<Operation> = Vec::new();
        let ghost mut pairs: Seq<(Name, Name)> = Seq::empty();
        let n = cs.len();
        let mut i: usize = 0;
        assert(m.take(0) =~= Seq::<OpModel>::empty());
        assert(ops_model(rest@) =~= Seq::<OpModel>::empty());
        assert(cycles_model(cycles@) =~= Seq::<Seq<Name>>::empty());
        while i < n
            invariant
                n == cs.len(),
                i <= n,
                m == ops_model(cs@),
                this == self.this_var_name(),
                b0 == self.env(),
                this == old(self).this_var_name(),
                b0 == old(self).env(),
                m == as_ops(o@.args),
                fuel > 0,
                unify_scan(this, m.take(i as int)) == Some((pairs, ops_model(rest@))),
                cycles_model(cycles@) == build_cycles(pairs),
            decreases n - i,
        {
            let c = &cs[i];
            proof {
                assert(m.take(i + 1).drop_last() =~= m.take(i as int));
                assert(m.take(i + 1).last() == c@);
                lemma_terms_model(c.args@);
            }
            let mut is_pair = false;
            if c.operator == Operator::Unify || c.operator == Operator::Eq {
                if c.args.len() < 2 {
                    proof {
                        if unify_scan(this, m) is Some {
                            lemma_unify_scan_prefix(this, m, i + 1);
                        }
                    }
                    return None;
                }
                let left = &c.args[0];
                let right = &c.args[1];
                let either = match self.dot_this_checked(left) {
                    None => None,
                    Some(true) => Some(true),
                    Some(false) => self.dot_this_checked(right),
                };
                match either {
                    None => {
                        proof {
                            if unify_scan(this, m) is Some {
                                lemma_unify_scan_prefix(this, m, i + 1);
                            }
                        }
                        return None;
                    },
                    Some(true) => {},
                    Some(false) => {
                        match (left.value().as_symbol(), right.value().as_symbol()) {
                            // Both sides are variables, but neither is _this. Bind together.
                            (Some(l), Some(r)) => {
                                proof {
                                    assert(build_cycles(pairs.push((l@, r@))) == add_pair(
                                        build_cycles(pairs),
                                        (l@, r@),
                                    )) by {
                                        assert(pairs.push((l@, r@)).drop_last() =~= pairs);
                                    }
                                    pairs = pairs.push((l@, r@));
                                }
                                add_pair_to_cycles(&mut cycles, l, r);
                                is_pair = true;
                            },
                            _ => {},
                        }
                    },
                }
            }
            if !is_pair {
                let ghost r0 = rest@;
                rest.push(c.clone());
                assert(ops_model(rest@) =~= ops_model(r0).push(c@));
            }
            i = i + 1;
        }
        assert(m.take(n as int) =~= m);
        // Combine cycles.
        let joined = join_all_cycles(&cycles);
        let ghost jm = cycles_model(joined@);
        // Bind every variable of a cycle to one symbol of it, preferring a non-temporary one.
        let jn = joined.len();
        let mut k: usize = 0;
        assert(jm.take(0) =~= Seq::<Seq<Name>>::empty());
        while k < jn
            invariant
                jn == joined@.len(),
                k <= jn,
                jm == cycles_model(joined@),
                this == self.this_var_name(),
                this == old(self).this_var_name(),
                b0 == old(self).env(),
                m == as_ops(o@.args),
                fuel > 0,
                unify_scan(this, m) == Some((pairs, ops_model(rest@))),
                jm == join_cycles(build_cycles(pairs)),
                bind_cycles(b0, jm.take(k as int)) == Some(self.env()),
            decreases jn - k,
        {
            proof {
                assert(jm.take(k + 1).drop_last() =~= jm.take(k as int));
                assert(jm.take(k + 1).last() == jm[k as int]);
            }
            let cycle = &joined[k];
            let ghost cm = jm[k as int];
            let ghost bk = self.env();
            let cycle_sym = pick_symbol(cycle);
            let cycle_term = Term::var(cycle_sym.clone());
            let cn = cycle.len();
            let mut j: usize = 0;
            assert(cm.take(0) =~= Seq::<Name>::empty());
            while j < cn
                invariant
                    cn == cycle@.len(),
                    j <= cn,
                    cm == names(cycle@),
                    cycle_sym@ == pick(cm),
                    cycle_term@ == TermModel::Variable(pick(cm)),
                    this == self.this_var_name(),
                    this == old(self).this_var_name(),
                    b0 == old(self).env(),
                    m == as_ops(o@.args),
                    fuel > 0,
                    unify_scan(this, m) == Some((pairs, ops_model(rest@))),
                    jm == join_cycles(build_cycles(pairs)),
                    jm == cycles_model(joined@),
                    k < jn,
                    jn == joined@.len(),
                    cm == jm[k as int],
                    bind_cycles(b0, jm.take(k as int)) == Some(bk),
                    jm.take(k + 1).drop_last() == jm.take(k as int),
                    jm.take(k + 1).last() == jm[k as int],
                    bind_cycle(bk, cm.take(j as int), pick(cm)) == Some(self.env()),
                decreases cn - j,
            {
                proof {
                    assert(cm.take(j + 1).drop_last() =~= cm.take(j as int));
                    assert(cm.take(j + 1).last() == cycle@[j as int]@);
                }
                let symbol = &cycle[j];
                if !symbol.eq_symbol(&cycle_sym) {
                    if !self.try_bind(symbol.clone(), clone_term(&cycle_term)) {
                        proof {
                            if bind_cycle(bk, cm, pick(cm)) is Some {
                                lemma_bind_cycle_prefix(bk, cm, pick(cm), j + 1);
                            }
                            if bind_cycles(b0, jm) is Some {
                                lemma_bind_cycles_prefix(b0, jm, k + 1);
                            }
                        }
                        return None;
                    }
                }
                j = j + 1;
            }
            assert(cm.take(cn as int) =~= cm);
            k = k + 1;
        }
        assert(jm.take(jn as int) =~= jm);
        // Replace one more constraint with bindings, where one can be.
        let ghost b1 = self.env();
        let ghost rm = ops_model(rest@);
        let rn = rest.len();
        let mut pos: Option<usize> = None;
        let mut p: usize = 0;
        while p < rn && pos.is_none()
            invariant
                rn == rest@.len(),
                p <= rn,
                rm == ops_model(rest@),
                this == self.this_var_name(),
                this == old(self).this_var_name(),
                b0 == old(self).env(),
                m == as_ops(o@.args),
                fuel > 0,
                unify_scan(this, m) == Some((pairs, rm)),
                bind_cycles(b0, join_cycles(build_cycles(pairs))) == Some(b1),
                match pos {
                    None => self.env() == b1 && find_binding(this, b1, rm, 0) == find_binding(
                        this,
                        b1,
                        rm,
                        p as int,
                    ),
                    Some(q) => q < rn && find_binding(this, b1, rm, 0) == Some(
                        (self.env(), Some(q as int)),
                    ),
                },
            decreases rn - p, if pos is None { 1int } else { 0int },
        {
            let constraint = &rest[p];
            let others = without_constraint(&rest, constraint);
            let other_constraints = Operation { operator: Operator::And, args: ops_into_terms(others) };
            let variables = other_constraints.variables();
            proof {
                assert(names(variables@) == other_vars(rm, rm[p as int]));
            }
            match self.try_maybe_bind_constraint(constraint, variables) {
                Some(true) => {
                    pos = Some(p);
                },
                Some(false) => {
                    p = p + 1;
                },
                None => {
                    return None;
                },
            }
        }
        let ghost rest_m = ops_model(rest@);
        match pos {
            Some(q) => {
                let _ = rest.remove(q);
                assert(ops_model(rest@) =~= rest_m.remove(q as int));
            },
            None => {},
        }
        let args = ops_into_terms(rest);
        match self.fold_list(&args, fuel - 1) {
            Some(folded) => Some(Operation { operator: Operator::And, args: folded }),
            None => None,
        }
    }

    /// Passes over the term until one leaves it unchanged, the bindings
    /// cleared between passes; `None` where a step fails or the fuel runs out.
    pub fn simplify_partial_with_fuel(&mut self, term: Term, fuel: u64) -> (r: Option<Term>)
        ensures
            match r {
                Some(x) => simplify_loop_model(
                    old(self).this_var_name(),
                    old(self).env(),
                    term@,
                    fuel as nat,
                ) == Some((final(self).env(), x@)),
                None => simplify_loop_model(
                    old(self).this_var_name(),
                    old(self).env(),
                    term@,
                    fuel as nat,
                ) is None,
            },
            final(self).this_var_name() == old(self).this_var_name(),
        decreases fuel, 0nat,
    {
        let ghost this = self.this_var_name();
        let ghost res = simplify_loop_model(this, self.env(), term@, fuel as nat);
        let ghost old_term = term@;
        assert(this == old(self).this_var_name());
        assert(res == simplify_loop_model(old(self).this_var_name(), old(self).env(), term@, fuel as nat));
        let mut g: u64 = fuel;
        let mut cur = term;
        loop
            invariant
                g <= fuel,
                this == self.this_var_name(),
                this == old(self).this_var_name(),
                res == simplify_loop_model(old(self).this_var_name(), old(self).env(), old_term, fuel as nat),
                old_term == term@,
                simplify_loop_model(this, self.env(), cur@, g as nat) == res,
            decreases g,
        {
            if g == 0 {
                return None;
            }
            let before = clone_term(&cur);
            match self.fold_term(cur, g - 1) {
                Some(after) => {
                    if term_eq(&before, &after) {
                        assert(res == Some((self.env(), after@)));
                        return Some(after);
                    }
                    cur = after;
                    self.bindings.clear();
                    g = g - 1;
                },
                None => {
                    return None;
                },
            }
        }
    }

    /// Simplify a partial until quiescence.
    pub fn simplify_partial(&mut self, term: Term) -> (r: Term)
        requires
            simplify_runs(old(self).this_var_name(), old(self).env(), term@),
        ensures
            simplify_result(old(self).this_var_name(), old(self).env(), term@) == (
                final(self).env(),
                r@,
            ),
            final(self).this_var_name() == old(self).this_var_name(),
    {
        match self.simplify_partial_with_fuel(term, u64::MAX) {
            Some(r) => r,
            None => true_op().into_term(),
        }
    }
}

/// The simplified constraint on `var`, computed with the given fuel:
/// simplify until quiescence, turn `_this = x` into `x` when `x` is ground,
/// and wrap an expression other than a conjunction in a conjunction; `None`
/// where a step fails or the fuel runs out.
pub fn simplify_partial_with_fuel(var: &Symbol, term: Term, fuel: u64) -> (r: Option<Term>)
    ensures
        match r {
            Some(x) => simplify_partial_at(var@, term@, fuel as nat) == Some(x@),
            None => simplify_partial_at(var@, term@, fuel as nat) is None,
        },
{
    let mut simplifier = Simplifier::new(var.clone());
    let simplified = match simplifier.simplify_partial_with_fuel(term, fuel) {
        Some(s) => s,
        None => {
            return None;
        },
    };
    let defined = match &simplified.value {
        Value::Expression(o) => {
            proof {
                lemma_terms_model(o.args@);
            }
            !(o.operator == Operator::Unify && o.args.len() < 2)
        },
        _ => true,
    };
    if !defined {
        return None;
    }
    let simplified = simplify_trivial_constraint(var.clone(), simplified);
    let wrap = match &simplified.value {
        Value::Expression(e) => e.operator != Operator::And,
        _ => false,
    };
    if wrap {
        let mut args: Vec<Term> = Vec::new();
        let ghost s = simplified@;
        args.push(simplified);
        proof {
            crate::terms::lemma_terms_model_push(Seq::<Term>::empty(), args@[0]);
            assert(Seq::<Term>::empty().push(args@[0]) =~= args@);
            assert(terms_model(Seq::<Term>::empty()) =~= Seq::<TermModel>::empty());
            assert(terms_model(args@) =~= seq![s]);
        }
        Some(Operation { operator: Operator::And, args }.into_term())
    } else {
        Some(simplified)
    }
}

/// Simplifies the constraint on `var`: simplify until quiescence, turn
/// `_this = x` into `x` when `x` is ground, and wrap an expression other than
/// a conjunction in a conjunction.
pub fn simplify_partial(var: &Symbol, term: Term) -> (r: Term)
    requires
        simplify_partial_ok(var@, term@),
    ensures
        r@ == simplify_partial_model(var@, term@),
{
    match simplify_partial_with_fuel(var, term, u64::MAX) {
        Some(r) => r,
        None => true_op().into_term(),
    }
}

// ---------------------------------------------------------------------------
// Simplifying bindings
// ---------------------------------------------------------------------------

/// `s.take(i + 1)` holds what `s.take(i)` holds and `s[i]`.
proof fn lemma_take_contains(s: Seq<Name>, i: int)
    requires
        0 <= i < s.len(),
    ensures
        forall|k: Name| #[trigger] s.take(i + 1).contains(k) <==> (s.take(i).contains(k) || k == s[i]),
{
    assert forall|k: Name| #[trigger] s.take(i + 1).contains(k) <==> (s.take(i).contains(k) || k == s[i]) by {
        if s.take(i + 1).contains(k) {
            let t = s.take(i + 1);
            let j = choose|j: int| 0 <= j < t.len() && t[j] == k;
            if j < i {
                assert(s.take(i)[j] == k);
            }
        }
        if s.take(i).contains(k) {
            let t = s.take(i);
            let j = choose|j: int| 0 <= j < t.len() && t[j] == k;
            assert(s.take(i + 1)[j] == k);
        }
        if k == s[i] {
            assert(s.take(i + 1)[i] == k);
        }
    }
}

/// A name still pending in a queue stays pending after the head moves past
/// another name and more names are added at the end.
proof fn lemma_pending_shift(q0: Seq<Name>, q1: Seq<Name>, h0: int, m: Name)
    requires
        0 <= h0 < q0.len(),
        q0.len() <= q1.len(),
        forall|j: int| 0 <= j < q0.len() ==> #[trigger] q1[j] == q0[j],
        q0.subrange(h0, q0.len() as int).contains(m),
        m != q0[h0],
    ensures
        q1.subrange(h0 + 1, q1.len() as int).contains(m),
{
    let sub0 = q0.subrange(h0, q0.len() as int);
    let j = choose|j: int| 0 <= j < sub0.len() && sub0[j] == m;
    assert(j != 0);
    assert(q1[h0 + j] == m);
    assert(q1.subrange(h0 + 1, q1.len() as int)[j - 1] == m);
}

/// A name added at the end of a queue is pending.
proof fn lemma_pending_new(q0: Seq<Name>, extra: Seq<Name>, h: int, m: Name)
    requires
        0 <= h <= q0.len(),
        extra.contains(m),
    ensures
        (q0 + extra).subrange(h, (q0 + extra).len() as int).contains(m),
{
    let q1 = q0 + extra;
    let j = choose|j: int| 0 <= j < extra.len() && extra[j] == m;
    assert(q1[q0.len() + j] == m);
    assert(q1.subrange(h, q1.len() as int)[q0.len() + j - h] == m);
}

/// Appends the symbols to the queue.
fn push_all(queue: &mut VecDeque<Symbol>, syms: Vec<Symbol>)
    ensures
        final(queue)@ == old(queue)@ + syms@,
{
    let ghost q0 = queue@;
    let ghost s0 = syms@;
    let mut syms = syms;
    while syms.len() > 0
        invariant
            queue@ + syms@ == q0 + s0,
        decreases syms@.len(),
    {
        let ghost before = queue@ + syms@;
        let x = syms.remove(0);
        queue.push_back(x);
        assert(queue@ + syms@ =~= before);
    }
    assert(queue@ + syms@ =~= queue@);
}


/// Simplifies the constraint on `var`: the simplified constraint, the
/// variables it mentions, and whether it is the constant false.
fn simplify_constraint(var: &Symbol, term: Term, fuel: u64) -> (r: Option<(Term, Vec<Symbol>, bool)>)
    ensures
        match r {
            Some(x) => {
                &&& simplify_partial_at(var@, term@, fuel as nat) == Some(x.0@)
                &&& names(x.1@) == vars_of(x.0@)
                &&& x.2 == (x.0@ == TermModel::Expression(false_model()))
            },
            None => simplify_partial_at(var@, term@, fuel as nat) is None,
        },
{
    let simplified = match simplify_partial_with_fuel(var, term, fuel) {
        Some(s) => s,
        None => {
            return None;
        },
    };
    let unsatisfiable = match &simplified.value {
        Value::Expression(o) => op_eq(o, &false_op()),
        _ => false,
    };
    let mut symbols: Vec<Symbol> = Vec::new();
    assert(names(symbols@) =~= Seq::<Name>::empty());
    simplified.variables(&mut symbols);
    assert(names(symbols@) =~= vars_of(simplified@));
    Some((simplified, symbols, unsatisfiable))
}

/// The term given back for the binding of `var` to `value`, with the
/// variables it mentions and whether it is unsatisfiable; `None` where a
/// constraint is not a conjunction or its simplification fails with this fuel.
fn entry_value(bindings: &Bindings, var: &Symbol, value: &Term, fuel: u64) -> (r: Option<(Term, Vec<Symbol>, bool)>)
    requires
        bindings@.dom().contains(var@),
        value@ == bindings@[var@],
    ensures
        r is Some <==> entry_ok_at(bindings@, var@, fuel as nat),
        r matches Some(x) ==> {
            &&& x.0@ == entry_result(bindings@, var@)
            &&& names(x.1@) == vars_of(x.0@)
            &&& !x.2
        },
{
    match &value.value {
        Value::Expression(o) => {
            if o.operator != Operator::And {
                return None;
            }
            let r = simplify_constraint(var, clone_term(value), fuel);
            proof {
                if r is Some {
                    lemma_simplify_partial_at(var@, value@, fuel as nat);
                    lemma_simplified_is_conjunction(var@, value@);
                }
            }
            r
        },
        _ => {
            let simplified = match value.value().as_symbol() {
                Some(v) => {
                    if v.is_temporary_var() {
                        match bindings.get(v) {
                            Some(t) => if t.value().as_symbol().is_some() {
                                clone_term(t)
                            } else {
                                clone_term(value)
                            },
                            None => clone_term(value),
                        }
                    } else {
                        clone_term(value)
                    }
                },
                None => clone_term(value),
            };
            let mut symbols: Vec<Symbol> = Vec::new();
            assert(names(symbols@) =~= Seq::<Name>::empty());
            simplified.variables(&mut symbols);
            assert(names(symbols@) =~= vars_of(simplified@));
            Some((simplified, symbols, false))
        },
    }
}

/// Simplify the values of the bindings to be returned to the host language.
///
/// - For partials, simplify the constraint expressions.
/// - For non-partials, deep deref. TODO(ap/gj): deep deref.
pub fn simplify_bindings(bindings: Bindings, all: bool) -> (r: Option<Bindings>)
    requires
        bindings_ok(bindings@, all),
    ensures
        r is Some,
        r matches Some(s) ==> s@ == simplified_bindings_model(bindings@, all),
{
    match simplify_bindings_with_fuel(bindings, all, u64::MAX) {
        Some(r) => r,
        None => None,
    }
}

/// `simplify_bindings` with the given fuel for each simplification: `None`
/// where the binding of a name that is given back is a constraint that is not
/// a conjunction or whose simplification fails with this fuel.
pub fn simplify_bindings_with_fuel(bindings: Bindings, all: bool, fuel: u64) -> (r: Option<Option<Bindings>>)
    ensures
        r is Some <==> bindings_ok_at(bindings@, all, fuel as nat),
        r matches Some(x) ==> x is Some,
        r matches Some(Some(s)) ==> s@ == simplified_bindings_model(bindings@, all),
{
    let ghost b = bindings@;
    let ghost ks = bindings.key_seq();
    let mut unsatisfiable = false;
    let mut simplified_bindings = Bindings::new();
    let n = bindings.len();
    if all {
        let mut i: usize = 0;
        assert(ks.take(0) =~= Seq::<Name>::empty());
        assert(simplified_bindings@ =~= Map::new(|k: Name| ks.take(0).contains(k), |k: Name| entry_result(b, k)));
        while i < n
            invariant
                n == ks.len(),
                i <= n,
                b == bindings@,
                ks == bindings.key_seq(),
                forall|k: Name| b.dom().contains(k) <==> ks.contains(k),
                forall|k: Name| #[trigger] ks.take(i as int).contains(k) ==> entry_ok_at(b, k, fuel as nat),
                all,
                !unsatisfiable,
                simplified_bindings@ == Map::new(|k: Name| ks.take(i as int).contains(k), |k: Name| entry_result(b, k)),
            decreases n - i,
        {
            let (var, value) = bindings.entry_at(i);
            proof {
                assert(ks.contains(var@)) by {
                    assert(ks[i as int] == var@);
                }
                assert(returned_names(b, all).contains(var@));
                lemma_take_contains(ks, i as int);
            }
            let (simplified, _, u) = match entry_value(&bindings, var, value, fuel) {
                Some(x) => x,
                None => {
                    return None;
                },
            };
            if u {
                unsatisfiable = true;
            }
            let ghost m0 = simplified_bindings@;
            simplified_bindings.insert(var.clone(), simplified);
            assert(simplified_bindings@ =~= Map::new(|k: Name| ks.take(i + 1).contains(k), |k: Name| entry_result(b, k)));
            i = i + 1;
        }
        assert(ks.take(n as int) =~= ks);
        assert(simplified_bindings@ =~= simplified_bindings_model(b, all));
        assert forall|k: Name| #[trigger] returned_names(b, all).contains(k) implies entry_ok_at(b, k, fuel as nat) by {
            assert(ks.contains(k));
            assert(ks.take(n as int).contains(k));
        }
    } else {
        let mut referenced_vars: VecDeque<Symbol> = VecDeque::new();
        // Every name ever queued, in order; the queue holds those from `head` on.
        let ghost mut refs: Seq<Symbol> = Seq::empty();
        let ghost mut head: int = 0;
        let mut i: usize = 0;
        assert(ks.take(0) =~= Seq::<Name>::empty());
        while i < n
            invariant
                n == ks.len(),
                i <= n,
                b == bindings@,
                ks == bindings.key_seq(),
                forall|k: Name| b.dom().contains(k) <==> ks.contains(k),
                forall|k: Name| #[trigger] simplified_bindings@.dom().contains(k) ==> entry_ok_at(b, k, fuel as nat),
                !all,
                !unsatisfiable,
                referenced_vars@ == refs,
                forall|k: Name| #[trigger] simplified_bindings@.dom().contains(k) <==> (ks.take(i as int).contains(k) && !is_temp_name(k)),
                forall|k: Name| #[trigger] simplified_bindings@.dom().contains(k) ==> simplified_bindings@[k] == entry_result(b, k),
                forall|k: Name, m: Name|
                    simplified_bindings@.dom().contains(k) && #[trigger] entry_refs(b, k).contains(m) ==> #[trigger] names(refs).contains(m),
                forall|j: int| 0 <= j < refs.len() && b.dom().contains(#[trigger] refs[j]@) ==> reachable(b, refs[j]@),
            decreases n - i,
        {
            let (var, value) = bindings.entry_at(i);
            proof {
                assert(ks.contains(var@)) by {
                    assert(ks[i as int] == var@);
                }
                lemma_take_contains(ks, i as int);
            }
            if !var.is_temporary_var() {
                proof {
                    lemma_root_reachable(b, var@);
                    assert(returned_names(b, all).contains(var@));
                }
                let (simplified, symbols, u) = match entry_value(&bindings, var, value, fuel) {
                    Some(x) => x,
                    None => {
                        return None;
                    },
                };
                if u {
                    unsatisfiable = true;
                }
                let ghost q0 = refs;
                let ghost s0 = simplified_bindings@;
                let ghost sy = names(symbols@);
                simplified_bindings.insert(var.clone(), simplified);
                let ghost added = symbols@;
                push_all(&mut referenced_vars, symbols);
                proof {
                    refs = refs + added;
                    assert(names(refs) =~= names(q0) + names(added));
                    let nq = names(refs);
                    assert(sy == entry_refs(b, var@));
                    assert(nq == names(q0) + sy);
                    assert forall|k: Name, m: Name|
                        simplified_bindings@.dom().contains(k) && #[trigger] entry_refs(b, k).contains(m) implies #[trigger] names(refs).contains(m) by {
                        if k == var@ {
                            let j = choose|j: int| 0 <= j < sy.len() && sy[j] == m;
                            assert(nq[names(q0).len() + j] == m);
                        } else {
                            assert(s0.dom().contains(k));
                            assert(names(q0).contains(m));
                            let j = choose|j: int| 0 <= j < names(q0).len() && names(q0)[j] == m;
                            assert(nq[j] == m);
                        }
                    }
                    assert forall|j: int| 0 <= j < refs.len() && b.dom().contains(#[trigger] refs[j]@) implies reachable(b, refs[j]@) by {
                        assert(nq[j] == refs[j]@);
                        if j >= q0.len() {
                            assert(sy[j - q0.len()] == refs[j]@);
                            assert(entry_refs(b, var@).contains(refs[j]@));
                            lemma_ref_reachable(b, var@, refs[j]@);
                        } else {
                            assert(nq[j] == names(q0)[j]);
                            assert(q0[j]@ == refs[j]@);
                        }
                    }
                }
            }
            i = i + 1;
        }
        assert(ks.take(n as int) =~= ks);
        proof {
            assert forall|k: Name| #[trigger] simplified_bindings@.dom().contains(k) implies b.dom().contains(k) && reachable(b, k) by {
                lemma_root_reachable(b, k);
            }
            assert(simplified_bindings@.dom().subset_of(b.dom()));
            vstd::set_lib::lemma_len_subset(simplified_bindings@.dom(), b.dom());
            assert(names(refs).subrange(0, refs.len() as int) =~= names(refs));
        }
        while referenced_vars.len() > 0
            invariant
                0 <= head <= refs.len(),
                referenced_vars@ == refs.subrange(head, refs.len() as int),
                b == bindings@,
                ks == bindings.key_seq(),
                forall|k: Name| b.dom().contains(k) <==> ks.contains(k),
                b.dom().finite(),
                forall|k: Name| #[trigger] simplified_bindings@.dom().contains(k) ==> entry_ok_at(b, k, fuel as nat),
                !all,
                !unsatisfiable,
                simplified_bindings@.dom().finite(),
                simplified_bindings@.dom().len() <= b.dom().len(),
                forall|k: Name| #[trigger] simplified_bindings@.dom().contains(k) ==> b.dom().contains(k) && reachable(b, k),
                forall|k: Name| #[trigger] simplified_bindings@.dom().contains(k) ==> simplified_bindings@[k] == entry_result(b, k),
                forall|k: Name| b.dom().contains(k) && !is_temp_name(k) ==> #[trigger] simplified_bindings@.dom().contains(k),
                forall|k: Name, m: Name|
                    simplified_bindings@.dom().contains(k) && #[trigger] entry_refs(b, k).contains(m) && b.dom().contains(m) ==> #[trigger] simplified_bindings@.dom().contains(m)
                        || names(refs).subrange(head, refs.len() as int).contains(m),
                forall|j: int| 0 <= j < refs.len() && b.dom().contains(#[trigger] refs[j]@) ==> reachable(b, refs[j]@),
            decreases b.dom().len() - simplified_bindings@.dom().len(), referenced_vars@.len(),
        {
            let var = match referenced_vars.pop_front() {
                Some(v) => v,
                None => {
                    return None;
                },
            };
            let ghost h0 = head;
            let ghost q0 = refs;
            let ghost s0 = simplified_bindings@;
            proof {
                assert(var == q0[h0]);
                head = head + 1;
            }
            if !simplified_bindings.contains_key(&var) {
                if let Some(value) = bindings.get(&var) {
                    proof {
                        assert(reachable(b, var@)) by {
                            assert(b.dom().contains(q0[h0]@));
                        }
                        assert(returned_names(b, all).contains(var@));
                    }
                    let (simplified, symbols, u) = match entry_value(&bindings, &var, value, fuel) {
                        Some(x) => x,
                        None => {
                            return None;
                        },
                    };
                    if u {
                        unsatisfiable = true;
                    }
                    let ghost sy = names(symbols@);
                    simplified_bindings.insert(var.clone(), simplified);
                    let ghost added = symbols@;
                    let ghost pending = referenced_vars@;
                    push_all(&mut referenced_vars, symbols);
                    proof {
                        refs = refs + added;
                        assert(names(refs) =~= names(q0) + names(added));
                        assert(referenced_vars@ =~= refs.subrange(head, refs.len() as int));
                        assert(simplified_bindings@.dom() =~= s0.dom().insert(var@));
                        assert(simplified_bindings@.dom().subset_of(b.dom()));
                        vstd::set_lib::lemma_len_subset(simplified_bindings@.dom(), b.dom());
                        let nq = names(refs);
                        assert(sy == entry_refs(b, var@));
                        assert(nq == names(q0) + sy);
                        assert(nq.len() == refs.len());
                        assert forall|j: int| 0 <= j < names(q0).len() implies #[trigger] nq[j] == names(q0)[j] by {}
                        assert forall|k: Name, m: Name|
                            simplified_bindings@.dom().contains(k) && #[trigger] entry_refs(b, k).contains(m) && b.dom().contains(m) implies #[trigger] simplified_bindings@.dom().contains(m)
                                || nq.subrange(head, refs.len() as int).contains(m) by {
                            if !simplified_bindings@.dom().contains(m) {
                                if k == var@ {
                                    lemma_pending_new(names(q0), sy, head, m);
                                } else {
                                    assert(s0.dom().contains(k));
                                    assert(names(q0).subrange(h0, q0.len() as int).contains(m));
                                    assert(m != names(q0)[h0]);
                                    lemma_pending_shift(names(q0), nq, h0, m);
                                }
                            }
                        }
                        assert forall|j: int| 0 <= j < refs.len() && b.dom().contains(#[trigger] refs[j]@) implies reachable(b, refs[j]@) by {
                            assert(nq[j] == refs[j]@);
                            if j >= q0.len() {
                                assert(sy[j - q0.len()] == refs[j]@);
                                assert(entry_refs(b, var@).contains(refs[j]@));
                                lemma_ref_reachable(b, var@, refs[j]@);
                            } else {
                                assert(nq[j] == names(q0)[j]);
                                assert(q0[j]@ == refs[j]@);
                            }
                        }
                    }
                } else {
                    proof {
                        let nq = names(refs);
                        assert forall|k: Name, m: Name|
                            simplified_bindings@.dom().contains(k) && #[trigger] entry_refs(b, k).contains(m) && b.dom().contains(m) implies #[trigger] simplified_bindings@.dom().contains(m)
                                || nq.subrange(head, refs.len() as int).contains(m) by {
                            if !simplified_bindings@.dom().contains(m) {
                                assert(nq.subrange(h0, q0.len() as int).contains(m));
                                assert(m != nq[h0]);
                                lemma_pending_shift(nq, nq, h0, m);
                            }
                        }
                    }
                }
            } else {
                proof {
                    let nq = names(refs);
                    assert forall|k: Name, m: Name|
                        simplified_bindings@.dom().contains(k) && #[trigger] entry_refs(b, k).contains(m) && b.dom().contains(m) implies #[trigger] simplified_bindings@.dom().contains(m)
                            || nq.subrange(head, refs.len() as int).contains(m) by {
                        if !simplified_bindings@.dom().contains(m) {
                            assert(nq.subrange(h0, q0.len() as int).contains(m));
                            assert(m != nq[h0]);
                            lemma_pending_shift(nq, nq, h0, m);
                        }
                    }
                }
            }
        }
        proof {
            let s = simplified_bindings@.dom();
            assert forall|r: Name, m: Name|
                s.contains(r) && #[trigger] entry_refs(b, r).contains(m) && b.dom().contains(m) implies #[trigger] s.contains(m) by {
                assert(names(refs).subrange(head, refs.len() as int).len() == 0);
            }
            assert forall|k: Name| returned_names(b, all).contains(k) <==> #[trigger] s.contains(k) by {
                if reachable(b, k) {
                    lemma_reachable_in_closed(b, s, k);
                }
            }
            assert(simplified_bindings@ =~= simplified_bindings_model(b, all));
            assert forall|k: Name| #[trigger] returned_names(b, all).contains(k) implies entry_ok_at(b, k, fuel as nat) by {
                assert(s.contains(k));
            }
        }
    }
    if unsatisfiable {
        Some(None)
    } else {
        Some(Some(simplified_bindings))
    }
}

} // verus!
