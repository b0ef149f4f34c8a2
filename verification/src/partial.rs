//! Negation of constraints.
use vstd::prelude::*;
use crate::terms::{
    expr_op, lemma_terms_model, lemma_terms_model_push, term_model, terms_model,
    OpModel, Operation, Operator, Term, TermModel, Value,
};

verus! {

/// The negation of a constraint, or `None` where no negation is defined.
pub open spec fn invert_model(o: OpModel) -> Option<OpModel>
    decreases o,
{
    match o.operator {
        Operator::And => match invert_all(o.args) {
            Some(a) => Some(OpModel { operator: Operator::Or, args: a }),
            None => None,
        },
        Operator::Or => match invert_all(o.args) {
            Some(a) => Some(OpModel { operator: Operator::And, args: a }),
            None => None,
        },
        Operator::Unify | Operator::Eq => Some(OpModel { operator: Operator::Neq, args: o.args }),
        Operator::Neq => Some(OpModel { operator: Operator::Unify, args: o.args }),
        Operator::Gt => Some(OpModel { operator: Operator::Leq, args: o.args }),
        Operator::Geq => Some(OpModel { operator: Operator::Lt, args: o.args }),
        Operator::Lt => Some(OpModel { operator: Operator::Geq, args: o.args }),
        Operator::Leq => Some(OpModel { operator: Operator::Gt, args: o.args }),
        Operator::Debug | Operator::Print | Operator::New | Operator::Dot => Some(o),
        Operator::Isa => Some(
            OpModel { operator: Operator::Not, args: seq![TermModel::Expression(o)] },
        ),
        Operator::Not => if o.args.len() > 0 && o.args[0] is Expression {
            Some(expr_op(o.args[0]))
        } else {
            None
        },
        _ => None,
    }
}

/// The negations of a sequence of expressions, or `None` where one is not defined.
pub open spec fn invert_all(ts: Seq<TermModel>) -> Option<Seq<TermModel>>
    decreases ts,
{
    if ts.len() == 0 {
        Some(Seq::empty())
    } else {
        match invert_all(ts.drop_last()) {
            None => None,
            Some(a) => match ts.last() {
                TermModel::Expression(e) => match invert_model(e) {
                    Some(e2) => Some(a.push(TermModel::Expression(e2))),
                    None => None,
                },
                _ => None,
            },
        }
    }
}

proof fn lemma_invert_all_prefix(ts: Seq<TermModel>, i: int)
    requires
        0 <= i <= ts.len(),
        invert_all(ts) is Some,
    ensures
        invert_all(ts.take(i)) is Some,
    decreases ts.len(),
{
    if i < ts.len() {
        assert(ts.drop_last() =~= ts.take(ts.len() - 1));
        lemma_invert_all_prefix(ts.drop_last(), i);
        assert(ts.drop_last().take(i) =~= ts.take(i));
    } else {
        assert(ts.take(i) =~= ts);
    }
}

/// Negates a constraint: conjunctions become disjunctions of the negated
/// arguments and back, comparisons flip, a negation is removed, and a type
/// check is wrapped in a negation.
pub fn invert_operation(o: Operation) -> (r: Operation)
    requires
        invert_model(o@) is Some,
    ensures
        r@ == invert_model(o@).unwrap(),
{
    match try_invert_operation(o) {
        Some(r) => r,
        None => Operation { operator: Operator::And, args: Vec::new() },
    }
}

/// The negation of a constraint, or `None` where `invert_model` gives none.
pub fn try_invert_operation(o: Operation) -> (r: Option<Operation>)
    ensures
        match r {
            Some(x) => invert_model(o@) == Some(x@),
            None => invert_model(o@) is None,
        },
    decreases o@,
{
    match o.operator {
        Operator::And => match invert_args(&o.args) {
            Some(args) => Some(Operation { operator: Operator::Or, args }),
            None => None,
        },
        Operator::Or => match invert_args(&o.args) {
            Some(args) => Some(Operation { operator: Operator::And, args }),
            None => None,
        },
        Operator::Unify | Operator::Eq => Some(Operation { operator: Operator::Neq, args: o.args }),
        Operator::Neq => Some(Operation { operator: Operator::Unify, args: o.args }),
        Operator::Gt => Some(Operation { operator: Operator::Leq, args: o.args }),
        Operator::Geq => Some(Operation { operator: Operator::Lt, args: o.args }),
        Operator::Lt => Some(Operation { operator: Operator::Geq, args: o.args }),
        Operator::Leq => Some(Operation { operator: Operator::Gt, args: o.args }),
        Operator::Debug | Operator::Print | Operator::New | Operator::Dot => Some(o),
        Operator::Isa => {
            let mut args: Vec<Term> = Vec::new();
            let t = o.into_term();
            proof {
                lemma_terms_model_push(args@, t);
                assert(args@.push(t).len() == 1);
            }
            args.push(t);
            proof {
                assert(terms_model(args@) =~= seq![term_model(t)]);
            }
            Some(Operation { operator: Operator::Not, args })
        },
        Operator::Not => {
            proof {
                lemma_terms_model(o.args@);
            }
            if o.args.len() == 0 {
                return None;
            }
            match &o.args[0].value {
                Value::Expression(e) => Some(e.clone()),
                _ => None,
            }
        },
        _ => None,
    }
}

fn invert_args(ts: &Vec<Term>) -> (r: Option<Vec<Term>>)
    ensures
        match r {
            Some(xs) => invert_all(terms_model(ts@)) == Some(terms_model(xs@)),
            None => invert_all(terms_model(ts@)) is None,
        },
    decreases terms_model(ts@),
{
    proof {
        lemma_terms_model(ts@);
    }
    let n = ts.len();
    let mut r: Vec<Term> = Vec::new();
    let mut i: usize = 0;
    assert(terms_model(ts@).take(0) =~= Seq::<TermModel>::empty());
    assert(terms_model(r@) =~= Seq::<TermModel>::empty());
    while i < n
        invariant
            n == ts.len(),
            i <= n,
            terms_model(ts@).len() == n,
            forall|j: int| 0 <= j < n ==> #[trigger] terms_model(ts@)[j] == term_model(ts@[j]),
            invert_all(terms_model(ts@).take(i as int)) == Some(terms_model(r@)),
        decreases n - i,
    {
        let ghost tm = terms_model(ts@);
        proof {
            assert(tm.take(i + 1).drop_last() =~= tm.take(i as int));
            assert(tm.take(i + 1).last() == tm[i as int]);
        }
        match &ts[i].value {
            Value::Expression(e) => {
                assert(decreases_to!(tm => tm[i as int]));
                let ec = e.clone();
                assert(tm[i as int] == TermModel::Expression(ec@));
                assert(tm[i as int]->Expression_0 == ec@);
                assert(decreases_to!(tm[i as int] => tm[i as int]->Expression_0));
                assert(decreases_to!(tm => ec@));
                let inv = try_invert_operation(ec);
                match inv {
                    Some(e2) => {
                        let t = e2.into_term();
                        proof {
                            lemma_terms_model_push(r@, t);
                        }
                        r.push(t);
                    },
                    None => {
                        proof {
                            if invert_all(tm) is Some {
                                lemma_invert_all_prefix(tm, i + 1);
                            }
                        }
                        return None;
                    },
                }
            },
            _ => {
                proof {
                    if invert_all(tm) is Some {
                        lemma_invert_all_prefix(tm, i + 1);
                    }
                }
                return None;
            },
        }
        i = i + 1;
    }
    assert(terms_model(ts@).take(n as int) =~= terms_model(ts@));
    Some(r)
}

} // verus!
