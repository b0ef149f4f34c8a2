//! Terms of the policy language: symbols, values, operations, and the
//! mathematical model (`TermModel`) that contracts are written against.
use vstd::prelude::*;
use vstd::string::StrSliceExecFns;

verus! {

/// The name of a variable, as the sequence of its characters.
pub type Name = Seq<char>;

#[derive(Clone, Copy, Debug, PartialEq, Eq, Structural)]
pub enum Operator {
    Debug,
    Print,
    Cut,
    In,
    Isa,
    New,
    Dot,
    Not,
    Mul,
    Div,
    Mod,
    Rem,
    Add,
    Sub,
    Eq,
    Geq,
    Leq,
    Neq,
    Gt,
    Lt,
    Unify,
    Or,
    And,
    ForAll,
    Assign,
}

/// A variable name.
pub struct Symbol(pub String);

pub enum Value {
    Number(i64),
    String(String),
    Boolean(bool),
    List(Vec<Term>),
    Variable(Symbol),
    RestVariable(Symbol),
    Expression(Operation),
}

pub struct Term {
    pub value: Value,
}

pub struct Operation {
    pub operator: Operator,
    pub args: Vec<Term>,
}

/// Mathematical model of a term.
pub enum TermModel {
    Number(i64),
    Str(Seq<char>),
    Boolean(bool),
    List(Seq<TermModel>),
    Variable(Name),
    RestVariable(Name),
    Expression(OpModel),
}

/// Mathematical model of an operation.
pub struct OpModel {
    pub operator: Operator,
    pub args: Seq<TermModel>,
}

pub open spec fn term_model(t: Term) -> TermModel
    decreases t,
{
    match t.value {
        Value::Number(n) => TermModel::Number(n),
        Value::String(s) => TermModel::Str(s@),
        Value::Boolean(b) => TermModel::Boolean(b),
        Value::List(ts) => TermModel::List(terms_model(ts@)),
        Value::Variable(v) => TermModel::Variable(v.0@),
        Value::RestVariable(v) => TermModel::RestVariable(v.0@),
        Value::Expression(o) => TermModel::Expression(
            OpModel { operator: o.operator, args: terms_model(o.args@) },
        ),
    }
}

pub open spec fn terms_model(ts: Seq<Term>) -> Seq<TermModel>
    decreases ts,
{
    if ts.len() == 0 {
        Seq::empty()
    } else {
        terms_model(ts.drop_last()).push(term_model(ts.last()))
    }
}


impl View for Symbol {
    type V = Name;

    open spec fn view(&self) -> Name {
        self.0@
    }
}

impl View for Term {
    type V = TermModel;

    open spec fn view(&self) -> TermModel {
        term_model(*self)
    }
}

impl View for Operation {
    type V = OpModel;

    open spec fn view(&self) -> OpModel {
        OpModel { operator: self.operator, args: terms_model(self.args@) }
    }
}

/// The models of a sequence of terms, element by element.
pub proof fn lemma_terms_model(ts: Seq<Term>)
    ensures
        terms_model(ts).len() == ts.len(),
        forall|i: int| 0 <= i < ts.len() ==> #[trigger] terms_model(ts)[i] == term_model(ts[i]),
    decreases ts.len(),
{
    if ts.len() > 0 {
        lemma_terms_model(ts.drop_last());
    }
}

/// The model of one more term of a sequence.
pub proof fn lemma_terms_model_take(ts: Seq<Term>, i: int)
    requires
        0 <= i < ts.len(),
    ensures
        terms_model(ts.take(i + 1)) == terms_model(ts.take(i)).push(term_model(ts[i])),
        terms_model(ts.take(i + 1)).drop_last() == terms_model(ts.take(i)),
        terms_model(ts.take(i + 1)).last() == term_model(ts[i]),
{
    assert(ts.take(i + 1).drop_last() =~= ts.take(i));
    lemma_terms_model(ts.take(i + 1));
}

/// Two sequences of terms with elementwise equal models have equal models.
pub proof fn lemma_terms_model_ext(xs: Seq<Term>, ys: Seq<Term>)
    requires
        xs.len() == ys.len(),
        forall|i: int| 0 <= i < xs.len() ==> term_model(#[trigger] xs[i]) == term_model(ys[i]),
    ensures
        terms_model(xs) == terms_model(ys),
{
    lemma_terms_model(xs);
    lemma_terms_model(ys);
    assert(terms_model(xs) =~= terms_model(ys));
}

/// Appending a term appends its model.
pub proof fn lemma_terms_model_push(ts: Seq<Term>, t: Term)
    ensures
        terms_model(ts.push(t)) == terms_model(ts).push(term_model(t)),
{
    assert(ts.push(t).drop_last() =~= ts);
}

pub open spec fn is_var(t: TermModel) -> bool {
    t is Variable || t is RestVariable
}

pub open spec fn var_name(t: TermModel) -> Name {
    match t {
        TermModel::Variable(v) => v,
        TermModel::RestVariable(v) => v,
        _ => Seq::empty(),
    }
}

/// A term is ground when no variable occurs in it.
pub open spec fn ground(t: TermModel) -> bool
    decreases t,
{
    match t {
        TermModel::List(ts) => all_ground(ts),
        TermModel::Expression(o) => all_ground(o.args),
        TermModel::Variable(_) => false,
        TermModel::RestVariable(_) => false,
        _ => true,
    }
}

/// Every term of the sequence is ground.
pub open spec fn all_ground(ts: Seq<TermModel>) -> bool
    decreases ts,
{
    if ts.len() == 0 {
        true
    } else {
        all_ground(ts.drop_last()) && ground(ts.last())
    }
}

pub proof fn lemma_all_ground(ts: Seq<TermModel>)
    ensures
        all_ground(ts) == (forall|i: int| 0 <= i < ts.len() ==> #[trigger] ground(ts[i])),
    decreases ts.len(),
{
    if ts.len() > 0 {
        lemma_all_ground(ts.drop_last());
        assert(ts.last() == ts[ts.len() - 1]);
        assert forall|i: int| 0 <= i < ts.len() - 1 implies ts.drop_last()[i] == ts[i] by {}
        if all_ground(ts) {
            assert forall|i: int| 0 <= i < ts.len() implies #[trigger] ground(ts[i]) by {
                if i < ts.len() - 1 {
                    assert(ground(ts.drop_last()[i]));
                }
            }
        }
        if forall|i: int| 0 <= i < ts.len() ==> #[trigger] ground(ts[i]) {
            assert forall|i: int| 0 <= i < ts.len() - 1 implies #[trigger] ground(ts.drop_last()[i]) by {
                assert(ground(ts[i]));
            }
            assert(ground(ts[ts.len() - 1]));
        }
    }
}

/// The names of the variables and rest variables of `t`, in order of occurrence.
pub open spec fn vars_of(t: TermModel) -> Seq<Name>
    decreases t,
{
    match t {
        TermModel::Variable(v) => seq![v],
        TermModel::RestVariable(v) => seq![v],
        TermModel::List(ts) => vars_of_seq(ts),
        TermModel::Expression(o) => vars_of_seq(o.args),
        _ => Seq::empty(),
    }
}

/// The names of the variables of the terms, in order of occurrence.
pub open spec fn vars_of_seq(ts: Seq<TermModel>) -> Seq<Name>
    decreases ts,
{
    if ts.len() == 0 {
        Seq::empty()
    } else {
        vars_of_seq(ts.drop_last()) + vars_of(ts.last())
    }
}

/// `n` occurs as a variable or a rest variable in `t`.
pub open spec fn has_var(t: TermModel, n: Name) -> bool {
    vars_of(t).contains(n)
}

/// The names of a sequence of symbols.
pub open spec fn names(v: Seq<Symbol>) -> Seq<Name> {
    Seq::new(v.len(), |i: int| v[i]@)
}

/// Temporary variables are those whose name starts with an underscore.
pub open spec fn is_temp_name(n: Name) -> bool {
    n.len() > 0 && n[0] == '_'
}

/// The empty conjunction: the constant true.
pub open spec fn true_model() -> OpModel {
    OpModel { operator: Operator::And, args: Seq::empty() }
}

/// The empty disjunction: the constant false.
pub open spec fn false_model() -> OpModel {
    OpModel { operator: Operator::Or, args: Seq::empty() }
}

/// The same constraint read from right to left.
pub open spec fn mirror_model(o: OpModel) -> OpModel {
    let rev = o.args.reverse();
    match o.operator {
        Operator::Unify | Operator::Eq | Operator::Neq => OpModel { operator: o.operator, args: rev },
        Operator::Gt => OpModel { operator: Operator::Lt, args: rev },
        Operator::Lt => OpModel { operator: Operator::Gt, args: rev },
        Operator::Geq => OpModel { operator: Operator::Leq, args: rev },
        Operator::Leq => OpModel { operator: Operator::Geq, args: rev },
        _ => o,
    }
}

/// Mirroring a constraint twice gives it back.
pub proof fn lemma_mirror_involution(o: OpModel)
    ensures
        mirror_model(mirror_model(o)) == o,
{
    assert(o.args.reverse().reverse() =~= o.args);
}

// ---------------------------------------------------------------------------
// Executable operations
// ---------------------------------------------------------------------------

impl Clone for Symbol {
    fn clone(&self) -> (r: Self)
        ensures
            r@ == self@,
    {
        Symbol(self.0.clone())
    }
}

impl Symbol {
    pub fn new(name: &str) -> (r: Symbol)
        ensures
            r@ == name@,
    {
        Symbol(name.to_owned())
    }

    /// Whether the symbol names a temporary variable (its name starts with `_`).
    pub fn is_temporary_var(&self) -> (r: bool)
        ensures
            r == is_temp_name(self@),
    {
        let s = self.0.as_str();
        s.unicode_len() > 0 && s.get_char(0) == '_'
    }

    pub fn eq_symbol(&self, other: &Symbol) -> (r: bool)
        ensures
            r == (self@ == other@),
    {
        self.0 == other.0
    }
}

pub fn clone_term(t: &Term) -> (r: Term)
    ensures
        r@ == t@,
    decreases t,
{
    match &t.value {
        Value::Number(n) => Term { value: Value::Number(*n) },
        Value::String(s) => Term { value: Value::String(s.clone()) },
        Value::Boolean(b) => Term { value: Value::Boolean(*b) },
        Value::List(ts) => Term { value: Value::List(clone_terms(ts)) },
        Value::Variable(v) => Term { value: Value::Variable(v.clone()) },
        Value::RestVariable(v) => Term { value: Value::RestVariable(v.clone()) },
        Value::Expression(o) => Term {
            value: Value::Expression(Operation { operator: o.operator, args: clone_terms(&o.args) }),
        },
    }
}

pub fn clone_terms(ts: &Vec<Term>) -> (r: Vec<Term>)
    ensures
        terms_model(r@) == terms_model(ts@),
    decreases ts,
{
    let mut r: Vec<Term> = Vec::new();
    let n = ts.len();
    let mut i: usize = 0;
    while i < n
        invariant
            n == ts.len(),
            i <= n,
            terms_model(r@) == terms_model(ts@.take(i as int)),
        decreases n - i,
    {
        let c = clone_term(&ts[i]);
        proof {
            lemma_terms_model_push(r@, c);
            assert(ts@.take(i + 1) =~= ts@.take(i as int).push(ts@[i as int]));
            lemma_terms_model_push(ts@.take(i as int), ts@[i as int]);
        }
        r.push(c);
        i = i + 1;
    }
    assert(ts@.take(n as int) =~= ts@);
    r
}

impl Clone for Term {
    fn clone(&self) -> (r: Self)
        ensures
            r@ == self@,
    {
        clone_term(self)
    }
}

impl Clone for Operation {
    fn clone(&self) -> (r: Self)
        ensures
            r@ == self@,
    {
        Operation { operator: self.operator, args: clone_terms(&self.args) }
    }
}

pub fn term_eq(a: &Term, b: &Term) -> (r: bool)
    ensures
        r == (a@ == b@),
    decreases a,
{
    let r = match &a.value {
        Value::Number(x) => match &b.value {
            Value::Number(y) => *x == *y,
            _ => false,
        },
        Value::String(x) => match &b.value {
            Value::String(y) => *x == *y,
            _ => false,
        },
        Value::Boolean(x) => match &b.value {
            Value::Boolean(y) => *x == *y,
            _ => false,
        },
        Value::List(xs) => match &b.value {
            Value::List(ys) => terms_eq(xs, ys),
            _ => false,
        },
        Value::Variable(x) => match &b.value {
            Value::Variable(y) => x.eq_symbol(y),
            _ => false,
        },
        Value::RestVariable(x) => match &b.value {
            Value::RestVariable(y) => x.eq_symbol(y),
            _ => false,
        },
        Value::Expression(x) => match &b.value {
            Value::Expression(y) => op_eq(x, y),
            _ => false,
        },
    };
    r
}

pub fn terms_eq(xs: &Vec<Term>, ys: &Vec<Term>) -> (r: bool)
    ensures
        r == (terms_model(xs@) == terms_model(ys@)),
    decreases xs,
{
    proof {
        lemma_terms_model(xs@);
        lemma_terms_model(ys@);
    }
    if xs.len() != ys.len() {
        return false;
    }
    let n = xs.len();
    let mut i: usize = 0;
    while i < n
        invariant
            n == xs.len(),
            n == ys.len(),
            i <= n,
            forall|j: int| 0 <= j < i ==> term_model(#[trigger] xs@[j]) == term_model(ys@[j]),
        decreases n - i,
    {
        if !term_eq(&xs[i], &ys[i]) {
            proof {
                lemma_terms_model(xs@);
                lemma_terms_model(ys@);
                assert(terms_model(xs@)[i as int] != terms_model(ys@)[i as int]);
            }
            return false;
        }
        i = i + 1;
    }
    proof {
        lemma_terms_model_ext(xs@, ys@);
    }
    true
}

pub fn op_eq(a: &Operation, b: &Operation) -> (r: bool)
    ensures
        r == (a@ == b@),
    decreases a,
{
    if a.operator == b.operator {
        terms_eq(&a.args, &b.args)
    } else {
        false
    }
}


/// The arguments are all expressions.
pub open spec fn all_exprs(ts: Seq<TermModel>) -> bool {
    forall|i: int| 0 <= i < ts.len() ==> #[trigger] ts[i] is Expression
}

/// The operation inside an expression term.
pub open spec fn expr_op(t: TermModel) -> OpModel {
    match t {
        TermModel::Expression(o) => o,
        _ => true_model(),
    }
}

/// The operations inside a sequence of expression terms.
pub open spec fn as_ops(ts: Seq<TermModel>) -> Seq<OpModel> {
    Seq::new(ts.len(), |i: int| expr_op(ts[i]))
}

/// Operations as expression terms.
pub open spec fn exprs(cs: Seq<OpModel>) -> Seq<TermModel> {
    Seq::new(cs.len(), |i: int| TermModel::Expression(cs[i]))
}

/// The models of a sequence of operations.
pub open spec fn ops_model(v: Seq<Operation>) -> Seq<OpModel> {
    Seq::new(v.len(), |i: int| v[i]@)
}

impl Value {
    /// The name of a variable or rest variable.
    pub fn as_symbol(&self) -> (r: Option<&Symbol>)
        ensures
            match r {
                Some(s) => (*self is Variable && *self == Value::Variable(*s)) || (*self is RestVariable
                    && *self == Value::RestVariable(*s)),
                None => !(*self is Variable) && !(*self is RestVariable),
            },
    {
        match self {
            Value::Variable(s) => Some(s),
            Value::RestVariable(s) => Some(s),
            _ => None,
        }
    }
}

impl Term {
    pub fn new(value: Value) -> (r: Term)
        ensures
            r.value == value,
    {
        Term { value }
    }

    pub fn value(&self) -> (r: &Value)
        ensures
            *r == self.value,
    {
        &self.value
    }

    /// A variable term.
    pub fn var(name: Symbol) -> (r: Term)
        ensures
            r@ == TermModel::Variable(name@),
    {
        Term { value: Value::Variable(name) }
    }

    /// Whether no variable occurs in the term.
    pub fn is_ground(&self) -> (r: bool)
        ensures
            r == ground(self@),
        decreases self,
    {
        match &self.value {
            Value::List(ts) => {
                proof {
                    lemma_terms_model(ts@);
                }
                terms_ground(ts)
            },
            Value::Expression(o) => {
                proof {
                    lemma_terms_model(o.args@);
                }
                terms_ground(&o.args)
            },
            Value::Variable(_) => false,
            Value::RestVariable(_) => false,
            _ => true,
        }
    }

    /// Appends the names of the variables that occur in the term to `acc`.
    pub fn variables(&self, acc: &mut Vec<Symbol>)
        ensures
            names(final(acc)@) == names(old(acc)@) + vars_of(self@),
        decreases self,
    {
        let ghost a0 = acc@;
        match &self.value {
            Value::List(ts) => terms_variables(ts, acc),
            Value::Expression(o) => terms_variables(&o.args, acc),
            Value::Variable(v) => {
                acc.push(v.clone());
                assert(names(acc@) =~= names(a0) + vars_of(self@));
            },
            Value::RestVariable(v) => {
                acc.push(v.clone());
                assert(names(acc@) =~= names(a0) + vars_of(self@));
            },
            _ => {
                assert(names(acc@) =~= names(a0) + vars_of(self@));
            },
        }
    }
}

pub fn terms_ground(ts: &Vec<Term>) -> (r: bool)
    ensures
        r == all_ground(terms_model(ts@)),
    decreases ts,
{
    proof {
        lemma_terms_model(ts@);
        lemma_all_ground(terms_model(ts@));
    }
    let n = ts.len();
    let mut i: usize = 0;
    while i < n
        invariant
            n == ts.len(),
            i <= n,
            terms_model(ts@).len() == n,
            forall|j: int| 0 <= j < n ==> #[trigger] terms_model(ts@)[j] == term_model(ts@[j]),
            forall|j: int| 0 <= j < i ==> #[trigger] ground(terms_model(ts@)[j]),
            all_ground(terms_model(ts@)) == (forall|j: int| 0 <= j < n ==> #[trigger] ground(terms_model(ts@)[j])),
        decreases n - i,
    {
        if !ts[i].is_ground() {
            assert(!ground(terms_model(ts@)[i as int]));
            return false;
        }
        i = i + 1;
    }
    true
}

pub fn terms_variables(ts: &Vec<Term>, acc: &mut Vec<Symbol>)
    ensures
        names(final(acc)@) == names(old(acc)@) + vars_of_seq(terms_model(ts@)),
    decreases ts,
{
    proof {
        lemma_terms_model(ts@);
    }
    let ghost a0 = acc@;
    let n = ts.len();
    let mut i: usize = 0;
    assert(ts@.take(0) =~= Seq::<Term>::empty());
    assert(names(acc@) =~= names(a0) + vars_of_seq(terms_model(ts@.take(0))));
    while i < n
        invariant
            n == ts.len(),
            i <= n,
            names(acc@) == names(a0) + vars_of_seq(terms_model(ts@.take(i as int))),
        decreases n - i,
    {
        let ghost a1 = acc@;
        ts[i].variables(acc);
        proof {
            assert(ts@.take(i + 1) =~= ts@.take(i as int).push(ts@[i as int]));
            lemma_terms_model_push(ts@.take(i as int), ts@[i as int]);
            let tm = terms_model(ts@.take(i + 1));
            assert(tm.drop_last() =~= terms_model(ts@.take(i as int)));
            assert(names(acc@) =~= names(a0) + vars_of_seq(tm));
        }
        i = i + 1;
    }
    assert(ts@.take(n as int) =~= ts@);
}

impl Operation {
    /// The names of the variables that occur in the arguments.
    pub fn variables(&self) -> (r: Vec<Symbol>)
        ensures
            names(r@) == vars_of_seq(self@.args),
    {
        let mut acc: Vec<Symbol> = Vec::new();
        assert(names(acc@) =~= Seq::<Name>::empty());
        terms_variables(&self.args, &mut acc);
        assert(names(acc@) =~= vars_of_seq(self@.args));
        acc
    }

    /// This operation as an expression term.
    pub fn into_term(self) -> (r: Term)
        ensures
            r@ == TermModel::Expression(self@),
    {
        Term { value: Value::Expression(self) }
    }

    /// The same constraint read from right to left.
    pub fn mirror(&self) -> (r: Operation)
        ensures
            r@ == mirror_model(self@),
    {
        let n = self.args.len();
        let mut rev: Vec<Term> = Vec::new();
        let mut i: usize = 0;
        while i < n
            invariant
                n == self.args.len(),
                i <= n,
                rev@.len() == i,
                forall|j: int| 0 <= j < i ==> term_model(#[trigger] rev@[j]) == term_model(self.args@[n - 1 - j]),
            decreases n - i,
        {
            rev.push(self.args[n - 1 - i].clone());
            i = i + 1;
        }
        proof {
            lemma_terms_model(rev@);
            lemma_terms_model(self.args@);
            assert(terms_model(rev@) =~= terms_model(self.args@).reverse());
        }
        match self.operator {
            Operator::Unify | Operator::Eq | Operator::Neq => Operation { operator: self.operator, args: rev },
            Operator::Gt => Operation { operator: Operator::Lt, args: rev },
            Operator::Lt => Operation { operator: Operator::Gt, args: rev },
            Operator::Geq => Operation { operator: Operator::Leq, args: rev },
            Operator::Leq => Operation { operator: Operator::Geq, args: rev },
            _ => self.clone(),
        }
    }

    /// The arguments of a conjunction or disjunction, each of which is an expression.
    pub fn constraints(&self) -> (r: Vec<Operation>)
        requires
            all_exprs(self@.args),
        ensures
            ops_model(r@) == as_ops(self@.args),
    {
        proof {
            lemma_terms_model(self.args@);
        }
        let n = self.args.len();
        let mut r: Vec<Operation> = Vec::new();
        let mut i: usize = 0;
        while i < n
            invariant
                n == self.args.len(),
                i <= n,
                terms_model(self.args@).len() == n,
                forall|j: int| 0 <= j < n ==> #[trigger] terms_model(self.args@)[j] == term_model(self.args@[j]),
                all_exprs(terms_model(self.args@)),
                r@.len() == i,
                forall|j: int| 0 <= j < i ==> (#[trigger] r@[j])@ == expr_op(terms_model(self.args@)[j]),
            decreases n - i,
        {
            assert(terms_model(self.args@)[i as int] is Expression);
            match &self.args[i].value {
                Value::Expression(o) => {
                    r.push(o.clone());
                },
                _ => {},
            }
            i = i + 1;
        }
        assert(ops_model(r@) =~= as_ops(self@.args));
        r
    }

    /// A conjunction of the given constraints.
    pub fn clone_with_constraints(&self, constraints: Vec<Operation>) -> (r: Operation)
        ensures
            r@ == (OpModel { operator: self.operator, args: exprs(ops_model(constraints@)) }),
    {
        let r = ops_into_terms(constraints);
        Operation { operator: self.operator, args: r }
    }
}

/// Whether every term is an expression.
pub fn all_expressions(ts: &Vec<Term>) -> (r: bool)
    ensures
        r == all_exprs(terms_model(ts@)),
{
    proof {
        lemma_terms_model(ts@);
    }
    let n = ts.len();
    let mut i: usize = 0;
    while i < n
        invariant
            n == ts.len(),
            i <= n,
            terms_model(ts@).len() == n,
            forall|j: int| 0 <= j < n ==> #[trigger] terms_model(ts@)[j] == term_model(ts@[j]),
            forall|j: int| 0 <= j < i ==> #[trigger] terms_model(ts@)[j] is Expression,
        decreases n - i,
    {
        match &ts[i].value {
            Value::Expression(_) => {},
            _ => {
                assert(!(terms_model(ts@)[i as int] is Expression));
                return false;
            },
        }
        i = i + 1;
    }
    true
}

/// Operations as expression terms.
pub fn ops_into_terms(cs: Vec<Operation>) -> (r: Vec<Term>)
    ensures
        terms_model(r@) == exprs(ops_model(cs@)),
{
    let n = cs.len();
    let mut r: Vec<Term> = Vec::new();
    let mut i: usize = 0;
    while i < n
        invariant
            n == cs.len(),
            i <= n,
            r@.len() == i,
            forall|j: int| 0 <= j < i ==> term_model(#[trigger] r@[j]) == TermModel::Expression(cs@[j]@),
        decreases n - i,
    {
        let c = cs[i].clone();
        r.push(c.into_term());
        i = i + 1;
    }
    proof {
        lemma_terms_model(r@);
        assert(terms_model(r@) =~= exprs(ops_model(cs@)));
    }
    r
}

/// The constant true: the empty conjunction.
pub fn true_op() -> (r: Operation)
    ensures
        r@ == true_model(),
{
    let r = Operation { operator: Operator::And, args: Vec::new() };
    assert(terms_model(r.args@) =~= Seq::<TermModel>::empty());
    r
}

/// The constant false: the empty disjunction.
pub fn false_op() -> (r: Operation)
    ensures
        r@ == false_model(),
{
    let r = Operation { operator: Operator::Or, args: Vec::new() };
    assert(terms_model(r.args@) =~= Seq::<TermModel>::empty());
    r
}

impl PartialEq for Term {
    fn eq(&self, other: &Self) -> (r: bool) {
        term_eq(self, other)
    }
}

impl vstd::std_specs::cmp::PartialEqSpecImpl for Term {
    open spec fn obeys_eq_spec() -> bool {
        true
    }

    open spec fn eq_spec(&self, other: &Term) -> bool {
        self@ == other@
    }
}

impl PartialEq for Operation {
    fn eq(&self, other: &Self) -> (r: bool) {
        op_eq(self, other)
    }
}

impl vstd::std_specs::cmp::PartialEqSpecImpl for Operation {
    open spec fn obeys_eq_spec() -> bool {
        true
    }

    open spec fn eq_spec(&self, other: &Operation) -> bool {
        self@ == other@
    }
}

impl PartialEq for Symbol {
    fn eq(&self, other: &Self) -> (r: bool) {
        self.eq_symbol(other)
    }
}

impl vstd::std_specs::cmp::PartialEqSpecImpl for Symbol {
    open spec fn obeys_eq_spec() -> bool {
        true
    }

    open spec fn eq_spec(&self, other: &Symbol) -> bool {
        self@ == other@
    }
}

} // verus!
