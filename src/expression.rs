use crate::rational::Rational;
use vstd::prelude::*;

verus! {

/// A spatial coordinate axis.
#[derive(Clone, Copy, Debug, PartialEq, Eq, Hash, Structural)]
pub enum Variable {
    X,
    Y,
}

impl Variable {
    /// The axis that a lower-case letter names.
    pub fn from_char(c: char) -> (r: Option<Variable>)
        ensures
            c == 'x' <==> r == Some(Variable::X),
            c == 'y' <==> r == Some(Variable::Y),
            r is None <==> (c != 'x' && c != 'y'),
    {
        match c {
            'x' => Some(Variable::X),
            'y' => Some(Variable::Y),
            _ => None,
        }
    }
}

/// The mathematical value of an [`Expression`].
pub enum Pde {
    Prod(Seq<Pde>),
    Sum(Seq<Pde>),
    Const(Rational),
    Deriv(Variable, usize),
    Solution,
    Sym(Seq<char>),
    Func(Seq<char>),
    Cross(Seq<Variable>),
    Neg(Box<Pde>),
    Recip(Box<Pde>),
}

/// A partial differential equation `lhs = 0`, as its left-hand side.
#[derive(Debug, PartialEq)]
pub enum Expression {
    Prod(Vec<Expression>),
    Sum(Vec<Expression>),
    Constant(Rational),
    /// The pure partial derivative of the unknown of the given order.
    Derivative(Variable, usize),
    /// The unknown itself.
    SolutionVal,
    SymbolicConstant(String),
    FunctionVal(String),
    /// A mixed partial derivative, one axis per differentiation.
    CrossDerivative(Vec<Variable>),
    Negate(Box<Expression>),
    Reciprocal(Box<Expression>),
}

pub open spec fn pde_views(s: Seq<Expression>) -> Seq<Pde>
    decreases s,
{
    if s.len() == 0 {
        Seq::empty()
    } else {
        pde_views(s.drop_last()).push(s.last().pde())
    }
}

impl Expression {
    pub open spec fn pde(&self) -> Pde
        decreases self,
    {
        match self {
            Expression::Prod(v) => Pde::Prod(pde_views(v@)),
            Expression::Sum(v) => Pde::Sum(pde_views(v@)),
            Expression::Constant(c) => Pde::Const(*c),
            Expression::Derivative(v, o) => Pde::Deriv(*v, *o),
            Expression::SolutionVal => Pde::Solution,
            Expression::SymbolicConstant(s) => Pde::Sym(s@),
            Expression::FunctionVal(s) => Pde::Func(s@),
            Expression::CrossDerivative(v) => Pde::Cross(v@),
            Expression::Negate(e) => Pde::Neg(Box::new(e.pde())),
            Expression::Reciprocal(e) => Pde::Recip(Box::new(e.pde())),
        }
    }
}

impl View for Expression {
    type V = Pde;

    open spec fn view(&self) -> Pde {
        self.pde()
    }
}

pub proof fn lemma_pde_views(s: Seq<Expression>)
    ensures
        pde_views(s).len() == s.len(),
        forall|i: int| 0 <= i < s.len() ==> #[trigger] pde_views(s)[i] == s[i]@,
    decreases s.len(),
{
    if s.len() > 0 {
        lemma_pde_views(s.drop_last());
    }
}

pub proof fn lemma_pde_views_push(s: Seq<Expression>, x: Expression)
    ensures
        pde_views(s.push(x)) == pde_views(s).push(x@),
{
    assert(s.push(x).drop_last() =~= s);
}

// ---------------------------------------------------------------------------
// Required derivatives
/// Every `(axis, order)` of a pure derivative in `t`, left to right, with
/// repetitions.
pub open spec fn required(t: Pde) -> Seq<(Variable, usize)>
    decreases t,
{
    match t {
        Pde::Deriv(v, o) => seq![(v, o)],
        Pde::Sum(s) => required_all(s),
        Pde::Prod(s) => required_all(s),
        Pde::Neg(e) => required(*e),
        Pde::Recip(e) => required(*e),
        _ => Seq::empty(),
    }
}

pub open spec fn required_all(s: Seq<Pde>) -> Seq<(Variable, usize)>
    decreases s,
{
    if s.len() == 0 {
        Seq::empty()
    } else {
        required_all(s.drop_last()) + required(s.last())
    }
}

// ---------------------------------------------------------------------------
// Rewriting by a rule
/// `r` is `t` rewritten top-down by `rule`: where the rule gives a
/// replacement for a node, the replacement stands for the whole subtree;
/// where it gives none, the node is rebuilt around its rewritten children.
/// `rule(a, b)` says that the rule may answer `b` for the node `a`.
pub open spec fn rewrites(rule: spec_fn(Pde, Option<Pde>) -> bool, t: Pde, r: Pde) -> bool
    decreases t,
{
    (exists|o: Pde| #[trigger] rule(t, Some(o)) && r == o) || (rule(t, None) && match t {
        Pde::Sum(s) => r is Sum && rewrites_all(rule, s, r->Sum_0),
        Pde::Prod(s) => r is Prod && rewrites_all(rule, s, r->Prod_0),
        Pde::Neg(e) => r is Neg && rewrites(rule, *e, *r->Neg_0),
        Pde::Recip(e) => r is Recip && rewrites(rule, *e, *r->Recip_0),
        _ => r == t,
    })
}

pub open spec fn rewrites_all(rule: spec_fn(Pde, Option<Pde>) -> bool, s: Seq<Pde>, q: Seq<Pde>) -> bool
    decreases s,
{
    s.len() == q.len() && (s.len() == 0 || (rewrites_all(rule, s.drop_last(), q.drop_last())
        && rewrites(rule, s.last(), q.last())))
}

pub open spec fn option_view(o: Option<Expression>) -> Option<Pde> {
    match o {
        Some(e) => Some(e@),
        None => None,
    }
}

/// The answers an executable rule may give, on trees.
pub open spec fn rule_of<F: Fn(&Expression) -> Option<Expression>>(func: F) -> spec_fn(
    Pde,
    Option<Pde>,
) -> bool {
    |a: Pde, b: Option<Pde>|
        exists|x: Expression, o: Option<Expression>|
            x@ == a && func.ensures((&x,), o) && option_view(o) == b
}

/// `t` with each pure derivative `Deriv(v, o)` replaced by `g(v, o)`.
pub open spec fn replace_derivatives(t: Pde, g: spec_fn(Variable, usize) -> Pde) -> Pde
    decreases t,
{
    match t {
        Pde::Deriv(v, o) => g(v, o),
        Pde::Sum(s) => Pde::Sum(replace_derivatives_all(s, g)),
        Pde::Prod(s) => Pde::Prod(replace_derivatives_all(s, g)),
        Pde::Neg(e) => Pde::Neg(Box::new(replace_derivatives(*e, g))),
        Pde::Recip(e) => Pde::Recip(Box::new(replace_derivatives(*e, g))),
        _ => t,
    }
}

pub open spec fn replace_derivatives_all(s: Seq<Pde>, g: spec_fn(Variable, usize) -> Pde) -> Seq<Pde>
    decreases s,
{
    if s.len() == 0 {
        Seq::empty()
    } else {
        replace_derivatives_all(s.drop_last(), g).push(replace_derivatives(s.last(), g))
    }
}

/// A rule that answers `g(v, o)` on a pure derivative `Deriv(v, o)` and
/// nothing on any other node rewrites a tree into
/// `replace_derivatives(t, g)`: every derivative is replaced and every other
/// node keeps its shape.
pub proof fn lemma_substitute_derivatives(
    rule: spec_fn(Pde, Option<Pde>) -> bool,
    g: spec_fn(Variable, usize) -> Pde,
    t: Pde,
    r: Pde,
)
    requires
        forall|a: Pde, b: Option<Pde>| #[trigger]
            rule(a, b) ==> match a {
                Pde::Deriv(v, o) => b == Some(g(v, o)),
                _ => b is None,
            },
        rewrites(rule, t, r),
    ensures
        r == replace_derivatives(t, g),
    decreases t,
{
    match t {
        Pde::Sum(s) => {
            lemma_substitute_derivatives_all(rule, g, s, r->Sum_0);
        },
        Pde::Prod(s) => {
            lemma_substitute_derivatives_all(rule, g, s, r->Prod_0);
        },
        Pde::Neg(e) => {
            lemma_substitute_derivatives(rule, g, *e, *r->Neg_0);
        },
        Pde::Recip(e) => {
            lemma_substitute_derivatives(rule, g, *e, *r->Recip_0);
        },
        Pde::Deriv(v, o) => {
            assert(!rule(t, None));
            let o2 = choose|o2: Pde| #[trigger] rule(t, Some(o2)) && r == o2;
        },
        _ => {
            if exists|o2: Pde| #[trigger] rule(t, Some(o2)) && r == o2 {
                let o2 = choose|o2: Pde| #[trigger] rule(t, Some(o2)) && r == o2;
                assert(rule(t, Some(o2)));
            }
        },
    }
}

/// The same law for an executable rule, as `Expression::substitute` states
/// its result: when every answer the rule may give is `g(v, o)` on
/// `Derivative(v, o)` and `None` on any other node, the result of
/// `substitute` is `replace_derivatives(e, g)`.
pub proof fn lemma_substitute_derivatives_by<F: Fn(&Expression) -> Option<Expression>>(
    func: F,
    g: spec_fn(Variable, usize) -> Pde,
    t: Pde,
    r: Pde,
)
    requires
        forall|x: Expression, o: Option<Expression>| #[trigger]
            func.ensures((&x,), o) ==> match x@ {
                Pde::Deriv(v, k) => option_view(o) == Some(g(v, k)),
                _ => o is None,
            },
        rewrites(rule_of(func), t, r),
    ensures
        r == replace_derivatives(t, g),
{
    let rule = rule_of(func);
    assert forall|a: Pde, b: Option<Pde>| #[trigger]
        rule(a, b) implies match a {
            Pde::Deriv(v, o) => b == Some(g(v, o)),
            _ => b is None,
        } by {
        let (x, o) = choose|x: Expression, o: Option<Expression>|
            x@ == a && func.ensures((&x,), o) && option_view(o) == b;
        assert(func.ensures((&x,), o));
    }
    lemma_substitute_derivatives(rule, g, t, r);
}

proof fn lemma_substitute_derivatives_all(
    rule: spec_fn(Pde, Option<Pde>) -> bool,
    g: spec_fn(Variable, usize) -> Pde,
    s: Seq<Pde>,
    q: Seq<Pde>,
)
    requires
        forall|a: Pde, b: Option<Pde>| #[trigger]
            rule(a, b) ==> match a {
                Pde::Deriv(v, o) => b == Some(g(v, o)),
                _ => b is None,
            },
        rewrites_all(rule, s, q),
    ensures
        q == replace_derivatives_all(s, g),
    decreases s,
{
    if s.len() > 0 {
        lemma_substitute_derivatives_all(rule, g, s.drop_last(), q.drop_last());
        lemma_substitute_derivatives(rule, g, s.last(), q.last());
        assert(q.drop_last().push(q.last()) =~= q);
    } else {
        assert(q =~= Seq::<Pde>::empty());
    }
}

impl Expression {
    /// A copy of the tree.
    pub fn copy(&self) -> (r: Expression)
        ensures
            r@ == self@,
        decreases self,
    {
        match self {
            Expression::Prod(v) => Expression::Prod(Self::copy_items(v)),
            Expression::Sum(v) => Expression::Sum(Self::copy_items(v)),
            Expression::Constant(c) => Expression::Constant(*c),
            Expression::Derivative(v, o) => Expression::Derivative(*v, *o),
            Expression::SolutionVal => Expression::SolutionVal,
            Expression::SymbolicConstant(s) => Expression::SymbolicConstant(s.clone()),
            Expression::FunctionVal(s) => Expression::FunctionVal(s.clone()),
            Expression::CrossDerivative(v) => {
                let mut w: Vec<Variable> = Vec::new();
                let mut i: usize = 0;
                while i < v.len()
                    invariant
                        i <= v.len(),
                        w@ == v@.subrange(0, i as int),
                    decreases v.len() - i,
                {
                    w.push(v[i]);
                    proof {
                        assert(w@ =~= v@.subrange(0, i + 1));
                    }
                    i = i + 1;
                }
                assert(w@ =~= v@);
                Expression::CrossDerivative(w)
            },
            Expression::Negate(e) => Expression::Negate(Box::new(e.copy())),
            Expression::Reciprocal(e) => Expression::Reciprocal(Box::new(e.copy())),
        }
    }

    fn copy_items(v: &Vec<Expression>) -> (r: Vec<Expression>)
        ensures
            pde_views(r@) == pde_views(v@),
        decreases v,
    {
        proof {
            lemma_pde_views(v@);
        }
        let mut out: Vec<Expression> = Vec::new();
        let mut i: usize = 0;
        while i < v.len()
            invariant
                i <= v.len(),
                pde_views(out@).len() == i,
                forall|k: int| 0 <= k < i ==> #[trigger] pde_views(out@)[k] == v[k]@,
            decreases v.len() - i,
        {
            let c = v[i].copy();
            proof {
                lemma_pde_views_push(out@, c);
            }
            out.push(c);
            i = i + 1;
        }
        proof {
            assert(pde_views(out@) =~= pde_views(v@));
        }
        out
    }

    /// Every `(axis, order)` of a pure derivative in the tree, left to right,
    /// with repetitions.
    pub fn list_required_derivatives(&self) -> (r: Vec<(Variable, usize)>)
        ensures
            r@ == required(self@),
        decreases self,
    {
        match self {
            Expression::Derivative(v, o) => {
                let mut r: Vec<(Variable, usize)> = Vec::new();
                r.push((*v, *o));
                assert(r@ =~= seq![(*v, *o)]);
                r
            },
            Expression::Sum(v) => Self::required_items(v),
            Expression::Prod(v) => Self::required_items(v),
            Expression::Negate(e) => e.list_required_derivatives(),
            Expression::Reciprocal(e) => e.list_required_derivatives(),
            _ => Vec::new(),
        }
    }

    fn required_items(v: &Vec<Expression>) -> (r: Vec<(Variable, usize)>)
        ensures
            r@ == required_all(pde_views(v@)),
        decreases v,
    {
        proof {
            lemma_pde_views(v@);
        }
        let ghost sv = pde_views(v@);
        let mut items: Vec<(Variable, usize)> = Vec::new();
        let mut i: usize = 0;
        while i < v.len()
            invariant
                i <= v.len(),
                sv == pde_views(v@),
                sv.len() == v.len(),
                forall|k: int| 0 <= k < v.len() ==> #[trigger] sv[k] == v[k]@,
                items@ == required_all(sv.subrange(0, i as int)),
            decreases v.len() - i,
        {
            let mut req = v[i].list_required_derivatives();
            proof {
                assert(sv.subrange(0, i + 1).drop_last() =~= sv.subrange(0, i as int));
            }
            items.append(&mut req);
            i = i + 1;
        }
        assert(sv.subrange(0, v.len() as int) =~= sv);
        items
    }

    /// Rewrites the tree top-down by `func`: where it returns a tree for a
    /// node, that tree replaces the node's whole subtree; where it returns
    /// `None`, the node is rebuilt around its rewritten children.
    pub fn substitute<F: Fn(&Expression) -> Option<Expression>>(self, func: &F) -> (r: Expression)
        requires
            forall|e: &Expression| #[trigger] func.requires((e,)),
        ensures
            rewrites(rule_of(*func), self@, r@),
    {
        self.rewritten(func)
    }

    fn rewritten<F: Fn(&Expression) -> Option<Expression>>(&self, func: &F) -> (r: Expression)
        requires
            forall|e: &Expression| #[trigger] func.requires((e,)),
        ensures
            rewrites(rule_of(*func), self@, r@),
        decreases self,
    {
        let answer = func(self);
        let ghost rule = rule_of(*func);
        match answer {
            Some(e) => {
                proof {
                    assert(rule(self@, Some(e@)));
                }
                e
            },
            None => {
                proof {
                    assert(rule(self@, None));
                }
                match self {
                    Expression::Prod(v) => Expression::Prod(Self::rewritten_items(v, func)),
                    Expression::Sum(v) => Expression::Sum(Self::rewritten_items(v, func)),
                    Expression::Negate(e) => Expression::Negate(Box::new(e.rewritten(func))),
                    Expression::Reciprocal(e) => Expression::Reciprocal(Box::new(e.rewritten(func))),
                    _ => self.copy(),
                }
            },
        }
    }

    fn rewritten_items<F: Fn(&Expression) -> Option<Expression>>(v: &Vec<Expression>, func: &F) -> (r:
        Vec<Expression>)
        requires
            forall|e: &Expression| #[trigger] func.requires((e,)),
        ensures
            rewrites_all(rule_of(*func), pde_views(v@), pde_views(r@)),
        decreases v,
    {
        proof {
            lemma_pde_views(v@);
        }
        let ghost sv = pde_views(v@);
        let mut out: Vec<Expression> = Vec::new();
        let mut i: usize = 0;
        while i < v.len()
            invariant
                i <= v.len(),
                sv == pde_views(v@),
                sv.len() == v.len(),
                forall|e: &Expression| #[trigger] func.requires((e,)),
                forall|k: int| 0 <= k < v.len() ==> #[trigger] sv[k] == v[k]@,
                rewrites_all(rule_of(*func), sv.subrange(0, i as int), pde_views(out@)),
            decreases v.len() - i,
        {
            let c = v[i].rewritten(func);
            proof {
                lemma_pde_views_push(out@, c);
                assert(sv.subrange(0, i + 1).drop_last() =~= sv.subrange(0, i as int));
                assert(pde_views(out@).push(c@).drop_last() =~= pde_views(out@));
            }
            out.push(c);
            i = i + 1;
        }
        assert(sv.subrange(0, v.len() as int) =~= sv);
        out
    }

    /// Applies `func` to each child of the root and rebuilds the root around
    /// the results; a leaf is returned as it is.
    pub fn replace_children<F: Fn(Expression) -> Expression>(self, func: F) -> (r: Expression)
        requires
            forall|e: Expression| #[trigger] func.requires((e,)),
        ensures
            children_replaced(func, self, r),
    {
        match self {
            Expression::Prod(v) => Expression::Prod(Self::map_items(v, &func)),
            Expression::Sum(v) => Expression::Sum(Self::map_items(v, &func)),
            Expression::Negate(e) => Expression::Negate(Box::new(func(*e))),
            Expression::Reciprocal(e) => Expression::Reciprocal(Box::new(func(*e))),
            other => other,
        }
    }

    fn map_items<F: Fn(Expression) -> Expression>(v: Vec<Expression>, func: &F) -> (r: Vec<Expression>)
        requires
            forall|e: Expression| #[trigger] func.requires((e,)),
        ensures
            r.len() == v.len(),
            forall|i: int| 0 <= i < v.len() ==> #[trigger] func.ensures((v@[i],), r@[i]),
    {
        let ghost orig = v@;
        let mut rest = v;
        let mut out: Vec<Expression> = Vec::new();
        while rest.len() > 0
            invariant
                forall|e: Expression| #[trigger] func.requires((e,)),
                out.len() + rest.len() == orig.len(),
                rest@ == orig.subrange(out.len() as int, orig.len() as int),
                forall|k: int| 0 <= k < out.len() ==> #[trigger] func.ensures((orig[k],), out@[k]),
            decreases rest.len(),
        {
            let x = rest.remove(0);
            assert(x == orig[out.len() as int]);
            let y = func(x);
            out.push(y);
            assert(rest@ =~= orig.subrange(out.len() as int, orig.len() as int));
        }
        out
    }
}

/// `r` is `t` with each child `c` of the root replaced by some `d` for which
/// `func` may return `d` on `c`.
pub open spec fn children_replaced<F: Fn(Expression) -> Expression>(
    func: F,
    t: Expression,
    r: Expression,
) -> bool {
    match t {
        Expression::Prod(v) => r is Prod && r->Prod_0.len() == v.len() && forall|i: int|
            0 <= i < v.len() ==> #[trigger] func.ensures((v@[i],), r->Prod_0@[i]),
        Expression::Sum(v) => r is Sum && r->Sum_0.len() == v.len() && forall|i: int|
            0 <= i < v.len() ==> #[trigger] func.ensures((v@[i],), r->Sum_0@[i]),
        Expression::Negate(e) => r is Negate && func.ensures((*e,), *r->Negate_0),
        Expression::Reciprocal(e) => r is Reciprocal && func.ensures((*e,), *r->Reciprocal_0),
        _ => r == t,
    }
}

} // verus!
