use crate::error::DiscretiseError;
use crate::expression::{lemma_pde_views, pde_views, required, required_all, Expression, Pde, Variable};
use crate::mesh_expr::{lemma_views, lemma_views_push, lemma_views_vec, views, MeshExpr};
use crate::taylor::{
    axis_offsets, distinct, is_table_for, scheme_of, taylor_inversion_fails,
    DerivativeApproximations, TaylorTable,
};
use crate::term::{linear_root, Term};
use vstd::prelude::*;

verus! {

/// The grid offsets whose values a scheme may use, relative to the node
/// being updated.
pub struct Stencil {
    pub points: Vec<(isize, isize)>,
}

/// `name` is one of `names`.
pub open spec fn declared(names: Seq<String>, name: Seq<char>) -> bool {
    exists|i: int| 0 <= i < names.len() && #[trigger] names[i]@ == name
}

/// The mesh expression for the equation `t`: constants, sums, products,
/// negations and reciprocals keep their shape; the unknown becomes the value
/// at offset `(0, 0)`; a derivative becomes its approximation; a name
/// becomes a function value when it is one of `fns` and a symbolic constant
/// otherwise. Fails on the first (leftmost) derivative without an
/// approximation or mixed derivative.
pub open spec fn lower(t: Pde, fns: Seq<String>, approx: Map<(Variable, usize), Term>) -> Result<
    Term,
    DiscretiseError,
>
    decreases t,
{
    match t {
        Pde::Const(c) => Ok(Term::Const(c)),
        Pde::Sum(s) => match lower_all(s, fns, approx) {
            Ok(q) => Ok(Term::Sum(q)),
            Err(e) => Err(e),
        },
        Pde::Prod(s) => match lower_all(s, fns, approx) {
            Ok(q) => Ok(Term::Prod(q)),
            Err(e) => Err(e),
        },
        Pde::Sym(n) => if declared(fns, n) {
            Ok(Term::Func(n))
        } else {
            Ok(Term::Sym(n))
        },
        Pde::Func(n) => Ok(Term::Func(n)),
        Pde::Deriv(v, o) => if approx.contains_key((v, o)) {
            Ok(approx[(v, o)])
        } else {
            Err(DiscretiseError::UnknownDerivative(v, o))
        },
        Pde::Cross(_) => Err(DiscretiseError::UnsupportedConstruct),
        Pde::Solution => Ok(Term::At(0, 0)),
        Pde::Neg(e) => match lower(*e, fns, approx) {
            Ok(x) => Ok(Term::Neg(Box::new(x))),
            Err(err) => Err(err),
        },
        Pde::Recip(e) => match lower(*e, fns, approx) {
            Ok(x) => Ok(Term::Recip(Box::new(x))),
            Err(err) => Err(err),
        },
    }
}

pub open spec fn lower_all(s: Seq<Pde>, fns: Seq<String>, approx: Map<(Variable, usize), Term>) -> Result<
    Seq<Term>,
    DiscretiseError,
>
    decreases s,
{
    if s.len() == 0 {
        Ok(Seq::empty())
    } else {
        match lower_all(s.drop_last(), fns, approx) {
            Err(e) => Err(e),
            Ok(q) => match lower(s.last(), fns, approx) {
                Err(e) => Err(e),
                Ok(x) => Ok(q.push(x)),
            },
        }
    }
}

proof fn lemma_lower_all_err(
    s: Seq<Pde>,
    i: int,
    fns: Seq<String>,
    approx: Map<(Variable, usize), Term>,
)
    requires
        0 <= i <= s.len(),
        lower_all(s.subrange(0, i), fns, approx) is Err,
    ensures
        lower_all(s, fns, approx) == lower_all(s.subrange(0, i), fns, approx),
    decreases s.len() - i,
{
    if i < s.len() {
        assert(s.subrange(0, i + 1).drop_last() =~= s.subrange(0, i));
        assert(lower_all(s.subrange(0, i + 1), fns, approx) == lower_all(s.subrange(0, i), fns, approx));
        lemma_lower_all_err(s, i + 1, fns, approx);
    } else {
        assert(s.subrange(0, i) =~= s);
    }
}

/// The names of symbolic constants and functions in a mesh expression.
pub open spec fn term_names(t: Term) -> Set<Seq<char>>
    decreases t,
{
    match t {
        Term::Sym(n) => set![n],
        Term::Func(n) => set![n],
        Term::Sum(s) => term_names_all(s),
        Term::Prod(s) => term_names_all(s),
        Term::Neg(e) => term_names(*e),
        Term::Recip(e) => term_names(*e),
        _ => Set::empty(),
    }
}

pub open spec fn term_names_all(s: Seq<Term>) -> Set<Seq<char>>
    decreases s,
{
    if s.len() == 0 {
        Set::empty()
    } else {
        term_names_all(s.drop_last()).union(term_names(s.last()))
    }
}

/// The names of symbolic constants and functions in an equation.
pub open spec fn pde_names(t: Pde) -> Set<Seq<char>>
    decreases t,
{
    match t {
        Pde::Sym(n) => set![n],
        Pde::Func(n) => set![n],
        Pde::Sum(s) => pde_names_all(s),
        Pde::Prod(s) => pde_names_all(s),
        Pde::Neg(e) => pde_names(*e),
        Pde::Recip(e) => pde_names(*e),
        _ => Set::empty(),
    }
}

pub open spec fn pde_names_all(s: Seq<Pde>) -> Set<Seq<char>>
    decreases s,
{
    if s.len() == 0 {
        Set::empty()
    } else {
        pde_names_all(s.drop_last()).union(pde_names(s.last()))
    }
}

/// The strings of `s`, as a set of character sequences.
pub open spec fn string_set(s: Seq<String>) -> Set<Seq<char>> {
    Set::new(|n: Seq<char>| declared(s, n))
}

pub open spec fn no_duplicate_strings(s: Seq<String>) -> bool {
    forall|i: int, j: int| 0 <= i < j < s.len() ==> s[i]@ != s[j]@
}

/// The result of discretising an equation at one grid node.
pub struct Discretisation {
    /// The rule that gives the value at offset `(0, 0)` from its neighbours.
    pub update: MeshExpr,
    /// The discretised equation, which is zero at the true solution.
    pub residual: MeshExpr,
    /// The names of symbolic constants and functions that the residual
    /// refers to, once each.
    pub names: Vec<String>,
}

fn is_declared(names: &[String], name: &String) -> (r: bool)
    ensures
        r == declared(names@, name@),
{
    let mut i: usize = 0;
    while i < names.len()
        invariant
            i <= names.len(),
            forall|k: int| 0 <= k < i ==> names@[k]@ != name@,
        decreases names.len() - i,
    {
        if names[i] == *name {
            return true;
        }
        i = i + 1;
    }
    false
}

impl MeshExpr {
    /// Lowers the equation `eq` to a mesh expression (see `lower`).
    pub fn from_diff_eq(eq: Expression, fns: &[String], derivatives: &DerivativeApproximations) -> (r:
        Result<MeshExpr, DiscretiseError>)
        ensures
            match lower(eq@, fns@, derivatives@) {
                Ok(t) => r matches Ok(m) && m@ == t,
                Err(e) => r == Err::<MeshExpr, DiscretiseError>(e),
            },
    {
        Self::lowered(&eq, fns, derivatives)
    }

    fn lowered(eq: &Expression, fns: &[String], derivatives: &DerivativeApproximations) -> (r: Result<
        MeshExpr,
        DiscretiseError,
    >)
        ensures
            match lower(eq@, fns@, derivatives@) {
                Ok(t) => r matches Ok(m) && m@ == t,
                Err(e) => r == Err::<MeshExpr, DiscretiseError>(e),
            },
        decreases eq,
    {
        match eq {
            Expression::Constant(c) => Ok(MeshExpr::Constant(*c)),
            Expression::Sum(terms) => match Self::lowered_items(terms, fns, derivatives) {
                Ok(v) => Ok(MeshExpr::Sum(v)),
                Err(e) => Err(e),
            },
            Expression::Prod(factors) => match Self::lowered_items(factors, fns, derivatives) {
                Ok(v) => Ok(MeshExpr::Prod(v)),
                Err(e) => Err(e),
            },
            Expression::SymbolicConstant(c) => {
                if is_declared(fns, c) {
                    Ok(MeshExpr::FunctionVal(c.clone()))
                } else {
                    Ok(MeshExpr::SymbolicConst(c.clone()))
                }
            },
            Expression::FunctionVal(c) => Ok(MeshExpr::FunctionVal(c.clone())),
            Expression::Derivative(v, o) => match derivatives.get(&(*v, *o)) {
                Some(d) => Ok(d.copy()),
                None => Err(DiscretiseError::UnknownDerivative(*v, *o)),
            },
            Expression::CrossDerivative(_) => Err(DiscretiseError::UnsupportedConstruct),
            Expression::SolutionVal => Ok(MeshExpr::AtOffset(0, 0)),
            Expression::Negate(e) => match Self::lowered(e, fns, derivatives) {
                Ok(x) => Ok(MeshExpr::Negate(Box::new(x))),
                Err(err) => Err(err),
            },
            Expression::Reciprocal(e) => match Self::lowered(e, fns, derivatives) {
                Ok(x) => Ok(MeshExpr::Reciprocal(Box::new(x))),
                Err(err) => Err(err),
            },
        }
    }

    fn lowered_items(v: &Vec<Expression>, fns: &[String], derivatives: &DerivativeApproximations) -> (r:
        Result<Vec<MeshExpr>, DiscretiseError>)
        ensures
            match lower_all(pde_views(v@), fns@, derivatives@) {
                Ok(q) => r matches Ok(w) && views(w@) == q,
                Err(e) => r == Err::<Vec<MeshExpr>, DiscretiseError>(e),
            },
        decreases v,
    {
        proof {
            lemma_pde_views(v@);
        }
        let ghost sv = pde_views(v@);
        let mut out: Vec<MeshExpr> = Vec::new();
        let mut i: usize = 0;
        while i < v.len()
            invariant
                i <= v.len(),
                sv == pde_views(v@),
                sv.len() == v.len(),
                forall|k: int| 0 <= k < v.len() ==> #[trigger] sv[k] == v[k]@,
                lower_all(sv.subrange(0, i as int), fns@, derivatives@) == Ok::<
                    Seq<Term>,
                    DiscretiseError,
                >(views(out@)),
            decreases v.len() - i,
        {
            proof {
                assert(sv.subrange(0, i + 1).drop_last() =~= sv.subrange(0, i as int));
            }
            match Self::lowered(&v[i], fns, derivatives) {
                Ok(x) => {
                    proof {
                        lemma_views_push(out@, x);
                    }
                    out.push(x);
                },
                Err(e) => {
                    proof {
                        lemma_lower_all_err(sv, i + 1, fns@, derivatives@);
                    }
                    return Err(e);
                },
            }
            i = i + 1;
        }
        assert(sv.subrange(0, v.len() as int) =~= sv);
        Ok(out)
    }

    /// Adds to `names` each name of a symbolic constant or function in the
    /// tree that is not there yet.
    pub fn collect_names(&self, names: &mut Vec<String>)
        requires
            no_duplicate_strings(old(names)@),
        ensures
            no_duplicate_strings(final(names)@),
            string_set(final(names)@) == string_set(old(names)@).union(term_names(self@)),
        decreases self,
    {
        match self {
            MeshExpr::SymbolicConst(n) => Self::add_name(names, n),
            MeshExpr::FunctionVal(n) => Self::add_name(names, n),
            MeshExpr::Sum(v) => Self::collect_names_items(v, names),
            MeshExpr::Prod(v) => Self::collect_names_items(v, names),
            MeshExpr::Negate(e) => e.collect_names(names),
            MeshExpr::Reciprocal(e) => e.collect_names(names),
            _ => {
                assert(string_set(names@) =~= string_set(names@).union(term_names(self@)));
            },
        }
    }

    fn add_name(names: &mut Vec<String>, n: &String)
        requires
            no_duplicate_strings(old(names)@),
        ensures
            no_duplicate_strings(final(names)@),
            string_set(final(names)@) == string_set(old(names)@).union(set![n@]),
    {
        if is_declared(names.as_slice(), n) {
            assert(string_set(names@) =~= string_set(names@).union(set![n@]));
            return;
        }
        let ghost before = names@;
        names.push(n.clone());
        proof {
            assert forall|x: Seq<char>| string_set(names@).contains(x) == string_set(before).union(
                set![n@],
            ).contains(x) by {
                if declared(before, x) {
                    let i = choose|i: int| 0 <= i < before.len() && #[trigger] before[i]@ == x;
                    assert(names@[i] == before[i]);
                }
                if x == n@ {
                    assert(names@[before.len() as int]@ == x);
                }
                if declared(names@, x) {
                    let i = choose|i: int| 0 <= i < names@.len() && #[trigger] names@[i]@ == x;
                    if i < before.len() {
                        assert(names@[i] == before[i]);
                    }
                }
            }
            assert(string_set(names@) =~= string_set(before).union(set![n@]));
        }
    }

    fn collect_names_items(v: &Vec<MeshExpr>, names: &mut Vec<String>)
        requires
            no_duplicate_strings(old(names)@),
        ensures
            no_duplicate_strings(final(names)@),
            string_set(final(names)@) == string_set(old(names)@).union(term_names_all(views(v@))),
        decreases v,
    {
        proof {
            lemma_views_vec(*v);
        }
        let ghost sv = views(v@);
        let ghost start = string_set(names@);
        let mut i: usize = 0;
        while i < v.len()
            invariant
                i <= v.len(),
                sv == views(v@),
                sv.len() == v.len(),
                forall|k: int| 0 <= k < v.len() ==> #[trigger] sv[k] == v[k]@,
                no_duplicate_strings(names@),
                string_set(names@) == start.union(term_names_all(sv.subrange(0, i as int))),
            decreases v.len() - i,
        {
            v[i].collect_names(names);
            proof {
                assert(sv.subrange(0, i + 1).drop_last() =~= sv.subrange(0, i as int));
                let a = term_names_all(sv.subrange(0, i as int));
                assert(start.union(a).union(term_names(sv[i as int])) =~= start.union(
                    a.union(term_names(sv[i as int])),
                ));
            }
            i = i + 1;
        }
        assert(sv.subrange(0, v.len() as int) =~= sv);
    }
}

impl Discretisation {
    /// Lowers `equation` with `approximations` to the residual, and solves
    /// it for the value at offset `(0, 0)`, treating it as affine in that
    /// value.
    pub fn new(equation: Expression, approximations: &DerivativeApproximations, functions: &[String]) -> (r:
        Result<Discretisation, DiscretiseError>)
        ensures
            match lower(equation@, functions@, approximations@) {
                Ok(t) => r matches Ok(d) && d.residual@ == t && d.update@ == linear_root(
                    t,
                    Term::At(0, 0),
                ) && string_set(d.names@) == term_names(t) && no_duplicate_strings(d.names@),
                Err(e) => r == Err::<Discretisation, DiscretiseError>(e),
            },
    {
        let residual = match MeshExpr::from_diff_eq(equation, functions, approximations) {
            Ok(m) => m,
            Err(e) => {
                return Err(e);
            },
        };
        let mut names: Vec<String> = Vec::new();
        assert(string_set(names@) =~= Set::<Seq<char>>::empty());
        residual.collect_names(&mut names);
        assert(string_set(names@) =~= term_names(residual@));
        let update = residual.copy().find_root_linear(&MeshExpr::AtOffset(0, 0));
        Ok(Discretisation { update, residual, names })
    }
}

/// Every name in `names` is one of `constants` or `functions`.
pub open spec fn all_declared(names: Set<Seq<char>>, constants: Seq<String>, functions: Seq<String>) -> bool {
    forall|n: Seq<char>| #[trigger] names.contains(n) ==> declared(constants, n) || declared(functions, n)
}

/// `a` approximates each derivative that `eq` needs, and only those, by
/// the scheme of the Taylor table of `stencil` along its axis.
pub open spec fn approximates(
    a: Map<(Variable, usize), Term>,
    eq: Pde,
    stencil: Seq<(isize, isize)>,
) -> bool {
    &&& forall|k: (Variable, usize)| #[trigger] a.contains_key(k) <==> required(eq).contains(k)
    &&& forall|k: (Variable, usize)|
        #[trigger] a.contains_key(k) ==> exists|t: TaylorTable|
            is_table_for(t, stencil, k.0) && k.1 < t.cols.len() && a[k] == #[trigger] scheme_of(
                t,
                k.1 as int,
            )
}

/// The equation holds a mixed derivative.
pub open spec fn has_cross(t: Pde) -> bool
    decreases t,
{
    match t {
        Pde::Cross(_) => true,
        Pde::Sum(s) => has_cross_all(s),
        Pde::Prod(s) => has_cross_all(s),
        Pde::Neg(e) => has_cross(*e),
        Pde::Recip(e) => has_cross(*e),
        _ => false,
    }
}

pub open spec fn has_cross_all(s: Seq<Pde>) -> bool
    decreases s,
{
    s.len() > 0 && (has_cross_all(s.drop_last()) || has_cross(s.last()))
}

/// The stencil's points on axis `v` are distinct, more than `o` of them,
/// and their Taylor table can be built and inverted.
pub open spec fn axis_supports(stencil: Seq<(isize, isize)>, v: Variable, o: usize) -> bool {
    &&& o < axis_offsets(stencil, v).len()
    &&& distinct(axis_offsets(stencil, v))
    &&& !taylor_inversion_fails(axis_offsets(stencil, v))
}

/// The stencil supports every derivative that `eq` needs.
pub open spec fn stencil_supports(stencil: Seq<(isize, isize)>, eq: Pde) -> bool {
    forall|k: int|
        0 <= k < required(eq).len() ==> axis_supports(
            stencil,
            (#[trigger] required(eq)[k]).0,
            required(eq)[k].1,
        )
}

/// The only ways lowering fails: a mixed derivative, or a needed derivative
/// without an approximation.
proof fn lemma_lower_errors(t: Pde, fns: Seq<String>, a: Map<(Variable, usize), Term>)
    ensures
        lower(t, fns, a) matches Err(e) ==> (e is UnsupportedConstruct || (e is UnknownDerivative
            && required(t).contains((e->UnknownDerivative_0, e->UnknownDerivative_1))
            && !a.contains_key((e->UnknownDerivative_0, e->UnknownDerivative_1)))),
        lower(t, fns, a) matches Err(e) && e is UnsupportedConstruct ==> has_cross(t),
    decreases t,
{
    match t {
        Pde::Sum(s) => lemma_lower_all_errors(s, fns, a),
        Pde::Prod(s) => lemma_lower_all_errors(s, fns, a),
        Pde::Neg(e) => lemma_lower_errors(*e, fns, a),
        Pde::Recip(e) => lemma_lower_errors(*e, fns, a),
        Pde::Deriv(v, o) => {
            assert(seq![(v, o)][0] == (v, o));
        },
        _ => {},
    }
}

proof fn lemma_lower_all_errors(s: Seq<Pde>, fns: Seq<String>, a: Map<(Variable, usize), Term>)
    ensures
        lower_all(s, fns, a) matches Err(e) ==> (e is UnsupportedConstruct || (e
            is UnknownDerivative && required_all(s).contains(
            (e->UnknownDerivative_0, e->UnknownDerivative_1),
        ) && !a.contains_key((e->UnknownDerivative_0, e->UnknownDerivative_1)))),
        lower_all(s, fns, a) matches Err(e) && e is UnsupportedConstruct ==> has_cross_all(s),
    decreases s,
{
    if s.len() > 0 {
        lemma_lower_all_errors(s.drop_last(), fns, a);
        lemma_lower_errors(s.last(), fns, a);
        let x = required_all(s.drop_last());
        let y = required(s.last());
        if let Err(e) = lower_all(s, fns, a) {
            if e is UnknownDerivative {
                let k = (e->UnknownDerivative_0, e->UnknownDerivative_1);
                if x.contains(k) {
                    let i = choose|i: int| 0 <= i < x.len() && x[i] == k;
                    assert((x + y)[i] == k);
                } else {
                    assert(y.contains(k));
                    let i = choose|i: int| 0 <= i < y.len() && y[i] == k;
                    assert((x + y)[x.len() + i] == k);
                }
            }
        }
    }
}

impl Expression {
    /// A name of a symbolic constant or function in the equation that is
    /// neither in `constants` nor in `functions`, if there is one.
    pub fn undeclared_name(&self, constants: &[String], functions: &[String]) -> (r: Option<String>)
        ensures
            r is None <==> all_declared(pde_names(self@), constants@, functions@),
            r matches Some(n) ==> pde_names(self@).contains(n@) && !declared(constants@, n@)
                && !declared(functions@, n@),
        decreases self,
    {
        match self {
            Expression::SymbolicConstant(n) => {
                assert(pde_names(self@) == set![n@]);
                Self::check_name(n, constants, functions)
            },
            Expression::FunctionVal(n) => {
                assert(pde_names(self@) == set![n@]);
                Self::check_name(n, constants, functions)
            },
            Expression::Sum(v) => {
                let r = Self::undeclared_in_items(v, constants, functions);
                assert(r is None <==> all_declared(pde_names(self@), constants@, functions@));
                r
            },
            Expression::Prod(v) => {
                let r = Self::undeclared_in_items(v, constants, functions);
                assert(r is None <==> all_declared(pde_names(self@), constants@, functions@));
                r
            },
            Expression::Negate(e) => {
                let r = e.undeclared_name(constants, functions);
                assert(r is None <==> all_declared(pde_names(self@), constants@, functions@));
                r
            },
            Expression::Reciprocal(e) => e.undeclared_name(constants, functions),
            _ => {
                assert(pde_names(self@) =~= Set::<Seq<char>>::empty());
                None
            },
        }
    }

    fn check_name(n: &String, constants: &[String], functions: &[String]) -> (r: Option<String>)
        ensures
            r is None <==> all_declared(set![n@], constants@, functions@),
            r matches Some(m) ==> set![n@].contains(m@) && !declared(constants@, m@) && !declared(
                functions@,
                m@,
            ),
    {
        if is_declared(constants, n) || is_declared(functions, n) {
            assert forall|m: Seq<char>| #[trigger] set![n@].contains(m) implies declared(
                constants@,
                m,
            ) || declared(functions@, m) by {
                assert(m == n@);
            }
            None
        } else {
            assert(set![n@].contains(n@));
            Some(n.clone())
        }
    }

    fn undeclared_in_items(v: &Vec<Expression>, constants: &[String], functions: &[String]) -> (r:
        Option<String>)
        ensures
            r is None <==> all_declared(pde_names_all(pde_views(v@)), constants@, functions@),
            r matches Some(n) ==> pde_names_all(pde_views(v@)).contains(n@) && !declared(
                constants@,
                n@,
            ) && !declared(functions@, n@),
        decreases v,
    {
        proof {
            lemma_pde_views(v@);
            lemma_pde_names_all_prefix(pde_views(v@), 0);
        }
        let ghost sv = pde_views(v@);
        let mut i: usize = 0;
        while i < v.len()
            invariant
                i <= v.len(),
                sv == pde_views(v@),
                sv.len() == v.len(),
                forall|k: int| 0 <= k < v.len() ==> #[trigger] sv[k] == v[k]@,
                all_declared(pde_names_all(sv.subrange(0, i as int)), constants@, functions@),
            decreases v.len() - i,
        {
            proof {
                assert(sv.subrange(0, i + 1).drop_last() =~= sv.subrange(0, i as int));
            }
            match v[i].undeclared_name(constants, functions) {
                Some(n) => {
                    proof {
                        lemma_pde_names_all_prefix(sv, i + 1);
                        assert(pde_names_all(sv.subrange(0, i + 1)).contains(n@));
                        assert(pde_names_all(sv).contains(n@));
                    }
                    return Some(n);
                },
                None => {},
            }
            proof {
                assert forall|n: Seq<char>| #[trigger]
                    pde_names_all(sv.subrange(0, i + 1)).contains(n) implies declared(constants@, n)
                    || declared(functions@, n) by {
                    if !pde_names_all(sv.subrange(0, i as int)).contains(n) {
                        assert(pde_names(v[i as int]@).contains(n));
                    }
                }
            }
            i = i + 1;
        }
        assert(sv.subrange(0, v.len() as int) =~= sv);
        None
    }
}

proof fn lemma_pde_names_all_prefix(s: Seq<Pde>, i: int)
    requires
        0 <= i <= s.len(),
    ensures
        pde_names_all(s.subrange(0, i)).subset_of(pde_names_all(s)),
    decreases s.len() - i,
{
    if i < s.len() {
        lemma_pde_names_all_prefix(s, i + 1);
        assert(s.subrange(0, i + 1).drop_last() =~= s.subrange(0, i));
    } else {
        assert(s.subrange(0, i) =~= s);
    }
}

/// Discretises `equation` on `stencil`: checks that every name in it is one
/// of `constants` or `functions`, approximates each derivative it needs from
/// the Taylor table of the stencil along that derivative's axis, lowers it
/// to the residual and solves that for the value at offset `(0, 0)`.
pub fn discretise(equation: Expression, stencil: &Stencil, constants: &[String], functions: &[String]) -> (r:
    Result<Discretisation, DiscretiseError>)
    ensures
        (r matches Err(e) && e is UnknownIdentifier) <==> exists|n: Seq<char>|
            #[trigger] pde_names(equation@).contains(n) && !declared(constants@, n) && !declared(
                functions@,
                n,
            ),
        r matches Err(DiscretiseError::UnknownIdentifier(n)) ==> pde_names(equation@).contains(n@)
            && !declared(constants@, n@) && !declared(functions@, n@),
        r matches Err(DiscretiseError::UnknownDerivative(v, o)) ==> required(equation@).contains(
            (v, o),
        ) && o >= axis_offsets(stencil.points@, v).len(),
        r matches Err(DiscretiseError::SingularStencil) ==> exists|k: int|
            0 <= k < required(equation@).len() && !distinct(
                axis_offsets(stencil.points@, #[trigger] required(equation@)[k].0),
            ),
        r matches Err(DiscretiseError::InversionFailed) ==> exists|k: int|
            0 <= k < required(equation@).len() && distinct(
                axis_offsets(stencil.points@, #[trigger] required(equation@)[k].0),
            ) && taylor_inversion_fails(axis_offsets(stencil.points@, required(equation@)[k].0)),
        all_declared(pde_names(equation@), constants@, functions@) && !has_cross(equation@)
            && stencil_supports(stencil.points@, equation@) ==> r is Ok,
        r matches Err(DiscretiseError::UnsupportedConstruct) ==> exists|
            a: Map<(Variable, usize), Term>,
        | #[trigger] approximates(a, equation@, stencil.points@) && lower(equation@, functions@, a)
            == Err::<Term, DiscretiseError>(DiscretiseError::UnsupportedConstruct),
        r matches Ok(d) ==> {
            &&& exists|a: Map<(Variable, usize), Term>|
                #[trigger] approximates(a, equation@, stencil.points@) && lower(
                    equation@,
                    functions@,
                    a,
                ) == Ok::<Term, DiscretiseError>(d.residual@)
            &&& d.update@ == linear_root(d.residual@, Term::At(0, 0))
            &&& string_set(d.names@) == term_names(d.residual@)
            &&& no_duplicate_strings(d.names@)
        },
{
    match equation.undeclared_name(constants, functions) {
        Some(n) => {
            return Err(DiscretiseError::UnknownIdentifier(n));
        },
        None => {},
    }
    let required_list = equation.list_required_derivatives();
    let ghost req = required(equation@);
    let ghost names_ok = all_declared(pde_names(equation@), constants@, functions@);
    assert(names_ok);
    let mut needs_x = false;
    let mut needs_y = false;
    let mut k: usize = 0;
    while k < required_list.len()
        invariant
            required_list@ == req,
            req == required(equation@),
            names_ok == all_declared(pde_names(equation@), constants@, functions@),
            names_ok,
            k <= req.len(),
            needs_x <==> exists|j: int| 0 <= j < k && (#[trigger] req[j]).0 == Variable::X,
            needs_y <==> exists|j: int| 0 <= j < k && (#[trigger] req[j]).0 == Variable::Y,
        decreases req.len() - k,
    {
        match required_list[k].0 {
            Variable::X => needs_x = true,
            Variable::Y => needs_y = true,
        }
        k = k + 1;
    }
    let x_table = if needs_x {
        match TaylorTable::new(stencil.points.as_slice(), Variable::X) {
            Ok(t) => Some(t),
            Err(e) => {
                proof {
                    let j = choose|j: int| 0 <= j < req.len() && (#[trigger] req[j]).0 == Variable::X;
                    assert(req[j].0 == Variable::X);
                }
                return Err(e);
            },
        }
    } else {
        None
    };
    let y_table = if needs_y {
        match TaylorTable::new(stencil.points.as_slice(), Variable::Y) {
            Ok(t) => Some(t),
            Err(e) => {
                proof {
                    let j = choose|j: int| 0 <= j < req.len() && (#[trigger] req[j]).0 == Variable::Y;
                    assert(req[j].0 == Variable::Y);
                }
                return Err(e);
            },
        }
    } else {
        None
    };
    let mut approximations = DerivativeApproximations::new();
    let mut k: usize = 0;
    while k < required_list.len()
        invariant
            required_list@ == req,
            req == required(equation@),
            names_ok == all_declared(pde_names(equation@), constants@, functions@),
            names_ok,
            k <= req.len(),
            needs_x <==> exists|j: int| 0 <= j < req.len() && (#[trigger] req[j]).0 == Variable::X,
            needs_y <==> exists|j: int| 0 <= j < req.len() && (#[trigger] req[j]).0 == Variable::Y,
            needs_x <==> x_table is Some,
            needs_y <==> y_table is Some,
            x_table matches Some(t) ==> is_table_for(t, stencil.points@, Variable::X),
            y_table matches Some(t) ==> is_table_for(t, stencil.points@, Variable::Y),
            forall|key: (Variable, usize)|
                #[trigger] approximations@.contains_key(key) <==> exists|j: int|
                    0 <= j < k && req[j] == key,
            forall|key: (Variable, usize)|
                #[trigger] approximations@.contains_key(key) ==> exists|t: TaylorTable|
                    is_table_for(t, stencil.points@, key.0) && key.1 < t.cols.len()
                        && approximations@[key] == #[trigger] scheme_of(t, key.1 as int),
        decreases req.len() - k,
    {
        let (v, o) = required_list[k];
        let table = match v {
            Variable::X => &x_table,
            Variable::Y => &y_table,
        };
        assert(req[k as int] == (v, o));
        let scheme = match table {
            Some(t) => t.get_scheme(o),
            None => {
                proof {
                    match v {
                        Variable::X => assert(!needs_x && req[k as int].0 == Variable::X),
                        Variable::Y => assert(!needs_y && req[k as int].0 == Variable::Y),
                    }
                }
                None
            },
        };
        match scheme {
            Some(s) => {
                let ghost t = table->Some_0;
                let ghost before = approximations@;
                approximations.insert((v, o), s);
                proof {
                    assert forall|key: (Variable, usize)| #[trigger]
                        approximations@.contains_key(key) <==> exists|j: int|
                            0 <= j < k + 1 && req[j] == key by {
                        if key == (v, o) {
                            assert(req[k as int] == key);
                        } else if approximations@.contains_key(key) {
                            assert(before.contains_key(key));
                        } else if exists|j: int| 0 <= j < k + 1 && req[j] == key {
                            let j = choose|j: int| 0 <= j < k + 1 && req[j] == key;
                            assert(j < k);
                        }
                    }
                    assert forall|key: (Variable, usize)| #[trigger]
                        approximations@.contains_key(key) implies exists|tt: TaylorTable|
                        is_table_for(tt, stencil.points@, key.0) && key.1 < tt.cols.len()
                            && approximations@[key] == #[trigger] scheme_of(tt, key.1 as int) by {
                        if key == (v, o) {
                            assert(is_table_for(t, stencil.points@, key.0) && key.1 < t.cols.len()
                                && approximations@[key] == scheme_of(t, key.1 as int));
                        } else {
                            assert(before.contains_key(key));
                        }
                    }
                }
            },
            None => {
                proof {
                    assert(req.contains((v, o)));
                    let tab = table->Some_0;
                    assert(tab.stencil@ == axis_offsets(stencil.points@, v));
                }
                return Err(DiscretiseError::UnknownDerivative(v, o));
            },
        }
        k = k + 1;
    }
    let ghost a = approximations@;
    assert forall|key: (Variable, usize)| #[trigger] a.contains_key(key) <==> req.contains(key) by {
        if req.contains(key) {
            let j = choose|j: int| 0 <= j < req.len() && req[j] == key;
            assert(a.contains_key(key));
        }
    }
    assert(approximates(a, equation@, stencil.points@));
    proof {
        lemma_lower_errors(equation@, functions@, a);
    }
    let ghost eq_view = equation@;
    let result = Discretisation::new(equation, &approximations, functions);
    assert(lower(eq_view, functions@, a) matches Err(e) ==> e is UnsupportedConstruct);
    result
}

} // verus!
