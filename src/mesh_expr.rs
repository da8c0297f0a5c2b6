use crate::rational::Rational;
use crate::term::{
    deriv, deriv_all, drop_ones, drop_zeros, flatten_sums, has_zero, is_one, is_zero,
    lemma_deriv_all_index, lemma_simplify_all_index, lemma_size_all_elem, lemma_size_all_first,
    lemma_size_pos, lemma_size_simplify, lemma_subst_all_index, linear_root, one, product_rule, simplify,
    simplify_all, size, size_all, subst, subst_all, zero, Term,
};
use vstd::prelude::*;

verus! {

/// An expression in terms of values on the mesh, relative to the node being
/// updated.
#[derive(Debug, PartialEq)]
pub enum MeshExpr {
    AtOffset(isize, isize),
    Prod(Vec<MeshExpr>),
    Sum(Vec<MeshExpr>),
    Constant(Rational),
    SymbolicConst(String),
    FunctionVal(String),
    Negate(Box<MeshExpr>),
    Reciprocal(Box<MeshExpr>),
}

pub open spec fn views(s: Seq<MeshExpr>) -> Seq<Term>
    decreases s,
{
    if s.len() == 0 {
        Seq::empty()
    } else {
        views(s.drop_last()).push(s.last().term())
    }
}

impl MeshExpr {
    pub open spec fn term(&self) -> Term
        decreases self,
    {
        match self {
            MeshExpr::AtOffset(i, j) => Term::At(*i, *j),
            MeshExpr::Prod(v) => Term::Prod(views(v@)),
            MeshExpr::Sum(v) => Term::Sum(views(v@)),
            MeshExpr::Constant(c) => Term::Const(*c),
            MeshExpr::SymbolicConst(s) => Term::Sym(s@),
            MeshExpr::FunctionVal(s) => Term::Func(s@),
            MeshExpr::Negate(e) => Term::Neg(Box::new(e.term())),
            MeshExpr::Reciprocal(e) => Term::Recip(Box::new(e.term())),
        }
    }
}

impl View for MeshExpr {
    type V = Term;

    open spec fn view(&self) -> Term {
        self.term()
    }
}

pub proof fn lemma_views(s: Seq<MeshExpr>)
    ensures
        views(s).len() == s.len(),
        forall|i: int| 0 <= i < s.len() ==> #[trigger] views(s)[i] == s[i]@,
    decreases s.len(),
{
    if s.len() > 0 {
        lemma_views(s.drop_last());
    }
}

pub proof fn lemma_views_vec(v: Vec<MeshExpr>)
    ensures
        views(v@).len() == v.len(),
        forall|i: int| 0 <= i < v.len() ==> #[trigger] views(v@)[i] == v[i]@,
{
    lemma_views(v@);
}

pub proof fn lemma_views_push(s: Seq<MeshExpr>, x: MeshExpr)
    ensures
        views(s.push(x)) == views(s).push(x@),
{
    assert(s.push(x).drop_last() =~= s);
}

pub proof fn lemma_views_concat(a: Seq<MeshExpr>, b: Seq<MeshExpr>)
    ensures
        views(a + b) == views(a) + views(b),
    decreases b.len(),
{
    if b.len() == 0 {
        assert(a + b =~= a);
        assert(views(a) + views(b) =~= views(a));
    } else {
        lemma_views_concat(a, b.drop_last());
        assert((a + b).drop_last() =~= a + b.drop_last());
        assert(views(a) + views(b.drop_last()).push(b.last()@) =~= (views(a) + views(
            b.drop_last(),
        )).push(b.last()@));
    }
}

impl MeshExpr {
    /// Structural equality: same shape and same leaves.
    pub fn same(&self, other: &MeshExpr) -> (r: bool)
        ensures
            r == (self@ == other@),
        decreases self,
    {
        match self {
            MeshExpr::AtOffset(a, b) => match other {
                MeshExpr::AtOffset(c, d) => *a == *c && *b == *d,
                _ => false,
            },
            MeshExpr::Constant(x) => match other {
                MeshExpr::Constant(y) => *x == *y,
                _ => false,
            },
            MeshExpr::SymbolicConst(a) => match other {
                MeshExpr::SymbolicConst(b) => *a == *b,
                _ => false,
            },
            MeshExpr::FunctionVal(a) => match other {
                MeshExpr::FunctionVal(b) => *a == *b,
                _ => false,
            },
            MeshExpr::Negate(a) => match other {
                MeshExpr::Negate(b) => a.same(b),
                _ => false,
            },
            MeshExpr::Reciprocal(a) => match other {
                MeshExpr::Reciprocal(b) => a.same(b),
                _ => false,
            },
            MeshExpr::Sum(v) => match other {
                MeshExpr::Sum(w) => Self::same_items(v, w),
                _ => false,
            },
            MeshExpr::Prod(v) => match other {
                MeshExpr::Prod(w) => Self::same_items(v, w),
                _ => false,
            },
        }
    }

    fn same_items(v: &Vec<MeshExpr>, w: &Vec<MeshExpr>) -> (r: bool)
        ensures
            r == (views(v@) == views(w@)),
        decreases v,
    {
        proof {
            lemma_views_vec(*v);
            lemma_views_vec(*w);
        }
        if v.len() != w.len() {
            return false;
        }
        let mut i: usize = 0;
        while i < v.len()
            invariant
                v.len() == w.len(),
                i <= v.len(),
                views(v@).len() == v.len(),
                views(w@).len() == w.len(),
                forall|k: int| 0 <= k < v.len() ==> #[trigger] views(v@)[k] == v[k]@,
                forall|k: int| 0 <= k < w.len() ==> #[trigger] views(w@)[k] == w[k]@,
                forall|k: int| 0 <= k < i ==> v[k]@ == w[k]@,
            decreases v.len() - i,
        {
            if !v[i].same(&w[i]) {
                assert(views(v@)[i as int] != views(w@)[i as int]);
                return false;
            }
            i = i + 1;
        }
        assert(views(v@) =~= views(w@));
        true
    }

    /// A copy of the tree.
    pub fn copy(&self) -> (r: MeshExpr)
        ensures
            r@ == self@,
        decreases self,
    {
        match self {
            MeshExpr::AtOffset(a, b) => MeshExpr::AtOffset(*a, *b),
            MeshExpr::Constant(c) => MeshExpr::Constant(*c),
            MeshExpr::SymbolicConst(s) => MeshExpr::SymbolicConst(s.clone()),
            MeshExpr::FunctionVal(s) => MeshExpr::FunctionVal(s.clone()),
            MeshExpr::Negate(e) => MeshExpr::Negate(Box::new(e.copy())),
            MeshExpr::Reciprocal(e) => MeshExpr::Reciprocal(Box::new(e.copy())),
            MeshExpr::Sum(v) => MeshExpr::Sum(Self::copy_items(v)),
            MeshExpr::Prod(v) => MeshExpr::Prod(Self::copy_items(v)),
        }
    }

    fn copy_items(v: &Vec<MeshExpr>) -> (r: Vec<MeshExpr>)
        ensures
            views(r@) == views(v@),
        decreases v,
    {
        let mut out: Vec<MeshExpr> = Vec::new();
        let mut i: usize = 0;
        while i < v.len()
            invariant
                i <= v.len(),
                views(out@) == views(v@.subrange(0, i as int)),
            decreases v.len() - i,
        {
            let c = v[i].copy();
            proof {
                assert(v@.subrange(0, i + 1).drop_last() =~= v@.subrange(0, i as int));
                assert(out@.push(c).drop_last() =~= out@);
            }
            out.push(c);
            i = i + 1;
        }
        assert(v@.subrange(0, v.len() as int) =~= v@);
        out
    }
}

impl MeshExpr {
    pub fn is_zero_const(&self) -> (r: bool)
        ensures
            r == is_zero(self@),
    {
        match self {
            MeshExpr::Constant(c) => c.num == 0,
            _ => false,
        }
    }

    pub fn is_one_const(&self) -> (r: bool)
        ensures
            r == is_one(self@),
    {
        match self {
            MeshExpr::Constant(c) => c.num == c.den && c.num != 0,
            _ => false,
        }
    }

    /// Replaces every subtree structurally equal to `target` by
    /// `replacement`; a replaced subtree is not visited further.
    pub fn substitute(self, target: &MeshExpr, replacement: &MeshExpr) -> (r: MeshExpr)
        ensures
            r@ == subst(self@, target@, replacement@),
    {
        self.substituted(target, replacement)
    }

    fn substituted(&self, target: &MeshExpr, replacement: &MeshExpr) -> (r: MeshExpr)
        ensures
            r@ == subst(self@, target@, replacement@),
        decreases self,
    {
        if self.same(target) {
            return replacement.copy();
        }
        match self {
            MeshExpr::Negate(e) => MeshExpr::Negate(Box::new(e.substituted(target, replacement))),
            MeshExpr::Reciprocal(e) => MeshExpr::Reciprocal(
                Box::new(e.substituted(target, replacement)),
            ),
            MeshExpr::Sum(v) => MeshExpr::Sum(Self::substituted_items(v, target, replacement)),
            MeshExpr::Prod(v) => MeshExpr::Prod(Self::substituted_items(v, target, replacement)),
            _ => self.copy(),
        }
    }

    fn substituted_items(v: &Vec<MeshExpr>, target: &MeshExpr, replacement: &MeshExpr) -> (r: Vec<
        MeshExpr,
    >)
        ensures
            views(r@) == subst_all(views(v@), target@, replacement@),
        decreases v,
    {
        proof {
            lemma_views_vec(*v);
            lemma_subst_all_index(views(v@), target@, replacement@);
        }
        let mut out: Vec<MeshExpr> = Vec::new();
        let mut i: usize = 0;
        while i < v.len()
            invariant
                i <= v.len(),
                views(out@).len() == i,
                forall|k: int|
                    0 <= k < i ==> #[trigger] views(out@)[k] == subst(v[k]@, target@, replacement@),
            decreases v.len() - i,
        {
            let c = v[i].substituted(target, replacement);
            proof {
                lemma_views_push(out@, c);
            }
            out.push(c);
            i = i + 1;
        }
        proof {
            assert(views(out@) =~= subst_all(views(v@), target@, replacement@));
        }
        out
    }

    /// Bottom-up normalisation (see `term::simplify`).
    pub fn simplify(self) -> (r: MeshExpr)
        ensures
            r@ == simplify(self@),
    {
        self.simplified()
    }

    fn simplified(&self) -> (r: MeshExpr)
        ensures
            r@ == simplify(self@),
        decreases self,
    {
        match self {
            MeshExpr::Sum(v) => {
                let mut out = Self::simplified_terms(v);
                proof {
                    lemma_views_vec(out);
                }
                if out.len() == 1 {
                    out.remove(0)
                } else {
                    MeshExpr::Sum(out)
                }
            },
            MeshExpr::Prod(v) => {
                let mut out = Self::simplified_factors(v);
                proof {
                    lemma_views_vec(out);
                }
                if out.len() == 1 {
                    out.remove(0)
                } else if out.len() == 0 {
                    MeshExpr::Constant(Rational::one())
                } else if Self::any_zero(&out) {
                    MeshExpr::Constant(Rational::zero())
                } else {
                    MeshExpr::Prod(out)
                }
            },
            MeshExpr::Negate(e) => {
                let inner = e.simplified();
                if inner.is_zero_const() {
                    MeshExpr::Constant(Rational::zero())
                } else {
                    MeshExpr::Negate(Box::new(inner))
                }
            },
            MeshExpr::Reciprocal(e) => {
                let inner = e.simplified();
                if inner.is_one_const() {
                    MeshExpr::Constant(Rational::one())
                } else {
                    MeshExpr::Reciprocal(Box::new(inner))
                }
            },
            _ => self.copy(),
        }
    }

    /// The simplified terms of a sum, without zeros, with nested sums flattened.
    fn simplified_terms(v: &Vec<MeshExpr>) -> (r: Vec<MeshExpr>)
        ensures
            views(r@) == flatten_sums(drop_zeros(simplify_all(views(v@)))),
        decreases v,
    {
        let ghost sv = views(v@);
        proof {
            lemma_views_vec(*v);
        }
        let mut out: Vec<MeshExpr> = Vec::new();
        let mut i: usize = 0;
        while i < v.len()
            invariant
                i <= v.len(),
                sv == views(v@),
                sv.len() == v.len(),
                forall|k: int| 0 <= k < v.len() ==> #[trigger] sv[k] == v[k]@,
                views(out@) == flatten_sums(
                    drop_zeros(simplify_all(sv.subrange(0, i as int))),
                ),
            decreases v.len() - i,
        {
            let c = v[i].simplified();
            proof {
                let p = sv.subrange(0, i as int);
                assert(sv.subrange(0, i + 1).drop_last() =~= p);
                let sa = simplify_all(p);
                assert(sa.push(c@).drop_last() =~= sa);
                let dz = drop_zeros(sa);
                assert(dz.push(c@).drop_last() =~= dz);
            }
            if !c.is_zero_const() {
                match c {
                    MeshExpr::Sum(inner) => {
                        let mut inner = inner;
                        proof {
                            lemma_views_concat(out@, inner@);
                        }
                        out.append(&mut inner);
                    },
                    other => {
                        proof {
                            lemma_views_push(out@, other);
                        }
                        out.push(other);
                    },
                }
            }
            i = i + 1;
        }
        proof {
            assert(sv.subrange(0, v.len() as int) =~= sv);
        }
        out
    }

    /// The simplified factors of a product, without ones.
    fn simplified_factors(v: &Vec<MeshExpr>) -> (r: Vec<MeshExpr>)
        ensures
            views(r@) == drop_ones(simplify_all(views(v@))),
        decreases v,
    {
        let ghost sv = views(v@);
        proof {
            lemma_views_vec(*v);
        }
        let mut out: Vec<MeshExpr> = Vec::new();
        let mut i: usize = 0;
        while i < v.len()
            invariant
                i <= v.len(),
                sv == views(v@),
                sv.len() == v.len(),
                forall|k: int| 0 <= k < v.len() ==> #[trigger] sv[k] == v[k]@,
                views(out@) == drop_ones(simplify_all(sv.subrange(0, i as int))),
            decreases v.len() - i,
        {
            let c = v[i].simplified();
            proof {
                let p = sv.subrange(0, i as int);
                assert(sv.subrange(0, i + 1).drop_last() =~= p);
                let sa = simplify_all(p);
                assert(sa.push(c@).drop_last() =~= sa);
            }
            if !c.is_one_const() {
                proof {
                    lemma_views_push(out@, c);
                }
                out.push(c);
            }
            i = i + 1;
        }
        proof {
            assert(sv.subrange(0, v.len() as int) =~= sv);
        }
        out
    }

    fn pair(a: MeshExpr, b: MeshExpr) -> (r: Vec<MeshExpr>)
        ensures
            views(r@) == seq![a@, b@],
    {
        let ghost (va, vb) = (a@, b@);
        let mut r: Vec<MeshExpr> = Vec::new();
        r.push(a);
        r.push(b);
        proof {
            lemma_views(r@);
            assert(views(r@) =~= seq![va, vb]);
        }
        r
    }

    fn any_zero(v: &Vec<MeshExpr>) -> (r: bool)
        ensures
            r == has_zero(views(v@)),
    {
        proof {
            lemma_views_vec(*v);
        }
        let mut i: usize = 0;
        while i < v.len()
            invariant
                i <= v.len(),
                views(v@).len() == v.len(),
                forall|k: int| 0 <= k < v.len() ==> #[trigger] views(v@)[k] == v[k]@,
                forall|k: int| 0 <= k < i ==> !is_zero(#[trigger] views(v@)[k]),
            decreases v.len() - i,
        {
            if v[i].is_zero_const() {
                assert(is_zero(views(v@)[i as int]));
                return true;
            }
            i = i + 1;
        }
        false
    }

    /// The derivative with respect to `variable`, a term treated as the
    /// unknown (see `term::deriv`).
    pub fn differentiate(&self, variable: &MeshExpr) -> (r: MeshExpr)
        ensures
            r@ == deriv(self@, variable@),
        decreases size(self@), 1nat,
    {
        if self.same(variable) {
            return MeshExpr::Constant(Rational::one());
        }
        match self {
            MeshExpr::Sum(v) => MeshExpr::Sum(Self::differentiate_items(v, variable)),
            MeshExpr::Prod(v) => {
                proof {
                    lemma_views_vec(*v);
                }
                if v.len() == 0 {
                    return MeshExpr::Constant(Rational::zero());
                }
                let ghost sv = views(v@);
                let lhs = v[0].copy();
                let mut tail: Vec<MeshExpr> = Vec::new();
                let mut i: usize = 1;
                while i < v.len()
                    invariant
                        1 <= i <= v.len(),
                        sv == views(v@),
                        sv.len() == v.len(),
                        forall|k: int| 0 <= k < v.len() ==> #[trigger] sv[k] == v[k]@,
                        views(tail@).len() == i - 1,
                        forall|k: int|
                            0 <= k < i - 1 ==> #[trigger] views(tail@)[k] == sv[k + 1],
                    decreases v.len() - i,
                {
                    let c = v[i].copy();
                    proof {
                        lemma_views_push(tail@, c);
                    }
                    tail.push(c);
                    i = i + 1;
                }
                assert(views(tail@) =~= sv.drop_first());
                let rhs = MeshExpr::Prod(tail).simplify();
                proof {
                    lemma_size_all_first(sv);
                    lemma_size_simplify(Term::Prod(sv.drop_first()));
                }
                lhs.product_rule(&rhs, variable)
            },
            MeshExpr::Negate(e) => MeshExpr::Negate(Box::new(e.differentiate(variable))),
            MeshExpr::Reciprocal(e) => {
                let de = e.differentiate(variable);
                let a = e.copy();
                let b = e.copy();
                let prod = MeshExpr::Prod(Self::pair(a, b));
                assert(prod@ == Term::Prod(seq![e@, e@]));
                let square = MeshExpr::Reciprocal(Box::new(prod));
                let quotient = MeshExpr::Prod(Self::pair(de, square));
                assert(quotient@ == Term::Prod(seq![de@, square@]));
                MeshExpr::Negate(Box::new(quotient))
            },
            _ => MeshExpr::Constant(Rational::zero()),
        }
    }

    fn differentiate_items(v: &Vec<MeshExpr>, variable: &MeshExpr) -> (r: Vec<MeshExpr>)
        ensures
            views(r@) == deriv_all(views(v@), variable@),
        decreases size_all(views(v@)), 2nat,
    {
        proof {
            lemma_views_vec(*v);
            lemma_deriv_all_index(views(v@), variable@);
        }
        let mut out: Vec<MeshExpr> = Vec::new();
        let mut i: usize = 0;
        while i < v.len()
            invariant
                i <= v.len(),
                views(v@).len() == v.len(),
                forall|k: int| 0 <= k < v.len() ==> #[trigger] views(v@)[k] == v[k]@,
                views(out@).len() == i,
                forall|k: int|
                    0 <= k < i ==> #[trigger] views(out@)[k] == deriv(v[k]@, variable@),
            decreases v.len() - i,
        {
            proof {
                lemma_size_all_elem(views(v@), i as int);
            }
            let c = v[i].differentiate(variable);
            proof {
                lemma_views_push(out@, c);
            }
            out.push(c);
            i = i + 1;
        }
        proof {
            assert(views(out@) =~= deriv_all(views(v@), variable@));
        }
        out
    }

    /// `d(self · rhs) = self · d(rhs) + d(self) · rhs`.
    fn product_rule(&self, rhs: &MeshExpr, variable: &MeshExpr) -> (r: MeshExpr)
        ensures
            r@ == product_rule(self@, rhs@, deriv(self@, variable@), deriv(rhs@, variable@)),
        decreases size(self@) + size(rhs@), 0nat,
    {
        proof {
            lemma_size_pos(self@);
            lemma_size_pos(rhs@);
        }
        let drhs = rhs.differentiate(variable);
        let dlhs = self.differentiate(variable);
        let first = MeshExpr::Prod(Self::pair(self.copy(), drhs));
        let second = MeshExpr::Prod(Self::pair(dlhs, rhs.copy()));
        let r = MeshExpr::Sum(Self::pair(first, second));
        r
    }

    /// Solves `self = 0` for `variable`, assuming `self` is affine in it:
    /// `-(self at zero) / (d self at zero)`, simplified.
    pub fn find_root_linear(self, variable: &MeshExpr) -> (r: MeshExpr)
        ensures
            r@ == linear_root(self@, variable@),
    {
        let zero_const = MeshExpr::Constant(Rational::zero());
        let derivative = self.differentiate(variable).substitute(variable, &zero_const);
        let numerator = self.substitute(variable, &zero_const);
        let recip = MeshExpr::Reciprocal(Box::new(derivative));
        let quotient = MeshExpr::Prod(Self::pair(numerator, recip));
        assert(zero_const@ == zero());
        assert(numerator@ == subst(self@, variable@, zero()));
        assert(recip@ == Term::Recip(Box::new(subst(deriv(self@, variable@), variable@, zero()))));
        assert(quotient@ == Term::Prod(seq![numerator@, recip@]));
        let neg = MeshExpr::Negate(Box::new(quotient));
        assert(neg@ == Term::Neg(Box::new(quotient@)));
        neg.simplify()
    }
}

} // verus!
