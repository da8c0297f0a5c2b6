use crate::rational::{frac_add, frac_eq, frac_mul, Frac, Rational};
use vstd::prelude::*;

verus! {

/// The mathematical value of a `MeshExpr`: the same tree, with sequences
/// in place of vectors and character sequences in place of strings.
pub enum Term {
    At(isize, isize),
    Prod(Seq<Term>),
    Sum(Seq<Term>),
    Const(Rational),
    Sym(Seq<char>),
    Func(Seq<char>),
    Neg(Box<Term>),
    Recip(Box<Term>),
}

pub open spec fn zero() -> Term {
    Term::Const(Rational { num: 0, den: 1 })
}

pub open spec fn one() -> Term {
    Term::Const(Rational { num: 1, den: 1 })
}

/// A constant whose value is zero: the additive identity.
pub open spec fn is_zero(t: Term) -> bool {
    t matches Term::Const(c) && c.num == 0
}

/// A constant whose value is one: the multiplicative identity.
pub open spec fn is_one(t: Term) -> bool {
    t matches Term::Const(c) && c.num == c.den && c.num != 0
}

// ---------------------------------------------------------------------------
// Structural substitution
/// `t` with every subtree equal to `target` replaced by `repl`; a replaced
/// subtree is not visited further.
pub open spec fn subst(t: Term, target: Term, repl: Term) -> Term
    decreases t,
{
    if t == target {
        repl
    } else {
        match t {
            Term::Neg(e) => Term::Neg(Box::new(subst(*e, target, repl))),
            Term::Recip(e) => Term::Recip(Box::new(subst(*e, target, repl))),
            Term::Sum(s) => Term::Sum(subst_all(s, target, repl)),
            Term::Prod(s) => Term::Prod(subst_all(s, target, repl)),
            _ => t,
        }
    }
}

pub open spec fn subst_all(s: Seq<Term>, target: Term, repl: Term) -> Seq<Term>
    decreases s,
{
    if s.len() == 0 {
        Seq::empty()
    } else {
        subst_all(s.drop_last(), target, repl).push(subst(s.last(), target, repl))
    }
}

// ---------------------------------------------------------------------------
// Simplification
/// The terms of `s` that are not zero constants, in order.
pub open spec fn drop_zeros(s: Seq<Term>) -> Seq<Term>
    decreases s.len(),
{
    if s.len() == 0 {
        Seq::empty()
    } else if is_zero(s.last()) {
        drop_zeros(s.drop_last())
    } else {
        drop_zeros(s.drop_last()).push(s.last())
    }
}

/// The factors of `s` that are not one constants, in order.
pub open spec fn drop_ones(s: Seq<Term>) -> Seq<Term>
    decreases s.len(),
{
    if s.len() == 0 {
        Seq::empty()
    } else if is_one(s.last()) {
        drop_ones(s.drop_last())
    } else {
        drop_ones(s.drop_last()).push(s.last())
    }
}

/// `s` with each sum in it replaced by its terms.
pub open spec fn flatten_sums(s: Seq<Term>) -> Seq<Term>
    decreases s.len(),
{
    if s.len() == 0 {
        Seq::empty()
    } else {
        match s.last() {
            Term::Sum(inner) => flatten_sums(s.drop_last()) + inner,
            other => flatten_sums(s.drop_last()).push(other),
        }
    }
}

pub open spec fn has_zero(s: Seq<Term>) -> bool {
    exists|i: int| 0 <= i < s.len() && is_zero(#[trigger] s[i])
}

/// Bottom-up normalisation: sums lose zero terms and nested sums are
/// flattened; products lose one factors, and collapse to zero when a factor
/// is zero; a sum or product of one item is that item, an empty product is
/// one; the negation of zero is zero and the reciprocal of one is one.
pub open spec fn simplify(t: Term) -> Term
    decreases t,
{
    match t {
        Term::Sum(s) => {
            let items = flatten_sums(drop_zeros(simplify_all(s)));
            if items.len() == 1 {
                items[0]
            } else {
                Term::Sum(items)
            }
        },
        Term::Prod(s) => {
            let items = drop_ones(simplify_all(s));
            if items.len() == 1 {
                items[0]
            } else if items.len() == 0 {
                one()
            } else if has_zero(items) {
                zero()
            } else {
                Term::Prod(items)
            }
        },
        Term::Neg(e) => {
            let inner = simplify(*e);
            if is_zero(inner) {
                zero()
            } else {
                Term::Neg(Box::new(inner))
            }
        },
        Term::Recip(e) => {
            let inner = simplify(*e);
            if is_one(inner) {
                one()
            } else {
                Term::Recip(Box::new(inner))
            }
        },
        _ => t,
    }
}

pub open spec fn simplify_all(s: Seq<Term>) -> Seq<Term>
    decreases s,
{
    if s.len() == 0 {
        Seq::empty()
    } else {
        simplify_all(s.drop_last()).push(simplify(s.last()))
    }
}

/// A term that can stand in a simplified sum.
pub open spec fn sum_item(t: Term) -> bool {
    simplified(t) && !is_zero(t) && !(t is Sum)
}

/// A tree in the normal form that `simplify` produces: no zero term and no
/// nested sum in a sum, no one or zero factor in a product, no sum of one
/// term, no product of fewer than two factors, no negated zero and no
/// reciprocal of one.
pub open spec fn simplified(t: Term) -> bool
    decreases t,
{
    match t {
        Term::Sum(s) => s.len() != 1 && all_simplified(s) && forall|i: int|
            0 <= i < s.len() ==> !is_zero(#[trigger] s[i]) && !(s[i] is Sum),
        Term::Prod(s) => s.len() >= 2 && all_simplified(s) && forall|i: int|
            0 <= i < s.len() ==> !is_zero(#[trigger] s[i]) && !is_one(s[i]),
        Term::Neg(e) => simplified(*e) && !is_zero(*e),
        Term::Recip(e) => simplified(*e) && !is_one(*e),
        _ => true,
    }
}

pub open spec fn all_simplified(s: Seq<Term>) -> bool
    decreases s,
{
    s.len() == 0 || (all_simplified(s.drop_last()) && simplified(s.last()))
}

// ---------------------------------------------------------------------------
// Size, for termination of differentiation
pub open spec fn size(t: Term) -> nat
    decreases t,
{
    match t {
        Term::Sum(s) => 1 + size_all(s),
        Term::Prod(s) => 1 + size_all(s),
        Term::Neg(e) => 1 + size(*e),
        Term::Recip(e) => 1 + size(*e),
        _ => 1,
    }
}

pub open spec fn size_all(s: Seq<Term>) -> nat
    decreases s,
{
    if s.len() == 0 {
        0
    } else {
        size_all(s.drop_last()) + size(s.last())
    }
}

// ---------------------------------------------------------------------------
// Differentiation
/// `d(f·g) = f·dg + df·g`.
pub open spec fn product_rule(f: Term, g: Term, df: Term, dg: Term) -> Term {
    Term::Sum(seq![Term::Prod(seq![f, dg]), Term::Prod(seq![df, g])])
}

/// The derivative of `t` with respect to the term `x`, treated as the
/// unknown: `x` itself gives one and any other leaf zero; sums go term by
/// term; a product is its first factor times the simplified product of the
/// rest, by the product rule; `d(-f) = -df` and `d(1/f) = -(df · 1/(f·f))`.
pub open spec fn deriv(t: Term, x: Term) -> Term
    decreases size(t), 0nat,
    via deriv_decreases
{
    if t == x {
        one()
    } else {
        match t {
            Term::Sum(s) => Term::Sum(deriv_all(s, x)),
            Term::Prod(s) => if s.len() == 0 {
                zero()
            } else {
                let f = s[0];
                let rest = simplify(Term::Prod(s.drop_first()));
                product_rule(f, rest, deriv(f, x), deriv(rest, x))
            },
            Term::Neg(e) => Term::Neg(Box::new(deriv(*e, x))),
            Term::Recip(e) => Term::Neg(
                Box::new(
                    Term::Prod(
                        seq![deriv(*e, x), Term::Recip(Box::new(Term::Prod(seq![*e, *e])))],
                    ),
                ),
            ),
            _ => zero(),
        }
    }
}

pub open spec fn deriv_all(s: Seq<Term>, x: Term) -> Seq<Term>
    decreases size_all(s), 1nat,
    via deriv_all_decreases
{
    if s.len() == 0 {
        Seq::empty()
    } else {
        deriv_all(s.drop_last(), x).push(deriv(s.last(), x))
    }
}

#[via_fn]
proof fn deriv_decreases(t: Term, x: Term) {
    if t != x {
        match t {
            Term::Prod(s) => {
                if s.len() > 0 {
                    lemma_size_all_first(s);
                    lemma_size_simplify(Term::Prod(s.drop_first()));
                    lemma_size_pos(s[0]);
                }
            },
            _ => {},
        }
    }
}

#[via_fn]
proof fn deriv_all_decreases(s: Seq<Term>, x: Term) {
    if s.len() > 0 {
        lemma_size_pos(s.last());
    }
}

/// The rewrite that `find_root_linear` performs, as a term.
pub open spec fn linear_root(t: Term, x: Term) -> Term {
    simplify(
        Term::Neg(
            Box::new(
                Term::Prod(
                    seq![subst(t, x, zero()), Term::Recip(Box::new(subst(deriv(t, x), x, zero())))],
                ),
            ),
        ),
    )
}

// ---------------------------------------------------------------------------
// Lemmas on size
pub proof fn lemma_size_pos(t: Term)
    ensures
        size(t) >= 1,
{
}

pub proof fn lemma_size_all_concat(a: Seq<Term>, b: Seq<Term>)
    ensures
        size_all(a + b) == size_all(a) + size_all(b),
    decreases b.len(),
{
    if b.len() == 0 {
        assert(a + b =~= a);
    } else {
        lemma_size_all_concat(a, b.drop_last());
        assert((a + b).drop_last() =~= a + b.drop_last());
    }
}

pub proof fn lemma_size_all_first(s: Seq<Term>)
    requires
        s.len() > 0,
    ensures
        size_all(s) == size(s[0]) + size_all(s.drop_first()),
{
    let head = seq![s[0]];
    assert(head + s.drop_first() =~= s);
    lemma_size_all_concat(head, s.drop_first());
    assert(head.drop_last() =~= Seq::<Term>::empty());
    assert(size_all(head.drop_last()) == 0);
    assert(size_all(head) == size(s[0]));
}

proof fn lemma_size_drop_zeros(s: Seq<Term>)
    ensures
        size_all(drop_zeros(s)) <= size_all(s),
    decreases s.len(),
{
    if s.len() > 0 {
        lemma_size_drop_zeros(s.drop_last());
        let r = drop_zeros(s.drop_last());
        assert(r.push(s.last()).drop_last() =~= r);
    }
}

proof fn lemma_size_drop_ones(s: Seq<Term>)
    ensures
        size_all(drop_ones(s)) <= size_all(s),
    decreases s.len(),
{
    if s.len() > 0 {
        lemma_size_drop_ones(s.drop_last());
        let r = drop_ones(s.drop_last());
        assert(r.push(s.last()).drop_last() =~= r);
    }
}

proof fn lemma_size_flatten(s: Seq<Term>)
    ensures
        size_all(flatten_sums(s)) <= size_all(s),
    decreases s.len(),
{
    if s.len() > 0 {
        lemma_size_flatten(s.drop_last());
        let r = flatten_sums(s.drop_last());
        match s.last() {
            Term::Sum(inner) => {
                lemma_size_all_concat(r, inner);
                assert(size(s.last()) == 1 + size_all(inner));
            },
            other => {
                assert(r.push(other).drop_last() =~= r);
            },
        }
    }
}

pub proof fn lemma_size_simplify(t: Term)
    ensures
        size(simplify(t)) <= size(t),
    decreases t,
{
    match t {
        Term::Sum(s) => {
            lemma_size_simplify_all(s);
            lemma_size_drop_zeros(simplify_all(s));
            lemma_size_flatten(drop_zeros(simplify_all(s)));
            let items = flatten_sums(drop_zeros(simplify_all(s)));
            if items.len() == 1 {
                assert(items.drop_last() =~= Seq::<Term>::empty());
            }
        },
        Term::Prod(s) => {
            lemma_size_simplify_all(s);
            lemma_size_drop_ones(simplify_all(s));
            let items = drop_ones(simplify_all(s));
            if items.len() == 1 {
                assert(items.drop_last() =~= Seq::<Term>::empty());
            }
        },
        Term::Neg(e) => {
            lemma_size_simplify(*e);
        },
        Term::Recip(e) => {
            lemma_size_simplify(*e);
        },
        _ => {},
    }
}

proof fn lemma_size_simplify_all(s: Seq<Term>)
    ensures
        size_all(simplify_all(s)) <= size_all(s),
    decreases s,
{
    if s.len() > 0 {
        lemma_size_simplify_all(s.drop_last());
        lemma_size_simplify(s.last());
        let r = simplify_all(s.drop_last());
        assert(r.push(simplify(s.last())).drop_last() =~= r);
    }
}

pub proof fn lemma_size_all_elem(s: Seq<Term>, i: int)
    requires
        0 <= i < s.len(),
    ensures
        size(s[i]) <= size_all(s),
    decreases s.len(),
{
    if i < s.len() - 1 {
        lemma_size_all_elem(s.drop_last(), i);
        assert(s.drop_last()[i] == s[i]);
    }
}

pub proof fn lemma_subst_all_index(s: Seq<Term>, target: Term, repl: Term)
    ensures
        subst_all(s, target, repl).len() == s.len(),
        forall|i: int|
            0 <= i < s.len() ==> #[trigger] subst_all(s, target, repl)[i] == subst(
                s[i],
                target,
                repl,
            ),
    decreases s.len(),
{
    if s.len() > 0 {
        lemma_subst_all_index(s.drop_last(), target, repl);
    }
}

pub proof fn lemma_deriv_all_index(s: Seq<Term>, x: Term)
    ensures
        deriv_all(s, x).len() == s.len(),
        forall|i: int| 0 <= i < s.len() ==> #[trigger] deriv_all(s, x)[i] == deriv(s[i], x),
    decreases s.len(),
{
    if s.len() > 0 {
        lemma_deriv_all_index(s.drop_last(), x);
    }
}

// ---------------------------------------------------------------------------
// Lemmas on simplification
pub proof fn lemma_simplify_all_index(s: Seq<Term>)
    ensures
        simplify_all(s).len() == s.len(),
        forall|i: int| 0 <= i < s.len() ==> #[trigger] simplify_all(s)[i] == simplify(s[i]),
    decreases s.len(),
{
    if s.len() > 0 {
        lemma_simplify_all_index(s.drop_last());
    }
}

pub proof fn lemma_all_simplified(s: Seq<Term>)
    ensures
        all_simplified(s) <==> forall|i: int| 0 <= i < s.len() ==> simplified(#[trigger] s[i]),
    decreases s.len(),
{
    if s.len() > 0 {
        lemma_all_simplified(s.drop_last());
        if forall|i: int| 0 <= i < s.len() ==> simplified(#[trigger] s[i]) {
            assert forall|i: int| 0 <= i < s.drop_last().len() implies simplified(
                #[trigger] s.drop_last()[i],
            ) by {
                assert(s.drop_last()[i] == s[i]);
            }
        }
        if all_simplified(s) {
            assert forall|i: int| 0 <= i < s.len() implies simplified(#[trigger] s[i]) by {
                if i < s.len() - 1 {
                    assert(s.drop_last()[i] == s[i]);
                }
            }
        }
    }
}

pub proof fn lemma_drop_zeros(s: Seq<Term>)
    ensures
        forall|j: int|
            0 <= j < drop_zeros(s).len() ==> !is_zero(#[trigger] drop_zeros(s)[j]) && s.contains(
                drop_zeros(s)[j],
            ),
        (forall|i: int| 0 <= i < s.len() ==> !is_zero(#[trigger] s[i])) ==> drop_zeros(s) == s,
    decreases s.len(),
{
    if s.len() > 0 {
        let p = s.drop_last();
        lemma_drop_zeros(p);
        let r = drop_zeros(p);
        assert forall|j: int| 0 <= j < drop_zeros(s).len() implies !is_zero(
            #[trigger] drop_zeros(s)[j],
        ) && s.contains(drop_zeros(s)[j]) by {
            if j < r.len() {
                assert(drop_zeros(s)[j] == r[j]);
                let k = choose|k: int| 0 <= k < p.len() && p[k] == r[j];
                assert(s[k] == p[k]);
            } else {
                assert(drop_zeros(s)[j] == s[s.len() - 1]);
            }
        }
        if forall|i: int| 0 <= i < s.len() ==> !is_zero(#[trigger] s[i]) {
            assert forall|i: int| 0 <= i < p.len() implies !is_zero(#[trigger] p[i]) by {
                assert(p[i] == s[i]);
            }
            assert(!is_zero(s[s.len() - 1]));
            assert(p.push(s.last()) =~= s);
        }
    }
}

pub proof fn lemma_drop_ones(s: Seq<Term>)
    ensures
        forall|j: int|
            0 <= j < drop_ones(s).len() ==> !is_one(#[trigger] drop_ones(s)[j]) && s.contains(
                drop_ones(s)[j],
            ),
        (forall|i: int| 0 <= i < s.len() ==> !is_one(#[trigger] s[i])) ==> drop_ones(s) == s,
    decreases s.len(),
{
    if s.len() > 0 {
        let p = s.drop_last();
        lemma_drop_ones(p);
        let r = drop_ones(p);
        assert forall|j: int| 0 <= j < drop_ones(s).len() implies !is_one(
            #[trigger] drop_ones(s)[j],
        ) && s.contains(drop_ones(s)[j]) by {
            if j < r.len() {
                assert(drop_ones(s)[j] == r[j]);
                let k = choose|k: int| 0 <= k < p.len() && p[k] == r[j];
                assert(s[k] == p[k]);
            } else {
                assert(drop_ones(s)[j] == s[s.len() - 1]);
            }
        }
        if forall|i: int| 0 <= i < s.len() ==> !is_one(#[trigger] s[i]) {
            assert forall|i: int| 0 <= i < p.len() implies !is_one(#[trigger] p[i]) by {
                assert(p[i] == s[i]);
            }
            assert(!is_one(s[s.len() - 1]));
            assert(p.push(s.last()) =~= s);
        }
    }
}

/// An item that contributes only sum items to a flattened sum.
pub open spec fn flattens_to_sum_items(t: Term) -> bool {
    match t {
        Term::Sum(inner) => forall|k: int| 0 <= k < inner.len() ==> sum_item(#[trigger] inner[k]),
        _ => sum_item(t),
    }
}

pub proof fn lemma_flatten_sums(s: Seq<Term>)
    ensures
        (forall|i: int| 0 <= i < s.len() ==> flattens_to_sum_items(#[trigger] s[i])) ==> forall|
            j: int,
        | 0 <= j < flatten_sums(s).len() ==> sum_item(#[trigger] flatten_sums(s)[j]),
        (forall|i: int| 0 <= i < s.len() ==> !(#[trigger] s[i] is Sum)) ==> flatten_sums(s) == s,
    decreases s.len(),
{
    if s.len() > 0 {
        let p = s.drop_last();
        lemma_flatten_sums(p);
        let r = flatten_sums(p);
        if forall|i: int| 0 <= i < s.len() ==> flattens_to_sum_items(#[trigger] s[i]) {
            assert forall|i: int| 0 <= i < p.len() implies flattens_to_sum_items(#[trigger] p[i]) by {
                assert(p[i] == s[i]);
            }
            assert(flattens_to_sum_items(s[s.len() - 1]));
            assert forall|j: int| 0 <= j < flatten_sums(s).len() implies sum_item(
                #[trigger] flatten_sums(s)[j],
            ) by {
                if j < r.len() {
                    assert(flatten_sums(s)[j] == r[j]);
                } else {
                    match s.last() {
                        Term::Sum(inner) => {
                            assert(flatten_sums(s)[j] == inner[j - r.len()]);
                        },
                        _ => {},
                    }
                }
            }
        }
        if forall|i: int| 0 <= i < s.len() ==> !(#[trigger] s[i] is Sum) {
            assert forall|i: int| 0 <= i < p.len() implies !(#[trigger] p[i] is Sum) by {
                assert(p[i] == s[i]);
            }
            assert(!(s[s.len() - 1] is Sum));
            assert(p.push(s.last()) =~= s);
        }
    }
}

/// What `simplify` returns is in normal form.
pub proof fn lemma_simplify_simplified(t: Term)
    ensures
        simplified(simplify(t)),
    decreases t,
{
    match t {
        Term::Sum(s) => {
            let sa = simplify_all(s);
            lemma_simplify_all_simplified(s);
            lemma_all_simplified(sa);
            lemma_drop_zeros(sa);
            let dz = drop_zeros(sa);
            assert forall|i: int| 0 <= i < dz.len() implies flattens_to_sum_items(
                #[trigger] dz[i],
            ) by {
                let k = choose|k: int| 0 <= k < sa.len() && sa[k] == dz[i];
                assert(simplified(sa[k]));
                match dz[i] {
                    Term::Sum(inner) => {
                        lemma_all_simplified(inner);
                    },
                    _ => {},
                }
            }
            lemma_flatten_sums(dz);
            let items = flatten_sums(dz);
            if items.len() != 1 {
                assert forall|i: int| 0 <= i < items.len() implies simplified(#[trigger] items[i]) by {
                    assert(sum_item(items[i]));
                }
                lemma_all_simplified(items);
                assert forall|i: int| 0 <= i < items.len() implies !is_zero(#[trigger] items[i])
                    && !(items[i] is Sum) by {
                    assert(sum_item(items[i]));
                }
            } else {
                assert(sum_item(items[0]));
            }
        },
        Term::Prod(s) => {
            let sa = simplify_all(s);
            lemma_simplify_all_simplified(s);
            lemma_all_simplified(sa);
            lemma_drop_ones(sa);
            let items = drop_ones(sa);
            assert forall|i: int| 0 <= i < items.len() implies simplified(#[trigger] items[i]) by {
                let k = choose|k: int| 0 <= k < sa.len() && sa[k] == items[i];
                assert(simplified(sa[k]));
            }
            if items.len() >= 2 && !has_zero(items) {
                lemma_all_simplified(items);
                assert forall|i: int| 0 <= i < items.len() implies !is_zero(#[trigger] items[i])
                    && !is_one(items[i]) by {
                    assert(!is_zero(items[i]));
                }
            } else if items.len() == 1 {
                assert(simplified(items[0]));
            }
        },
        Term::Neg(e) => {
            lemma_simplify_simplified(*e);
        },
        Term::Recip(e) => {
            lemma_simplify_simplified(*e);
        },
        _ => {},
    }
}

pub proof fn lemma_simplify_all_simplified(s: Seq<Term>)
    ensures
        all_simplified(simplify_all(s)),
    decreases s,
{
    if s.len() > 0 {
        lemma_simplify_all_simplified(s.drop_last());
        lemma_simplify_simplified(s.last());
        let r = simplify_all(s.drop_last());
        assert(r.push(simplify(s.last())).drop_last() =~= r);
    }
}

/// A tree in normal form is left as it is by `simplify`.
pub proof fn lemma_simplified_fixed(t: Term)
    requires
        simplified(t),
    ensures
        simplify(t) == t,
    decreases t,
{
    match t {
        Term::Sum(s) => {
            lemma_simplified_all_fixed(s);
            lemma_drop_zeros(s);
            lemma_flatten_sums(s);
        },
        Term::Prod(s) => {
            lemma_simplified_all_fixed(s);
            lemma_drop_ones(s);
        },
        Term::Neg(e) => {
            lemma_simplified_fixed(*e);
        },
        Term::Recip(e) => {
            lemma_simplified_fixed(*e);
        },
        _ => {},
    }
}

pub proof fn lemma_simplified_all_fixed(s: Seq<Term>)
    requires
        all_simplified(s),
    ensures
        simplify_all(s) == s,
    decreases s,
{
    if s.len() > 0 {
        lemma_simplified_all_fixed(s.drop_last());
        lemma_simplified_fixed(s.last());
        assert(s.drop_last().push(s.last()) =~= s);
    }
}

/// Simplifying twice gives what simplifying once gives, and the result is
/// in normal form: no zero term in a sum, no one factor in a product, unless
/// the whole tree is that constant.
pub proof fn lemma_simplify_idempotent(t: Term)
    ensures
        simplify(simplify(t)) == simplify(t),
        simplified(simplify(t)),
{
    lemma_simplify_simplified(t);
    lemma_simplified_fixed(simplify(t));
}

// ---------------------------------------------------------------------------
// Solving an affine residual
proof fn lemma_pair(x: Term, y: Term)
    ensures
        seq![x, y].drop_last() == seq![x],
        seq![x].drop_last() == Seq::<Term>::empty(),
        seq![x, y].last() == y,
        seq![x].last() == x,
        seq![x, y].drop_first() == seq![y],
{
    assert(seq![x, y].drop_last() =~= seq![x]);
    assert(seq![x].drop_last() =~= Seq::<Term>::empty());
    assert(seq![x, y].drop_first() =~= seq![y]);
}

proof fn lemma_single(x: Term)
    ensures
        simplify_all(seq![x]) == seq![simplify(x)],
        !is_zero(x) ==> drop_zeros(seq![x]) == seq![x],
        is_zero(x) ==> drop_zeros(seq![x]) == Seq::<Term>::empty(),
        !is_one(x) ==> drop_ones(seq![x]) == seq![x],
        is_one(x) ==> drop_ones(seq![x]) == Seq::<Term>::empty(),
        !(x is Sum) ==> flatten_sums(seq![x]) == seq![x],
{
    let e = Seq::<Term>::empty();
    assert(seq![x].drop_last() =~= e);
    assert(seq![x].last() == x);
    assert(simplify_all(e) == e);
    assert(drop_zeros(e) == e);
    assert(drop_ones(e) == e);
    assert(flatten_sums(e) == e);
    assert(e.push(x) =~= seq![x]);
    assert(e.push(simplify(x)) =~= seq![simplify(x)]);
}

proof fn lemma_two(x: Term, y: Term)
    ensures
        simplify_all(seq![x, y]) == seq![simplify(x), simplify(y)],
        !is_zero(x) && is_zero(y) ==> drop_zeros(seq![x, y]) == seq![x],
        is_zero(x) && !is_zero(y) ==> drop_zeros(seq![x, y]) == seq![y],
        is_zero(x) && is_zero(y) ==> drop_zeros(seq![x, y]) == Seq::<Term>::empty(),
        drop_ones(seq![x, y]) == if is_one(y) {
            drop_ones(seq![x])
        } else {
            drop_ones(seq![x]).push(y)
        },
{
    lemma_pair(x, y);
    lemma_single(x);
    lemma_single(y);
    assert(seq![simplify(x)].push(simplify(y)) =~= seq![simplify(x), simplify(y)]);
    assert(Seq::<Term>::empty().push(y) =~= seq![y]);
}

/// For a residual `a·u + b` with `a` a non-zero constant, `b` a constant
/// and `u` a grid value, `find_root_linear` gives `-(Σ[b] · 1/a)`,
/// simplified; for `b` non-zero that is `-(b · 1/a)`, simplified, and when
/// neither `a` nor `b` is one it is exactly that tree.
pub proof fn lemma_linear_root_affine(a: Rational, b: Rational, i: isize, j: isize)
    requires
        a.num != 0,
    ensures
        ({
            let u = Term::At(i, j);
            let residual = Term::Sum(seq![Term::Prod(seq![Term::Const(a), u]), Term::Const(b)]);
            linear_root(residual, u) == simplify(
                Term::Neg(
                    Box::new(
                        Term::Prod(
                            seq![
                                Term::Sum(seq![Term::Const(b)]),
                                Term::Recip(Box::new(Term::Const(a))),
                            ],
                        ),
                    ),
                ),
            )
        }),
        b.num != 0 ==> ({
            let u = Term::At(i, j);
            let residual = Term::Sum(seq![Term::Prod(seq![Term::Const(a), u]), Term::Const(b)]);
            linear_root(residual, u) == simplify(
                Term::Neg(
                    Box::new(
                        Term::Prod(seq![Term::Const(b), Term::Recip(Box::new(Term::Const(a)))]),
                    ),
                ),
            )
        }),
        a.num != a.den && b.num != b.den && b.num != 0 ==> ({
            let u = Term::At(i, j);
            let residual = Term::Sum(seq![Term::Prod(seq![Term::Const(a), u]), Term::Const(b)]);
            linear_root(residual, u) == Term::Neg(
                Box::new(Term::Prod(seq![Term::Const(b), Term::Recip(Box::new(Term::Const(a)))])),
            )
        }),
{
    let u = Term::At(i, j);
    let ca = Term::Const(a);
    let cb = Term::Const(b);
    let au = Term::Prod(seq![ca, u]);
    let residual = Term::Sum(seq![au, cb]);
    // the derivative
    lemma_pair(au, cb);
    lemma_pair(ca, u);
    lemma_single(u);
    assert(simplify(Term::Prod(seq![u])) == u);
    let d_au = product_rule(ca, u, zero(), one());
    assert(deriv(ca, u) == zero());
    assert(deriv(u, u) == one());
    assert(seq![ca, u][0] == ca);
    assert(deriv(au, u) == d_au);
    lemma_deriv_all_index(seq![au, cb], u);
    assert(deriv_all(seq![au, cb], u) =~= seq![d_au, zero()]);
    let d = Term::Sum(seq![d_au, zero()]);
    assert(deriv(residual, u) == d);
    // the derivative and the residual at zero
    let ca1 = Term::Prod(seq![ca, one()]);
    let zz = Term::Prod(seq![zero(), zero()]);
    lemma_subst_all_index(seq![ca, one()], u, zero());
    assert(subst_all(seq![ca, one()], u, zero()) =~= seq![ca, one()]);
    assert(subst(Term::Prod(seq![ca, one()]), u, zero()) == ca1);
    lemma_subst_all_index(seq![zero(), u], u, zero());
    assert(subst_all(seq![zero(), u], u, zero()) =~= seq![zero(), zero()]);
    assert(subst(Term::Prod(seq![zero(), u]), u, zero()) == zz);
    let inner = Term::Sum(seq![ca1, zz]);
    lemma_subst_all_index(seq![Term::Prod(seq![ca, one()]), Term::Prod(seq![zero(), u])], u, zero());
    assert(subst_all(seq![Term::Prod(seq![ca, one()]), Term::Prod(seq![zero(), u])], u, zero())
        =~= seq![ca1, zz]);
    assert(subst(d_au, u, zero()) == inner);
    lemma_subst_all_index(seq![d_au, zero()], u, zero());
    assert(subst_all(seq![d_au, zero()], u, zero()) =~= seq![inner, zero()]);
    let d0 = Term::Sum(seq![inner, zero()]);
    assert(subst(d, u, zero()) == d0);
    let a0 = Term::Prod(seq![ca, zero()]);
    lemma_subst_all_index(seq![ca, u], u, zero());
    assert(subst_all(seq![ca, u], u, zero()) =~= seq![ca, zero()]);
    assert(subst(au, u, zero()) == a0);
    lemma_subst_all_index(seq![au, cb], u, zero());
    assert(subst_all(seq![au, cb], u, zero()) =~= seq![a0, cb]);
    let n0 = Term::Sum(seq![a0, cb]);
    assert(subst(residual, u, zero()) == n0);
    // simplifying the numerator gives b
    lemma_two(ca, zero());
    lemma_single(ca);
    lemma_single(zero());
    assert(has_zero(seq![ca, zero()]) || is_one(ca));
    if is_one(ca) {
        assert(drop_ones(seq![ca, zero()]) == seq![zero()]);
    } else {
        assert(drop_ones(seq![ca, zero()]) =~= seq![ca, zero()]);
        assert(is_zero(seq![ca, zero()][1]));
    }
    assert(simplify(a0) == zero());
    lemma_two(a0, cb);
    lemma_two(zero(), cb);
    lemma_single(cb);
    assert(simplify(cb) == cb);
    let bs = Term::Sum(seq![cb]);
    let bt = simplify(bs);
    if is_zero(cb) {
        assert(drop_zeros(seq![cb]) == Seq::<Term>::empty());
        assert(flatten_sums(Seq::<Term>::empty()) == Seq::<Term>::empty());
        assert(bt == Term::Sum(Seq::<Term>::empty()));
    } else {
        assert(bt == cb);
    }
    assert(simplify(n0) == bt);
    // simplifying the derivative gives a
    let a1 = if is_one(ca) {
        one()
    } else {
        ca
    };
    lemma_two(ca, one());
    lemma_single(one());
    assert(simplify(ca1) == a1);
    lemma_two(zero(), zero());
    assert(drop_ones(seq![zero(), zero()]) =~= seq![zero(), zero()]);
    assert(is_zero(seq![zero(), zero()][0]));
    assert(simplify(zz) == zero());
    lemma_two(ca1, zz);
    lemma_two(a1, zero());
    lemma_single(a1);
    assert(simplify(inner) == a1);
    lemma_two(inner, zero());
    assert(simplify(d0) == a1);
    assert(simplify(Term::Recip(Box::new(d0))) == simplify(Term::Recip(Box::new(ca))));
    // the quotients agree once their factors are simplified
    let rd = Term::Recip(Box::new(d0));
    let ra = Term::Recip(Box::new(ca));
    lemma_two(n0, rd);
    lemma_two(cb, ra);
    lemma_two(bs, ra);
    assert(simplify(Term::Prod(seq![n0, rd])) == simplify(Term::Prod(seq![bs, ra])));
    if !is_zero(cb) {
        assert(simplify(Term::Prod(seq![n0, rd])) == simplify(Term::Prod(seq![cb, ra])));
    }
    if a.num != a.den && b.num != b.den && b.num != 0 {
        assert(simplify(ra) == ra);
        lemma_single(cb);
        assert(drop_ones(seq![cb, ra]) =~= seq![cb, ra]);
        let q = seq![cb, ra];
        assert(!has_zero(q)) by {
            assert forall|k: int| 0 <= k < 2 implies !is_zero(#[trigger] q[k]) by {}
        }
    }
}

/// The rational value of a tree of constants; `None` when the tree holds a
/// grid value or a name, or takes the reciprocal of zero.
pub open spec fn value(t: Term) -> Option<Frac>
    decreases t,
{
    match t {
        Term::Const(c) => Some(c.frac()),
        Term::Sum(s) => value_sum(s),
        Term::Prod(s) => value_prod(s),
        Term::Neg(e) => match value(*e) {
            Some(v) => Some((-v.0, v.1)),
            None => None,
        },
        Term::Recip(e) => match value(*e) {
            Some(v) => if v.0 != 0 {
                Some((v.1, v.0))
            } else {
                None
            },
            None => None,
        },
        _ => None,
    }
}

pub open spec fn value_sum(s: Seq<Term>) -> Option<Frac>
    decreases s,
{
    if s.len() == 0 {
        Some((0, 1))
    } else {
        match (value_sum(s.drop_last()), value(s.last())) {
            (Some(x), Some(y)) => Some(frac_add(x, y)),
            _ => None,
        }
    }
}

pub open spec fn value_prod(s: Seq<Term>) -> Option<Frac>
    decreases s,
{
    if s.len() == 0 {
        Some((1, 1))
    } else {
        match (value_prod(s.drop_last()), value(s.last())) {
            (Some(x), Some(y)) => Some(frac_mul(x, y)),
            _ => None,
        }
    }
}

/// For a residual `a·u + b` with `a` a non-zero constant, `b` a constant
/// and `u` a grid value, what `find_root_linear` gives has a value, so it
/// holds no grid value, and that value is `-b/a`.
pub proof fn lemma_linear_root_value(a: Rational, b: Rational, i: isize, j: isize)
    requires
        a.num != 0,
        a.den > 0,
        b.den > 0,
    ensures
        ({
            let u = Term::At(i, j);
            let residual = Term::Sum(seq![Term::Prod(seq![Term::Const(a), u]), Term::Const(b)]);
            value(linear_root(residual, u)) matches Some(v) && frac_eq(
                v,
                (-(b.num * a.den), b.den * a.num),
            )
        }),
{
    lemma_linear_root_affine(a, b, i, j);
    let ca = Term::Const(a);
    let cb = Term::Const(b);
    let bs = Term::Sum(seq![cb]);
    let ra = Term::Recip(Box::new(ca));
    let (a0, a1, b0, b1) = (a.num as int, a.den as int, b.num as int, b.den as int);
    let target = (-(b0 * a1), b1 * a0);
    lemma_single(cb);
    lemma_single(ca);
    let bt = simplify(bs);
    let e = Seq::<Term>::empty();
    if is_zero(cb) {
        assert(drop_zeros(seq![cb]) == e);
        assert(flatten_sums(e) == e);
        assert(bt == Term::Sum(e));
        assert(value_sum(e) == Some((0int, 1int)));
    } else {
        assert(bt == cb);
    }
    let q = simplify(ra);
    assert(simplify(ca) == ca);
    assert(q == if is_one(ca) {
        one()
    } else {
        ra
    });
    lemma_two(bs, ra);
    lemma_two(bt, q);
    lemma_single(bt);
    lemma_single(q);
    let items = drop_ones(seq![bt, q]);
    let p = simplify(Term::Prod(seq![bs, ra]));
    assert(value(ca) == Some((a0, a1)));
    assert(value(ra) == Some((a1, a0)));
    assert(value(one()) == Some((1int, 1int)));
    if is_one(q) {
        assert(items == drop_ones(seq![bt]));
        if is_one(bt) {
            assert(p == one());
            assert(value(Term::Neg(Box::new(p))) == Some((-1int, 1int)));
            assert(b0 == b1 && a0 == a1);
            assert(frac_eq((-1int, 1int), target)) by (nonlinear_arith)
                requires
                    b0 == b1,
                    a0 == a1,
                    target == (-(b0 * a1), b1 * a0),
            ;
        } else {
            assert(items == seq![bt]);
            assert(p == bt);
            if is_zero(cb) {
                assert(b0 == 0);
                assert(value(Term::Neg(Box::new(p))) == Some((0int, 1int)));
                assert(frac_eq((0int, 1int), target)) by (nonlinear_arith)
                    requires
                        b0 == 0,
                        target == (-(b0 * a1), b1 * a0),
                ;
            } else {
                assert(a0 == a1);
                assert(value(Term::Neg(Box::new(p))) == Some((-b0, b1)));
                assert(frac_eq((-b0, b1), target)) by (nonlinear_arith)
                    requires
                        a0 == a1,
                        target == (-(b0 * a1), b1 * a0),
                ;
            }
        }
    } else {
        assert(q == ra);
        if is_one(bt) {
            assert(drop_ones(seq![bt]) == e);
            assert(e.push(q) =~= seq![q]);
            assert(items == seq![q]);
            assert(p == ra);
            assert(value(Term::Neg(Box::new(p))) == Some((-a1, a0)));
            assert(b0 == b1);
            assert(frac_eq((-a1, a0), target)) by (nonlinear_arith)
                requires
                    b0 == b1,
                    target == (-(b0 * a1), b1 * a0),
            ;
        } else {
            assert(items =~= seq![bt, ra]);
            let its = seq![bt, ra];
            assert(!has_zero(its)) by {
                assert forall|k: int| 0 <= k < 2 implies !is_zero(#[trigger] its[k]) by {}
            }
            assert(p == Term::Prod(its));
            lemma_pair(bt, ra);
            let vb = if is_zero(cb) {
                (0int, 1int)
            } else {
                (b0, b1)
            };
            assert(value(bt) == Some(vb));
            assert(value_prod(e) == Some((1int, 1int)));
            assert(value_prod(seq![bt]) == Some(frac_mul((1, 1), vb)));
            assert(value_prod(its) == Some(frac_mul(frac_mul((1, 1), vb), (a1, a0))));
            assert(value(p) == value_prod(its));
            let pv = frac_mul(frac_mul((1, 1), vb), (a1, a0));
            assert(value(p) == Some(pv));
            assert(value(Term::Neg(Box::new(p))) == Some((-pv.0, pv.1)));
            assert(pv == (1 * vb.0 * a1, 1 * vb.1 * a0));
            assert(frac_eq((-(1 * vb.0 * a1), 1 * vb.1 * a0), target)) by (nonlinear_arith)
                requires
                    vb.0 == 0 || vb == (b0, b1),
                    vb.0 == 0 ==> b0 == 0,
                    target == (-(b0 * a1), b1 * a0),
            ;
        }
    }
    lemma_simplify_idempotent(Term::Prod(seq![bs, ra]));
    assert(!is_zero(p));
    assert(simplify(Term::Neg(Box::new(Term::Prod(seq![bs, ra])))) == Term::Neg(Box::new(p)));
}

} // verus!
