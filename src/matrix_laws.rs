use crate::matrix::{delta, SquareMat};
use crate::rational::{
    frac_add, frac_eq, frac_mul, lemma_frac_add_cong, lemma_frac_eq_trans, lemma_frac_mul_cong,
    lemma_mul4, Frac,
};
use vstd::prelude::*;

verus! {

/// A matrix of fractions, entry `(row, col)`.
pub type FracMat = spec_fn(int, int) -> Frac;

/// `f(0) + ... + f(len - 1)`.
pub open spec fn sum(f: spec_fn(int) -> Frac, len: int) -> Frac
    decreases len,
{
    if len <= 0 {
        (0, 1)
    } else {
        frac_add(sum(f, len - 1), f(len - 1))
    }
}

/// The product of two `n × n` fraction matrices.
pub open spec fn fmul(a: FracMat, b: FracMat, n: int) -> FracMat {
    |i: int, k: int| sum(|j: int| frac_mul(a(i, j), b(j, k)), n)
}

pub open spec fn entries(m: SquareMat) -> FracMat {
    |i: int, k: int| m.entry(i, k)
}

pub open spec fn identity() -> FracMat {
    |i: int, k: int| delta(i, k)
}

/// The two matrices have entries of equal value.
pub open spec fn fequiv(a: FracMat, b: FracMat, n: int) -> bool {
    forall|i: int, k: int| 0 <= i < n && 0 <= k < n ==> frac_eq(#[trigger] a(i, k), b(i, k))
}

/// Every entry has a positive denominator.
pub open spec fn fpos(a: FracMat, n: int) -> bool {
    forall|i: int, k: int| 0 <= i < n && 0 <= k < n ==> (#[trigger] a(i, k)).1 > 0
}

// ---------------------------------------------------------------------------
// Fractions
proof fn lemma_add_assoc(a: Frac, b: Frac, c: Frac)
    ensures
        frac_add(frac_add(a, b), c) == frac_add(a, frac_add(b, c)),
{
    let (a0, a1, b0, b1, c0, c1) = (a.0, a.1, b.0, b.1, c.0, c.1);
    assert((a0 * b1 + b0 * a1) * c1 == (a0 * b1) * c1 + (b0 * a1) * c1) by (nonlinear_arith);
    assert((b0 * c1 + c0 * b1) * a1 == (b0 * c1) * a1 + (c0 * b1) * a1) by (nonlinear_arith);
    assert((a0 * b1) * c1 == a0 * (b1 * c1)) by (nonlinear_arith);
    assert((b0 * a1) * c1 == (b0 * c1) * a1) by (nonlinear_arith);
    assert(c0 * (a1 * b1) == (c0 * b1) * a1) by (nonlinear_arith);
    assert(a1 * b1 * c1 == a1 * (b1 * c1)) by (nonlinear_arith);
}

proof fn lemma_add_comm(a: Frac, b: Frac)
    ensures
        frac_add(a, b) == frac_add(b, a),
{
    assert(a.1 * b.1 == b.1 * a.1) by (nonlinear_arith);
}

proof fn lemma_mul_assoc(a: Frac, b: Frac, c: Frac)
    ensures
        frac_mul(frac_mul(a, b), c) == frac_mul(a, frac_mul(b, c)),
{
    assert(a.0 * b.0 * c.0 == a.0 * (b.0 * c.0)) by (nonlinear_arith);
    assert(a.1 * b.1 * c.1 == a.1 * (b.1 * c.1)) by (nonlinear_arith);
}

proof fn lemma_mul_comm(a: Frac, b: Frac)
    ensures
        frac_mul(a, b) == frac_mul(b, a),
{
    assert(a.0 * b.0 == b.0 * a.0) by (nonlinear_arith);
    assert(a.1 * b.1 == b.1 * a.1) by (nonlinear_arith);
}

proof fn lemma_pos(a: Frac, b: Frac)
    requires
        a.1 > 0,
        b.1 > 0,
    ensures
        frac_add(a, b).1 > 0,
        frac_mul(a, b).1 > 0,
{
    assert(a.1 * b.1 > 0) by (nonlinear_arith)
        requires
            a.1 > 0,
            b.1 > 0,
    ;
}

/// `c · (a + b)` and `c·a + c·b` have the same value.
proof fn lemma_distrib(c: Frac, a: Frac, b: Frac)
    ensures
        frac_eq(frac_mul(c, frac_add(a, b)), frac_add(frac_mul(c, a), frac_mul(c, b))),
{
    let (a0, a1, b0, b1, c0, c1) = (a.0, a.1, b.0, b.1, c.0, c.1);
    let s = a0 * b1 + b0 * a1;
    let q = c1 * (a1 * b1);
    assert((c1 * a1) * (c1 * b1) == c1 * q) by (nonlinear_arith)
        requires
            q == c1 * (a1 * b1),
    ;
    assert((c0 * s) * (c1 * q) == ((c0 * c1) * s) * q) by (nonlinear_arith);
    lemma_mul4(c0, a0, c1, b1);
    lemma_mul4(c0, b0, c1, a1);
    assert((c0 * c1) * (a0 * b1) + (c0 * c1) * (b0 * a1) == (c0 * c1) * s) by (nonlinear_arith)
        requires
            s == a0 * b1 + b0 * a1,
    ;
}

// ---------------------------------------------------------------------------
// Sums
proof fn lemma_sum_pos(f: spec_fn(int) -> Frac, n: int)
    requires
        forall|j: int| 0 <= j < n ==> (#[trigger] f(j)).1 > 0,
    ensures
        sum(f, n).1 > 0,
    decreases n,
{
    if n > 0 {
        lemma_sum_pos(f, n - 1);
        lemma_pos(sum(f, n - 1), f(n - 1));
    }
}

proof fn lemma_sum_ext(f: spec_fn(int) -> Frac, g: spec_fn(int) -> Frac, n: int)
    requires
        forall|j: int| 0 <= j < n ==> #[trigger] f(j) == g(j),
    ensures
        sum(f, n) == sum(g, n),
    decreases n,
{
    if n > 0 {
        lemma_sum_ext(f, g, n - 1);
    }
}

proof fn lemma_sum_cong(f: spec_fn(int) -> Frac, g: spec_fn(int) -> Frac, n: int)
    requires
        forall|j: int| 0 <= j < n ==> frac_eq(#[trigger] f(j), g(j)),
    ensures
        frac_eq(sum(f, n), sum(g, n)),
    decreases n,
{
    if n > 0 {
        lemma_sum_cong(f, g, n - 1);
        lemma_frac_add_cong(sum(f, n - 1), sum(g, n - 1), f(n - 1), g(n - 1));
    }
}

proof fn lemma_sum_zero(n: int)
    ensures
        sum(|j: int| (0int, 1int), n) == (0int, 1int),
    decreases n,
{
    if n > 0 {
        lemma_sum_zero(n - 1);
    }
}

/// `c · Σ f` and `Σ c·f` have the same value.
proof fn lemma_sum_scale(c: Frac, f: spec_fn(int) -> Frac, n: int)
    requires
        c.1 > 0,
        forall|j: int| 0 <= j < n ==> (#[trigger] f(j)).1 > 0,
    ensures
        frac_eq(frac_mul(c, sum(f, n)), sum(|j: int| frac_mul(c, f(j)), n)),
    decreases n,
{
    let g = |j: int| frac_mul(c, f(j));
    if n > 0 {
        lemma_sum_scale(c, f, n - 1);
        let s = sum(f, n - 1);
        lemma_distrib(c, s, f(n - 1));
        lemma_frac_add_cong(frac_mul(c, s), sum(g, n - 1), frac_mul(c, f(n - 1)), g(n - 1));
        lemma_sum_pos(f, n - 1);
        lemma_pos(c, s);
        lemma_pos(c, f(n - 1));
        lemma_pos(frac_mul(c, s), frac_mul(c, f(n - 1)));
        lemma_frac_eq_trans(
            frac_mul(c, sum(f, n)),
            frac_add(frac_mul(c, s), frac_mul(c, f(n - 1))),
            sum(g, n),
        );
    } else {
        assert(frac_eq(frac_mul(c, (0, 1)), (0int, 1int)));
    }
}

/// `(Σ f) · c` and `Σ f·c` have the same value.
proof fn lemma_sum_scale_right(c: Frac, f: spec_fn(int) -> Frac, n: int)
    requires
        c.1 > 0,
        forall|j: int| 0 <= j < n ==> (#[trigger] f(j)).1 > 0,
    ensures
        frac_eq(frac_mul(sum(f, n), c), sum(|j: int| frac_mul(f(j), c), n)),
{
    lemma_sum_scale(c, f, n);
    lemma_mul_comm(sum(f, n), c);
    let g1 = |j: int| frac_mul(c, f(j));
    let g2 = |j: int| frac_mul(f(j), c);
    assert forall|j: int| 0 <= j < n implies #[trigger] g1(j) == g2(j) by {
        lemma_mul_comm(c, f(j));
    }
    lemma_sum_ext(g1, g2, n);
}

proof fn lemma_add4(a: Frac, b: Frac, c: Frac, d: Frac)
    ensures
        frac_add(frac_add(a, b), frac_add(c, d)) == frac_add(frac_add(a, c), frac_add(b, d)),
{
    lemma_add_assoc(a, b, frac_add(c, d));
    lemma_add_assoc(b, c, d);
    lemma_add_comm(b, c);
    lemma_add_assoc(c, b, d);
    lemma_add_assoc(a, c, frac_add(b, d));
}

proof fn lemma_sum_add(f: spec_fn(int) -> Frac, g: spec_fn(int) -> Frac, n: int)
    ensures
        sum(|j: int| frac_add(f(j), g(j)), n) == frac_add(sum(f, n), sum(g, n)),
    decreases n,
{
    if n > 0 {
        lemma_sum_add(f, g, n - 1);
        lemma_add4(sum(f, n - 1), sum(g, n - 1), f(n - 1), g(n - 1));
    }
}

/// A double sum may be taken in either order.
proof fn lemma_sum_swap(m: spec_fn(int, int) -> Frac, rows: int, cols: int)
    ensures
        sum(|i: int| sum(|j: int| m(i, j), cols), rows) == sum(
            |j: int| sum(|i: int| m(i, j), rows),
            cols,
        ),
    decreases rows,
{
    let outer = |j: int| sum(|i: int| m(i, j), rows);
    if rows <= 0 {
        let zero = |j: int| (0int, 1int);
        assert forall|j: int| 0 <= j < cols implies #[trigger] outer(j) == zero(j) by {}
        lemma_sum_ext(outer, zero, cols);
        lemma_sum_zero(cols);
    } else {
        lemma_sum_swap(m, rows - 1, cols);
        let f = |j: int| sum(|i: int| m(i, j), rows - 1);
        let g = |j: int| m(rows - 1, j);
        let fg = |j: int| frac_add(f(j), g(j));
        assert forall|j: int| 0 <= j < cols implies #[trigger] outer(j) == fg(j) by {}
        lemma_sum_ext(outer, fg, cols);
        lemma_sum_add(f, g, cols);
    }
}

// ---------------------------------------------------------------------------
// Products of fraction matrices
proof fn lemma_fmul_pos(a: FracMat, b: FracMat, n: int)
    requires
        fpos(a, n),
        fpos(b, n),
    ensures
        fpos(fmul(a, b, n), n),
{
    assert forall|i: int, k: int| 0 <= i < n && 0 <= k < n implies (#[trigger] fmul(a, b, n)(
        i,
        k,
    )).1 > 0 by {
        let f = |j: int| frac_mul(a(i, j), b(j, k));
        assert forall|j: int| 0 <= j < n implies (#[trigger] f(j)).1 > 0 by {
            lemma_pos(a(i, j), b(j, k));
        }
        lemma_sum_pos(f, n);
    }
}

proof fn lemma_fmul_cong(a: FracMat, aa: FracMat, b: FracMat, bb: FracMat, n: int)
    requires
        fequiv(a, aa, n),
        fequiv(b, bb, n),
    ensures
        fequiv(fmul(a, b, n), fmul(aa, bb, n), n),
{
    assert forall|i: int, k: int| 0 <= i < n && 0 <= k < n implies frac_eq(
        #[trigger] fmul(a, b, n)(i, k),
        fmul(aa, bb, n)(i, k),
    ) by {
        let f = |j: int| frac_mul(a(i, j), b(j, k));
        let g = |j: int| frac_mul(aa(i, j), bb(j, k));
        assert forall|j: int| 0 <= j < n implies frac_eq(#[trigger] f(j), g(j)) by {
            lemma_frac_mul_cong(a(i, j), aa(i, j), b(j, k), bb(j, k));
        }
        lemma_sum_cong(f, g, n);
    }
}

proof fn lemma_fmul_assoc(a: FracMat, b: FracMat, c: FracMat, n: int)
    requires
        fpos(a, n),
        fpos(b, n),
        fpos(c, n),
    ensures
        fequiv(fmul(fmul(a, b, n), c, n), fmul(a, fmul(b, c, n), n), n),
{
    assert forall|i: int, l: int| 0 <= i < n && 0 <= l < n implies frac_eq(
        #[trigger] fmul(fmul(a, b, n), c, n)(i, l),
        fmul(a, fmul(b, c, n), n)(i, l),
    ) by {
        let t = |j: int, k: int| frac_mul(frac_mul(a(i, j), b(j, k)), c(k, l));
        let tk = |k: int, j: int| t(j, k);
        // left side: Σ_k (Σ_j a_ij b_jk) c_kl  ~  Σ_k Σ_j (a_ij b_jk) c_kl
        let lhs_terms = |k: int| frac_mul(fmul(a, b, n)(i, k), c(k, l));
        let lhs_split = |k: int| sum(|j: int| tk(k, j), n);
        assert forall|k: int| 0 <= k < n implies frac_eq(#[trigger] lhs_terms(k), lhs_split(k)) by {
            let f = |j: int| frac_mul(a(i, j), b(j, k));
            assert forall|j: int| 0 <= j < n implies (#[trigger] f(j)).1 > 0 by {
                lemma_pos(a(i, j), b(j, k));
            }
            lemma_sum_scale_right(c(k, l), f, n);
            let g1 = |j: int| frac_mul(f(j), c(k, l));
            let g2 = |j: int| tk(k, j);
            assert forall|j: int| 0 <= j < n implies #[trigger] g1(j) == g2(j) by {}
            lemma_sum_ext(g1, g2, n);
        }
        lemma_sum_cong(lhs_terms, lhs_split, n);
        // swap the order of summation
        lemma_sum_swap(tk, n, n);
        let swapped = |j: int| sum(|k: int| tk(k, j), n);
        // right side: Σ_j a_ij (Σ_k b_jk c_kl)  ~  Σ_j Σ_k a_ij (b_jk c_kl)
        let rhs_terms = |j: int| frac_mul(a(i, j), fmul(b, c, n)(j, l));
        assert forall|j: int| 0 <= j < n implies frac_eq(#[trigger] swapped(j), rhs_terms(j)) by {
            let f = |k: int| frac_mul(b(j, k), c(k, l));
            assert forall|k: int| 0 <= k < n implies (#[trigger] f(k)).1 > 0 by {
                lemma_pos(b(j, k), c(k, l));
            }
            lemma_sum_scale(a(i, j), f, n);
            let g1 = |k: int| tk(k, j);
            let g2 = |k: int| frac_mul(a(i, j), f(k));
            assert forall|k: int| 0 <= k < n implies #[trigger] g1(k) == g2(k) by {
                lemma_mul_assoc(a(i, j), b(j, k), c(k, l));
            }
            lemma_sum_ext(g1, g2, n);
            let h = |k: int| frac_mul(b(j, k), c(k, l));
            lemma_sum_ext(h, f, n);
        }
        lemma_sum_cong(swapped, rhs_terms, n);
        // the middle sum has a positive denominator
        assert forall|j: int| 0 <= j < n implies (#[trigger] swapped(j)).1 > 0 by {
            let g = |k: int| tk(k, j);
            assert forall|k: int| 0 <= k < n implies (#[trigger] g(k)).1 > 0 by {
                lemma_pos(a(i, j), b(j, k));
                lemma_pos(frac_mul(a(i, j), b(j, k)), c(k, l));
            }
            lemma_sum_pos(g, n);
        }
        lemma_sum_pos(swapped, n);
        lemma_frac_eq_trans(fmul(fmul(a, b, n), c, n)(i, l), sum(swapped, n), fmul(a, fmul(b, c, n), n)(i, l));
    }
}

/// `Σ_{j < len} a(i, j) δ(j, k)` has the value of `a(i, k)` when `k < len`,
/// and of zero otherwise.
proof fn lemma_ident_right_partial(a: FracMat, i: int, k: int, len: int)
    requires
        forall|j: int| 0 <= j < len ==> (#[trigger] a(i, j)).1 > 0,
        a(i, k).1 > 0,
    ensures
        frac_eq(
            sum(|j: int| frac_mul(a(i, j), delta(j, k)), len),
            if 0 <= k < len {
                a(i, k)
            } else {
                (0, 1)
            },
        ),
    decreases len,
{
    let f = |j: int| frac_mul(a(i, j), delta(j, k));
    if len > 0 {
        lemma_ident_right_partial(a, i, k, len - 1);
        let prev = sum(f, len - 1);
        let target_prev = if 0 <= k < len - 1 {
            a(i, k)
        } else {
            (0int, 1int)
        };
        let x = a(i, len - 1);
        lemma_frac_add_cong(prev, target_prev, f(len - 1), f(len - 1));
        if len - 1 == k {
            assert(f(len - 1) == (x.0 * 1, x.1 * 1));
            assert(frac_add(target_prev, f(len - 1)) == x);
        } else {
            assert(f(len - 1) == (x.0 * 0, x.1 * 1));
            let tp = target_prev;
            assert(frac_eq(frac_add(tp, (0, x.1)), tp)) by (nonlinear_arith);
            assert forall|j: int| 0 <= j < len - 1 implies (#[trigger] f(j)).1 > 0 by {
                lemma_pos(a(i, j), delta(j, k));
            }
            lemma_sum_pos(f, len - 1);
            lemma_pos(tp, (0, x.1));
            lemma_frac_eq_trans(sum(f, len), frac_add(tp, (0, x.1)), tp);
        }
    }
}

proof fn lemma_ident_left_partial(a: FracMat, i: int, k: int, len: int)
    requires
        forall|j: int| 0 <= j < len ==> (#[trigger] a(j, k)).1 > 0,
        a(i, k).1 > 0,
    ensures
        frac_eq(
            sum(|j: int| frac_mul(delta(i, j), a(j, k)), len),
            if 0 <= i < len {
                a(i, k)
            } else {
                (0, 1)
            },
        ),
    decreases len,
{
    let f = |j: int| frac_mul(delta(i, j), a(j, k));
    if len > 0 {
        lemma_ident_left_partial(a, i, k, len - 1);
        let prev = sum(f, len - 1);
        let target_prev = if 0 <= i < len - 1 {
            a(i, k)
        } else {
            (0int, 1int)
        };
        let x = a(len - 1, k);
        lemma_frac_add_cong(prev, target_prev, f(len - 1), f(len - 1));
        if len - 1 == i {
            assert(f(len - 1) == (1 * x.0, 1 * x.1));
            assert(frac_add(target_prev, f(len - 1)) == x);
        } else {
            assert(f(len - 1) == (0 * x.0, 1 * x.1));
            let tp = target_prev;
            assert(frac_eq(frac_add(tp, (0, x.1)), tp)) by (nonlinear_arith);
            assert forall|j: int| 0 <= j < len - 1 implies (#[trigger] f(j)).1 > 0 by {
                lemma_pos(delta(i, j), a(j, k));
            }
            lemma_sum_pos(f, len - 1);
            lemma_pos(tp, (0, x.1));
            lemma_frac_eq_trans(sum(f, len), frac_add(tp, (0, x.1)), tp);
        }
    }
}

proof fn lemma_fmul_identity(a: FracMat, n: int)
    requires
        fpos(a, n),
    ensures
        fequiv(fmul(a, identity(), n), a, n),
        fequiv(fmul(identity(), a, n), a, n),
{
    assert forall|i: int, k: int| 0 <= i < n && 0 <= k < n implies frac_eq(
        #[trigger] fmul(a, identity(), n)(i, k),
        a(i, k),
    ) by {
        lemma_ident_right_partial(a, i, k, n);
        lemma_sum_ext(
            |j: int| frac_mul(a(i, j), identity()(j, k)),
            |j: int| frac_mul(a(i, j), delta(j, k)),
            n,
        );
    }
    assert forall|i: int, k: int| 0 <= i < n && 0 <= k < n implies frac_eq(
        #[trigger] fmul(identity(), a, n)(i, k),
        a(i, k),
    ) by {
        lemma_ident_left_partial(a, i, k, n);
        lemma_sum_ext(
            |j: int| frac_mul(identity()(i, j), a(j, k)),
            |j: int| frac_mul(delta(i, j), a(j, k)),
            n,
        );
    }
}

// ---------------------------------------------------------------------------
// Square matrices
proof fn lemma_dot_sum(a: SquareMat, b: SquareMat, i: int, k: int, len: int)
    ensures
        a.dot(&b, i, k, len) == sum(|j: int| frac_mul(a.entry(i, j), b.entry(j, k)), len),
    decreases len,
{
    if len > 0 {
        lemma_dot_sum(a, b, i, k, len - 1);
    }
}

proof fn lemma_product_entries(a: SquareMat, b: SquareMat)
    ensures
        forall|i: int, k: int| #[trigger]
            a.product_entry(&b, i, k) == fmul(entries(a), entries(b), a.size as int)(i, k),
{
    assert forall|i: int, k: int| #[trigger]
        a.product_entry(&b, i, k) == fmul(entries(a), entries(b), a.size as int)(i, k) by {
        lemma_dot_sum(a, b, i, k, a.size as int);
        lemma_sum_ext(
            |j: int| frac_mul(a.entry(i, j), b.entry(j, k)),
            |j: int| frac_mul(entries(a)(i, j), entries(b)(j, k)),
            a.size as int,
        );
    }
}

proof fn lemma_entries_pos(m: SquareMat)
    requires
        m.wf(),
    ensures
        fpos(entries(m), m.size as int),
{
    assert forall|i: int, k: int| 0 <= i < m.size && 0 <= k < m.size implies (#[trigger] entries(
        m,
    )(i, k)).1 > 0 by {
        assert(0 <= i + k * m.size < m.size * m.size) by (nonlinear_arith)
            requires
                0 <= i < m.size,
                0 <= k < m.size,
        ;
        assert(m.vals[i + k * m.size].wf());
    }
}

proof fn lemma_fequiv_trans(a: FracMat, b: FracMat, c: FracMat, n: int)
    requires
        fpos(b, n),
        fequiv(a, b, n),
        fequiv(b, c, n),
    ensures
        fequiv(a, c, n),
{
    assert forall|i: int, k: int| 0 <= i < n && 0 <= k < n implies frac_eq(
        #[trigger] a(i, k),
        c(i, k),
    ) by {
        lemma_frac_eq_trans(a(i, k), b(i, k), c(i, k));
    }
}

proof fn lemma_fequiv_symm(a: FracMat, b: FracMat, n: int)
    requires
        fequiv(a, b, n),
    ensures
        fequiv(b, a, n),
{
}

/// Inverting twice gives back the matrix: when `b` is the inverse of `a`
/// and `c` the inverse of `b`, each entry of `c` has the value of the same
/// entry of `a`.
pub proof fn lemma_inverse_of_inverse(a: SquareMat, b: SquareMat, c: SquareMat)
    requires
        a.wf(),
        b.wf(),
        c.wf(),
        a.is_inverse(&b),
        b.is_inverse(&c),
    ensures
        c.size == a.size,
        forall|i: int, k: int|
            0 <= i < a.size && 0 <= k < a.size ==> frac_eq(#[trigger] c.entry(i, k), a.entry(i, k)),
{
    let n = a.size as int;
    let (ea, eb, ec) = (entries(a), entries(b), entries(c));
    let id = identity();
    lemma_entries_pos(a);
    lemma_entries_pos(b);
    lemma_entries_pos(c);
    lemma_product_entries(b, a);
    lemma_product_entries(c, b);
    // b·a and c·b are the identity
    assert forall|i: int, k: int| 0 <= i < n && 0 <= k < n implies frac_eq(
        #[trigger] fmul(eb, ea, n)(i, k),
        id(i, k),
    ) by {
        assert(b.product_entry(&a, i, k) == fmul(eb, ea, n)(i, k));
        assert(frac_eq(b.product_entry(&a, i, k), delta(i, k)));
    }
    assert forall|i: int, k: int| 0 <= i < n && 0 <= k < n implies frac_eq(
        #[trigger] fmul(ec, eb, n)(i, k),
        id(i, k),
    ) by {
        assert(c.product_entry(&b, i, k) == fmul(ec, eb, n)(i, k));
        assert(frac_eq(c.product_entry(&b, i, k), delta(i, k)));
    }
    assert(fpos(id, n));
    // c ~ c·I ~ c·(b·a) ~ (c·b)·a ~ I·a ~ a
    lemma_fmul_identity(ec, n);
    lemma_fmul_identity(ea, n);
    lemma_fmul_cong(ec, ec, id, fmul(eb, ea, n), n);
    lemma_fmul_assoc(ec, eb, ea, n);
    lemma_fmul_cong(fmul(ec, eb, n), id, ea, ea, n);
    lemma_fmul_pos(ec, id, n);
    lemma_fmul_pos(eb, ea, n);
    lemma_fmul_pos(ec, fmul(eb, ea, n), n);
    lemma_fmul_pos(ec, eb, n);
    lemma_fmul_pos(fmul(ec, eb, n), ea, n);
    lemma_fmul_pos(id, ea, n);
    lemma_fequiv_symm(fmul(ec, id, n), ec, n);
    lemma_fequiv_symm(fmul(ec, id, n), fmul(ec, fmul(eb, ea, n), n), n);
    lemma_fequiv_symm(fmul(fmul(ec, eb, n), ea, n), fmul(ec, fmul(eb, ea, n), n), n);
    lemma_fequiv_trans(ec, fmul(ec, id, n), fmul(ec, fmul(eb, ea, n), n), n);
    lemma_fequiv_trans(ec, fmul(ec, fmul(eb, ea, n), n), fmul(fmul(ec, eb, n), ea, n), n);
    lemma_fequiv_trans(ec, fmul(fmul(ec, eb, n), ea, n), fmul(id, ea, n), n);
    lemma_fequiv_trans(ec, fmul(id, ea, n), ea, n);
    assert forall|i: int, k: int| 0 <= i < a.size && 0 <= k < a.size implies frac_eq(
        #[trigger] c.entry(i, k),
        a.entry(i, k),
    ) by {
        assert(frac_eq(ec(i, k), ea(i, k)));
    }
}

} // verus!
