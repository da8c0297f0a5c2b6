use crate::rational::{
    frac_add, frac_div, frac_eq, frac_mul, frac_sub, lemma_frac_add_cong, lemma_frac_eq_trans, rational_of,
    Frac, Rational,
};
use vstd::prelude::*;

verus! {

/// A dense `size × size` matrix of exact rationals, stored column by column.
#[derive(Debug, PartialEq)]
pub struct SquareMat {
    pub size: usize,
    /// Entry `(row, col)` is at `row + col * size`.
    pub vals: Vec<Rational>,
}

pub open spec fn index_of(size: int, row: int, col: int) -> int {
    row + col * size
}

/// The identity matrix's entry at `(i, k)`.
pub open spec fn delta(i: int, k: int) -> Frac {
    if i == k {
        (1, 1)
    } else {
        (0, 1)
    }
}

/// `x · f`, when it fits.
pub open spec fn scaled(x: Rational, f: Rational) -> Option<Rational> {
    rational_of(frac_mul(x.frac(), f.frac()))
}

/// `t - f · s`, when each step fits.
pub open spec fn sub_scaled(t: Rational, s: Rational, f: Rational) -> Option<Rational> {
    match rational_of(frac_mul(f.frac(), s.frac())) {
        Some(m) => rational_of(frac_sub(t.frac(), m.frac())),
        None => None,
    }
}

impl SquareMat {
    pub open spec fn wf(&self) -> bool {
        &&& self.vals.len() == self.size * self.size
        &&& forall|i: int| 0 <= i < self.vals.len() ==> (#[trigger] self.vals[i]).wf()
    }

    pub open spec fn at(&self, row: int, col: int) -> Rational {
        self.vals@[index_of(self.size as int, row, col)]
    }

    pub open spec fn entry(&self, row: int, col: int) -> Frac {
        self.at(row, col).frac()
    }

    /// The first `len` terms of the dot product of row `i` of `self` and
    /// column `k` of `b`.
    pub open spec fn dot(&self, b: &SquareMat, i: int, k: int, len: int) -> Frac
        decreases len,
    {
        if len <= 0 {
            (0, 1)
        } else {
            frac_add(self.dot(b, i, k, len - 1), frac_mul(self.entry(i, len - 1), b.entry(len - 1, k)))
        }
    }

    /// Entry `(i, k)` of the product `self · b`.
    pub open spec fn product_entry(&self, b: &SquareMat, i: int, k: int) -> Frac {
        self.dot(b, i, k, self.size as int)
    }

    /// `self · b` is the identity.
    pub open spec fn times_is_identity(&self, b: &SquareMat) -> bool {
        forall|i: int, k: int|
            0 <= i < self.size && 0 <= k < self.size ==> frac_eq(
                #[trigger] self.product_entry(b, i, k),
                delta(i, k),
            )
    }

    /// `b` is the two-sided inverse of `self`.
    pub open spec fn is_inverse(&self, b: &SquareMat) -> bool {
        &&& b.size == self.size
        &&& self.times_is_identity(b)
        &&& b.times_is_identity(self)
    }
}

/// A matrix as a function from `(row, col)` to its entry, zero outside
/// `0 <= row, col < n`.
pub type RatMat = spec_fn(int, int) -> Rational;

pub open spec fn zero_rational() -> Rational {
    Rational { num: 0, den: 1 }
}

pub open spec fn in_square(n: int, r: int, c: int) -> bool {
    0 <= r < n && 0 <= c < n
}

/// The entries of `m`.
pub open spec fn mat_of(m: SquareMat) -> RatMat {
    |r: int, c: int|
        if in_square(m.size as int, r, c) {
            m.at(r, c)
        } else {
            zero_rational()
        }
}

pub open spec fn ident_mat(n: int) -> RatMat {
    |r: int, c: int|
        if in_square(n, r, c) && r == c {
            Rational { num: 1, den: 1 }
        } else {
            zero_rational()
        }
}

/// Row `row` of `m` can be multiplied by `f` without overflow.
pub open spec fn scale_ok(m: RatMat, n: int, row: int, f: Rational) -> bool {
    forall|c: int| 0 <= c < n ==> #[trigger] scaled(m(row, c), f) is Some
}

/// `m` with row `row` multiplied by `f`.
pub open spec fn scale_row(m: RatMat, n: int, row: int, f: Rational) -> RatMat {
    |r: int, c: int|
        if r == row && 0 <= c < n {
            scaled(m(r, c), f)->Some_0
        } else {
            m(r, c)
        }
}

/// `f` times row `s` of `m` can be subtracted from row `t` without
/// overflow.
pub open spec fn sub_ok(m: RatMat, n: int, t: int, s: int, f: Rational) -> bool {
    forall|c: int| 0 <= c < n ==> #[trigger] sub_scaled(m(t, c), m(s, c), f) is Some
}

/// `m` with `f` times row `s` subtracted from row `t`.
pub open spec fn sub_row(m: RatMat, n: int, t: int, s: int, f: Rational) -> RatMat {
    |r: int, c: int|
        if r == t && 0 <= c < n {
            sub_scaled(m(r, c), m(s, c), f)->Some_0
        } else {
            m(r, c)
        }
}

/// `1 / p`, when `p` is not zero and the result fits.
pub open spec fn pivot_factor(p: Rational) -> Option<Rational> {
    if p.num == 0 {
        None
    } else {
        rational_of(frac_div((1, 1), p.frac()))
    }
}

/// Clears column `i` of `w` in rows `j..n` other than `i`, by subtracting
/// multiples of row `i` from both `w` and `v`; `None` when a step overflows.
pub open spec fn eliminate_rows(w: RatMat, v: RatMat, n: int, i: int, j: int) -> Option<(RatMat, RatMat)>
    decreases n - j,
{
    if j >= n {
        Some((w, v))
    } else if j == i {
        eliminate_rows(w, v, n, i, j + 1)
    } else {
        let g = w(j, i);
        if sub_ok(v, n, j, i, g) && sub_ok(w, n, j, i, g) {
            eliminate_rows(sub_row(w, n, j, i, g), sub_row(v, n, j, i, g), n, i, j + 1)
        } else {
            None
        }
    }
}

/// Gauss-Jordan elimination without pivoting from column `i` on: each pivot
/// row of `w` is scaled to one and its column cleared elsewhere, with the
/// same row operations applied to `v`. `None` when a pivot is zero or a
/// step overflows.
pub open spec fn gauss_jordan(w: RatMat, v: RatMat, n: int, i: int) -> Option<(RatMat, RatMat)>
    decreases n - i,
{
    if i >= n {
        Some((w, v))
    } else {
        match pivot_factor(w(i, i)) {
            None => None,
            Some(f) => if scale_ok(v, n, i, f) && scale_ok(w, n, i, f) {
                match eliminate_rows(scale_row(w, n, i, f), scale_row(v, n, i, f), n, i, 0) {
                    Some(p) => gauss_jordan(p.0, p.1, n, i + 1),
                    None => None,
                }
            } else {
                None
            },
        }
    }
}

/// The exact running dot product of row `i` of `a` and column `k` of `b`
/// over the first `len` terms, as it is accumulated: each product and each
/// partial sum in lowest terms; `None` once one does not fit.
pub open spec fn dot_exact(a: RatMat, b: RatMat, i: int, k: int, len: int) -> Option<Rational>
    decreases len,
{
    if len <= 0 {
        Some(zero_rational())
    } else {
        match dot_exact(a, b, i, k, len - 1) {
            None => None,
            Some(acc) => match rational_of(frac_mul(a(i, len - 1).frac(), b(len - 1, k).frac())) {
                None => None,
                Some(p) => rational_of(frac_add(acc.frac(), p.frac())),
            },
        }
    }
}

/// Every entry of the product `a · b` can be computed without overflow.
pub open spec fn product_fits(a: RatMat, b: RatMat, n: int) -> bool {
    forall|i: int, k: int| in_square(n, i, k) ==> #[trigger] dot_exact(a, b, i, k, n) is Some
}

pub open spec fn product_exact(a: RatMat, b: RatMat, n: int) -> RatMat {
    |i: int, k: int|
        if in_square(n, i, k) {
            dot_exact(a, b, i, k, n)->Some_0
        } else {
            zero_rational()
        }
}

/// Every entry of `p` has the value of the identity's.
pub open spec fn is_identity_mat(p: RatMat, n: int) -> bool {
    forall|i: int, k: int| in_square(n, i, k) ==> frac_eq(#[trigger] p(i, k).frac(), delta(i, k))
}

/// `m · v` and `v · m` both compute, exactly, to the identity.
pub open spec fn certifies(m: RatMat, v: RatMat, n: int) -> bool {
    &&& product_fits(m, v, n)
    &&& is_identity_mat(product_exact(m, v, n), n)
    &&& product_fits(v, m, n)
    &&& is_identity_mat(product_exact(v, m, n), n)
}

/// What `SquareMat::invert` returns, on entries: the result of Gauss-Jordan
/// elimination on `m` and the identity, when it succeeds and checks out as
/// a two-sided inverse.
pub open spec fn invert_spec(m: RatMat, n: int) -> Option<RatMat> {
    match gauss_jordan(m, ident_mat(n), n, 0) {
        Some(p) => if certifies(m, p.1, n) {
            Some(p.1)
        } else {
            None
        },
        None => None,
    }
}

proof fn lemma_dot_exact_none(a: RatMat, b: RatMat, i: int, k: int, j: int, len: int)
    requires
        0 <= j <= len,
        dot_exact(a, b, i, k, j) is None,
    ensures
        dot_exact(a, b, i, k, len) is None,
    decreases len - j,
{
    if j < len {
        lemma_dot_exact_none(a, b, i, k, j + 1, len);
    }
}

proof fn lemma_in_range(n: int, row: int, col: int)
    requires
        0 <= row < n,
        0 <= col < n,
    ensures
        0 <= index_of(n, row, col) < n * n,
{
    assert(0 <= row + col * n < n * n) by (nonlinear_arith)
        requires
            0 <= row < n,
            0 <= col < n,
    ;
}

impl SquareMat {
    /// The matrix whose columns are `cols`.
    pub fn new(cols: Vec<Vec<Rational>>) -> (r: SquareMat)
        requires
            cols.len() * cols.len() <= usize::MAX,
            forall|c: int| 0 <= c < cols.len() ==> (#[trigger] cols[c]).len() == cols.len(),
        ensures
            r.size == cols.len(),
            r.vals.len() == r.size * r.size,
            forall|row: int, col: int|
                0 <= row < r.size && 0 <= col < r.size ==> #[trigger] r.at(row, col)
                    == cols[col]@[row],
            (forall|col: int, row: int|
                0 <= col < cols.len() && 0 <= row < cols.len() ==> (#[trigger] cols[col]@[row]).wf())
                ==> r.wf(),
    {
        let ghost all_wf = forall|col: int, row: int|
            0 <= col < cols.len() && 0 <= row < cols.len() ==> (#[trigger] cols[col]@[row]).wf();
        let n = cols.len();
        let mut vals: Vec<Rational> = Vec::new();
        let mut c: usize = 0;
        while c < n
            invariant
                n == cols.len(),
                n * n <= usize::MAX,
                c <= n,
                forall|k: int| 0 <= k < cols.len() ==> (#[trigger] cols[k]).len() == n,
                vals.len() == c * n,
                forall|row: int, col: int|
                    0 <= row < n && 0 <= col < c ==> #[trigger] vals@[index_of(n as int, row, col)]
                        == cols[col]@[row],
                all_wf == forall|col: int, row: int|
                    0 <= col < cols.len() && 0 <= row < cols.len() ==> (
                    #[trigger] cols[col]@[row]).wf(),
                all_wf ==> forall|x: int| 0 <= x < vals.len() ==> (#[trigger] vals@[x]).wf(),
            decreases n - c,
        {
            let mut j: usize = 0;
            while j < n
                invariant
                    n == cols.len(),
                    n * n <= usize::MAX,
                    c < n,
                    j <= n,
                    forall|k: int| 0 <= k < cols.len() ==> (#[trigger] cols[k]).len() == n,
                    vals.len() == c * n + j,
                    all_wf == forall|col: int, row: int|
                        0 <= col < cols.len() && 0 <= row < cols.len() ==> (
                        #[trigger] cols[col]@[row]).wf(),
                    all_wf ==> forall|x: int| 0 <= x < vals.len() ==> (#[trigger] vals@[x]).wf(),
                    forall|row: int, col: int|
                        0 <= row < n && 0 <= col < c ==> #[trigger] vals@[index_of(
                            n as int,
                            row,
                            col,
                        )] == cols[col]@[row],
                    forall|row: int|
                        0 <= row < j ==> #[trigger] vals@[index_of(n as int, row, c as int)]
                            == cols[c as int]@[row],
                decreases n - j,
            {
                proof {
                    assert(c * n + j < n * n) by (nonlinear_arith)
                        requires
                            c < n,
                            j < n,
                    ;
                }
                vals.push(cols[c][j]);
                proof {
                    assert forall|row: int, col: int|
                        0 <= row < n && 0 <= col < c implies #[trigger] vals@[index_of(
                            n as int,
                            row,
                            col,
                        )] == cols[col]@[row] by {
                        assert(index_of(n as int, row, col) < c * n) by (nonlinear_arith)
                            requires
                                0 <= row < n,
                                0 <= col < c,
                        ;
                    }
                    assert forall|row: int|
                        0 <= row < j + 1 implies #[trigger] vals@[index_of(n as int, row, c as int)]
                            == cols[c as int]@[row] by {
                        assert(index_of(n as int, row, c as int) == c * n + row) by (nonlinear_arith);
                    }
                }
                j = j + 1;
            }
            proof {
                assert((c + 1) * n == c * n + n) by (nonlinear_arith);
                assert forall|row: int, col: int|
                    0 <= row < n && 0 <= col < c + 1 implies #[trigger] vals@[index_of(
                        n as int,
                        row,
                        col,
                    )] == cols[col]@[row] by {
                    if col < c {
                    } else {
                        assert(col == c);
                    }
                }
            }
            c = c + 1;
        }
        SquareMat { size: n, vals }
    }

    /// The `size × size` identity matrix.
    pub fn ident(size: usize) -> (r: SquareMat)
        requires
            size * size <= usize::MAX,
        ensures
            r.wf(),
            r.size == size,
            forall|row: int, col: int|
                0 <= row < size && 0 <= col < size ==> #[trigger] r.at(row, col) == (if row
                    == col {
                    Rational { num: 1, den: 1 }
                } else {
                    Rational { num: 0, den: 1 }
                }),
            mat_of(r) == ident_mat(size as int),
    {
        let total = size * size;
        let mut vals: Vec<Rational> = Vec::new();
        let mut t: usize = 0;
        while t < total
            invariant
                total == size * size,
                t <= total,
                vals.len() == t,
                forall|x: int| 0 <= x < t ==> #[trigger] vals@[x] == (Rational { num: 0, den: 1 }),
            decreases total - t,
        {
            vals.push(Rational::zero());
            t = t + 1;
        }
        let mut i: usize = 0;
        while i < size
            invariant
                total == size * size,
                i <= size,
                vals.len() == total,
                forall|x: int|
                    0 <= x < total ==> #[trigger] vals@[x] == (if exists|d: int|
                        0 <= d < i && x == index_of(size as int, d, d) {
                        Rational { num: 1, den: 1 }
                    } else {
                        Rational { num: 0, den: 1 }
                    }),
            decreases size - i,
        {
            proof {
                lemma_in_range(size as int, i as int, i as int);
            }
            let idx = Self::get_index(size, i, i);
            vals.set(idx, Rational::one());
            proof {
                assert forall|x: int| 0 <= x < total implies #[trigger] vals@[x] == (if exists|
                    d: int,
                | 0 <= d < i + 1 && x == index_of(size as int, d, d) {
                    Rational { num: 1, den: 1 }
                } else {
                    Rational { num: 0, den: 1 }
                }) by {
                    if x == idx {
                        assert(0 <= i < i + 1 && x == index_of(size as int, i as int, i as int));
                    } else {
                        if exists|d: int| 0 <= d < i + 1 && x == index_of(size as int, d, d) {
                            let d = choose|d: int|
                                0 <= d < i + 1 && x == index_of(size as int, d, d);
                            assert(d != i);
                        }
                    }
                }
            }
            i = i + 1;
        }
        let r = SquareMat { size, vals };
        proof {
            assert forall|row: int, col: int|
                0 <= row < size && 0 <= col < size implies #[trigger] r.at(row, col) == (if row
                    == col {
                    Rational { num: 1, den: 1 }
                } else {
                    Rational { num: 0, den: 1 }
                }) by {
                lemma_in_range(size as int, row, col);
                if row == col {
                    assert(index_of(size as int, row, col) == index_of(size as int, row, row));
                } else {
                    if exists|d: int|
                        0 <= d < size && index_of(size as int, row, col) == index_of(
                            size as int,
                            d,
                            d,
                        ) {
                        let d = choose|d: int|
                            0 <= d < size && index_of(size as int, row, col) == index_of(
                                size as int,
                                d,
                                d,
                            );
                        lemma_index_unique(size as int, row, col, d, d);
                    }
                }
            }
            assert(mat_of(r) =~= ident_mat(size as int));
        }
        r
    }

    pub fn get_index(size: usize, row: usize, col: usize) -> (r: usize)
        requires
            row + col * size <= usize::MAX,
        ensures
            r == index_of(size as int, row as int, col as int),
    {
        row + col * size
    }

    pub fn get_at(&self, row: usize, col: usize) -> (r: Rational)
        requires
            self.wf(),
            row < self.size,
            col < self.size,
        ensures
            r == self.at(row as int, col as int),
            r.wf(),
    {
        proof {
            lemma_in_range(self.size as int, row as int, col as int);
        }
        self.vals[Self::get_index(self.size, row, col)]
    }
}

impl SquareMat {
    /// A copy with the same size and entries.
    pub fn duplicate(&self) -> (r: SquareMat)
        ensures
            r.size == self.size,
            r.vals@ == self.vals@,
            mat_of(r) == mat_of(*self),
    {
        let mut vals: Vec<Rational> = Vec::new();
        let mut i: usize = 0;
        while i < self.vals.len()
            invariant
                i <= self.vals.len(),
                vals@ == self.vals@.subrange(0, i as int),
            decreases self.vals.len() - i,
        {
            vals.push(self.vals[i]);
            proof {
                assert(vals@ =~= self.vals@.subrange(0, i + 1));
            }
            i = i + 1;
        }
        assert(vals@ =~= self.vals@);
        let r = SquareMat { size: self.size, vals };
        assert(mat_of(r) =~= mat_of(*self));
        r
    }

    /// Multiplies each entry of row `target_row` by `factor`. Returns
    /// `false`, leaving the matrix as it was, when a product does not fit.
    pub fn row_scale(&mut self, target_row: usize, factor: Rational) -> (ok: bool)
        requires
            old(self).wf(),
            target_row < old(self).size,
            factor.wf(),
        ensures
            final(self).size == old(self).size,
            final(self).wf(),
            ok == forall|c: int|
                0 <= c < old(self).size ==> #[trigger] scaled(old(self).at(target_row as int, c), factor)
                    is Some,
            ok ==> forall|row: int, col: int|
                0 <= row < old(self).size && 0 <= col < old(self).size ==> #[trigger] final(self).at(
                    row,
                    col,
                ) == if row == target_row {
                    scaled(old(self).at(row, col), factor)->Some_0
                } else {
                    old(self).at(row, col)
                },
            !ok ==> final(self).vals@ == old(self).vals@,
            ok == scale_ok(mat_of(*old(self)), old(self).size as int, target_row as int, factor),
            ok ==> mat_of(*final(self)) == scale_row(
                mat_of(*old(self)),
                old(self).size as int,
                target_row as int,
                factor,
            ),
    {
        let n = self.size;
        let mut row_vals: Vec<Rational> = Vec::new();
        let mut c: usize = 0;
        while c < n
            invariant
                n == self.size,
                self.wf(),
                target_row < n,
                factor.wf(),
                c <= n,
                row_vals.len() == c,
                forall|k: int|
                    0 <= k < c ==> scaled(self.at(target_row as int, k), factor) == Some(
                        #[trigger] row_vals@[k],
                    ) && row_vals@[k].wf(),
            decreases n - c,
        {
            let x = self.get_at(target_row, c);
            match x.checked_mul(&factor) {
                Some(y) => row_vals.push(y),
                None => {
                    assert(scaled(old(self).at(target_row as int, c as int), factor) is None);
                    assert(scaled(mat_of(*old(self))(target_row as int, c as int), factor) is None);
                    return false;
                },
            }
            c = c + 1;
        }
        let ghost before = *self;
        let mut c: usize = 0;
        while c < n
            invariant
                n == self.size,
                n == before.size,
                before == *old(self),
                self.wf(),
                before.wf(),
                target_row < n,
                c <= n,
                row_vals.len() == n,
                forall|k: int|
                    0 <= k < n ==> scaled(before.at(target_row as int, k), factor) == Some(
                        #[trigger] row_vals@[k],
                    ) && row_vals@[k].wf(),
                forall|row: int, col: int|
                    0 <= row < n && 0 <= col < n ==> #[trigger] self.at(row, col) == if row
                        == target_row && col < c {
                        row_vals@[col]
                    } else {
                        before.at(row, col)
                    },
            decreases n - c,
        {
            proof {
                lemma_in_range(n as int, target_row as int, c as int);
            }
            let idx = Self::get_index(n, target_row, c);
            let ghost prev = *self;
            self.vals.set(idx, row_vals[c]);
            proof {
                assert forall|row: int, col: int|
                    0 <= row < n && 0 <= col < n implies #[trigger] self.at(row, col) == if row
                        == target_row && col < c + 1 {
                        row_vals@[col]
                    } else {
                        before.at(row, col)
                    } by {
                    lemma_in_range(n as int, row, col);
                    assert(prev.at(row, col) == if row == target_row && col < c {
                        row_vals@[col]
                    } else {
                        before.at(row, col)
                    });
                    if index_of(n as int, row, col) == idx {
                        lemma_index_unique(n as int, row, col, target_row as int, c as int);
                    }
                }
            }
            c = c + 1;
        }
        assert forall|c: int| 0 <= c < n implies #[trigger] scaled(
            old(self).at(target_row as int, c),
            factor,
        ) is Some by {
            assert(scaled(before.at(target_row as int, c), factor) == Some(row_vals@[c]));
        }
        assert(mat_of(*self) =~= scale_row(mat_of(before), n as int, target_row as int, factor));
        true
    }

    /// Subtracts `factor` times row `source_row` from row `target_row`.
    /// Returns `false`, leaving the matrix as it was, when a step does not
    /// fit.
    pub fn row_sub(&mut self, target_row: usize, source_row: usize, factor: Rational) -> (ok: bool)
        requires
            old(self).wf(),
            target_row < old(self).size,
            source_row < old(self).size,
            factor.wf(),
        ensures
            final(self).size == old(self).size,
            final(self).wf(),
            ok == forall|c: int|
                0 <= c < old(self).size ==> #[trigger] sub_scaled(
                    old(self).at(target_row as int, c),
                    old(self).at(source_row as int, c),
                    factor,
                ) is Some,
            ok ==> forall|row: int, col: int|
                0 <= row < old(self).size && 0 <= col < old(self).size ==> #[trigger] final(self).at(
                    row,
                    col,
                ) == if row == target_row {
                    sub_scaled(old(self).at(row, col), old(self).at(source_row as int, col), factor)->Some_0
                } else {
                    old(self).at(row, col)
                },
            !ok ==> final(self).vals@ == old(self).vals@,
            ok == sub_ok(
                mat_of(*old(self)),
                old(self).size as int,
                target_row as int,
                source_row as int,
                factor,
            ),
            ok ==> mat_of(*final(self)) == sub_row(
                mat_of(*old(self)),
                old(self).size as int,
                target_row as int,
                source_row as int,
                factor,
            ),
    {
        let n = self.size;
        let mut row_vals: Vec<Rational> = Vec::new();
        let mut c: usize = 0;
        while c < n
            invariant
                n == self.size,
                self.wf(),
                target_row < n,
                source_row < n,
                factor.wf(),
                c <= n,
                row_vals.len() == c,
                forall|k: int|
                    0 <= k < c ==> sub_scaled(
                        self.at(target_row as int, k),
                        self.at(source_row as int, k),
                        factor,
                    ) == Some(#[trigger] row_vals@[k]) && row_vals@[k].wf(),
            decreases n - c,
        {
            let t = self.get_at(target_row, c);
            let s = self.get_at(source_row, c);
            match factor.checked_mul(&s) {
                Some(m) => match t.checked_sub(&m) {
                    Some(y) => row_vals.push(y),
                    None => {
                        assert(sub_scaled(
                            mat_of(*old(self))(target_row as int, c as int),
                            mat_of(*old(self))(source_row as int, c as int),
                            factor,
                        ) is None);
                        return false;
                    },
                },
                None => {
                    assert(sub_scaled(
                        mat_of(*old(self))(target_row as int, c as int),
                        mat_of(*old(self))(source_row as int, c as int),
                        factor,
                    ) is None);
                    return false;
                },
            }
            c = c + 1;
        }
        let ghost before = *self;
        let mut c: usize = 0;
        while c < n
            invariant
                n == self.size,
                n == before.size,
                before == *old(self),
                self.wf(),
                before.wf(),
                target_row < n,
                source_row < n,
                c <= n,
                row_vals.len() == n,
                forall|k: int|
                    0 <= k < n ==> sub_scaled(
                        before.at(target_row as int, k),
                        before.at(source_row as int, k),
                        factor,
                    ) == Some(#[trigger] row_vals@[k]) && row_vals@[k].wf(),
                forall|row: int, col: int|
                    0 <= row < n && 0 <= col < n ==> #[trigger] self.at(row, col) == if row
                        == target_row && col < c {
                        row_vals@[col]
                    } else {
                        before.at(row, col)
                    },
            decreases n - c,
        {
            proof {
                lemma_in_range(n as int, target_row as int, c as int);
            }
            let idx = Self::get_index(n, target_row, c);
            let ghost prev = *self;
            self.vals.set(idx, row_vals[c]);
            proof {
                assert forall|row: int, col: int|
                    0 <= row < n && 0 <= col < n implies #[trigger] self.at(row, col) == if row
                        == target_row && col < c + 1 {
                        row_vals@[col]
                    } else {
                        before.at(row, col)
                    } by {
                    lemma_in_range(n as int, row, col);
                    assert(prev.at(row, col) == if row == target_row && col < c {
                        row_vals@[col]
                    } else {
                        before.at(row, col)
                    });
                    if index_of(n as int, row, col) == idx {
                        lemma_index_unique(n as int, row, col, target_row as int, c as int);
                    }
                }
            }
            c = c + 1;
        }
        assert forall|c: int| 0 <= c < n implies #[trigger] sub_scaled(
            old(self).at(target_row as int, c),
            old(self).at(source_row as int, c),
            factor,
        ) is Some by {
            assert(sub_scaled(
                before.at(target_row as int, c),
                before.at(source_row as int, c),
                factor,
            ) == Some(row_vals@[c]));
        }
        assert(mat_of(*self) =~= sub_row(
            mat_of(before),
            n as int,
            target_row as int,
            source_row as int,
            factor,
        ));
        true
    }
}

proof fn lemma_den_mul_pos(a: int, b: int)
    requires
        a > 0,
        b > 0,
    ensures
        a * b > 0,
{
    assert(a * b > 0) by (nonlinear_arith)
        requires
            a > 0,
            b > 0,
    ;
}

impl SquareMat {
    /// The product `self · other`, computed exactly; `None` when an
    /// intermediate value does not fit.
    pub fn multiply(&self, other: &SquareMat) -> (r: Option<SquareMat>)
        requires
            self.wf(),
            other.wf(),
            self.size == other.size,
        ensures
            r matches Some(p) ==> p.wf() && p.size == self.size && forall|i: int, k: int|
                0 <= i < self.size && 0 <= k < self.size ==> frac_eq(
                    #[trigger] p.entry(i, k),
                    self.product_entry(other, i, k),
                ),
            r is Some <==> product_fits(mat_of(*self), mat_of(*other), self.size as int),
            r matches Some(p) ==> mat_of(p) == product_exact(
                mat_of(*self),
                mat_of(*other),
                self.size as int,
            ),
    {
        let n = self.size;
        let ghost ma = mat_of(*self);
        let ghost mb = mat_of(*other);
        let mut vals: Vec<Rational> = Vec::new();
        let mut k: usize = 0;
        while k < n
            invariant
                n == self.size,
                n == other.size,
                self.wf(),
                other.wf(),
                k <= n,
                vals.len() == k * n,
                forall|x: int| 0 <= x < vals.len() ==> (#[trigger] vals@[x]).wf(),
                forall|i: int, col: int|
                    0 <= i < n && 0 <= col < k ==> dot_exact(ma, mb, i, col, n as int) == Some(
                        #[trigger] vals@[index_of(n as int, i, col)],
                    ),
                ma == mat_of(*self),
                mb == mat_of(*other),
                forall|i: int, col: int|
                    0 <= i < n && 0 <= col < k ==> frac_eq(
                        #[trigger] vals@[index_of(n as int, i, col)].frac(),
                        self.product_entry(other, i, col),
                    ),
            decreases n - k,
        {
            let mut i: usize = 0;
            while i < n
                invariant
                    n == self.size,
                    n == other.size,
                    self.wf(),
                    other.wf(),
                    k < n,
                    i <= n,
                    vals.len() == k * n + i,
                    forall|x: int| 0 <= x < vals.len() ==> (#[trigger] vals@[x]).wf(),
                    forall|ii: int, col: int|
                        0 <= ii < n && 0 <= col < k ==> frac_eq(
                            #[trigger] vals@[index_of(n as int, ii, col)].frac(),
                            self.product_entry(other, ii, col),
                        ),
                    forall|ii: int|
                        0 <= ii < i ==> frac_eq(
                            #[trigger] vals@[index_of(n as int, ii, k as int)].frac(),
                            self.product_entry(other, ii, k as int),
                        ),
                    ma == mat_of(*self),
                    mb == mat_of(*other),
                    forall|ii: int, col: int|
                        0 <= ii < n && 0 <= col < k ==> dot_exact(ma, mb, ii, col, n as int) == Some(
                            #[trigger] vals@[index_of(n as int, ii, col)],
                        ),
                    forall|ii: int|
                        0 <= ii < i ==> dot_exact(ma, mb, ii, k as int, n as int) == Some(
                            #[trigger] vals@[index_of(n as int, ii, k as int)],
                        ),
                decreases n - i,
            {
                let mut acc = Rational::zero();
                let mut j: usize = 0;
                while j < n
                    invariant
                        n == self.size,
                        n == other.size,
                        self.wf(),
                        other.wf(),
                        k < n,
                        i < n,
                        j <= n,
                        acc.wf(),
                        frac_eq(acc.frac(), self.dot(other, i as int, k as int, j as int)),
                        ma == mat_of(*self),
                        mb == mat_of(*other),
                        dot_exact(ma, mb, i as int, k as int, j as int) == Some(acc),
                    decreases n - j,
                {
                    let a = self.get_at(i, j);
                    let b = other.get_at(j, k);
                    assert(ma(i as int, j as int) == a && mb(j as int, k as int) == b);
                    let prod = match a.checked_mul(&b) {
                        Some(p) => p,
                        None => {
                            proof {
                                lemma_dot_exact_none(ma, mb, i as int, k as int, j + 1, n as int);
                                assert(!(dot_exact(ma, mb, i as int, k as int, n as int) is Some));
                            }
                            return None;
                        },
                    };
                    let next = match acc.checked_add(&prod) {
                        Some(s) => s,
                        None => {
                            proof {
                                lemma_dot_exact_none(ma, mb, i as int, k as int, j + 1, n as int);
                                assert(!(dot_exact(ma, mb, i as int, k as int, n as int) is Some));
                            }
                            return None;
                        },
                    };
                    proof {
                        let d = self.dot(other, i as int, k as int, j as int);
                        let m = frac_mul(a.frac(), b.frac());
                        lemma_frac_add_cong(acc.frac(), d, prod.frac(), m);
                        lemma_den_mul_pos(acc.den as int, prod.den as int);
                        lemma_frac_eq_trans(
                            next.frac(),
                            frac_add(acc.frac(), prod.frac()),
                            frac_add(d, m),
                        );
                    }
                    acc = next;
                    j = j + 1;
                }
                proof {
                    assert(k * n + i < n * n) by (nonlinear_arith)
                        requires
                            k < n,
                            i < n,
                    ;
                }
                vals.push(acc);
                proof {
                    assert forall|ii: int, col: int|
                        0 <= ii < n && 0 <= col < k implies frac_eq(
                            #[trigger] vals@[index_of(n as int, ii, col)].frac(),
                            self.product_entry(other, ii, col),
                        ) by {
                        assert(index_of(n as int, ii, col) < k * n) by (nonlinear_arith)
                            requires
                                0 <= ii < n,
                                0 <= col < k,
                        ;
                    }
                    assert forall|ii: int, col: int|
                        0 <= ii < n && 0 <= col < k implies dot_exact(ma, mb, ii, col, n as int)
                        == Some(#[trigger] vals@[index_of(n as int, ii, col)]) by {
                        assert(index_of(n as int, ii, col) < k * n) by (nonlinear_arith)
                            requires
                                0 <= ii < n,
                                0 <= col < k,
                        ;
                    }
                    assert forall|ii: int|
                        0 <= ii < i + 1 implies frac_eq(
                            #[trigger] vals@[index_of(n as int, ii, k as int)].frac(),
                            self.product_entry(other, ii, k as int),
                        ) by {
                        assert(index_of(n as int, ii, k as int) == k * n + ii) by (nonlinear_arith);
                    }
                    assert forall|ii: int|
                        0 <= ii < i + 1 implies dot_exact(ma, mb, ii, k as int, n as int) == Some(
                            #[trigger] vals@[index_of(n as int, ii, k as int)],
                        ) by {
                        assert(index_of(n as int, ii, k as int) == k * n + ii) by (nonlinear_arith);
                    }
                }
                i = i + 1;
            }
            proof {
                assert((k + 1) * n == k * n + n) by (nonlinear_arith);
                assert forall|ii: int, col: int|
                    0 <= ii < n && 0 <= col < k + 1 implies frac_eq(
                        #[trigger] vals@[index_of(n as int, ii, col)].frac(),
                        self.product_entry(other, ii, col),
                    ) by {
                    if col == k {
                        assert(vals@[index_of(n as int, ii, k as int)].frac() == vals@[index_of(
                            n as int,
                            ii,
                            col,
                        )].frac());
                    }
                }
                assert forall|ii: int, col: int|
                    0 <= ii < n && 0 <= col < k + 1 implies dot_exact(ma, mb, ii, col, n as int)
                    == Some(#[trigger] vals@[index_of(n as int, ii, col)]) by {
                    if col == k {
                        assert(dot_exact(ma, mb, ii, k as int, n as int) == Some(
                            vals@[index_of(n as int, ii, k as int)],
                        ));
                    }
                }
            }
            k = k + 1;
        }
        let p = SquareMat { size: n, vals };
        proof {
            assert forall|i: int, col: int|
                0 <= i < n && 0 <= col < n implies frac_eq(
                    #[trigger] p.entry(i, col),
                    self.product_entry(other, i, col),
                ) by {
                assert(p.entry(i, col) == vals@[index_of(n as int, i, col)].frac());
            }
            assert forall|i: int, col: int| in_square(n as int, i, col) implies #[trigger] dot_exact(
                ma,
                mb,
                i,
                col,
                n as int,
            ) is Some by {
                assert(dot_exact(ma, mb, i, col, n as int) == Some(vals@[index_of(n as int, i, col)]));
            }
            assert(mat_of(p) =~= product_exact(ma, mb, n as int));
        }
        Some(p)
    }

    /// Whether every entry equals the identity matrix's.
    pub fn is_identity(&self) -> (r: bool)
        requires
            self.wf(),
        ensures
            r == forall|i: int, k: int|
                0 <= i < self.size && 0 <= k < self.size ==> frac_eq(
                    #[trigger] self.entry(i, k),
                    delta(i, k),
                ),
    {
        let n = self.size;
        let mut k: usize = 0;
        while k < n
            invariant
                n == self.size,
                self.wf(),
                k <= n,
                forall|i: int, col: int|
                    0 <= i < n && 0 <= col < k ==> frac_eq(
                        #[trigger] self.entry(i, col),
                        delta(i, col),
                    ),
            decreases n - k,
        {
            let mut i: usize = 0;
            while i < n
                invariant
                    n == self.size,
                    self.wf(),
                    k < n,
                    i <= n,
                    forall|ii: int, col: int|
                        0 <= ii < n && 0 <= col < k ==> frac_eq(
                            #[trigger] self.entry(ii, col),
                            delta(ii, col),
                        ),
                    forall|ii: int|
                        0 <= ii < i ==> frac_eq(#[trigger] self.entry(ii, k as int), delta(ii, k as int)),
                decreases n - i,
            {
                let x = self.get_at(i, k);
                let expected = if i == k {
                    x.num == x.den
                } else {
                    x.num == 0
                };
                if !expected {
                    assert(!frac_eq(self.entry(i as int, k as int), delta(i as int, k as int)));
                    return false;
                }
                proof {
                    let e = self.entry(i as int, k as int);
                    assert(e == x.frac());
                    if i == k {
                        assert(delta(i as int, k as int) == (1int, 1int));
                        assert(e.0 * 1 == 1 * e.1);
                    } else {
                        assert(delta(i as int, k as int) == (0int, 1int));
                        assert(e.0 * 1 == 0 * e.1);
                    }
                }
                i = i + 1;
            }
            k = k + 1;
        }
        true
    }

    /// The inverse, by Gauss-Jordan elimination without pivoting over exact
    /// rationals (`gauss_jordan`), checked against `self` by exact products
    /// before it is returned. `None` exactly when a pivot is zero, a step
    /// overflows, or the check does not compute to the identity.
    pub fn invert(self) -> (r: Option<SquareMat>)
        requires
            self.wf(),
        ensures
            r is Some <==> invert_spec(mat_of(self), self.size as int) is Some,
            r matches Some(inv) ==> inv.wf() && inv.size == self.size && mat_of(inv) == invert_spec(
                mat_of(self),
                self.size as int,
            )->Some_0,
            r matches Some(inv) ==> self.is_inverse(&inv),
    {
        let n = self.size;
        let ghost m0 = mat_of(self);
        let ghost nn = n as int;
        let ghost target = gauss_jordan(m0, ident_mat(nn), nn, 0);
        let mut work = self.duplicate();
        let mut inverse = Self::ident(n);
        let mut i: usize = 0;
        while i < n
            invariant
                n == self.size,
                nn == n,
                work.wf(),
                inverse.wf(),
                work.size == n,
                inverse.size == n,
                i <= n,
                gauss_jordan(mat_of(work), mat_of(inverse), nn, i as int) == target,
                m0 == mat_of(self),
                target == gauss_jordan(m0, ident_mat(nn), nn, 0),
            decreases n - i,
        {
            let pivot = work.get_at(i, i);
            assert(mat_of(work)(i as int, i as int) == pivot);
            let factor = match Rational::one().checked_div(&pivot) {
                Some(f) => f,
                None => {
                    assert(pivot_factor(pivot) is None);
                    assert(gauss_jordan(mat_of(work), mat_of(inverse), nn, i as int) is None);
                    return None;
                },
            };
            let ghost w0 = mat_of(work);
            let ghost v0 = mat_of(inverse);
            assert(pivot_factor(w0(i as int, i as int)) == Some(factor));
            if !inverse.row_scale(i, factor) {
                assert(gauss_jordan(w0, v0, nn, i as int) is None);
                return None;
            }
            if !work.row_scale(i, factor) {
                assert(gauss_jordan(w0, v0, nn, i as int) is None);
                return None;
            }
            let mut j: usize = 0;
            while j < n
                invariant
                    n == self.size,
                    nn == n,
                    work.wf(),
                    inverse.wf(),
                    work.size == n,
                    inverse.size == n,
                    i < n,
                    j <= n,
                    factor.wf(),
                    pivot_factor(w0(i as int, i as int)) == Some(factor),
                    scale_ok(v0, nn, i as int, factor) && scale_ok(w0, nn, i as int, factor),
                    gauss_jordan(w0, v0, nn, i as int) == target,
                    m0 == mat_of(self),
                    target == gauss_jordan(m0, ident_mat(nn), nn, 0),
                    eliminate_rows(mat_of(work), mat_of(inverse), nn, i as int, j as int)
                        == eliminate_rows(
                        scale_row(w0, nn, i as int, factor),
                        scale_row(v0, nn, i as int, factor),
                        nn,
                        i as int,
                        0,
                    ),
                decreases n - j,
            {
                let ghost wj = mat_of(work);
                let ghost vj = mat_of(inverse);
                if j != i {
                    let g = work.get_at(j, i);
                    assert(wj(j as int, i as int) == g);
                    if !inverse.row_sub(j, i, g) {
                        assert(eliminate_rows(wj, vj, nn, i as int, j as int) is None);
                        assert(gauss_jordan(w0, v0, nn, i as int) is None);
                        return None;
                    }
                    if !work.row_sub(j, i, g) {
                        assert(eliminate_rows(wj, vj, nn, i as int, j as int) is None);
                        assert(gauss_jordan(w0, v0, nn, i as int) is None);
                        return None;
                    }
                }
                j = j + 1;
            }
            i = i + 1;
        }
        let left = match self.multiply(&inverse) {
            Some(p) => p,
            None => {
                return None;
            },
        };
        if !left.is_identity() {
            proof {
                let k = choose|a: int, b: int|
                    0 <= a < n && 0 <= b < n && !frac_eq(#[trigger] left.entry(a, b), delta(a, b));
                assert(!frac_eq(product_exact(m0, mat_of(inverse), nn)(k.0, k.1).frac(), delta(k.0, k.1)));
            }
            return None;
        }
        let right = match inverse.multiply(&self) {
            Some(p) => p,
            None => {
                return None;
            },
        };
        if !right.is_identity() {
            proof {
                let k = choose|a: int, b: int|
                    0 <= a < n && 0 <= b < n && !frac_eq(#[trigger] right.entry(a, b), delta(a, b));
                assert(!frac_eq(product_exact(mat_of(inverse), m0, nn)(k.0, k.1).frac(), delta(k.0, k.1)));
            }
            return None;
        }
        proof {
            assert forall|a: int, b: int| in_square(nn, a, b) implies frac_eq(
                #[trigger] product_exact(m0, mat_of(inverse), nn)(a, b).frac(),
                delta(a, b),
            ) by {
                assert(product_exact(m0, mat_of(inverse), nn)(a, b) == mat_of(left)(a, b));
                assert(frac_eq(left.entry(a, b), delta(a, b)));
            }
            assert forall|a: int, b: int| in_square(nn, a, b) implies frac_eq(
                #[trigger] product_exact(mat_of(inverse), m0, nn)(a, b).frac(),
                delta(a, b),
            ) by {
                assert(product_exact(mat_of(inverse), m0, nn)(a, b) == mat_of(right)(a, b));
                assert(frac_eq(right.entry(a, b), delta(a, b)));
            }
            assert forall|a: int, b: int| 0 <= a < n && 0 <= b < n implies frac_eq(
                #[trigger] self.product_entry(&inverse, a, b),
                delta(a, b),
            ) by {
                lemma_in_range(n as int, a, b);
                assert(left.at(a, b).wf());
                lemma_frac_eq_trans(self.product_entry(&inverse, a, b), left.entry(a, b), delta(a, b));
            }
            assert forall|a: int, b: int| 0 <= a < n && 0 <= b < n implies frac_eq(
                #[trigger] inverse.product_entry(&self, a, b),
                delta(a, b),
            ) by {
                lemma_in_range(n as int, a, b);
                assert(right.at(a, b).wf());
                lemma_frac_eq_trans(inverse.product_entry(&self, a, b), right.entry(a, b), delta(a, b));
            }
        }
        Some(inverse)
    }

    /// The columns, each listed by row.
    pub fn get_cols(&self) -> (r: Vec<Vec<Rational>>)
        requires
            self.wf(),
        ensures
            r.len() == self.size,
            forall|c: int| 0 <= c < self.size ==> (#[trigger] r[c]).len() == self.size,
            forall|row: int, c: int|
                0 <= row < self.size && 0 <= c < self.size ==> #[trigger] r[c]@[row] == self.at(row, c),
    {
        let n = self.size;
        let mut cols: Vec<Vec<Rational>> = Vec::new();
        let mut c: usize = 0;
        while c < n
            invariant
                n == self.size,
                self.wf(),
                c <= n,
                cols.len() == c,
                forall|k: int| 0 <= k < c ==> (#[trigger] cols[k]).len() == n,
                forall|row: int, k: int|
                    0 <= row < n && 0 <= k < c ==> #[trigger] cols[k]@[row] == self.at(row, k),
            decreases n - c,
        {
            let mut col: Vec<Rational> = Vec::new();
            let mut row: usize = 0;
            while row < n
                invariant
                    n == self.size,
                    self.wf(),
                    c < n,
                    row <= n,
                    col.len() == row,
                    forall|x: int| 0 <= x < row ==> #[trigger] col@[x] == self.at(x, c as int),
                decreases n - row,
            {
                col.push(self.get_at(row, c));
                row = row + 1;
            }
            cols.push(col);
            c = c + 1;
        }
        cols
    }
}

proof fn lemma_index_unique(n: int, r1: int, c1: int, r2: int, c2: int)
    requires
        0 <= r1 < n,
        0 <= r2 < n,
        0 <= c1 < n,
        0 <= c2 < n,
        index_of(n, r1, c1) == index_of(n, r2, c2),
    ensures
        r1 == r2 && c1 == c2,
{
    assert(r1 == r2 && c1 == c2) by (nonlinear_arith)
        requires
            0 <= r1 < n,
            0 <= r2 < n,
            0 <= c1 < n,
            0 <= c2 < n,
            r1 + c1 * n == r2 + c2 * n,
    ;
}

} // verus!
