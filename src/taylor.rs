use crate::error::DiscretiseError;
use crate::expression::Variable;
use crate::matrix::{in_square, invert_spec, mat_of, zero_rational, RatMat, SquareMat};
use crate::mesh_expr::{lemma_views, lemma_views_push, views, MeshExpr};
use crate::rational::{frac_eq, rational_of, Frac, Rational};
use crate::term::Term;
use vstd::arithmetic::power::pow;
use vstd::prelude::*;

verus! {

pub open spec fn factorial(n: nat) -> nat
    decreases n,
{
    if n == 0 {
        1
    } else {
        n * factorial((n - 1) as nat)
    }
}

proof fn lemma_factorial_mono(i: nat, n: nat)
    requires
        i <= n,
    ensures
        1 <= factorial(i) <= factorial(n),
    decreases n,
{
    if i < n {
        lemma_factorial_mono(i, (n - 1) as nat);
        assert(factorial((n - 1) as nat) <= n * factorial((n - 1) as nat)) by (nonlinear_arith)
            requires
                n >= 1,
        ;
    } else if n > 0 {
        lemma_factorial_mono((n - 1) as nat, (n - 1) as nat);
        assert(1 <= n * factorial((n - 1) as nat)) by (nonlinear_arith)
            requires
                n >= 1,
                factorial((n - 1) as nat) >= 1,
        ;
    }
}

/// `n!`.
pub fn fact(n: usize) -> (r: usize)
    requires
        factorial(n as nat) <= usize::MAX,
    ensures
        r == factorial(n as nat),
{
    let mut acc: usize = 1;
    let mut i: usize = 0;
    while i < n
        invariant
            i <= n,
            acc == factorial(i as nat),
            factorial(n as nat) <= usize::MAX,
        decreases n - i,
    {
        proof {
            lemma_factorial_mono((i + 1) as nat, n as nat);
            assert(factorial((i + 1) as nat) == (i + 1) * factorial(i as nat));
        }
        i = i + 1;
        acc = acc * i;
    }
    acc
}

/// The offsets of the stencil points on the axis of `variable` (those whose
/// other coordinate is zero), in stencil order.
pub open spec fn axis_offsets(stencil: Seq<(isize, isize)>, variable: Variable) -> Seq<isize>
    decreases stencil.len(),
{
    if stencil.len() == 0 {
        Seq::empty()
    } else {
        let rest = axis_offsets(stencil.drop_last(), variable);
        let (x, y) = stencil.last();
        match variable {
            Variable::X => if y == 0 {
                rest.push(x)
            } else {
                rest
            },
            Variable::Y => if x == 0 {
                rest.push(y)
            } else {
                rest
            },
        }
    }
}

pub open spec fn distinct(s: Seq<isize>) -> bool {
    forall|i: int, j: int| 0 <= i < j < s.len() ==> s[i] != s[j]
}

/// The Taylor coefficient `o^p / p!` of the `p`-th derivative at offset `o`.
pub open spec fn taylor_coefficient(o: isize, p: nat) -> Frac {
    (pow(o as int, p), factorial(p) as int)
}

/// `o^p` and `p!` both fit in an `i64`.
pub open spec fn coefficient_fits(o: isize, p: nat) -> bool {
    -0x7fff_ffff_ffff_ffff <= pow(o as int, p) <= 0x7fff_ffff_ffff_ffff && factorial(p)
        <= 0x7fff_ffff_ffff_ffff
}

/// The coefficients `o^p / p!` for `p < n` can be computed in `i64`.
pub open spec fn column_fits(o: isize, n: nat) -> bool {
    forall|p: nat| p < n ==> #[trigger] coefficient_fits(o, p)
}

/// The Taylor matrix of `offsets`, entry `(p, k)` being `offsets[k]^p / p!`
/// in lowest terms.
pub open spec fn taylor_matrix(offsets: Seq<isize>) -> RatMat {
    |p: int, k: int|
        if in_square(offsets.len() as int, p, k) {
            rational_of(taylor_coefficient(offsets[k], p as nat))->Some_0
        } else {
            zero_rational()
        }
}

/// Building or inverting the Taylor matrix of `offsets` fails: its size does
/// not fit, a coefficient does not fit in an `i64`, or exact elimination
/// fails (see `SquareMat::invert`).
pub open spec fn taylor_inversion_fails(offsets: Seq<isize>) -> bool {
    let n = offsets.len();
    ||| n * n > usize::MAX
    ||| exists|k: int| 0 <= k < n && !column_fits(#[trigger] offsets[k], n)
    ||| invert_spec(taylor_matrix(offsets), n as int) is None
}

/// `m` is the Taylor matrix of `offsets`: row `p`, column `k` holds
/// `offsets[k]^p / p!`.
pub open spec fn is_taylor_matrix(m: SquareMat, offsets: Seq<isize>) -> bool {
    &&& m.wf()
    &&& m.size == offsets.len()
    &&& forall|p: int, k: int|
        0 <= p < m.size && 0 <= k < m.size ==> frac_eq(
            #[trigger] m.entry(p, k),
            taylor_coefficient(offsets[k], p as nat),
        )
}

/// `cols` lists the columns of `m`.
pub open spec fn columns_of(m: SquareMat, cols: Seq<Vec<Rational>>) -> bool {
    &&& cols.len() == m.size
    &&& forall|c: int| 0 <= c < m.size ==> (#[trigger] cols[c]).len() == m.size
    &&& forall|row: int, c: int|
        0 <= row < m.size && 0 <= c < m.size ==> #[trigger] cols[c]@[row] == m.at(row, c)
}

/// The grid point at `offset` along the axis of `variable`.
pub open spec fn axis_point(offset: isize, variable: Variable) -> Term {
    match variable {
        Variable::X => Term::At(offset, 0),
        Variable::Y => Term::At(0, offset),
    }
}

/// The terms `coeff · u[offset]` for the first `len` stencil points whose
/// coefficient is not zero.
pub open spec fn scheme_terms(
    col: Seq<Rational>,
    offsets: Seq<isize>,
    variable: Variable,
    len: int,
) -> Seq<Term>
    decreases len,
{
    if len <= 0 {
        Seq::empty()
    } else {
        let rest = scheme_terms(col, offsets, variable, len - 1);
        if col[len - 1].num == 0 {
            rest
        } else {
            rest.push(
                Term::Prod(seq![Term::Const(col[len - 1]), axis_point(offsets[len - 1], variable)]),
            )
        }
    }
}

/// `t` is the Taylor table of `stencil` along the axis of `variable`: its
/// points are the stencil's points on that axis, and its columns are those
/// of the inverse of their Taylor matrix.
pub open spec fn is_table_for(t: TaylorTable, stencil: Seq<(isize, isize)>, variable: Variable) -> bool {
    &&& t.wf()
    &&& t.variable == variable
    &&& t.stencil@ == axis_offsets(stencil, variable)
    &&& invert_spec(taylor_matrix(t.stencil@), t.stencil.len() as int) is Some
    &&& forall|row: int, c: int|
        in_square(t.stencil.len() as int, row, c) ==> #[trigger] t.cols[c]@[row] == invert_spec(
            taylor_matrix(t.stencil@),
            t.stencil.len() as int,
        )->Some_0(row, c)
    &&& exists|m: SquareMat, inv: SquareMat|
        is_taylor_matrix(m, t.stencil@) && inv.wf() && #[trigger] m.is_inverse(&inv) && columns_of(
            inv,
            t.cols@,
        )
}

/// The approximation that `t` gives for the derivative of order `order`.
pub open spec fn scheme_of(t: TaylorTable, order: int) -> Term {
    Term::Sum(scheme_terms(t.cols[order]@, t.stencil@, t.variable, t.stencil.len() as int))
}

/// Finite-difference coefficients for one axis of a stencil: the columns of
/// the inverse of the Taylor matrix of the stencil's points on that axis.
/// Column `p` gives, for each point, the weight of its value in the
/// approximation of the `p`-th derivative.
pub struct TaylorTable {
    pub cols: Vec<Vec<Rational>>,
    pub variable: Variable,
    pub stencil: Vec<isize>,
}

impl TaylorTable {
    pub open spec fn wf(&self) -> bool {
        &&& self.cols.len() == self.stencil.len()
        &&& forall|c: int| 0 <= c < self.cols.len() ==> (#[trigger] self.cols[c]).len() == self.stencil.len()
    }

    /// Builds the table for the points of `stencil` on the axis of
    /// `variable`.
    pub fn new(stencil: &[(isize, isize)], variable: Variable) -> (r: Result<TaylorTable, DiscretiseError>)
        ensures
            r is Err && r->Err_0 == DiscretiseError::SingularStencil <==> !distinct(
                axis_offsets(stencil@, variable),
            ),
            r matches Err(e) ==> e == DiscretiseError::SingularStencil || e
                == DiscretiseError::InversionFailed,
            r is Err && r->Err_0 == DiscretiseError::InversionFailed <==> distinct(
                axis_offsets(stencil@, variable),
            ) && taylor_inversion_fails(axis_offsets(stencil@, variable)),
            r matches Ok(t) ==> is_table_for(t, stencil@, variable),
    {
        let offsets = Self::axis_points(stencil, variable);
        let n = offsets.len();
        if !Self::all_distinct(&offsets) {
            return Err(DiscretiseError::SingularStencil);
        }
        proof {
            assert(n as u128 * n as u128 <= 0xffff_ffff_ffff_ffff_ffff_ffff_ffff_ffff) by (nonlinear_arith)
                requires
                    n <= 0xffff_ffff_ffff_ffff,
            ;
        }
        if n as u128 * n as u128 > usize::MAX as u128 {
            return Err(DiscretiseError::InversionFailed);
        }
        let ghost tm = taylor_matrix(offsets@);
        let mut cols: Vec<Vec<Rational>> = Vec::new();
        let mut k: usize = 0;
        while k < n
            invariant
                n == offsets.len(),
                offsets@ == axis_offsets(stencil@, variable),
                distinct(offsets@),
                k <= n,
                cols.len() == k,
                forall|c: int| 0 <= c < k ==> (#[trigger] cols[c]).len() == n,
                forall|c: int, p: int|
                    0 <= c < k && 0 <= p < n ==> (#[trigger] cols[c]@[p]).wf() && frac_eq(
                        cols[c]@[p].frac(),
                        taylor_coefficient(offsets@[c], p as nat),
                    ) && cols[c]@[p] == tm(p, c),
                tm == taylor_matrix(offsets@),
                n * n <= usize::MAX,
                forall|c: int| 0 <= c < k ==> column_fits(#[trigger] offsets@[c], n as nat),
            decreases n - k,
        {
            let col = match Self::taylor_column(offsets[k], n) {
                Some(col) => col,
                None => {
                    assert(!column_fits(offsets@[k as int], n as nat));
                    return Err(DiscretiseError::InversionFailed);
                },
            };
            cols.push(col);
            k = k + 1;
        }
        let m = SquareMat::new(cols);
        let ghost mg = m;
        assert(is_taylor_matrix(mg, offsets@)) by {
            assert forall|p: int, c: int| 0 <= p < n && 0 <= c < n implies frac_eq(
                #[trigger] mg.entry(p, c),
                taylor_coefficient(offsets@[c], p as nat),
            ) by {
                assert(mg.at(p, c) == cols[c]@[p]);
            }
        }
        assert(mat_of(mg) =~= tm);
        let inv = match m.invert() {
            Some(inv) => inv,
            None => {
                return Err(DiscretiseError::InversionFailed);
            },
        };
        let cols = inv.get_cols();
        assert(columns_of(inv, cols@));
        let t = TaylorTable { cols, variable, stencil: offsets };
        assert(mg.is_inverse(&inv));
        Ok(t)
    }

    /// The points of `stencil` on the axis of `variable`.
    fn axis_points(stencil: &[(isize, isize)], variable: Variable) -> (r: Vec<isize>)
        ensures
            r@ == axis_offsets(stencil@, variable),
    {
        let mut out: Vec<isize> = Vec::new();
        let mut i: usize = 0;
        while i < stencil.len()
            invariant
                i <= stencil.len(),
                out@ == axis_offsets(stencil@.subrange(0, i as int), variable),
            decreases stencil.len() - i,
        {
            let (x, y) = stencil[i];
            proof {
                assert(stencil@.subrange(0, i + 1).drop_last() =~= stencil@.subrange(0, i as int));
            }
            match variable {
                Variable::X => {
                    if y == 0 {
                        out.push(x);
                    }
                },
                Variable::Y => {
                    if x == 0 {
                        out.push(y);
                    }
                },
            }
            i = i + 1;
        }
        assert(stencil@.subrange(0, stencil@.len() as int) =~= stencil@);
        out
    }

    fn all_distinct(s: &Vec<isize>) -> (r: bool)
        ensures
            r == distinct(s@),
    {
        let mut i: usize = 0;
        while i < s.len()
            invariant
                i <= s.len(),
                forall|a: int, b: int| 0 <= a < b < s.len() && a < i ==> s@[a] != s@[b],
            decreases s.len() - i,
        {
            let mut j: usize = i + 1;
            while j < s.len()
                invariant
                    i < s.len(),
                    i + 1 <= j <= s.len(),
                    forall|a: int, b: int| 0 <= a < b < s.len() && a < i ==> s@[a] != s@[b],
                    forall|b: int| i < b < j ==> s@[i as int] != s@[b],
                decreases s.len() - j,
            {
                if s[i] == s[j] {
                    return false;
                }
                j = j + 1;
            }
            i = i + 1;
        }
        true
    }

    /// The Taylor coefficients `o^p / p!` for `p < n`; `None` when a power or
    /// factorial does not fit in an `i64`.
    fn taylor_column(o: isize, n: usize) -> (r: Option<Vec<Rational>>)
        ensures
            r matches Some(col) ==> col.len() == n && forall|p: int|
                0 <= p < n ==> (#[trigger] col@[p]).wf() && frac_eq(
                    col@[p].frac(),
                    taylor_coefficient(o, p as nat),
                ) && Some(col@[p]) == rational_of(taylor_coefficient(o, p as nat)),
            r is Some <==> column_fits(o, n as nat),
    {
        let mut col: Vec<Rational> = Vec::new();
        let mut power: i64 = 1;
        let mut fct: i64 = 1;
        let mut p: usize = 0;
        proof {
            reveal(pow);
            assert(coefficient_fits(o, 0));
        }
        while p < n
            invariant
                p <= n,
                col.len() == p,
                p < n ==> power == pow(o as int, p as nat),
                power > i64::MIN,
                p < n ==> fct == factorial(p as nat),
                fct > 0,
                forall|q: int|
                    0 <= q < p ==> (#[trigger] col@[q]).wf() && frac_eq(
                        col@[q].frac(),
                        taylor_coefficient(o, q as nat),
                    ) && Some(col@[q]) == rational_of(taylor_coefficient(o, q as nat)),
                forall|q: nat| q <= p && q < n ==> #[trigger] coefficient_fits(o, q),
            decreases n - p,
        {
            col.push(Rational::new(power, fct));
            if p + 1 < n {
                proof {
                    reveal(pow);
                    assert(pow(o as int, (p + 1) as nat) == o * pow(o as int, p as nat));
                    assert(factorial((p + 1) as nat) == (p + 1) * factorial(p as nat));
                    assert(-0x7fff_ffff_ffff_ffff_ffff_ffff_ffff_ffff <= power as int * o as int
                        <= 0x7fff_ffff_ffff_ffff_ffff_ffff_ffff_ffff) by (nonlinear_arith)
                        requires
                            -0x7fff_ffff_ffff_ffff <= power <= 0x7fff_ffff_ffff_ffff,
                            -0x8000_0000_0000_0000 <= o <= 0x8000_0000_0000_0000,
                    ;
                    assert(fct as int * (p as int + 1) <= 0x7fff_ffff_ffff_ffff * 0x1_0000_0000_0000_0000)
                        by (nonlinear_arith)
                        requires
                            0 < fct <= 0x7fff_ffff_ffff_ffff,
                            0 <= p < 0xffff_ffff_ffff_ffff,
                    ;
                    assert(fct as int * (p as int + 1) > 0) by (nonlinear_arith)
                        requires
                            0 < fct,
                            0 <= p,
                    ;
                }
                let next_power = power as i128 * o as i128;
                let next_fct = fct as i128 * (p as i128 + 1);
                assert(next_power == pow(o as int, (p + 1) as nat)) by (nonlinear_arith)
                    requires
                        next_power == power as int * o as int,
                        pow(o as int, (p + 1) as nat) == o * pow(o as int, p as nat),
                        power == pow(o as int, p as nat),
                ;
                assert(next_fct == factorial((p + 1) as nat)) by (nonlinear_arith)
                    requires
                        next_fct == fct as int * (p as int + 1),
                        factorial((p + 1) as nat) == (p + 1) * factorial(p as nat),
                        fct == factorial(p as nat),
                ;
                if next_power > i64::MAX as i128 || next_power < -(i64::MAX as i128) || next_fct
                    > i64::MAX as i128 {
                    assert(!coefficient_fits(o, (p + 1) as nat));
                    return None;
                }
                assert(coefficient_fits(o, (p + 1) as nat));
                power = next_power as i64;
                fct = next_fct as i64;
            }
            p = p + 1;
        }
        Some(col)
    }

    /// The finite-difference approximation of the derivative of order
    /// `derivative_order`: the sum of `coeff · u[offset]` over the points
    /// whose coefficient is not zero; `None` when the stencil has too few
    /// points for that order.
    pub fn get_scheme(&self, derivative_order: usize) -> (r: Option<MeshExpr>)
        requires
            self.wf(),
        ensures
            r is None <==> derivative_order >= self.cols.len(),
            r matches Some(e) ==> e@ == scheme_of(*self, derivative_order as int),
    {
        if derivative_order >= self.cols.len() {
            return None;
        }
        let col = &self.cols[derivative_order];
        let n = self.stencil.len();
        let mut terms: Vec<MeshExpr> = Vec::new();
        let mut i: usize = 0;
        while i < n
            invariant
                self.wf(),
                n == self.stencil.len(),
                col.len() == n,
                *col == self.cols[derivative_order as int],
                i <= n,
                views(terms@) == scheme_terms(col@, self.stencil@, self.variable, i as int),
            decreases n - i,
        {
            let coeff = col[i];
            if coeff.num != 0 {
                let offset = self.stencil[i];
                let point = match self.variable {
                    Variable::X => MeshExpr::AtOffset(offset, 0),
                    Variable::Y => MeshExpr::AtOffset(0, offset),
                };
                let mut factors: Vec<MeshExpr> = Vec::new();
                factors.push(MeshExpr::Constant(coeff));
                factors.push(point);
                proof {
                    lemma_views(factors@);
                    assert(views(factors@) =~= seq![Term::Const(coeff), point@]);
                }
                let term = MeshExpr::Prod(factors);
                proof {
                    lemma_views_push(terms@, term);
                }
                terms.push(term);
            }
            i = i + 1;
        }
        Some(MeshExpr::Sum(terms))
    }
}

/// The finite-difference approximation chosen for each derivative: a map
/// from (axis, order) to an expression on the mesh. A later insertion for a
/// key replaces an earlier one.
///
/// The entries are kept in a vector, searched from the newest, with the map
/// as its view: the pipeline fills it once with a handful of keys and then
/// only looks them up, and both operations are proved against the view with
/// the key kept as the pair it is. A hash map would need the pair encoded
/// as an integer, with a bound on the order to keep the encoding in range.
pub struct DerivativeApproximations {
    pub entries: Vec<((Variable, usize), MeshExpr)>,
}

pub open spec fn approximation_map(s: Seq<((Variable, usize), MeshExpr)>) -> Map<
    (Variable, usize),
    Term,
>
    decreases s.len(),
{
    if s.len() == 0 {
        Map::empty()
    } else {
        approximation_map(s.drop_last()).insert(s.last().0, s.last().1@)
    }
}

proof fn lemma_map_prefix(s: Seq<((Variable, usize), MeshExpr)>, i: int, key: (Variable, usize))
    requires
        0 <= i <= s.len(),
        forall|j: int| i <= j < s.len() ==> (#[trigger] s[j]).0 != key,
    ensures
        approximation_map(s).contains_key(key) == approximation_map(s.subrange(0, i)).contains_key(
            key,
        ),
        approximation_map(s).contains_key(key) ==> approximation_map(s)[key] == approximation_map(
            s.subrange(0, i),
        )[key],
    decreases s.len(),
{
    if s.len() == i {
        assert(s.subrange(0, i) =~= s);
    } else {
        let p = s.drop_last();
        assert(s[s.len() - 1].0 != key);
        assert forall|j: int| i <= j < p.len() implies (#[trigger] p[j]).0 != key by {
            assert(p[j] == s[j]);
        }
        lemma_map_prefix(p, i, key);
        assert(p.subrange(0, i) =~= s.subrange(0, i));
    }
}

impl View for DerivativeApproximations {
    type V = Map<(Variable, usize), Term>;

    open spec fn view(&self) -> Map<(Variable, usize), Term> {
        approximation_map(self.entries@)
    }
}

impl DerivativeApproximations {
    pub fn new() -> (r: DerivativeApproximations)
        ensures
            r@ == Map::<(Variable, usize), Term>::empty(),
    {
        DerivativeApproximations { entries: Vec::new() }
    }

    /// Sets the approximation of `key` to `value`.
    pub fn insert(&mut self, key: (Variable, usize), value: MeshExpr)
        ensures
            final(self)@ == old(self)@.insert(key, value@),
    {
        let ghost before = self.entries@;
        self.entries.push((key, value));
        proof {
            assert(self.entries@.drop_last() =~= before);
        }
    }

    /// The approximation of `key`, if there is one.
    pub fn get(&self, key: &(Variable, usize)) -> (r: Option<&MeshExpr>)
        ensures
            r is Some <==> self@.contains_key(*key),
            r matches Some(e) ==> e@ == self@[*key],
    {
        let mut i: usize = self.entries.len();
        while i > 0
            invariant
                i <= self.entries.len(),
                forall|j: int| i <= j < self.entries.len() ==> (#[trigger] self.entries@[j]).0 != *key,
            decreases i,
        {
            let e = &self.entries[i - 1];
            if e.0.0 == key.0 && e.0.1 == key.1 {
                proof {
                    lemma_map_prefix(self.entries@, i as int, *key);
                    assert(self.entries@.subrange(0, i as int).drop_last() =~= self.entries@.subrange(
                        0,
                        i - 1,
                    ));
                }
                return Some(&e.1);
            }
            i = i - 1;
        }
        proof {
            lemma_map_prefix(self.entries@, 0, *key);
        }
        None
    }
}

/// The stencil with the two coordinates of each point exchanged.
pub open spec fn swap_points(s: Seq<(isize, isize)>) -> Seq<(isize, isize)>
    decreases s.len(),
{
    if s.len() == 0 {
        Seq::empty()
    } else {
        swap_points(s.drop_last()).push((s.last().1, s.last().0))
    }
}

/// Mirroring a stencil exchanges its points on the two axes; so, by the
/// contract of `TaylorTable::new`, the mirrored stencil gives a table along
/// Y exactly when the stencil gives one along X, and fails in the same way.
pub proof fn lemma_axis_offsets_swap(s: Seq<(isize, isize)>)
    ensures
        axis_offsets(swap_points(s), Variable::Y) == axis_offsets(s, Variable::X),
        axis_offsets(swap_points(s), Variable::X) == axis_offsets(s, Variable::Y),
    decreases s.len(),
{
    if s.len() > 0 {
        lemma_axis_offsets_swap(s.drop_last());
        let w = swap_points(s.drop_last()).push((s.last().1, s.last().0));
        assert(w.drop_last() =~= swap_points(s.drop_last()));
    }
}

/// The two axes are treated alike: the table of a stencil along X and the
/// table of the mirrored stencil along Y have the same points and the same
/// coefficients, so their schemes differ only in which coordinate of each
/// grid offset is non-zero; and one table can be built exactly when the
/// other can.
pub proof fn lemma_tables_symmetric(s: Seq<(isize, isize)>, tx: TaylorTable, ty: TaylorTable)
    requires
        is_table_for(tx, s, Variable::X),
        is_table_for(ty, swap_points(s), Variable::Y),
    ensures
        tx.stencil@ == ty.stencil@,
        tx.cols.len() == ty.cols.len(),
        forall|c: int| 0 <= c < tx.cols.len() ==> (#[trigger] tx.cols[c])@ == ty.cols[c]@,
        forall|o: int|
            0 <= o < tx.cols.len() ==> #[trigger] scheme_of(ty, o) == Term::Sum(
                scheme_terms(tx.cols[o]@, tx.stencil@, Variable::Y, tx.stencil.len() as int),
            ),
{
    lemma_axis_offsets_swap(s);
    let n = tx.stencil.len() as int;
    assert forall|c: int| 0 <= c < tx.cols.len() implies (#[trigger] tx.cols[c])@ == ty.cols[c]@ by {
        assert forall|row: int| 0 <= row < n implies tx.cols[c]@[row] == ty.cols[c]@[row] by {
            assert(in_square(n, row, c));
            assert(tx.cols[c]@[row] == invert_spec(taylor_matrix(tx.stencil@), n)->Some_0(row, c));
            assert(ty.cols[c]@[row] == invert_spec(taylor_matrix(ty.stencil@), n)->Some_0(row, c));
        }
        assert(tx.cols[c]@ =~= ty.cols[c]@);
    }
}

} // verus!
