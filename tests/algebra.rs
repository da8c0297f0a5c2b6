use discreet::expression::{Expression, Variable};
use discreet::matrix::SquareMat;
use discreet::mesh_expr::MeshExpr;
use discreet::rational::Rational;

fn q(num: i64, den: i64) -> Rational {
    Rational::new(num, den)
}

fn c(num: i64, den: i64) -> MeshExpr {
    MeshExpr::Constant(q(num, den))
}

fn u() -> MeshExpr {
    MeshExpr::AtOffset(0, 0)
}

#[test]
fn substituting_derivatives() {
    fn get_fd_expr() -> Expression {
        Expression::Constant(q(42, 1))
    }

    let sub_fn = |e: &Expression| match e {
        Expression::Derivative(_, _) => Some(get_fd_expr()),
        _ => None,
    };

    let expr = Expression::Prod(vec![
        Expression::Constant(q(54, 100)),
        Expression::Derivative(Variable::X, 1),
    ]);

    let e = expr.substitute(&sub_fn);

    assert_eq!(
        e,
        Expression::Prod(vec![Expression::Constant(q(54, 100)), Expression::Constant(q(42, 1))])
    );
}

#[test]
fn example() {
    let sub_fn = |e: &Expression| match e {
        Expression::SolutionVal => Some(Expression::Constant(q(1, 2))),
        _ => None,
    };

    let expr = Expression::Sum(vec![
        Expression::Negate(Box::new(Expression::SolutionVal)),
        Expression::Reciprocal(Box::new(Expression::Derivative(Variable::Y, 2))),
    ]);

    assert_eq!(
        expr.substitute(&sub_fn),
        Expression::Sum(vec![
            Expression::Negate(Box::new(Expression::Constant(q(1, 2)))),
            Expression::Reciprocal(Box::new(Expression::Derivative(Variable::Y, 2))),
        ])
    );
}

#[test]
fn substitute_replaces_whole_subtree() {
    let seen = std::cell::Cell::new(0);
    let sub_fn = |e: &Expression| {
        seen.set(seen.get() + 1);
        match e {
            Expression::Negate(_) => Some(Expression::SolutionVal),
            _ => None,
        }
    };
    let expr = Expression::Negate(Box::new(Expression::Derivative(Variable::X, 1)));
    assert_eq!(expr.substitute(&sub_fn), Expression::SolutionVal);
    assert_eq!(seen.get(), 1);
}

#[test]
fn replace_children_maps_children_only() {
    let expr = Expression::Sum(vec![Expression::SolutionVal, Expression::Derivative(Variable::X, 2)]);
    let r = expr.replace_children(|e| Expression::Negate(Box::new(e)));
    assert_eq!(
        r,
        Expression::Sum(vec![
            Expression::Negate(Box::new(Expression::SolutionVal)),
            Expression::Negate(Box::new(Expression::Derivative(Variable::X, 2))),
        ])
    );
    let leaf = Expression::SolutionVal.replace_children(|e| Expression::Negate(Box::new(e)));
    assert_eq!(leaf, Expression::SolutionVal);
}

#[test]
fn required_derivatives_with_repetitions() {
    let expr = Expression::Sum(vec![
        Expression::Derivative(Variable::Y, 1),
        Expression::Prod(vec![
            Expression::SymbolicConstant("c".to_string()),
            Expression::Derivative(Variable::X, 2),
        ]),
        Expression::Negate(Box::new(Expression::Derivative(Variable::Y, 1))),
        Expression::CrossDerivative(vec![Variable::X, Variable::Y]),
    ]);
    assert_eq!(
        expr.list_required_derivatives(),
        vec![(Variable::Y, 1), (Variable::X, 2), (Variable::Y, 1)]
    );
}

#[test]
fn variable_from_char() {
    assert_eq!(Variable::from_char('x'), Some(Variable::X));
    assert_eq!(Variable::from_char('y'), Some(Variable::Y));
    assert_eq!(Variable::from_char('z'), None);
}

#[test]
fn matrix_inv() {
    let mat = SquareMat::new(vec![
        vec![q(1, 1), q(-1, 2), q(1, 1)],
        vec![q(1, 1), q(0, 1), q(1, 1)],
        vec![q(1, 2), q(3, 2), q(1, 1)],
    ]);

    let inverse = mat.invert().unwrap();

    assert_eq!(
        inverse,
        SquareMat::new(vec![
            vec![q(-6, 1), q(8, 1), q(-2, 1)],
            vec![q(-2, 1), q(2, 1), q(0, 1)],
            vec![q(6, 1), q(-7, 1), q(2, 1)]
        ])
    )
}

#[test]
fn matrix_get_cols() {
    let mat = SquareMat::new(vec![
        vec![q(1, 1), q(-1, 2), q(1, 1)],
        vec![q(1, 1), q(0, 1), q(1, 1)],
        vec![q(1, 2), q(3, 2), q(1, 1)],
    ]);

    assert_eq!(
        mat.get_cols(),
        vec![
            vec![q(1, 1), q(-1, 2), q(1, 1)],
            vec![q(1, 1), q(0, 1), q(1, 1)],
            vec![q(1, 2), q(3, 2), q(1, 1)],
        ]
    )
}

#[test]
fn matrix_round_trip() {
    let cols = vec![
        vec![q(2, 1), q(1, 3), q(0, 1)],
        vec![q(-1, 1), q(4, 1), q(1, 2)],
        vec![q(5, 7), q(0, 1), q(3, 1)],
    ];
    let matrix = SquareMat::new(cols.clone());
    let inverse = SquareMat::new(cols.clone()).invert().unwrap();
    let product = matrix.multiply(&inverse).unwrap();
    assert!(product.is_identity());
    assert_eq!(product, SquareMat::ident(3));
    let back = inverse.invert().unwrap();
    assert_eq!(back, SquareMat::new(cols));
}

#[test]
fn matrix_singular_has_no_inverse() {
    let mat = SquareMat::new(vec![vec![q(1, 1), q(2, 1)], vec![q(2, 1), q(4, 1)]]);
    assert_eq!(mat.invert(), None);
}

#[test]
fn matrix_row_operations() {
    let mut mat = SquareMat::new(vec![vec![q(1, 1), q(3, 1)], vec![q(2, 1), q(4, 1)]]);
    assert!(mat.row_scale(0, q(1, 2)));
    assert_eq!(mat.get_at(0, 0), q(1, 2));
    assert_eq!(mat.get_at(0, 1), q(1, 1));
    assert!(mat.row_sub(1, 0, q(6, 1)));
    assert_eq!(mat.get_at(1, 0), q(0, 1));
    assert_eq!(mat.get_at(1, 1), q(-2, 1));
    assert_eq!(SquareMat::get_index(3, 1, 2), 7);
    let mut big = SquareMat::new(vec![vec![q(i64::MAX, 1)]]);
    assert!(!big.row_scale(0, q(2, 1)));
    assert_eq!(big.get_at(0, 0), q(i64::MAX, 1));
}

#[test]
fn product_rule() {
    let expr = MeshExpr::Prod(vec![MeshExpr::AtOffset(0, 0), MeshExpr::AtOffset(0, 0)]);

    assert_eq!(
        expr.differentiate(&MeshExpr::AtOffset(0, 0)).simplify(),
        MeshExpr::Sum(vec![MeshExpr::AtOffset(0, 0), MeshExpr::AtOffset(0, 0),]),
    );
}

#[test]
fn differentiate_negate_and_reciprocal() {
    let neg = MeshExpr::Negate(Box::new(u()));
    assert_eq!(neg.differentiate(&u()), MeshExpr::Negate(Box::new(c(1, 1))));
    let rec = MeshExpr::Reciprocal(Box::new(u()));
    assert_eq!(
        rec.differentiate(&u()),
        MeshExpr::Negate(Box::new(MeshExpr::Prod(vec![
            c(1, 1),
            MeshExpr::Reciprocal(Box::new(MeshExpr::Prod(vec![u(), u()]))),
        ])))
    );
    assert_eq!(MeshExpr::AtOffset(1, 0).differentiate(&u()), c(0, 1));
    assert_eq!(MeshExpr::Prod(vec![]).differentiate(&u()), c(0, 1));
}

#[test]
fn simplify_rules() {
    let nested = MeshExpr::Sum(vec![
        c(0, 1),
        MeshExpr::Sum(vec![u(), MeshExpr::AtOffset(1, 0)]),
        MeshExpr::Prod(vec![c(1, 1), MeshExpr::AtOffset(0, 1)]),
    ]);
    assert_eq!(
        nested.simplify(),
        MeshExpr::Sum(vec![u(), MeshExpr::AtOffset(1, 0), MeshExpr::AtOffset(0, 1)])
    );
    assert_eq!(MeshExpr::Prod(vec![u(), c(0, 1)]).simplify(), c(0, 1));
    assert_eq!(MeshExpr::Prod(vec![]).simplify(), c(1, 1));
    assert_eq!(MeshExpr::Prod(vec![c(1, 1), c(1, 1)]).simplify(), c(1, 1));
    assert_eq!(MeshExpr::Negate(Box::new(c(0, 1))).simplify(), c(0, 1));
    assert_eq!(MeshExpr::Reciprocal(Box::new(c(1, 1))).simplify(), c(1, 1));
    assert_eq!(MeshExpr::Sum(vec![c(0, 1)]).simplify(), MeshExpr::Sum(vec![]));
}

#[test]
fn simplify_idempotent_examples() {
    let trees = vec![
        MeshExpr::Negate(Box::new(MeshExpr::Prod(vec![c(0, 1), u()]))),
        MeshExpr::Reciprocal(Box::new(MeshExpr::Sum(vec![c(1, 1), c(0, 1)]))),
        MeshExpr::Sum(vec![
            MeshExpr::Sum(vec![MeshExpr::Sum(vec![u()]), c(0, 1)]),
            MeshExpr::Prod(vec![MeshExpr::Prod(vec![c(1, 1)]), MeshExpr::AtOffset(2, 0)]),
        ]),
        MeshExpr::Prod(vec![MeshExpr::SymbolicConst("k".to_string()), MeshExpr::Sum(vec![])]),
    ];
    for t in trees {
        let once = t.simplify();
        let twice = once.copy().simplify();
        assert_eq!(once, twice);
    }
    assert_eq!(
        MeshExpr::Negate(Box::new(MeshExpr::Prod(vec![c(0, 1), u()]))).simplify(),
        c(0, 1)
    );
}

#[test]
fn substitute_structural() {
    let expr = MeshExpr::Sum(vec![
        MeshExpr::Prod(vec![c(2, 1), u()]),
        MeshExpr::Negate(Box::new(u())),
        MeshExpr::AtOffset(1, 0),
    ]);
    let r = expr.substitute(&u(), &c(5, 1));
    assert_eq!(
        r,
        MeshExpr::Sum(vec![
            MeshExpr::Prod(vec![c(2, 1), c(5, 1)]),
            MeshExpr::Negate(Box::new(c(5, 1))),
            MeshExpr::AtOffset(1, 0),
        ])
    );
    let whole = MeshExpr::Negate(Box::new(u()));
    assert_eq!(whole.substitute(&MeshExpr::Negate(Box::new(u())), &c(1, 1)), c(1, 1));
}

#[test]
fn linear_root_affine() {
    let residual = MeshExpr::Sum(vec![MeshExpr::Prod(vec![c(2, 1), u()]), c(3, 1)]);
    assert_eq!(
        residual.find_root_linear(&u()),
        MeshExpr::Negate(Box::new(MeshExpr::Prod(vec![
            c(3, 1),
            MeshExpr::Reciprocal(Box::new(c(2, 1))),
        ])))
    );
    let unit = MeshExpr::Sum(vec![MeshExpr::Prod(vec![c(1, 1), u()]), c(-4, 1)]);
    assert_eq!(unit.find_root_linear(&u()), MeshExpr::Negate(Box::new(c(-4, 1))));
}

#[test]
fn rational_arithmetic() {
    assert_eq!(q(6, -4), Rational { num: -3, den: 2 });
    assert_eq!(q(0, -7), Rational { num: 0, den: 1 });
    assert_eq!(q(1, 2).checked_add(&q(1, 3)), Some(q(5, 6)));
    assert_eq!(q(1, 2).checked_sub(&q(1, 2)), Some(q(0, 1)));
    assert_eq!(q(2, 3).checked_mul(&q(9, 4)), Some(q(3, 2)));
    assert_eq!(q(2, 3).checked_div(&q(4, 9)), Some(q(3, 2)));
    assert_eq!(q(2, 3).checked_div(&q(0, 1)), None);
    assert_eq!(q(i64::MAX, 1).checked_add(&q(1, 1)), None);
    assert!(q(3, 3).is_one());
    assert!(q(0, 5).is_zero());
}

#[test]
fn row_sub_on_its_own_row() {
    let mut mat = SquareMat::new(vec![vec![q(2, 1), q(4, 1)], vec![q(6, 1), q(8, 1)]]);
    assert!(mat.row_sub(0, 0, q(1, 2)));
    assert_eq!(mat.get_at(0, 0), q(1, 1));
    assert_eq!(mat.get_at(0, 1), q(3, 1));
    assert_eq!(mat.get_at(1, 0), q(4, 1));
}

#[test]
fn multiply_overflow_is_none() {
    let big = SquareMat::new(vec![vec![q(i64::MAX, 1)]]);
    let two = SquareMat::new(vec![vec![q(2, 1)]]);
    assert_eq!(big.multiply(&two), None);
    let zero_pivot = SquareMat::new(vec![vec![q(0, 1), q(1, 1)], vec![q(1, 1), q(0, 1)]]);
    assert_eq!(zero_pivot.invert(), None);
}
