use discreet::discretise::{discretise, Discretisation, Stencil};
use discreet::error::DiscretiseError;
use discreet::grid::{boundary_nodes, Boundary};
use discreet::expression::{Expression, Variable};
use discreet::mesh_expr::MeshExpr;
use discreet::rational::Rational;
use discreet::taylor::{fact, DerivativeApproximations, TaylorTable};

fn q(num: i64, den: i64) -> Rational {
    Rational::new(num, den)
}

fn c(num: i64, den: i64) -> MeshExpr {
    MeshExpr::Constant(q(num, den))
}

#[test]
fn fact_test() {
    assert_eq!(fact(0), 1);
    assert_eq!(fact(1), 1);
    assert_eq!(fact(2), 2);
    assert_eq!(fact(3), 6);
    assert_eq!(fact(4), 24);
}

#[test]
fn one_sided_diff_3_nodes() {
    let stencil = vec![(-2, 0), (0, 1), (-1, 0), (0, 0)];
    let table = TaylorTable::new(stencil.as_slice(), Variable::X).unwrap();

    assert_eq!(
        table.cols,
        vec![
            vec![q(0, 1), q(0, 1), q(1, 1)],
            vec![q(1, 2), q(-2, 1), q(3, 2)],
            vec![q(1, 1), q(-2, 1), q(1, 1)]
        ]
    );

    assert_eq!(table.stencil, vec![-2, -1, 0]);

    assert_eq!(table.variable, Variable::X)
}

#[test]
fn forward_diff() {
    let stencil = vec![(0, 0), (1, 0)];
    let table = TaylorTable::new(stencil.as_slice(), Variable::X).unwrap();
    let scheme = table.get_scheme(1);

    assert_eq!(
        scheme.unwrap(),
        MeshExpr::Sum(vec![
            MeshExpr::Prod(vec![c(-1, 1), MeshExpr::AtOffset(0, 0)]),
            MeshExpr::Prod(vec![c(1, 1), MeshExpr::AtOffset(1, 0)])
        ])
    )
}

#[test]
fn central_second_derivative_along_y() {
    let stencil = vec![(0, -1), (0, 0), (0, 1), (1, 0)];
    let table = TaylorTable::new(stencil.as_slice(), Variable::Y).unwrap();
    assert_eq!(table.stencil, vec![-1, 0, 1]);
    assert_eq!(
        table.get_scheme(2).unwrap(),
        MeshExpr::Sum(vec![
            MeshExpr::Prod(vec![c(1, 1), MeshExpr::AtOffset(0, -1)]),
            MeshExpr::Prod(vec![c(-2, 1), MeshExpr::AtOffset(0, 0)]),
            MeshExpr::Prod(vec![c(1, 1), MeshExpr::AtOffset(0, 1)]),
        ])
    );
    assert_eq!(
        table.get_scheme(1).unwrap(),
        MeshExpr::Sum(vec![
            MeshExpr::Prod(vec![c(-1, 2), MeshExpr::AtOffset(0, -1)]),
            MeshExpr::Prod(vec![c(1, 2), MeshExpr::AtOffset(0, 1)]),
        ])
    );
    assert!(table.get_scheme(3).is_none());
}

#[test]
fn duplicate_offsets_are_singular() {
    let stencil = vec![(0, 0), (1, 0), (1, 0)];
    assert!(matches!(
        TaylorTable::new(stencil.as_slice(), Variable::X),
        Err(DiscretiseError::SingularStencil)
    ));
}

#[test]
fn huge_offsets_fail_inversion() {
    let far: isize = 1 << 40;
    let stencil = vec![(0, 0), (far, 0), (2 * far, 0)];
    assert!(matches!(
        TaylorTable::new(stencil.as_slice(), Variable::X),
        Err(DiscretiseError::InversionFailed)
    ));
}

#[test]
fn approximations_map() {
    let mut approx = DerivativeApproximations::new();
    assert!(approx.get(&(Variable::X, 1)).is_none());
    approx.insert((Variable::X, 1), c(1, 1));
    approx.insert((Variable::Y, 1), c(2, 1));
    approx.insert((Variable::X, 1), c(3, 1));
    assert_eq!(approx.get(&(Variable::X, 1)), Some(&c(3, 1)));
    assert_eq!(approx.get(&(Variable::Y, 1)), Some(&c(2, 1)));
    assert!(approx.get(&(Variable::Y, 2)).is_none());
}

fn advection() -> Expression {
    // u_y + c * u_x = 0
    Expression::Sum(vec![
        Expression::Derivative(Variable::Y, 1),
        Expression::Prod(vec![
            Expression::SymbolicConstant("c".to_string()),
            Expression::Derivative(Variable::X, 1),
        ]),
    ])
}

#[test]
fn from_diff_eq_lowers_structurally() {
    let mut approx = DerivativeApproximations::new();
    approx.insert((Variable::X, 1), c(7, 1));
    let eq = Expression::Prod(vec![
        Expression::SymbolicConstant("f".to_string()),
        Expression::SymbolicConstant("k".to_string()),
        Expression::Derivative(Variable::X, 1),
        Expression::Negate(Box::new(Expression::SolutionVal)),
    ]);
    let fns = vec!["f".to_string()];
    assert_eq!(
        MeshExpr::from_diff_eq(eq, fns.as_slice(), &approx),
        Ok(MeshExpr::Prod(vec![
            MeshExpr::FunctionVal("f".to_string()),
            MeshExpr::SymbolicConst("k".to_string()),
            c(7, 1),
            MeshExpr::Negate(Box::new(MeshExpr::AtOffset(0, 0))),
        ]))
    );
    let missing = Expression::Derivative(Variable::Y, 2);
    assert_eq!(
        MeshExpr::from_diff_eq(missing, fns.as_slice(), &approx),
        Err(DiscretiseError::UnknownDerivative(Variable::Y, 2))
    );
}

#[test]
fn discretise_advection() {
    let stencil = Stencil { points: vec![(-1, 0), (0, 0), (0, -1)] };
    let constants = vec!["c".to_string()];
    let d: Discretisation = discretise(advection(), &stencil, constants.as_slice(), &[]).unwrap();
    // u_y ≈ u[0,0] - u[0,-1], u_x ≈ u[0,0] - u[-1,0], in stencil order
    let uy = MeshExpr::Sum(vec![
        MeshExpr::Prod(vec![c(1, 1), MeshExpr::AtOffset(0, 0)]),
        MeshExpr::Prod(vec![c(-1, 1), MeshExpr::AtOffset(0, -1)]),
    ]);
    let ux = MeshExpr::Sum(vec![
        MeshExpr::Prod(vec![c(-1, 1), MeshExpr::AtOffset(-1, 0)]),
        MeshExpr::Prod(vec![c(1, 1), MeshExpr::AtOffset(0, 0)]),
    ]);
    assert_eq!(
        d.residual,
        MeshExpr::Sum(vec![
            uy.copy(),
            MeshExpr::Prod(vec![MeshExpr::SymbolicConst("c".to_string()), ux.copy()]),
        ])
    );
    assert_eq!(d.names, vec!["c".to_string()]);
    assert_eq!(d.update, d.residual.copy().find_root_linear(&MeshExpr::AtOffset(0, 0)));
}

#[test]
fn discretise_errors() {
    let stencil = Stencil { points: vec![(-1, 0), (0, 0), (0, -1)] };
    assert_eq!(
        discretise(advection(), &stencil, &[], &[]).err(),
        Some(DiscretiseError::UnknownIdentifier("c".to_string()))
    );
    let second = Expression::Derivative(Variable::Y, 2);
    assert_eq!(
        discretise(second, &stencil, &[], &[]).err(),
        Some(DiscretiseError::UnknownDerivative(Variable::Y, 2))
    );
    let cross = Expression::Sum(vec![
        Expression::CrossDerivative(vec![Variable::X, Variable::Y]),
        Expression::SolutionVal,
    ]);
    assert_eq!(
        discretise(cross, &stencil, &[], &[]).err(),
        Some(DiscretiseError::UnsupportedConstruct)
    );
    let doubled = Stencil { points: vec![(0, 0), (0, 0), (1, 0)] };
    assert_eq!(
        discretise(Expression::Derivative(Variable::X, 1), &doubled, &[], &[]).err(),
        Some(DiscretiseError::SingularStencil)
    );
}

#[test]
fn boundary_nodes_of_grid() {
    assert_eq!(boundary_nodes(Boundary::Bottom, 3, 2), vec![(0, 0), (1, 0), (2, 0)]);
    assert_eq!(boundary_nodes(Boundary::Top, 3, 2), vec![(0, 1), (1, 1), (2, 1)]);
    assert_eq!(boundary_nodes(Boundary::Left, 3, 2), vec![(0, 0), (0, 1)]);
    assert_eq!(boundary_nodes(Boundary::Right, 3, 2), vec![(2, 0), (2, 1)]);
}

#[test]
fn mirrored_stencil_gives_same_coefficients() {
    let stencil = vec![(-2, 0), (0, 1), (-1, 0), (0, 0)];
    let mirrored: Vec<(isize, isize)> = stencil.iter().map(|&(i, j)| (j, i)).collect();
    let tx = TaylorTable::new(stencil.as_slice(), Variable::X).unwrap();
    let ty = TaylorTable::new(mirrored.as_slice(), Variable::Y).unwrap();
    assert_eq!(tx.cols, ty.cols);
    assert_eq!(tx.stencil, ty.stencil);
}

#[test]
fn second_derivative_on_two_points_is_unknown() {
    let stencil = Stencil { points: vec![(0, 0), (1, 0)] };
    assert_eq!(
        discretise(Expression::Derivative(Variable::X, 2), &stencil, &[], &[]).err(),
        Some(DiscretiseError::UnknownDerivative(Variable::X, 2))
    );
}
