pub mod discretise;
pub mod error;
pub mod expression;
pub mod grid;
pub mod matrix;
pub mod matrix_laws;
pub mod mesh_expr;
pub mod rational;
pub mod taylor;
pub mod term;
