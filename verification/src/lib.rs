//! A minimal symbolic algebra engine for integer shape arithmetic.
//!
//! Expressions over single-character variables and a fixed operator
//! vocabulary are stored as postfix term sequences, simplified by a
//! fixed-point peephole rewriter, and evaluated by a stack machine.

pub mod term;
pub mod semantics;
pub mod storage;
pub mod simplify;
pub mod expr;
pub mod ops;
pub mod eval;
pub mod minimize;
pub mod subst;
pub mod laws;
pub mod render;

pub use expr::BigExpression;
pub use expr::Expression;
pub use expr::GenericExpression;
pub use storage::ExpressionStorage;
pub use term::Term;
pub use term::INFINITY;
