//! A minimal symbolic computation library: exact rational arithmetic over
//! terms, expressions, rational expressions and polynomials.

pub mod rational;
pub mod divisibility;
pub mod text;
pub mod forms;
pub mod operations;
pub mod algos;
pub mod laws;
pub mod sums;
pub mod products;
pub mod round_trip;
pub mod substitution;
pub mod cancellation;
pub mod product_rule;
pub mod powers;
pub mod linearity;
pub mod expansion;
pub mod vieta;

pub use forms::variable::Variable;
pub use forms::term::Term;
pub use forms::expression::Expression;
pub use forms::rational_expression::RationalExpression;
pub use forms::polynomial::Polynomial;
pub use algos::elementary_symmetric_polynomials::ElementarySymmetricPolynomials;
pub use rational::{Rational, rational_lcm};
