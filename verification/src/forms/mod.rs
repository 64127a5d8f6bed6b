//! The fundamental structures for symbolic computation.

pub mod variable;
pub mod monomial;
pub mod term;
pub mod expression;
pub mod term_lcm;
pub mod rational_expression;
pub mod polynomial;
pub mod cumulative;
