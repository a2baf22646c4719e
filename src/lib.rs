//! An arithmetic expression evaluator built as a three-stage pipeline:
//! characters are grouped into tokens, the infix tokens are reordered into
//! postfix order by the shunting-yard method, and the postfix sequence is
//! folded with a value stack into an expression tree whose numeric value the
//! caller computes.
pub mod eval;
pub mod laws;
pub mod lexer;
pub mod pipeline;
pub mod postfix;
pub mod token;
