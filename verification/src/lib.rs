//! Exact symbolic algebra on expression trees: rational literals, n-ary
//! sums and products, a two-pass rewrite engine driven to a fixpoint, and
//! fully parenthesized infix rendering.

pub mod expr;
pub mod laws;
pub mod num;
pub mod simplify;
