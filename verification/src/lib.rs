//! Parses a textual polynomial equation of bounded degree, reduces it to a
//! canonical coefficient table, and solves it exactly for degrees 0 to 2.
//!
//! Coefficients are decimal literals with at most nine fractional digits;
//! they are held as exact fixed-point integers (units of one billionth), so
//! parsing, reduction, degree classification and root construction are all
//! exact and fully specified. Roots are returned in exact symbolic form
//! (rationals and quadratic surds); callers that want floating-point
//! approximations evaluate those forms themselves.

pub mod errors;
pub mod numbers;
pub mod parser;
pub mod poly;
pub mod render;
pub mod solver;
