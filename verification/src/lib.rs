//! Polynomial least-squares regression over exact rational arithmetic.
//!
//! Given an ordered sequence of sample points and a requested degree, the
//! engine builds the normal equations of the least-squares problem, solves
//! them by Gaussian elimination (forward elimination followed by back
//! substitution, without pivoting), and evaluates the fitted polynomial at
//! arbitrary query points.  All numbers are exact rationals held as pairs of
//! `i128`; every arithmetic step is checked, so a computation whose
//! intermediate values leave `i128` reports an overflow instead of returning
//! a wrong coefficient.

pub mod rational;
pub mod solver;
pub mod regress;
pub mod laws;
