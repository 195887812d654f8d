//! Classical substitution ciphers over the letters `a` to `z`, with a solver
//! that recovers a Caesar shift from letter frequencies.

pub mod caesar;
pub mod lowercase_string;
pub mod natural;
pub mod ratio;
pub mod solver;
pub mod utils;
pub mod vigenere;

pub use lowercase_string::LowercaseString;
pub use solver::Solver;
