//! A streaming corrector for one malformed-JSON defect: a semicolon typed in
//! place of the colon that separates an object key from its value. The
//! scanner tracks string-literal context and the last significant character,
//! rewrites exactly those semicolons that immediately follow a closed string
//! literal, and counts the rewrites. Everything else passes through
//! character-for-character, across arbitrary buffer boundaries.

pub mod codec;
pub mod corrector;
pub mod scanner;

pub use corrector::{run, CorrectError, Corrector};
pub use scanner::ScanState;
