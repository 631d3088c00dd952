//! What holds of the library as a whole.

pub mod answers;
pub mod arithmetic;
pub mod grammar;
pub mod lines;
pub mod reentry;
pub mod registry;
pub mod sessions;
pub mod texts;
pub mod tokens;
pub mod values;
