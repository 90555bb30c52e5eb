//! Proposes follow-up multidimensional queries from a session, a model
//! description and a summary of the last result.

pub mod json;
pub mod seqs;
pub mod text;
pub mod validate;
pub mod session;
pub mod model;
pub mod types;
pub mod mqo;
pub mod proposer;
pub mod cli;
pub mod laws;
pub mod guarantees;
