//! What holds of the store across its operations.

pub mod append;
pub mod mirror;
pub mod sealing;
pub mod truncate;
