//! A trivia question corpus: a loader that parses a delimited record
//! source into validated questions, and the session loop that drives an
//! interactive read/respond cycle until a sentinel line or the end of
//! the input stream.

pub mod records;
pub mod session;
pub mod trivia;
