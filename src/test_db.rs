//! Errors of the in-memory test database that query tests run against.
use vstd::prelude::*;

verus! {

/// Errors of the test database.
#[derive(Debug)]
pub enum TestError {
    General { message: String },
    Execution { message: String },
    DatabaseWrite { message: String },
}

impl TestError {
    /// A description of the error.
    pub fn message(&self) -> (r: String)
        ensures
            r@ == match self {
                TestError::General { message } => "Test database error: "@ + message@,
                TestError::Execution { message } => "Test database execution:  "@ + message@,
                TestError::DatabaseWrite { message } => "Test error writing to database: "@
                    + message@,
            },
    {
        let (prefix, message) = match self {
            TestError::General { message } => ("Test database error: ", message),
            TestError::Execution { message } => ("Test database execution:  ", message),
            TestError::DatabaseWrite { message } => ("Test error writing to database: ", message),
        };
        let mut s = String::from_str(prefix);
        s.append(message.as_str());
        s
    }
}

} // verus!
