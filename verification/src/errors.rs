//! Error kinds of the pipeline: run-fatal discovery errors, per-model
//! definition errors, and per-statement execution failures.
use vstd::prelude::*;
use vstd::string::StringExecFns;

verus! {

/// An error raised while discovering, rendering, planning or executing a
/// model.
#[derive(Debug)]
pub enum ArnabError {
    /// A general error described by its message alone.
    Error(String),
    /// A statement failed against the engine; carries the engine's message,
    /// the offending SQL fragment and the model's source path.
    StatementExecutionError { msg: String, sql: String, path: String },
    /// A model source file whose declared type is not a known one.
    UnknownModelType(String),
}

impl Clone for ArnabError {
    /// Copies the error, keeping every field.
    fn clone(&self) -> (r: Self)
        ensures
            r == *self,
    {
        match self {
            ArnabError::Error(m) => ArnabError::Error(m.clone()),
            ArnabError::StatementExecutionError { msg, sql, path } => {
                ArnabError::StatementExecutionError {
                    msg: msg.clone(),
                    sql: sql.clone(),
                    path: path.clone(),
                }
            },
            ArnabError::UnknownModelType(t) => ArnabError::UnknownModelType(t.clone()),
        }
    }
}

/// The one-line rendering of an error.
pub open spec fn message_of(e: ArnabError) -> Seq<char> {
    match e {
        ArnabError::Error(m) => m@,
        ArnabError::StatementExecutionError { msg, sql, path } => "Failed to execute SQL statement. Source path: "@
            + path@ + " Error: "@ + msg@ + " SQL: "@ + sql@,
        ArnabError::UnknownModelType(t) => "Unknown model type: "@ + t@,
    }
}

impl ArnabError {
    /// Renders the error as one line of text.
    pub fn message(&self) -> (r: String)
        ensures
            r@ == message_of(*self),
    {
        match self {
            ArnabError::Error(m) => m.clone(),
            ArnabError::StatementExecutionError { msg, sql, path } => {
                let mut out = String::new();
                out.append("Failed to execute SQL statement. Source path: ");
                out.append(path.as_str());
                out.append(" Error: ");
                out.append(msg.as_str());
                out.append(" SQL: ");
                out.append(sql.as_str());
                out
            },
            ArnabError::UnknownModelType(t) => {
                let mut out = String::new();
                out.append("Unknown model type: ");
                out.append(t.as_str());
                out
            },
        }
    }
}

} // verus!
