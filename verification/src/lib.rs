//! A dependency-driven SQL transformation pipeline: named model definitions
//! are rendered through a template engine, their table references are
//! extracted from the parsed SQL and filtered to the registered models, the
//! resulting graph is scheduled depth-first with every dependency before its
//! dependent, and each model's statements are validated and rewritten into
//! view or table materializations for the host to execute in order.
pub mod errors;
pub mod node;
pub mod render;
pub mod schedule;
pub mod session;
pub mod sqlrefs;
pub mod text;
