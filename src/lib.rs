//! An inductive logic programming learner over a typed graph database: clauses
//! with per-variable type environments, a schema-guided refinement operator, and
//! the decisions of the FOIL and TILDE search strategies.
pub mod text;
pub mod language;
pub mod clause;
pub mod dataset;
pub mod foil;
pub mod tilde;
