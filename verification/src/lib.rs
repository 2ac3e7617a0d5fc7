//! A query-plan decorrelation engine.
//!
//! Given a relational-algebra plan tree containing dependent joins (joins
//! whose right input references columns produced only by the left input,
//! the standard lowering of correlated subqueries), the engine rewrites the
//! tree into an equivalent plan containing only ordinary joins.

pub mod plan;
pub mod query_tree;
pub mod unnesting;
