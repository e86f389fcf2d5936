//! Introspectable business rules: forward evaluation of records, backward solving
//! of the values that remain valid for one field, scope predicates for rules that
//! span records, and the rule text parser that compiles shapes into rules.

use vstd::prelude::*;

pub mod backward_solver;
pub mod constraint_set;
pub mod foreign_references;
pub mod forward_eval;
pub mod json;
pub mod names;
pub mod numbers;
pub mod predicate;
pub mod rdf;
pub mod scan;
pub mod scope_predicate;
pub mod shacl_ast;
pub mod shacl_parser;
pub mod text;

verus! {

} // verus!
