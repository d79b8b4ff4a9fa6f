//! Semantic name resolution for a hardware-description language with
//! VHDL-like scoping, overloading and selected (dotted) names.
//!
//! Given a syntax subtree and the symbol graph built by the declaration pass,
//! the resolver binds every name occurrence to the declarations it denotes,
//! records the binding in the name's reference slot, and reports every local
//! resolution failure as a diagnostic without giving up on the rest of the
//! subtree.  Only structural defects of the symbol graph itself stop the
//! analysis of the enclosing unit.

use vstd::prelude::*;

pub mod analyze;
pub mod ast;
pub mod diagnostics;
pub mod lookup;
pub mod resolve;
pub mod symbols;

verus! {

} // verus!
