//! A reactive user-interface core: signal-based state with dependency
//! tracking, a scope scheduler, a declarative router with typed path
//! parameters and nested layouts, and a virtual element model.
//!
//! The library only computes: it decides which scopes re-evaluate, which
//! route a URL matches, and what virtual tree a component produces. Applying
//! that tree to a real document is left to an external renderer.

pub mod decimal;
pub mod nav;
pub mod reactive;
pub mod router;
pub mod runtime;
pub mod velem;
pub mod value;

use vstd::prelude::*;

verus! {

} // verus!
