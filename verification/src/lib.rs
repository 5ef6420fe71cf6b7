//! A declarative terminal-interface library: markup is compiled into a
//! tree of typed components whose screen areas are solved per frame by
//! a one-dimensional constraint solver, and whose attribute values may
//! be templated against a shared runtime store.

use vstd::prelude::*;

pub mod attribute;
pub mod compiler;
pub mod component;
pub mod layout;
pub mod markup;
pub mod render;
pub mod store;
pub mod str_util;
pub mod utils;

verus! {

} // verus!
