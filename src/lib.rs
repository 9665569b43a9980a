//! Names, type descriptors and method descriptors of a class-file virtual
//! machine, with verified formatting and parsing.
use vstd::prelude::*;

pub mod error;
pub mod class;
pub mod ident;
pub mod input;
pub mod method;
pub mod ty;

verus! {

} // verus!
