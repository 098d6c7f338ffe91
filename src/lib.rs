use vstd::prelude::*;

pub mod codec;
pub mod escape;
pub mod hash;
pub mod hook;
pub mod lang;
pub mod layering;
pub mod loader;
pub mod model;
pub mod shadow;
pub mod shellpid;
pub mod text;
pub mod trust;

verus! {

} // verus!
