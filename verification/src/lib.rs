use vstd::prelude::*;

pub mod auth;
pub mod avatars;
pub mod count;
pub mod dismissal;
pub mod github;
pub mod menu;
pub mod model;
pub mod order;
pub mod outline;
pub mod text;
pub mod tree;
pub mod worker;

verus! {

} // verus!
