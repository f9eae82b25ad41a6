//! Named, composable environments.
//!
//! A configuration holds environments under names. An environment sets,
//! appends and prepends variables, adds scripts and path entries, and may
//! reuse other environments by name. This library finds what a requested
//! environment brings in ([`list_all_envs_for`], [`resolve`]), merges it into
//! one effective environment ([`merge`], [`merge_all`],
//! [`effective_environment`]), and renders the result as lines of text
//! ([`render_environment`], [`render_environments`], [`list_environments`]).

use vstd::prelude::*;

pub mod assoc;
pub mod environment;
pub mod merger;
pub mod presenter;
pub mod resolver;
pub mod shapes;
pub mod store;
pub mod text;
pub mod varmap;

pub use environment::Environment;
pub use merger::{effective_environment, merge, merge_all};
pub use presenter::{list_environments, render_environment, render_environments};
pub use resolver::{list_all_envs_for, resolve, ResolveError};
pub use store::ConfigStore;
pub use varmap::VarMap;

verus! {

} // verus!
