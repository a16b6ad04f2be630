//! A `mkdir`-style library: a symbolic permission-mode parser and a
//! directory-creation planner, with verified contracts.

use vstd::prelude::*;

mod dirs;
mod mode;

pub use dirs::CreateAction;
pub use dirs::CreationPlan;
pub use dirs::ancestor_prefixes;
pub use dirs::creation_plan;
pub use mode::Mode;
pub use mode::ModeError;

verus! {

/// One invocation's worth of requests: the directories to create and the
/// flags that apply to all of them.
pub struct Config {
    /// The requested directory paths, in command-line order.
    pub dir_name: Vec<String>,
    /// Create missing ancestor directories, and do not fail when the
    /// target already exists.
    pub parents: bool,
    /// Report each newly created directory.
    pub verbose: bool,
    /// Permission flags to apply to each directory after creation, if any.
    pub mode: Option<Mode>,
}

} // verus!
