//! The tools, one for each minigame, and the way they are started.

pub mod automation_attack;
pub mod boot_breaker;
pub mod launcher;

use vstd::prelude::*;

verus! {

/// A helper for one minigame.
pub trait Tool {
    /// The name that the tool goes by.
    spec fn called(&self) -> Seq<char>;

    /// The name that the tool goes by.
    fn name(&self) -> (name: &'static str)
        ensures
            name@ == self.called(),
    ;
}

} // verus!
