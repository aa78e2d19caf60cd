//! The Boot Breaker helper: it keeps the cart under the flying boot.

pub mod args;
pub mod cart;
pub mod color;
pub mod control;
pub mod debug;
pub mod log;
pub mod motion;
pub mod paint;
pub mod track;

use crate::tools::Tool;
use vstd::prelude::*;

verus! {

/// The tool that plays Boot Breaker.
#[derive(Clone, Copy, Debug)]
pub struct BootBreaker;

impl Tool for BootBreaker {
    open spec fn called(&self) -> Seq<char> {
        "boot_breaker"@
    }

    fn name(&self) -> (name: &'static str) {
        "boot_breaker"
    }
}

} // verus!
