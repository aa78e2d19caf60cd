//! The Automation Attack helper: it reads the prompt and types it.

pub mod color;
pub mod extract;
pub mod glyphs;
pub mod keys;
pub mod log;
pub mod ocr;
pub mod session;
pub mod templates;

use crate::text;
use crate::tools::Tool;
use vstd::prelude::*;
use vstd::string::*;

verus! {

/// The tool that types the prompts of Automation Attack.
#[derive(Clone, Copy, Debug, Default)]
pub struct AutomationAttack;

impl Tool for AutomationAttack {
    open spec fn called(&self) -> Seq<char> {
        "automation_attack"@
    }

    fn name(&self) -> (name: &'static str) {
        "automation_attack"
    }
}

/// The settings of the tool.
pub struct Args {
    pub log_file: String,
    pub debug: bool,
    /// Whether words are typed.
    pub type_words: bool,
    /// The pause after each key, in milliseconds.
    pub key_delay_ms: u64,
}

impl Default for Args {
    fn default() -> (a: Self)
        ensures
            a.log_file@ == "automation_attack_debug.tsv"@,
            !a.debug,
            a.type_words,
            a.key_delay_ms == 2,
    {
        Args {
            log_file: text::copy("automation_attack_debug.tsv"),
            debug: false,
            type_words: true,
            key_delay_ms: 2,
        }
    }
}

} // verus!
