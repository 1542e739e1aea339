pub mod content;
pub mod engine;
pub mod scanner;
pub mod splice;

use vstd::prelude::*;
use vstd::string::StringExecFns;

verus! {

/// The preprocessor value: it substitutes fetch directives in markdown
/// chapters. Built once; it holds no state.
pub struct Fetch;

impl Fetch {
    /// The name under which the host knows this preprocessor.
    pub fn name(&self) -> (r: &'static str)
        ensures
            r@ == "fetch"@,
    {
        "fetch"
    }

    /// Whether this preprocessor supports a renderer: exactly `html` and `md`.
    pub fn supports_renderer(&self, renderer: &str) -> (r: bool)
        ensures
            r == (renderer@ == "html"@ || renderer@ == "md"@),
    {
        let rs = String::from_str(renderer);
        let html = String::from_str("html");
        let md = String::from_str("md");
        rs == html || rs == md
    }

    /// Whether the substitution pass runs, given the host's disable switch: an
    /// unset or false switch lets it run.
    pub fn should_run(&self, disable: Option<bool>) -> (r: bool)
        ensures
            r == (disable != Some(true)),
    {
        match disable {
            Some(true) => false,
            _ => true,
        }
    }
}

} // verus!
