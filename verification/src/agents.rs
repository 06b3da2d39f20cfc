//! The market-analysis tool that the chat agents can call.
//!
//! The agent plumbing — model clients, tool registration, the calls
//! themselves — is I/O and lives in the workflow shell outside the
//! library; the tool's identity and argument shape are declared here.

use vstd::prelude::*;

verus! {

/// Looks a market price up for the chat agent.
pub struct MarketAnalysis;

impl MarketAnalysis {
    /// The name the tool registers under.
    pub fn name(&self) -> (r: String)
        ensures
            r@ == "search_price"@,
    {
        "search_price".to_owned()
    }
}

/// Arguments of a market search: the asset to look up.
pub struct MarketSearchArgs {
    pub crypto: String,
}

/// Failures of a market search.  The lookup is a stub, so the only
/// case is the placeholder for a lookup that could not run.
#[derive(Debug)]
pub enum MarketSearchError {
    Unavailable,
}

} // verus!
