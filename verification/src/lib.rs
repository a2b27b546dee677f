//! Verified core of a DPDK unit-test runner.
use vstd::prelude::*;

pub mod text;
pub mod pattern;
pub mod xregex;
pub mod yaml;
pub mod matching;
pub mod runner;
pub mod listing;
pub mod interfaces;
pub mod mst;
pub mod rhost;
pub mod input;
pub mod setup;
pub mod hostcfg;
pub mod session;

verus! {

/// Formats the logging target used for a host or an application tag.
pub fn log_target(tmpl: &str) -> (res: String)
    ensures
        res@ == tmpl@,
{
    tmpl.to_owned()
}

} // verus!
