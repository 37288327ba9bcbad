//! What a benchmark records about the run it belongs to.
use vstd::prelude::*;

verus! {

/// The machine, user, time, command line, process and source version of a
/// benchmark run.
#[derive(Clone, Debug)]
pub struct BenchmarkMetaData {
    pub hostname: String,
    pub username: String,
    pub timestamp: String,
    pub cmdline: Vec<String>,
    pub pid: u32,
    pub git_version: String,
}

} // verus!
