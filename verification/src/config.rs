//! Scan configuration as handed over by the command-line layer.

use vstd::prelude::*;

verus! {

/// The report format chosen for the scan results.
#[derive(Clone, Copy, Debug, PartialEq, Eq, Structural)]
pub enum Output {
    Oneline,
    Prometheus,
    Table,
}

impl Output {
    /// The name under which the format is selected on the command line.
    pub fn name(self) -> (r: &'static str)
        ensures
            self is Oneline ==> r@ == "oneline"@,
            self is Prometheus ==> r@ == "prometheus"@,
            self is Table ==> r@ == "table"@,
    {
        match self {
            Self::Oneline => "oneline",
            Self::Prometheus => "prometheus",
            Self::Table => "table",
        }
    }
}

/// One invocation's settings: which ages to bucket by, which strategy
/// tuning to pass on, and how to report.
#[derive(Clone, Debug)]
pub struct Config {
    pub debug: bool,
    pub progress: bool,
    pub ages_in_days: Vec<u64>,
    pub output: Output,
    pub one_file_system: bool,
    pub spectrum_scale: bool,
    pub spectrum_scale_nodes: Option<String>,
    pub spectrum_scale_global_work_dir: Option<String>,
    pub spectrum_scale_local_work_dir: Option<String>,
}

} // verus!
