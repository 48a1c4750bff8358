//! The options a run is configured with.
use vstd::prelude::*;
use crate::query::Query;
use crate::shell::ShellType;

verus! {

/// What a run is asked to do.
#[derive(Clone, Debug)]
pub struct CliArgs {
    /// Run without the interactive interface.
    pub cli: bool,
    /// Show the N most used commands.
    pub top: Option<usize>,
    /// Keep commands that a regular expression matches.
    pub search: Option<String>,
    /// Keep commands that begin with a text.
    pub filter: Option<String>,
    /// Keep records dated within `YYYY-MM-DD:YYYY-MM-DD`.
    pub range: Option<String>,
    /// Export the records as `json` or `csv`.
    pub export: Option<String>,
    /// Read this shell's history instead of the detected one.
    pub shell: Option<ShellType>,
    /// Print session-level stats.
    pub session_summary: bool,
    /// Suggest aliases for long, frequent commands.
    pub suggest_aliases: bool,
    /// Flag dangerous commands.
    pub flag_dangerous: bool,
    /// Show per-directory stats.
    pub per_directory: bool,
    /// Show per-host stats.
    pub per_host: bool,
    /// Show time-of-day stats.
    pub time_of_day: bool,
    /// Show the weekly heatmap.
    pub heatmap: bool,
}

fn copy_opt(s: &Option<String>) -> (r: Option<String>)
    ensures
        r == *s,
{
    match s {
        Some(x) => Some(x.clone()),
        None => None,
    }
}

impl CliArgs {
    /// The record selection these options ask for.
    pub fn query(&self) -> (r: Query)
        ensures
            r.filter == self.filter,
            r.search == self.search,
            r.range == self.range,
    {
        Query {
            filter: copy_opt(&self.filter),
            search: copy_opt(&self.search),
            range: copy_opt(&self.range),
        }
    }
}

} // verus!
