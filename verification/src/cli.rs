//! Processing options.

use vstd::prelude::*;

verus! {

/// The options that steer ingestion, extraction and rendering.
///
/// Every switch is off by default except color; the default verbosity
/// is 10, and 20 enables debug traces. `sink_lines` holds 1-based line
/// numbers that replace automatic sink detection when non-empty.
pub struct Options {
    pub taintgrind_trace: bool,
    pub mark_taint: bool,
    pub mark_trace: bool,
    pub no_libs: bool,
    pub no_tmp_instr: bool,
    pub unique_locs: bool,
    pub src_only: bool,
    pub color: bool,
    pub verbosity: u8,
    pub sink_lines: Vec<usize>,
    pub logfile: String,
}

impl Default for Options {
    /// The documented defaults.
    fn default() -> (r: Options)
        ensures
            !r.taintgrind_trace,
            !r.mark_taint,
            !r.mark_trace,
            !r.no_libs,
            !r.no_tmp_instr,
            !r.unique_locs,
            !r.src_only,
            r.color,
            r.verbosity == 10,
            r.sink_lines@ == Seq::<usize>::empty(),
            r.logfile@ == Seq::<char>::empty(),
    {
        Options {
            taintgrind_trace: false,
            mark_taint: false,
            mark_trace: false,
            no_libs: false,
            no_tmp_instr: false,
            unique_locs: false,
            src_only: false,
            color: true,
            verbosity: 10,
            sink_lines: Vec::new(),
            logfile: String::new(),
        }
    }
}

} // verus!
