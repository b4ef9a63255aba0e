//! Settings of the monitor, as handed over by its host.

use vstd::prelude::*;

verus! {

/// Monitor settings: where the net definition and the log live, and how
/// the host treats violations.
#[derive(Debug, Clone)]
pub struct PetriConfig {
    /// Path of the net definition.
    pub config_path: String,
    /// Path of the execution log, if one is kept.
    pub log_path: Option<String>,
    /// Whether the host stops at the first violation.
    pub fail_fast: bool,
    /// Whether the host prints the marking hash after each event.
    pub print_marking_on_each_event: bool,
}

impl PetriConfig {
    /// Settings for a definition path: no log, fail fast, no per-event trace.
    pub fn new(config_path: String) -> (r: PetriConfig)
        ensures
            r.config_path == config_path,
            r.log_path is None,
            r.fail_fast,
            !r.print_marking_on_each_event,
    {
        PetriConfig {
            config_path,
            log_path: None,
            fail_fast: true,
            print_marking_on_each_event: false,
        }
    }

    pub fn with_log_path(self, path: String) -> (r: PetriConfig)
        ensures
            r == (PetriConfig { log_path: Some(path), ..self }),
    {
        let mut c = self;
        c.log_path = Some(path);
        c
    }

    pub fn with_fail_fast(self, fail_fast: bool) -> (r: PetriConfig)
        ensures
            r == (PetriConfig { fail_fast, ..self }),
    {
        let mut c = self;
        c.fail_fast = fail_fast;
        c
    }

    pub fn with_print_marking_on_each_event(self, v: bool) -> (r: PetriConfig)
        ensures
            r == (PetriConfig { print_marking_on_each_event: v, ..self }),
    {
        let mut c = self;
        c.print_marking_on_each_event = v;
        c
    }
}

} // verus!
