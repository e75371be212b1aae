//! The launcher's command-line options and the schedule invocation built
//! from them.

use vstd::prelude::*;

verus! {

/// Options accepted by the launcher.
#[derive(Clone, Debug)]
pub struct Cli {
    /// Number of parallel jobs; default: the number of cores.
    pub jobs: Option<usize>,
    /// Task to run.
    pub name: Option<String>,
}

/// One `nuke schedule` invocation, as forwarded to the plugin host.
#[derive(Clone, Debug)]
pub struct NukeSchedule {
    /// Requested parallelism limit, if any.
    pub jobs: Option<usize>,
    /// Requested entry task, if any.
    pub name: Option<String>,
}

impl Cli {
    /// The schedule invocation these options describe.
    pub fn nuke_schedule(&self) -> (r: NukeSchedule)
        ensures
            r.jobs == self.jobs,
            r.name is Some <==> self.name is Some,
            r.name matches Option::Some(n) ==> n == self.name->0,
    {
        NukeSchedule {
            jobs: self.jobs,
            name: match &self.name {
                Option::Some(s) => Option::Some(s.clone()),
                Option::None => Option::None,
            },
        }
    }
}

} // verus!
