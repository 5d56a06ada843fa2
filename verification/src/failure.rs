//! What can go wrong during a run, and how far each failure reaches.

use vstd::prelude::*;
use crate::config::ConfigError;

verus! {

/// A failure of a run or of one of its jobs.
#[derive(Clone, Copy, Debug, PartialEq, Eq, Structural)]
pub enum Failure {
    /// The configuration cannot be used; found before any scanning.
    Config(ConfigError),
    /// The scan could not seek or read in the image.
    ImageIo,
    /// The worker of the job at `offset` could not open, seek or read its
    /// own handle on the image.
    JobIo { offset: u64 },
    /// The file recovered by the job at `offset` could not be written.
    OutputWrite { offset: u64 },
}

/// How far a failure reaches.
#[derive(Clone, Copy, Debug, PartialEq, Eq, Structural)]
pub enum Reach {
    /// The whole run ends and reports the failure.
    Run,
    /// Only the job fails; the scan and the other jobs go on.
    Job,
}

impl Failure {
    /// How far this failure reaches: a bad configuration and a failure of
    /// the scan's own reads end the run, everything else stays with its
    /// job.
    pub open spec fn spec_reach(self) -> Reach {
        match self {
            Failure::Config(_) => Reach::Run,
            Failure::ImageIo => Reach::Run,
            Failure::JobIo { .. } => Reach::Job,
            Failure::OutputWrite { .. } => Reach::Job,
        }
    }

    /// How far this failure reaches.
    pub fn reach(&self) -> (reach: Reach)
        ensures
            reach == self.spec_reach(),
    {
        match self {
            Failure::Config(_) => Reach::Run,
            Failure::ImageIo => Reach::Run,
            Failure::JobIo { .. } => Reach::Job,
            Failure::OutputWrite { .. } => Reach::Job,
        }
    }

    /// Whether this failure ends the run.
    pub fn is_fatal(&self) -> (fatal: bool)
        ensures
            fatal == (self.spec_reach() == Reach::Run),
    {
        match self.reach() {
            Reach::Run => true,
            Reach::Job => false,
        }
    }
}

} // verus!
