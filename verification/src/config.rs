//! The parameters of a scan.

use vstd::prelude::*;
use crate::carve::DEFAULT_MAX_CARVE_LEN;

verus! {

/// Largest window in which signatures may be looked for: one sector.
pub const MAX_WINDOW_LEN: usize = 512;

/// The parameters of a scan.
#[derive(Clone, Copy, Debug)]
pub struct ScanConfig {
    /// How many carve workers may run at once.
    pub max_workers: usize,
    /// Where in the image the scan starts; rounded down to a sector boundary
    /// before use.
    pub start_offset: u64,
    /// In how many bytes from each sector boundary on a signature may
    /// start.
    pub window_len: usize,
    /// Bound on the length of a carved file.
    pub max_carve_len: usize,
}

/// Why a configuration cannot be used.
#[derive(Clone, Copy, Debug, PartialEq, Eq, Structural)]
pub enum ConfigError {
    /// No worker is allowed, so no job could ever run.
    NoWorkers,
    /// The window is empty or longer than a sector.
    WindowLength,
    /// An entry of the signature list is not hexadecimal text; `entry`
    /// counts the entries before it.
    MalformedSignature { entry: usize },
}

impl ScanConfig {
    /// Whether a scan can run with these parameters.
    pub open spec fn valid(&self) -> bool {
        &&& self.max_workers >= 1
        &&& 1 <= self.window_len <= MAX_WINDOW_LEN
    }

    /// The defaults: one worker, from the start of the image, a whole
    /// sector per window, carved files of at most 200000 bytes.
    pub fn new() -> (config: ScanConfig)
        ensures
            config.valid(),
            config.max_workers == 1,
            config.start_offset == 0,
            config.window_len == MAX_WINDOW_LEN,
            config.max_carve_len == DEFAULT_MAX_CARVE_LEN,
    {
        ScanConfig {
            max_workers: 1,
            start_offset: 0,
            window_len: MAX_WINDOW_LEN,
            max_carve_len: DEFAULT_MAX_CARVE_LEN,
        }
    }

    /// Checks the parameters, the number of workers first.
    pub fn validate(&self) -> (checked: Result<(), ConfigError>)
        ensures
            checked is Ok <==> self.valid(),
            checked == if self.max_workers == 0 {
                Err::<(), ConfigError>(ConfigError::NoWorkers)
            } else if self.window_len == 0 || self.window_len > MAX_WINDOW_LEN {
                Err::<(), ConfigError>(ConfigError::WindowLength)
            } else {
                Ok::<(), ConfigError>(())
            },
    {
        if self.max_workers == 0 {
            Err(ConfigError::NoWorkers)
        } else if self.window_len == 0 || self.window_len > MAX_WINDOW_LEN {
            Err(ConfigError::WindowLength)
        } else {
            Ok(())
        }
    }
}

} // verus!
