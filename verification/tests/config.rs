use hashcarve::config::{ConfigError, ScanConfig, MAX_WINDOW_LEN};
use hashcarve::failure::{Failure, Reach};

#[test]
fn defaults() {
    let config = ScanConfig::new();
    assert_eq!(config.max_workers, 1);
    assert_eq!(config.start_offset, 0);
    assert_eq!(config.window_len, 512);
    assert_eq!(config.max_carve_len, 200000);
    assert_eq!(MAX_WINDOW_LEN, 512);
    assert_eq!(config.validate(), Ok(()));
}

#[test]
fn a_scan_needs_a_worker() {
    let config = ScanConfig { max_workers: 0, ..ScanConfig::new() };
    assert_eq!(config.validate(), Err(ConfigError::NoWorkers));
}

#[test]
fn a_window_holds_between_one_byte_and_one_sector() {
    let config = ScanConfig { window_len: 0, ..ScanConfig::new() };
    assert_eq!(config.validate(), Err(ConfigError::WindowLength));
    let config = ScanConfig { window_len: 513, ..ScanConfig::new() };
    assert_eq!(config.validate(), Err(ConfigError::WindowLength));
    let config = ScanConfig { window_len: 1, ..ScanConfig::new() };
    assert_eq!(config.validate(), Ok(()));
    let config = ScanConfig { window_len: 24, ..ScanConfig::new() };
    assert_eq!(config.validate(), Ok(()));
}

#[test]
fn the_number_of_workers_is_checked_first() {
    let config = ScanConfig { max_workers: 0, window_len: 0, ..ScanConfig::new() };
    assert_eq!(config.validate(), Err(ConfigError::NoWorkers));
}

#[test]
fn any_start_offset_and_any_bound_are_valid() {
    let config = ScanConfig {
        start_offset: u64::MAX,
        max_carve_len: 0,
        max_workers: usize::MAX,
        window_len: 512,
    };
    assert_eq!(config.validate(), Ok(()));
}

#[test]
fn configuration_and_image_failures_end_the_run() {
    assert_eq!(Failure::Config(ConfigError::NoWorkers).reach(), Reach::Run);
    assert_eq!(Failure::Config(ConfigError::MalformedSignature { entry: 3 }).reach(), Reach::Run);
    assert_eq!(Failure::ImageIo.reach(), Reach::Run);
    assert!(Failure::Config(ConfigError::WindowLength).is_fatal());
    assert!(Failure::ImageIo.is_fatal());
}

#[test]
fn job_failures_stay_with_the_job() {
    assert_eq!(Failure::JobIo { offset: 512 }.reach(), Reach::Job);
    assert_eq!(Failure::OutputWrite { offset: 512 }.reach(), Reach::Job);
    assert!(!Failure::JobIo { offset: 0 }.is_fatal());
    assert!(!Failure::OutputWrite { offset: 0 }.is_fatal());
}
