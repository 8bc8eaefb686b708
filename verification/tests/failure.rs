use image_carver::failure::{is_fatal, reaction, Failure, Reaction};

#[test]
fn failures_before_the_scan_keep_it_from_starting() {
    assert_eq!(reaction(Failure::DeviceOpen), Reaction::AbortBeforeScan);
    assert_eq!(reaction(Failure::OutputDir), Reaction::AbortBeforeScan);
}

#[test]
fn a_failed_read_stops_the_scan() {
    assert_eq!(reaction(Failure::Read), Reaction::AbortScan);
}

#[test]
fn a_failed_write_lets_the_scan_go_on() {
    assert_eq!(reaction(Failure::Write), Reaction::Continue);
}

#[test]
fn every_failure_but_a_write_is_fatal() {
    assert!(is_fatal(Failure::DeviceOpen));
    assert!(is_fatal(Failure::OutputDir));
    assert!(is_fatal(Failure::Read));
    assert!(!is_fatal(Failure::Write));
}
