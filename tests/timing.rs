use performance::timing::{
    estimated_block_timer_freq, function_name, get_os_timer_freq, micros_since_epoch, os_wait_time,
    read_os_timer, CalibrationWindow,
};

#[test]
fn os_timer_counts_microseconds() {
    assert_eq!(get_os_timer_freq(), 1_000_000);
    assert_eq!(micros_since_epoch(2, 5), Some(2_000_005));
    assert_eq!(micros_since_epoch(0, 999_999), Some(999_999));
    assert_eq!(micros_since_epoch(u64::MAX / 1_000_000 + 1, 0), None);
}

#[test]
fn os_timer_reads_the_clock() {
    let t = read_os_timer().expect("clock after the epoch");
    // later than 2020-01-01 in microseconds
    assert!(t > 1_577_836_800_000_000);
}

#[test]
fn calibration_window() {
    assert_eq!(os_wait_time(1_000_000, 10), 10_000);
    let w = CalibrationWindow::new(500);
    assert_eq!(w.wait, 10_000);
    assert_eq!(w.elapsed_when_done(500), None);
    assert_eq!(w.elapsed_when_done(10_499), None);
    assert_eq!(w.elapsed_when_done(10_500), Some(10_000));
    assert_eq!(w.elapsed_when_done(12_000), Some(11_500));
    assert_eq!(w.elapsed_when_done(100), None);
}

#[test]
fn frequency_estimate() {
    assert_eq!(estimated_block_timer_freq(1_000_000, 30_000_000, 10_000), 3_000_000_000);
    assert_eq!(estimated_block_timer_freq(1_000_000, 30_000_000, 10_001), 2_999_700_029);
    assert_eq!(estimated_block_timer_freq(1_000_000, 30_000_000, 0), 0);
}

#[test]
fn function_name_drops_marker() {
    assert_eq!(function_name("app::module::tfn::__f"), "app::module::tfn::");
    assert_eq!(function_name("i128"), "i");
    assert_eq!(function_name("__f"), "");
    assert_eq!(function_name("a::\u{e9}::__f"), "a::\u{e9}::");
}
