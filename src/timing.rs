use vstd::prelude::*;

verus! {

/// Units of the wall-clock timer per second: it counts microseconds.
pub const OS_TIMER_FREQ: u64 = 1_000_000;

/// How long calibration waits on the wall clock, in milliseconds.
pub const CALIBRATION_MILLISECONDS: u64 = 10;

/// Conversion factor of the wall-clock timer: microseconds per second.
pub fn get_os_timer_freq() -> (r: u64)
    ensures
        r == OS_TIMER_FREQ,
{
    OS_TIMER_FREQ
}

#[verifier::external_type_specification]
#[verifier::external_body]
pub struct ExSystemTime(std::time::SystemTime);

#[verifier::external_type_specification]
#[verifier::external_body]
pub struct ExSystemTimeError(std::time::SystemTimeError);

/// Relies on `SystemTime::now`: some reading of the system clock, of which
/// nothing is known.
pub assume_specification[ std::time::SystemTime::now ]() -> std::time::SystemTime;

/// Relies on `SystemTime::duration_since`: the time from `earlier` to `t`, or
/// an error where `earlier` is later.
pub assume_specification[ std::time::SystemTime::duration_since ](
    t: &std::time::SystemTime,
    earlier: std::time::SystemTime,
) -> Result<core::time::Duration, std::time::SystemTimeError>;

/// Relies on `Duration::as_secs`: the whole seconds of a duration.
pub assume_specification[ core::time::Duration::as_secs ](d: &core::time::Duration) -> u64;

/// Relies on `Duration::subsec_micros`: the microseconds past the whole
/// seconds, always below one million.
pub assume_specification[ core::time::Duration::subsec_micros ](d: &core::time::Duration) -> (r:
    u32)
    ensures
        r < 1_000_000,
;

/// Relies on `std::time::UNIX_EPOCH`: the system time of the Unix epoch.
#[verifier::external_body]
fn unix_epoch() -> std::time::SystemTime {
    std::time::UNIX_EPOCH
}

/// Microseconds in `secs` seconds and `micros` microseconds.
pub open spec fn micros_of(secs: u64, micros: u32) -> int {
    OS_TIMER_FREQ * secs + micros
}

/// Microseconds in `secs` seconds and `subsec_micros` microseconds, or `None`
/// where that does not fit in `u64`.
pub fn micros_since_epoch(secs: u64, subsec_micros: u32) -> (r: Option<u64>)
    ensures
        r == (if micros_of(secs, subsec_micros) <= u64::MAX {
            Some(micros_of(secs, subsec_micros) as u64)
        } else {
            None::<u64>
        }),
{
    let os_freq = get_os_timer_freq();
    if secs > (u64::MAX - subsec_micros as u64) / os_freq {
        proof {
            assert(OS_TIMER_FREQ * secs + subsec_micros > u64::MAX) by (nonlinear_arith)
                requires
                    secs > (u64::MAX - subsec_micros) / 1_000_000int,
                    OS_TIMER_FREQ == 1_000_000,
            ;
        }
        None
    } else {
        proof {
            assert(OS_TIMER_FREQ * secs + subsec_micros <= u64::MAX) by (nonlinear_arith)
                requires
                    secs <= (u64::MAX - subsec_micros) / 1_000_000int,
                    OS_TIMER_FREQ == 1_000_000,
                    subsec_micros <= u64::MAX,
            ;
        }
        Some(os_freq * secs + subsec_micros as u64)
    }
}

/// Reads the wall-clock timer: microseconds since the Unix epoch, or `None`
/// where the clock is set before the epoch or the count does not fit in `u64`.
/// What it returns depends on the clock alone, so no contract is stated;
/// the arithmetic is `micros_since_epoch`'s.
pub fn read_os_timer() -> (r: Option<u64>) {
    match std::time::SystemTime::now().duration_since(unix_epoch()) {
        Ok(since) => micros_since_epoch(since.as_secs(), since.subsec_micros()),
        Err(_) => None,
    }
}

/// Wall-clock units to wait for `milliseconds` at `os_freq` units per second.
pub fn os_wait_time(os_freq: u64, milliseconds: u64) -> (r: u64)
    requires
        os_freq * milliseconds <= u64::MAX,
    ensures
        r == (os_freq * milliseconds) as int / 1000,
{
    os_freq * milliseconds / 1000
}

/// A calibration interval under way: it started at wall-clock reading
/// `os_start` and lasts at least `wait` wall-clock units.
#[derive(Clone, Copy, Debug)]
pub struct CalibrationWindow {
    pub os_start: u64,
    pub wait: u64,
}

impl CalibrationWindow {
    /// The window that starts at `os_start` and lasts the calibration time.
    pub fn new(os_start: u64) -> (r: CalibrationWindow)
        ensures
            r.os_start == os_start,
            r.wait == OS_TIMER_FREQ * CALIBRATION_MILLISECONDS / 1000,
    {
        CalibrationWindow {
            os_start,
            wait: os_wait_time(get_os_timer_freq(), CALIBRATION_MILLISECONDS),
        }
    }

    /// The wall-clock time elapsed at reading `os_now`, once it has reached the
    /// window's length; `None` while calibration must go on waiting. A reading
    /// below the start counts as no time elapsed.
    pub fn elapsed_when_done(&self, os_now: u64) -> (r: Option<u64>)
        ensures
            r == (if os_now >= self.os_start && os_now - self.os_start >= self.wait {
                Some((os_now - self.os_start) as u64)
            } else if self.wait == 0 {
                Some(0u64)
            } else {
                None::<u64>
            }),
    {
        let os_elapsed = os_now.saturating_sub(self.os_start);
        if os_elapsed >= self.wait {
            Some(os_elapsed)
        } else {
            None
        }
    }
}

/// Cycle-counter frequency estimated from `block_elapsed` cycles counted over
/// `os_elapsed` wall-clock units at `os_freq` units per second; zero (unknown)
/// where the wall clock did not advance.
pub fn estimated_block_timer_freq(os_freq: u64, block_elapsed: u64, os_elapsed: u64) -> (r: u64)
    requires
        os_freq * block_elapsed <= u64::MAX,
    ensures
        r == (if os_elapsed > 0 {
            ((os_freq * block_elapsed) as int / os_elapsed as int) as u64
        } else {
            0u64
        }),
{
    if os_elapsed > 0 {
        let product = os_freq * block_elapsed;
        proof {
            assert(product / os_elapsed <= product) by (nonlinear_arith)
                requires
                    os_elapsed > 0,
                    product >= 0,
            ;
        }
        product / os_elapsed
    } else {
        0
    }
}

/// Whether the last three characters of `s` are ASCII, so that they are also
/// its last three bytes.
pub open spec fn ends_in_three_ascii(s: Seq<char>) -> bool {
    &&& s.len() >= 3
    &&& forall|i: int| s.len() - 3 <= i < s.len() ==> (#[trigger] s[i]) < 128
}

/// Name of the function that encloses a marker function (one named `__f`
/// declared inside it), from the full path of the marker's type: that path
/// without its last three bytes, here its last three characters.
pub fn function_name(marker_path: &'static str) -> (r: &'static str)
    requires
        ends_in_three_ascii(marker_path@),
    ensures
        r@ == marker_path@.subrange(0, marker_path@.len() - 3),
{
    let len = marker_path.unicode_len();
    marker_path.substring_char(0, len - 3)
}

} // verus!
