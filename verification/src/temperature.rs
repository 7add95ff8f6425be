//! The temperature screen: when the e-paper panel gets a full refresh, and
//! what to show after each sensor reading.

use vstd::prelude::*;

verus! {

/// How the e-paper panel redraws.
#[derive(Clone, Copy, Debug, PartialEq, Eq, Structural)]
pub enum RefreshMode {
    /// Slow, flickering, and clean.
    Full,
    /// Fast, and leaves ghosts behind.
    Quick,
}

/// Counts one drawn frame and says whether the panel's refresh mode must
/// change first: after more than ten frames the panel gets one full
/// refresh and the count starts again; the frame after it switches back to
/// quick refreshes.
pub fn next_refresh(refresh_count: &mut u64) -> (mode: Option<RefreshMode>)
    ensures
        *old(refresh_count) > 10 ==> *final(refresh_count) == 1 && mode == Some(RefreshMode::Full),
        *old(refresh_count) == 1 ==> *final(refresh_count) == 2 && mode == Some(RefreshMode::Quick),
        *old(refresh_count) <= 10 && *old(refresh_count) != 1 ==> *final(refresh_count) == *old(
            refresh_count,
        ) + 1 && mode == None::<RefreshMode>,
{
    let mut mode = None;
    if *refresh_count > 10 {
        *refresh_count = 0;
        mode = Some(RefreshMode::Full);
    } else if *refresh_count == 1 {
        mode = Some(RefreshMode::Quick);
    }
    *refresh_count += 1;
    mode
}

/// What the temperature screen shows after a sensor reading.
#[derive(Clone, Copy, Debug, PartialEq, Eq, Structural)]
pub enum SensorScreen {
    /// Show the reading.
    Reading,
    /// Show that the sensor keeps failing.
    Failure,
    /// Leave the screen as it is.
    Keep,
}

/// Counts failed readings: a good reading is shown and clears the count;
/// the tenth failure in a row shows the failure message once.
pub fn on_sensor_result(error_count: &mut i32, read_ok: bool) -> (screen: SensorScreen)
    requires
        read_ok || *old(error_count) < i32::MAX,
    ensures
        read_ok ==> *final(error_count) == 0 && screen == SensorScreen::Reading,
        !read_ok ==> *final(error_count) == *old(error_count) + 1 && screen == if *old(error_count) + 1
            == 10 {
            SensorScreen::Failure
        } else {
            SensorScreen::Keep
        },
{
    if read_ok {
        *error_count = 0;
        SensorScreen::Reading
    } else {
        *error_count += 1;
        if *error_count == 10 {
            SensorScreen::Failure
        } else {
            SensorScreen::Keep
        }
    }
}

} // verus!
