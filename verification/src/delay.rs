//! Waiting for the display driver.

use vstd::prelude::*;

verus! {

/// A delay provider that sleeps the calling thread.
pub struct UnixDelay;

} // verus!
