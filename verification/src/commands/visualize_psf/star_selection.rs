//! Ways to pick the stars shown in a PSF visualisation.

use vstd::prelude::*;

verus! {

/// Measure by which stars are ranked.
pub enum SortMetric {
    HFR,
    R2,
    Brightness,
}

} // verus!
