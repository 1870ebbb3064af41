//! PSF visualisation support.

pub mod star_selection;
pub mod residuals;
