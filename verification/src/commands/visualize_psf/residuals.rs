//! What the single-image PSF residual view asks of the multi-star grid.

use vstd::prelude::*;
use vstd::string::StringExecFns;

verus! {

broadcast use vstd::string::group_string_axioms;

/// The parameters of a PSF grid: the one star to show when a star index is
/// given, how many stars, the metric they are sorted by, the number of grid
/// columns and how stars are picked.
pub struct PsfGridRequest {
    pub star_index: Option<usize>,
    pub num_stars: usize,
    pub sort_by: String,
    pub grid_cols: usize,
    pub selection_mode: String,
}

/// The grid the residual view draws: the one star with index `star_index`
/// when one is given, otherwise up to nine of `max_stars`; sorted by R², in
/// three columns, taking the top stars.
pub fn psf_visualization_request(star_index: Option<usize>, max_stars: usize) -> (r: PsfGridRequest)
    ensures
        r.star_index == star_index,
        r.num_stars == (if star_index is Some { 1 } else if max_stars < 9 { max_stars } else { 9 }),
        r.sort_by@ == "r2"@,
        r.grid_cols == 3,
        r.selection_mode@ == "top"@,
{
    let num_stars = if star_index.is_some() {
        1
    } else if max_stars < 9 {
        max_stars
    } else {
        9
    };
    PsfGridRequest {
        star_index,
        num_stars,
        sort_by: String::from_str("r2"),
        grid_cols: 3,
        selection_mode: String::from_str("top"),
    }
}

} // verus!
