//! Parameters and structure-detection steps of N.I.N.A.'s star detector.

use vstd::prelude::*;
use crate::accord_imaging::{Blob, BlobCounter, ImageUtility, blobs_describe_components};

verus! {

/// How aggressively faint structures are picked up.
#[derive(Debug, Clone, Copy, PartialEq, Eq, Structural)]
pub enum StarSensitivity {
    Normal,
    High,
    Highest,
}

/// Pre-filter applied before edge detection.
#[derive(Debug, Clone, Copy, PartialEq, Eq, Structural)]
pub enum NoiseReduction {
    /// No pre-filter.
    Off,
    Normal,
    High,
    Highest,
    Median,
}

/// A pixel rectangle: top-left corner and size.
#[derive(Debug, Clone, Copy)]
pub struct Rectangle {
    pub x: i32,
    pub y: i32,
    pub width: i32,
    pub height: i32,
}

/// 16-bit samples to 8 bits by keeping the high byte.
pub fn convert_16bpp_to_8bpp_nina(data: &[u16]) -> (r: Vec<u8>)
    ensures
        r@.len() == data@.len(),
        forall|i: int| 0 <= i < r@.len() ==> r@[i] as int == #[trigger] data@[i] as int / 256,
{
    ImageUtility::convert_16bpp_to_8bpp(data)
}

/// The 4-connected groups of non-zero pixels of a binary image.
pub fn detect_structures(image: &[u8], width: usize, height: usize) -> (r: Vec<Blob>)
    requires
        width * height <= image@.len(),
        width * height < u32::MAX,
        width <= i32::MAX,
        height <= i32::MAX,
    ensures
        blobs_describe_components(image@, width as int, height as int, r@),
{
    let mut blob_counter = BlobCounter::new();
    blob_counter.process_image(image, width, height);
    blob_counter.get_objects_information()
}

} // verus!
