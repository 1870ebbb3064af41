//! Image-processing and metadata logic for grading astronomical sub-exposures:
//! star-detection building blocks on 8-bit images, FITS header handling, and the
//! small text helpers the command-line tools share.

pub mod grid;
pub mod union_find;
pub mod labeling;
pub mod accord_imaging;
pub mod opencv_morphology;
pub mod models;
pub mod db;
pub mod grading;
pub mod server;
pub mod commands;
pub mod text;
pub mod header_map;
pub mod fits;
pub mod utils;
pub mod nina_star_detection;
pub mod sample_statistics;
pub mod hocus_focus_star_detection;
pub mod flood;
pub mod image_analysis;
pub mod psf_fitting;
