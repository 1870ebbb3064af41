//! Logic behind the command-line subcommands.

pub mod dump_grading;
pub mod filter_rejected;
pub mod list_targets;
pub mod read_fits;
pub mod regrade;
pub mod show_images;
pub mod update_grade;
pub mod visualize_psf;
