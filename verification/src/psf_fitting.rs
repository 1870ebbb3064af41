//! Point-spread-function model choices.

use vstd::prelude::*;
use vstd::string::StringExecFns;
use crate::text::{lowercase, to_lowercase};

verus! {

broadcast use vstd::string::group_string_axioms;

/// Which PSF model to fit to each star.
#[derive(Debug, Clone, Copy, PartialEq, Eq, Structural)]
pub enum PSFType {
    /// No PSF fitting; simple metrics only.
    NoFit,
    /// Gaussian model.
    Gaussian,
    /// Moffat model with beta = 4.
    Moffat4,
}

/// The PSF type a lowercase name selects.
pub open spec fn psf_type_named(lower: Seq<char>) -> Option<PSFType> {
    if lower == "none"@ {
        Some(PSFType::NoFit)
    } else if lower == "gaussian"@ {
        Some(PSFType::Gaussian)
    } else if lower == "moffat"@ || lower == "moffat4"@ || lower == "moffat_4"@ {
        Some(PSFType::Moffat4)
    } else {
        None
    }
}

/// The message for an unknown PSF type name.
pub open spec fn unknown_psf_message(name: Seq<char>) -> Seq<char> {
    "Unknown PSF type: "@ + name
}

impl PSFType {
    /// The PSF type whose lowercase name is `lower`; otherwise an error naming
    /// `original`, the name as given.
    pub fn from_lowercase(lower: &str, original: &str) -> (r: Result<PSFType, String>)
        ensures
            match psf_type_named(lower@) {
                Some(t) => r == Ok::<PSFType, String>(t),
                None => r matches Err(e) && e@ == unknown_psf_message(original@),
            },
    {
        let l = String::from_str(lower);
        if l == String::from_str("none") {
            Ok(PSFType::NoFit)
        } else if l == String::from_str("gaussian") {
            Ok(PSFType::Gaussian)
        } else if l == String::from_str("moffat") || l == String::from_str("moffat4") || l == String::from_str("moffat_4") {
            Ok(PSFType::Moffat4)
        } else {
            let mut e = String::from_str("Unknown PSF type: ");
            e.append(original);
            Err(e)
        }
    }

    /// The PSF type named by `s`, case-insensitively: `none`, `gaussian`, or
    /// `moffat` / `moffat4` / `moffat_4`.
    pub fn parse(s: &str) -> (r: Result<PSFType, String>)
        ensures
            match psf_type_named(lowercase(s@)) {
                Some(t) => r == Ok::<PSFType, String>(t),
                None => r matches Err(e) && e@ == unknown_psf_message(s@),
            },
    {
        let lower = to_lowercase(s);
        PSFType::from_lowercase(lower.as_str(), s)
    }
}

impl std::str::FromStr for PSFType {
    type Err = String;

    fn from_str(s: &str) -> (r: Result<Self, Self::Err>)
        ensures
            match psf_type_named(lowercase(s@)) {
                Some(t) => r == Ok::<PSFType, String>(t),
                None => r matches Err(e) && e@ == unknown_psf_message(s@),
            },
    {
        PSFType::parse(s)
    }
}

/// The Gaussian PSF model.
pub struct GaussianPSF;

/// The Moffat PSF model with beta = 4.
pub struct Moffat4PSF;

} // verus!
