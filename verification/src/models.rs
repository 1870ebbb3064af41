//! Records of the acquisition database: projects, acquired images and their
//! grading status.

use vstd::prelude::*;
use vstd::string::StringExecFns;
use crate::text::{lowercase, to_lowercase};

verus! {

broadcast use vstd::string::group_string_axioms;

/// An imaging project.
pub struct Project {
    pub id: i32,
    pub profile_id: String,
    pub name: String,
    pub description: Option<String>,
}

/// One exposure recorded by the scheduler.
pub struct AcquiredImage {
    pub id: i32,
    pub project_id: i32,
    pub target_id: i32,
    pub acquired_date: Option<i64>,
    pub filter_name: String,
    pub grading_status: i32,
    pub metadata: String,
    pub reject_reason: Option<String>,
    pub profile_id: Option<String>,
}

/// Grading states of an exposure, stored as 0, 1 and 2.
#[derive(Debug, Clone, Copy, PartialEq, Eq, Structural)]
pub enum GradingStatus {
    Pending,
    Accepted,
    Rejected,
}

/// The number a grading status is stored as.
pub open spec fn status_code(s: GradingStatus) -> int {
    match s {
        GradingStatus::Pending => 0,
        GradingStatus::Accepted => 1,
        GradingStatus::Rejected => 2,
    }
}

/// The display name of stored status code `value`.
pub open spec fn status_name(value: int) -> Seq<char> {
    if value == 0 {
        "Pending"@
    } else if value == 1 {
        "Accepted"@
    } else if value == 2 {
        "Rejected"@
    } else {
        "Unknown"@
    }
}

impl GradingStatus {
    /// The number this status is stored as in the database.
    pub fn code(&self) -> (r: i32)
        ensures
            r == status_code(*self),
    {
        match self {
            GradingStatus::Pending => 0,
            GradingStatus::Accepted => 1,
            GradingStatus::Rejected => 2,
        }
    }

    /// Display name of a stored grading status code.
    pub fn from_i32(value: i32) -> (r: &'static str)
        ensures
            r@ == status_name(value as int),
    {
        match value {
            0 => "Pending",
            1 => "Accepted",
            2 => "Rejected",
            _ => "Unknown",
        }
    }
}

/// The grading status a name selects, ignoring case.
pub open spec fn status_named(lower: Seq<char>) -> Option<GradingStatus> {
    if lower == "pending"@ {
        Some(GradingStatus::Pending)
    } else if lower == "accepted"@ {
        Some(GradingStatus::Accepted)
    } else if lower == "rejected"@ {
        Some(GradingStatus::Rejected)
    } else {
        None
    }
}

/// The message for a status name that names no status.
pub open spec fn invalid_status_message(name: Seq<char>) -> Seq<char> {
    "Invalid status: "@ + name + ". Use pending, accepted, or rejected"@
}

impl GradingStatus {
    /// The status named `name` (`pending`, `accepted` or `rejected`, in any
    /// case); otherwise an error naming it.
    pub fn from_name(name: &str) -> (r: Result<GradingStatus, String>)
        ensures
            match status_named(lowercase(name@)) {
                Some(s) => r == Ok::<GradingStatus, String>(s),
                None => r matches Err(e) && e@ == invalid_status_message(name@),
            },
    {
        let l = to_lowercase(name);
        if l == String::from_str("pending") {
            Ok(GradingStatus::Pending)
        } else if l == String::from_str("accepted") {
            Ok(GradingStatus::Accepted)
        } else if l == String::from_str("rejected") {
            Ok(GradingStatus::Rejected)
        } else {
            let mut e = String::from_str("Invalid status: ");
            e.append(name);
            e.append(". Use pending, accepted, or rejected");
            Err(e)
        }
    }
}

} // verus!
