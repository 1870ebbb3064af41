//! Checking a manual grade change before it is written.

use vstd::prelude::*;
use vstd::string::StringExecFns;
use crate::models::{GradingStatus, status_named, invalid_status_message};
use crate::text::lowercase;

verus! {

broadcast use vstd::string::group_string_axioms;

/// The outcome of asking for status `status_str`, with or without a reason:
/// the status, or the message refusing it.
pub open spec fn grade_update_spec(status_str: Seq<char>, reason_given: bool) -> Result<GradingStatus, Seq<char>> {
    match status_named(lowercase(status_str)) {
        None => Err(invalid_status_message(status_str)),
        Some(s) => if s == GradingStatus::Rejected && !reason_given {
            Err("Rejection reason is required when setting status to rejected"@)
        } else {
            Ok(s)
        },
    }
}

/// The status a manual grade change asks for: the name must be a status
/// name, and a rejection needs a reason.
pub fn validate_grade_update(status_str: &str, reason_given: bool) -> (r: Result<GradingStatus, String>)
    ensures
        match grade_update_spec(status_str@, reason_given) {
            Ok(s) => r == Ok::<GradingStatus, String>(s),
            Err(e) => r matches Err(m) && m@ == e,
        },
{
    let status = match GradingStatus::from_name(status_str) {
        Ok(s) => s,
        Err(e) => {
            return Err(e);
        },
    };
    match status {
        GradingStatus::Rejected => {
            if !reason_given {
                return Err(String::from_str("Rejection reason is required when setting status to rejected"));
            }
        },
        _ => {},
    }
    Ok(status)
}

} // verus!
