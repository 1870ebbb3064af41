//! Reporting grading results: the status filter and the CSV rows.

use vstd::prelude::*;
use vstd::string::StringExecFns;
use crate::models::{AcquiredImage, GradingStatus, status_named, invalid_status_message, status_name};
use crate::text::{lowercase, last_path_segment, signed_decimal, signed_decimal_string};
use crate::utils::{json_string_member, extract_filename};

verus! {

broadcast use vstd::string::group_string_axioms;

/// Reads the optional status filter of a report: no filter, or a status name
/// in any case; any other name is refused.
pub fn status_filter(status: Option<&str>) -> (r: Result<Option<GradingStatus>, String>)
    ensures
        match status {
            None => r == Ok::<Option<GradingStatus>, String>(None),
            Some(name) => match status_named(lowercase(name@)) {
                Some(s) => r == Ok::<Option<GradingStatus>, String>(Some(s)),
                None => r matches Err(e) && e@ == invalid_status_message(name@),
            },
        },
{
    match status {
        None => Ok(None),
        Some(name) => match GradingStatus::from_name(name) {
            Ok(s) => Ok(Some(s)),
            Err(e) => Err(e),
        },
    }
}

/// The file name a report shows for an image: the last segment of its
/// recorded `FileName`, or `Unknown`.
pub open spec fn report_file_name(metadata: Seq<char>) -> Seq<char> {
    match json_string_member(metadata, "FileName"@) {
        Some(p) => last_path_segment(p),
        None => "Unknown"@,
    }
}

/// The CSV columns of the report, in order.
pub open spec fn csv_header_text() -> Seq<char> {
    "id,filename,project_name,target_name,filter_name,grading_status,acquired_date,reject_reason"@
}

/// The CSV header line of the report.
pub fn csv_header() -> (r: String)
    ensures
        r@ == csv_header_text(),
{
    String::from_str("id,filename,project_name,target_name,filter_name,grading_status,acquired_date,reject_reason")
}

/// One CSV line of the report: id, file name, project, target, filter, status
/// name, acquisition time in seconds (empty when unknown) and reject reason
/// (empty when none), separated by commas and written as they are.
pub open spec fn csv_row_text(image: AcquiredImage, project: Seq<char>, target: Seq<char>) -> Seq<char> {
    signed_decimal(image.id as int) + ","@ + report_file_name(image.metadata@) + ","@ + project + ","@ + target + ","@
        + image.filter_name@ + ","@ + status_name(image.grading_status as int) + ","@
        + match image.acquired_date {
            Some(d) => signed_decimal(d as int),
            None => Seq::empty(),
        } + ","@ + match image.reject_reason {
            Some(r) => r@,
            None => Seq::empty(),
        }
}

/// Writes the CSV line of one image.
pub fn csv_row(image: &AcquiredImage, project: &str, target: &str) -> (r: String)
    ensures
        r@ == csv_row_text(*image, project@, target@),
{
    let mut line = signed_decimal_string(image.id as i64);
    line.append(",");
    let file = match extract_filename(image.metadata.as_str()) {
        Some(f) => f,
        None => String::from_str("Unknown"),
    };
    line.append(file.as_str());
    line.append(",");
    line.append(project);
    line.append(",");
    line.append(target);
    line.append(",");
    line.append(image.filter_name.as_str());
    line.append(",");
    line.append(GradingStatus::from_i32(image.grading_status));
    line.append(",");
    match image.acquired_date {
        Some(d) => {
            let t = signed_decimal_string(d);
            line.append(t.as_str());
        },
        None => {},
    }
    line.append(",");
    match &image.reject_reason {
        Some(reason) => {
            line.append(reason.as_str());
        },
        None => {},
    }
    line
}

} // verus!
