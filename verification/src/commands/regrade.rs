//! Regrading: checking the reset mode, resetting earlier automatic grades,
//! and recording the rejections that statistical grading finds.

use vstd::prelude::*;
use vstd::string::StringExecFns;
use crate::db::{SqlQuery, SqlValue, SqlParam, params_of, clause, like_param, str_opt, marks, marks_from, balanced,
    push_text, push_like_filter, lemma_marks_concat, lemma_marks_clause, lemma_marks_reset};
use crate::grading::StatisticalRejection;

verus! {

broadcast use vstd::string::group_string_axioms;

/// The reset modes regrading accepts.
pub open spec fn valid_reset_mode(mode: Seq<char>) -> bool {
    mode == "none"@ || mode == "automatic"@ || mode == "all"@
}

/// Accepts `none`, `automatic` and `all`; refuses any other mode with a
/// message naming it.
pub fn validate_reset_mode(mode: &str) -> (r: Result<(), String>)
    ensures
        r is Ok <==> valid_reset_mode(mode@),
        r matches Err(e) ==> e@ == "Invalid reset mode: "@ + mode@ + ". Use 'none', 'automatic', or 'all'"@,
{
    let m = String::from_str(mode);
    if m == String::from_str("none") || m == String::from_str("automatic") || m == String::from_str("all") {
        Ok(())
    } else {
        let mut e = String::from_str("Invalid reset mode: ");
        e.append(mode);
        e.append(". Use 'none', 'automatic', or 'all'");
        Err(e)
    }
}

/// The filters of a regrading reset: project and target names, and in
/// automatic mode only rejections that were automatic or carry no manual
/// reason.
pub open spec fn regrade_filter_text(project: bool, target: bool, automatic: bool) -> Seq<char> {
    clause(project, " AND projectId IN (SELECT Id FROM project WHERE name LIKE ?)"@)
        + clause(target, " AND targetId IN (SELECT Id FROM target WHERE name LIKE ?)"@)
        + clause(automatic, " AND (gradingStatus = 2 AND (rejectreason IS NULL OR rejectreason LIKE '%[Auto]%' OR (rejectreason NOT LIKE '%Manual%' AND rejectreason NOT LIKE '%manual%')))"@)
}

/// The reset statement of regrading.
pub open spec fn regrade_reset_text(project: bool, target: bool, automatic: bool) -> Seq<char> {
    "UPDATE acquiredimage SET gradingStatus = 0, rejectreason = NULL WHERE acquireddate >= ?"@
        + regrade_filter_text(project, target, automatic)
}

/// The statement counting what the reset would change.
pub open spec fn regrade_count_text(project: bool, target: bool, automatic: bool) -> Seq<char> {
    "SELECT COUNT(*) FROM acquiredimage WHERE acquireddate >= ?"@ + regrade_filter_text(project, target, automatic)
}

/// The parameters of both regrading reset statements.
pub open spec fn regrade_params(cutoff: i64, project: Option<Seq<char>>, target: Option<Seq<char>>) -> Seq<SqlParam> {
    seq![SqlParam::Int(cutoff as int)] + like_param(project) + like_param(target)
}

/// Appends the regrading filters with their parameters.
fn push_regrade_filters(q: &mut SqlQuery, mode: &str, project_filter: Option<&str>, target_filter: Option<&str>)
    ensures
        final(q).text@ == old(q).text@ + regrade_filter_text(project_filter is Some, target_filter is Some, mode@ == "automatic"@),
        params_of(*final(q)) == params_of(*old(q)) + like_param(str_opt(project_filter)) + like_param(str_opt(target_filter)),
{
    let ghost t0 = q.text@;
    push_like_filter(q, project_filter, " AND projectId IN (SELECT Id FROM project WHERE name LIKE ?)");
    push_like_filter(q, target_filter, " AND targetId IN (SELECT Id FROM target WHERE name LIKE ?)");
    let ghost t1 = q.text@;
    if String::from_str(mode) == String::from_str("automatic") {
        push_text(q, " AND (gradingStatus = 2 AND (rejectreason IS NULL OR rejectreason LIKE '%[Auto]%' OR (rejectreason NOT LIKE '%Manual%' AND rejectreason NOT LIKE '%manual%')))");
    }
    assert(q.text@ =~= t1 + clause(mode@ == "automatic"@, " AND (gradingStatus = 2 AND (rejectreason IS NULL OR rejectreason LIKE '%[Auto]%' OR (rejectreason NOT LIKE '%Manual%' AND rejectreason NOT LIKE '%manual%')))"@));
    assert(q.text@ =~= t0 + regrade_filter_text(project_filter is Some, target_filter is Some, mode@ == "automatic"@));
}

/// The regrading filters hold one placeholder per name filter.
proof fn lemma_regrade_filters_balanced(project: bool, target: bool, automatic: bool)
    ensures
        marks(regrade_filter_text(project, target, automatic)) == (if project { 1int } else { 0 }) + (if target { 1int } else { 0 }),
{
    lemma_marks_reset();
    lemma_marks_regrade();
    let c1 = clause(project, " AND projectId IN (SELECT Id FROM project WHERE name LIKE ?)"@);
    let c2 = clause(target, " AND targetId IN (SELECT Id FROM target WHERE name LIKE ?)"@);
    let c3 = clause(automatic, " AND (gradingStatus = 2 AND (rejectreason IS NULL OR rejectreason LIKE '%[Auto]%' OR (rejectreason NOT LIKE '%Manual%' AND rejectreason NOT LIKE '%manual%')))"@);
    lemma_marks_clause(project, " AND projectId IN (SELECT Id FROM project WHERE name LIKE ?)"@);
    lemma_marks_clause(target, " AND targetId IN (SELECT Id FROM target WHERE name LIKE ?)"@);
    lemma_marks_clause(automatic, " AND (gradingStatus = 2 AND (rejectreason IS NULL OR rejectreason LIKE '%[Auto]%' OR (rejectreason NOT LIKE '%Manual%' AND rejectreason NOT LIKE '%manual%')))"@);
    lemma_marks_concat(c1, c2);
    lemma_marks_concat(c1 + c2, c3);
}

/// Sets back to pending, with no reject reason, the images acquired at or
/// after the cutoff in matching projects and targets; in `automatic` mode
/// only those rejected automatically or without a manual reason.
pub fn regrade_reset_query(mode: &str, cutoff: i64, project_filter: Option<&str>, target_filter: Option<&str>) -> (q: SqlQuery)
    ensures
        q.text@ == regrade_reset_text(project_filter is Some, target_filter is Some, mode@ == "automatic"@),
        params_of(q) == regrade_params(cutoff, str_opt(project_filter), str_opt(target_filter)),
        balanced(q),
{
    let mut params: Vec<SqlValue> = Vec::new();
    params.push(SqlValue::Int(cutoff));
    let mut q = SqlQuery {
        text: String::from_str("UPDATE acquiredimage SET gradingStatus = 0, rejectreason = NULL WHERE acquireddate >= ?"),
        params,
    };
    assert(params_of(q) =~= seq![SqlParam::Int(cutoff as int)]);
    push_regrade_filters(&mut q, mode, project_filter, target_filter);
    proof {
        lemma_marks_reset();
        lemma_regrade_filters_balanced(project_filter is Some, target_filter is Some, mode@ == "automatic"@);
        lemma_marks_concat("UPDATE acquiredimage SET gradingStatus = 0, rejectreason = NULL WHERE acquireddate >= ?"@,
            regrade_filter_text(project_filter is Some, target_filter is Some, mode@ == "automatic"@));
    }
    q
}

/// Counts the images that `regrade_reset_query` with the same arguments
/// would set back to pending.
pub fn regrade_count_query(mode: &str, cutoff: i64, project_filter: Option<&str>, target_filter: Option<&str>) -> (q: SqlQuery)
    ensures
        q.text@ == regrade_count_text(project_filter is Some, target_filter is Some, mode@ == "automatic"@),
        params_of(q) == regrade_params(cutoff, str_opt(project_filter), str_opt(target_filter)),
        balanced(q),
{
    let mut params: Vec<SqlValue> = Vec::new();
    params.push(SqlValue::Int(cutoff));
    let mut q = SqlQuery { text: String::from_str("SELECT COUNT(*) FROM acquiredimage WHERE acquireddate >= ?"), params };
    assert(params_of(q) =~= seq![SqlParam::Int(cutoff as int)]);
    push_regrade_filters(&mut q, mode, project_filter, target_filter);
    proof {
        lemma_marks_reset();
        lemma_regrade_filters_balanced(project_filter is Some, target_filter is Some, mode@ == "automatic"@);
        lemma_marks_concat("SELECT COUNT(*) FROM acquiredimage WHERE acquireddate >= ?"@,
            regrade_filter_text(project_filter is Some, target_filter is Some, mode@ == "automatic"@));
    }
    q
}

/// The reason recorded for an automatic rejection.
pub open spec fn auto_reason_text(r: StatisticalRejection) -> Seq<char> {
    "[Auto] "@ + r.reason@ + " - "@ + r.details@
}

/// The statement recording an automatic rejection.
pub open spec fn auto_rejection_text() -> Seq<char> {
    "UPDATE acquiredimage SET gradingStatus = 2, rejectreason = ? WHERE Id = ?"@
}

/// Marks the image of `rejection` rejected, with the reason `[Auto] reason -
/// details`.
pub fn auto_rejection_query(rejection: &StatisticalRejection) -> (q: SqlQuery)
    ensures
        q.text@ == auto_rejection_text(),
        params_of(q) == seq![SqlParam::Text(auto_reason_text(*rejection)), SqlParam::Int(rejection.image_id as int)],
        balanced(q),
{
    let mut reason = String::from_str("[Auto] ");
    reason.append(rejection.reason.as_str());
    reason.append(" - ");
    reason.append(rejection.details.as_str());
    let mut params: Vec<SqlValue> = Vec::new();
    params.push(SqlValue::Text(reason));
    params.push(SqlValue::Int(rejection.image_id as i64));
    let q = SqlQuery { text: String::from_str("UPDATE acquiredimage SET gradingStatus = 2, rejectreason = ? WHERE Id = ?"), params };
    assert(params_of(q) =~= seq![SqlParam::Text(auto_reason_text(*rejection)), SqlParam::Int(rejection.image_id as int)]);
    proof {
        lemma_marks_regrade();
    }
    q
}

/// The placeholders in the pieces of the regrading statements.
proof fn lemma_marks_regrade()
    ensures
        marks(" AND (gradingStatus = 2 AND (rejectreason IS NULL OR rejectreason LIKE '%[Auto]%' OR (rejectreason NOT LIKE '%Manual%' AND rejectreason NOT LIKE '%manual%')))"@) == 0,
        marks("UPDATE acquiredimage SET gradingStatus = 2, rejectreason = ? WHERE Id = ?"@) == 2,
{
    reveal_strlit(" AND (gradingStatus = 2 AND (rejectreason IS NULL OR rejectreason LIKE '%[Auto]%' OR (rejectreason NOT LIKE '%Manual%' AND rejectreason NOT LIKE '%manual%')))");
    assert(marks(" AND (gradingStatus = 2 AND (rejectreason IS NULL OR rejectreason LIKE '%[Auto]%' OR (rejectreason NOT LIKE '%Manual%' AND rejectreason NOT LIKE '%manual%')))"@) == 0) by {
        let s = " AND (gradingStatus = 2 AND (rejectreason IS NULL OR rejectreason LIKE '%[Auto]%' OR (rejectreason NOT LIKE '%Manual%' AND rejectreason NOT LIKE '%manual%')))"@;
        assert(marks_from(s, 0) == 0 + marks_from(s, 40)) by {
            reveal_with_fuel(marks_from, 41);
        }
        assert(marks_from(s, 40) == 0 + marks_from(s, 80)) by {
            reveal_with_fuel(marks_from, 41);
        }
        assert(marks_from(s, 80) == 0 + marks_from(s, 120)) by {
            reveal_with_fuel(marks_from, 41);
        }
        assert(marks_from(s, 120) == 0) by {
            reveal_with_fuel(marks_from, 39);
        }
    }
    reveal_strlit("UPDATE acquiredimage SET gradingStatus = 2, rejectreason = ? WHERE Id = ?");
    assert(marks("UPDATE acquiredimage SET gradingStatus = 2, rejectreason = ? WHERE Id = ?"@) == 2) by {
        let s = "UPDATE acquiredimage SET gradingStatus = 2, rejectreason = ? WHERE Id = ?"@;
        assert(marks_from(s, 0) == 0 + marks_from(s, 40)) by {
            reveal_with_fuel(marks_from, 41);
        }
        assert(marks_from(s, 40) == 2) by {
            reveal_with_fuel(marks_from, 34);
        }
    }
}

} // verus!
