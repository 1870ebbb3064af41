//! The statements the tools run against the scheduler database: each one's
//! SQL text and the values bound to its `?` placeholders, in order.

use vstd::prelude::*;
use vstd::string::StringExecFns;
use crate::models::{GradingStatus, status_code};

verus! {

broadcast use vstd::string::group_string_axioms;

/// A value bound to one placeholder of a statement.
pub enum SqlValue {
    Null,
    Int(i64),
    Text(String),
}

/// What a bound value stands for.
pub enum SqlParam {
    Null,
    Int(int),
    Text(Seq<char>),
}

impl View for SqlValue {
    type V = SqlParam;

    open spec fn view(&self) -> SqlParam {
        match self {
            SqlValue::Null => SqlParam::Null,
            SqlValue::Int(n) => SqlParam::Int(*n as int),
            SqlValue::Text(s) => SqlParam::Text(s@),
        }
    }
}

/// A statement and the values for its placeholders.
pub struct SqlQuery {
    pub text: String,
    pub params: Vec<SqlValue>,
}

/// The bound values of `q`, by what they stand for.
pub open spec fn params_of(q: SqlQuery) -> Seq<SqlParam> {
    q.params@.map_values(|v: SqlValue| v@)
}

/// `c` when `present`, else nothing.
pub open spec fn clause(present: bool, c: Seq<char>) -> Seq<char> {
    if present {
        c
    } else {
        Seq::empty()
    }
}

/// The `LIKE` pattern matching every name that contains `s`.
pub open spec fn like_text(s: Seq<char>) -> Seq<char> {
    "%"@ + s + "%"@
}

/// The view of an optional string argument.
pub open spec fn str_opt(o: Option<&str>) -> Option<Seq<char>> {
    match o {
        Some(s) => Some(s@),
        None => None,
    }
}

/// The parameter a name filter binds, if any.
pub open spec fn like_param(o: Option<Seq<char>>) -> Seq<SqlParam> {
    match o {
        Some(s) => seq![SqlParam::Text(like_text(s))],
        None => Seq::empty(),
    }
}

/// The parameter a status filter binds, if any.
pub open spec fn status_param(o: Option<GradingStatus>) -> Seq<SqlParam> {
    match o {
        Some(s) => seq![SqlParam::Int(status_code(s))],
        None => Seq::empty(),
    }
}

/// The parameter a date cutoff binds, if any.
pub open spec fn cutoff_param(o: Option<i64>) -> Seq<SqlParam> {
    match o {
        Some(d) => seq![SqlParam::Int(d as int)],
        None => Seq::empty(),
    }
}

/// Builds the `LIKE` pattern for a name filter.
pub fn like_pattern(s: &str) -> (r: String)
    ensures
        r@ == like_text(s@),
{
    let mut r = String::from_str("%");
    r.append(s);
    r.append("%");
    r
}

/// Appends `c` to the statement.
pub(crate) fn push_text(q: &mut SqlQuery, c: &str)
    ensures
        final(q).text@ == old(q).text@ + c@,
        final(q).params@ == old(q).params@,
{
    q.text.append(c);
}

/// Appends a name-filter clause and its `LIKE` pattern when the filter is given.
pub(crate) fn push_like_filter(q: &mut SqlQuery, filter: Option<&str>, c: &str)
    ensures
        final(q).text@ == old(q).text@ + clause(filter is Some, c@),
        params_of(*final(q)) == params_of(*old(q)) + like_param(str_opt(filter)),
{
    match filter {
        Some(name) => {
            q.text.append(c);
            q.params.push(SqlValue::Text(like_pattern(name)));
            proof {
                assert(params_of(*q) =~= params_of(*old(q)) + like_param(str_opt(filter)));
            }
        },
        None => {
            proof {
                assert(params_of(*q) =~= params_of(*old(q)) + like_param(str_opt(filter)));
                assert(q.text@ =~= old(q).text@ + clause(filter is Some, c@));
            }
        },
    }
}

/// The query listing acquired images with their project and target names.
pub open spec fn images_query_text(status: bool, project: bool, target: bool, cutoff: bool) -> Seq<char> {
    "SELECT ai.Id, ai.projectId, ai.targetId, ai.acquireddate, ai.filtername, ai.gradingStatus, ai.metadata, ai.rejectreason, ai.profileId, p.name as project_name, t.name as target_name FROM acquiredimage ai JOIN project p ON ai.projectId = p.Id JOIN target t ON ai.targetId = t.Id WHERE 1=1"@
        + clause(status, " AND ai.gradingStatus = ?"@)
        + clause(project, " AND p.name LIKE ?"@)
        + clause(target, " AND t.name LIKE ?"@)
        + clause(cutoff, " AND ai.acquireddate >= ?"@)
        + " ORDER BY ai.acquireddate DESC"@
}

/// Acquired images, newest first, with their project and target names:
/// those with the given grading status, in a project and a target whose names
/// contain the given texts, acquired at or after the cutoff, each filter
/// applying only when given.
pub fn images_query(
    status_filter: Option<GradingStatus>,
    project_filter: Option<&str>,
    target_filter: Option<&str>,
    date_cutoff: Option<i64>,
) -> (q: SqlQuery)
    ensures
        q.text@ == images_query_text(status_filter is Some, project_filter is Some, target_filter is Some, date_cutoff is Some),
        params_of(q) == status_param(status_filter) + like_param(str_opt(project_filter))
            + like_param(str_opt(target_filter)) + cutoff_param(date_cutoff),
        balanced(q),
{
    proof {
        lemma_images_balanced(status_filter, str_opt(project_filter), str_opt(target_filter), date_cutoff);
    }
    let mut q = SqlQuery {
        text: String::from_str("SELECT ai.Id, ai.projectId, ai.targetId, ai.acquireddate, ai.filtername, ai.gradingStatus, ai.metadata, ai.rejectreason, ai.profileId, p.name as project_name, t.name as target_name FROM acquiredimage ai JOIN project p ON ai.projectId = p.Id JOIN target t ON ai.targetId = t.Id WHERE 1=1"),
        params: Vec::new(),
    };
    let ghost base = q.text@;
    match status_filter {
        Some(s) => {
            push_text(&mut q, " AND ai.gradingStatus = ?");
            q.params.push(SqlValue::Int(s.code() as i64));
        },
        None => {},
    }
    let ghost after_status = q.text@;
    assert(params_of(q) =~= status_param(status_filter));
    assert(after_status =~= base + clause(status_filter is Some, " AND ai.gradingStatus = ?"@));
    push_like_filter(&mut q, project_filter, " AND p.name LIKE ?");
    push_like_filter(&mut q, target_filter, " AND t.name LIKE ?");
    let ghost before_cutoff = q.params@;
    let ghost text_before_cutoff = q.text@;
    match date_cutoff {
        Some(d) => {
            push_text(&mut q, " AND ai.acquireddate >= ?");
            q.params.push(SqlValue::Int(d));
        },
        None => {},
    }
    assert(params_of(q) =~= before_cutoff.map_values(|v: SqlValue| v@) + cutoff_param(date_cutoff));
    assert(q.text@ =~= text_before_cutoff + clause(date_cutoff is Some, " AND ai.acquireddate >= ?"@));
    push_text(&mut q, " ORDER BY ai.acquireddate DESC");
    q
}

/// The filter clauses shared by the statements that reset grading: names of
/// project and target, and, in automatic mode, sparing manual rejections.
pub open spec fn reset_filter_text(project: bool, target: bool, automatic: bool) -> Seq<char> {
    clause(project, " AND projectId IN (SELECT Id FROM project WHERE name LIKE ?)"@)
        + clause(target, " AND targetId IN (SELECT Id FROM target WHERE name LIKE ?)"@)
        + clause(automatic, " AND (gradingStatus != 2 OR rejectreason NOT LIKE '%Manual%')"@)
}

/// Whether a reset mode is the automatic one, which spares manual rejections.
pub open spec fn is_automatic(mode: Seq<char>) -> bool {
    mode == "automatic"@
}

/// The parameters of both reset statements.
pub open spec fn reset_params(date_cutoff: i64, project: Option<Seq<char>>, target: Option<Seq<char>>) -> Seq<SqlParam> {
    seq![SqlParam::Int(date_cutoff as int)] + like_param(project) + like_param(target)
}

/// The statement resetting grades.
pub open spec fn reset_query_text(project: bool, target: bool, automatic: bool) -> Seq<char> {
    "UPDATE acquiredimage SET gradingStatus = 0, rejectreason = NULL WHERE acquireddate >= ?"@
        + reset_filter_text(project, target, automatic)
}

/// The statement counting what a reset would change.
pub open spec fn count_reset_query_text(project: bool, target: bool, automatic: bool) -> Seq<char> {
    "SELECT COUNT(*) FROM acquiredimage WHERE acquireddate >= ?"@
        + reset_filter_text(project, target, automatic)
        + " AND gradingStatus != 0"@
}

/// Appends the reset filters of `reset_filter_text` with their parameters.
fn push_reset_filters(q: &mut SqlQuery, mode: &str, project_filter: Option<&str>, target_filter: Option<&str>)
    ensures
        final(q).text@ == old(q).text@ + reset_filter_text(project_filter is Some, target_filter is Some, is_automatic(mode@)),
        params_of(*final(q)) == params_of(*old(q)) + like_param(str_opt(project_filter)) + like_param(str_opt(target_filter)),
{
    let ghost t0 = q.text@;
    push_like_filter(q, project_filter, " AND projectId IN (SELECT Id FROM project WHERE name LIKE ?)");
    push_like_filter(q, target_filter, " AND targetId IN (SELECT Id FROM target WHERE name LIKE ?)");
    let ghost t1 = q.text@;
    let automatic = String::from_str(mode) == String::from_str("automatic");
    if automatic {
        push_text(q, " AND (gradingStatus != 2 OR rejectreason NOT LIKE '%Manual%')");
    }
    assert(q.text@ =~= t1 + clause(is_automatic(mode@), " AND (gradingStatus != 2 OR rejectreason NOT LIKE '%Manual%')"@));
    assert(q.text@ =~= t0 + reset_filter_text(project_filter is Some, target_filter is Some, is_automatic(mode@)));
}

/// Sets back to pending, with no reject reason, the images acquired at or
/// after the cutoff in matching projects and targets; in `automatic` mode
/// manual rejections are kept.
pub fn reset_query(mode: &str, date_cutoff: i64, project_filter: Option<&str>, target_filter: Option<&str>) -> (q: SqlQuery)
    ensures
        q.text@ == reset_query_text(project_filter is Some, target_filter is Some, is_automatic(mode@)),
        params_of(q) == reset_params(date_cutoff, str_opt(project_filter), str_opt(target_filter)),
        balanced(q),
{
    proof {
        lemma_reset_balanced(mode@, date_cutoff, str_opt(project_filter), str_opt(target_filter));
    }
    let mut params: Vec<SqlValue> = Vec::new();
    params.push(SqlValue::Int(date_cutoff));
    let mut q = SqlQuery {
        text: String::from_str("UPDATE acquiredimage SET gradingStatus = 0, rejectreason = NULL WHERE acquireddate >= ?"),
        params,
    };
    assert(params_of(q) =~= seq![SqlParam::Int(date_cutoff as int)]);
    push_reset_filters(&mut q, mode, project_filter, target_filter);
    q
}

/// Counts the graded images that `reset_query` with the same arguments would
/// set back to pending.
pub fn count_reset_query(mode: &str, date_cutoff: i64, project_filter: Option<&str>, target_filter: Option<&str>) -> (q: SqlQuery)
    ensures
        q.text@ == count_reset_query_text(project_filter is Some, target_filter is Some, is_automatic(mode@)),
        params_of(q) == reset_params(date_cutoff, str_opt(project_filter), str_opt(target_filter)),
        balanced(q),
{
    proof {
        lemma_reset_balanced(mode@, date_cutoff, str_opt(project_filter), str_opt(target_filter));
    }
    let mut params: Vec<SqlValue> = Vec::new();
    params.push(SqlValue::Int(date_cutoff));
    let mut q = SqlQuery {
        text: String::from_str("SELECT COUNT(*) FROM acquiredimage WHERE acquireddate >= ?"),
        params,
    };
    assert(params_of(q) =~= seq![SqlParam::Int(date_cutoff as int)]);
    push_reset_filters(&mut q, mode, project_filter, target_filter);
    push_text(&mut q, " AND gradingStatus != 0");
    q
}

/// The statement setting one image's grade.
pub open spec fn update_status_text() -> Seq<char> {
    "UPDATE acquiredimage SET gradingStatus = ?, rejectreason = ? WHERE Id = ?"@
}

/// The parameters setting image `image_id` to `status` with `reason`.
pub open spec fn update_status_params(image_id: i32, status: GradingStatus, reason: Option<Seq<char>>) -> Seq<SqlParam> {
    seq![
        SqlParam::Int(status_code(status)),
        match reason {
            Some(r) => SqlParam::Text(r),
            None => SqlParam::Null,
        },
        SqlParam::Int(image_id as int),
    ]
}

/// Sets image `image_id` to `status`, with `reject_reason` (or none).
pub fn update_status_query(image_id: i32, status: GradingStatus, reject_reason: Option<&str>) -> (q: SqlQuery)
    ensures
        q.text@ == update_status_text(),
        params_of(q) == update_status_params(image_id, status, str_opt(reject_reason)),
        balanced(q),
{
    proof {
        lemma_marks_fixed();
    }
    let mut params: Vec<SqlValue> = Vec::new();
    params.push(SqlValue::Int(status.code() as i64));
    match reject_reason {
        Some(r) => params.push(SqlValue::Text(String::from_str(r))),
        None => params.push(SqlValue::Null),
    }
    params.push(SqlValue::Int(image_id as i64));
    let q = SqlQuery { text: String::from_str("UPDATE acquiredimage SET gradingStatus = ?, rejectreason = ? WHERE Id = ?"), params };
    assert(params_of(q) =~= update_status_params(image_id, status, str_opt(reject_reason)));
    q
}

/// The view of an owned optional string.
pub open spec fn string_opt(o: Option<String>) -> Option<Seq<char>> {
    match o {
        Some(s) => Some(s@),
        None => None,
    }
}

/// One grade-setting statement per update, in order; they are meant to run
/// in one transaction.
pub fn batch_update_queries(updates: &[(i32, GradingStatus, Option<String>)]) -> (qs: Vec<SqlQuery>)
    ensures
        qs@.len() == updates@.len(),
        forall|k: int| 0 <= k < qs@.len() ==> {
            &&& (#[trigger] qs@[k]).text@ == update_status_text()
            &&& params_of(qs@[k]) == update_status_params(updates@[k].0, updates@[k].1, string_opt(updates@[k].2))
            &&& balanced(qs@[k])
        },
{
    let mut qs: Vec<SqlQuery> = Vec::new();
    let mut i: usize = 0;
    while i < updates.len()
        invariant
            i <= updates@.len(),
            qs@.len() == i,
            forall|k: int| 0 <= k < i ==> {
                &&& (#[trigger] qs@[k]).text@ == update_status_text()
                &&& params_of(qs@[k]) == update_status_params(updates@[k].0, updates@[k].1, string_opt(updates@[k].2))
                &&& balanced(qs@[k])
            },
        decreases updates@.len() - i,
    {
        let (id, status, reason) = &updates[i];
        let r: Option<&str> = match reason {
            Some(s) => Some(s.as_str()),
            None => None,
        };
        let q = update_status_query(*id, *status, r);
        qs.push(q);
        i = i + 1;
    }
    qs
}

/// `n` placeholders separated by commas.
pub open spec fn placeholders(n: nat) -> Seq<char>
    decreases n,
{
    if n == 0 {
        Seq::empty()
    } else if n == 1 {
        "?"@
    } else {
        placeholders((n - 1) as nat) + ",?"@
    }
}

/// Writes `placeholders(n)`.
pub fn placeholder_list(n: usize) -> (r: String)
    ensures
        r@ == placeholders(n as nat),
{
    if n == 0 {
        return String::new();
    }
    let mut r = String::from_str("?");
    let mut i: usize = 1;
    while i < n
        invariant
            1 <= i <= n,
            r@ == placeholders(i as nat),
        decreases n - i,
    {
        r.append(",?");
        i = i + 1;
    }
    r
}

/// The parameters binding a list of ids.
pub open spec fn id_params(ids: Seq<i32>) -> Seq<SqlParam> {
    ids.map_values(|i: i32| SqlParam::Int(i as int))
}

/// A statement ending in `IN (` followed by one placeholder per id.
fn ids_query(head: &str, ids: &[i32]) -> (q: SqlQuery)
    ensures
        q.text@ == head@ + placeholders(ids@.len()) + ")"@,
        params_of(q) == id_params(ids@),
{
    let mut text = String::from_str(head);
    let list = placeholder_list(ids.len());
    text.append(list.as_str());
    text.append(")");
    let mut params: Vec<SqlValue> = Vec::new();
    let mut i: usize = 0;
    while i < ids.len()
        invariant
            i <= ids@.len(),
            params@.len() == i,
            forall|k: int| 0 <= k < i ==> (#[trigger] params@[k])@ == SqlParam::Int(ids@[k] as int),
        decreases ids@.len() - i,
    {
        params.push(SqlValue::Int(ids[i] as i64));
        i = i + 1;
    }
    let q = SqlQuery { text, params };
    assert(params_of(q) =~= id_params(ids@));
    q
}

/// The statement reading acquired images by id.
pub open spec fn images_by_ids_text(n: nat) -> Seq<char> {
    "SELECT Id, projectId, targetId, acquireddate, filtername, gradingStatus, metadata, rejectreason, profileId FROM acquiredimage WHERE Id IN ("@
        + placeholders(n) + ")"@
}

/// The statement reading the images with the given ids; `None` when there
/// are no ids, as nothing is to be read.
pub fn images_by_ids_query(ids: &[i32]) -> (r: Option<SqlQuery>)
    ensures
        r is None <==> ids@.len() == 0,
        r matches Some(q) ==> q.text@ == images_by_ids_text(ids@.len()) && params_of(q) == id_params(ids@),
        r matches Some(q) ==> balanced(q),
{
    proof {
        lemma_marks_ids(); lemma_ids_balanced("SELECT Id, projectId, targetId, acquireddate, filtername, gradingStatus, metadata, rejectreason, profileId FROM acquiredimage WHERE Id IN ("@, ids@.len());
    }
    if ids.len() == 0 {
        None
    } else {
        let q = ids_query("SELECT Id, projectId, targetId, acquireddate, filtername, gradingStatus, metadata, rejectreason, profileId FROM acquiredimage WHERE Id IN (", ids);
        assert(q.params@.len() == params_of(q).len());
        Some(q)
    }
}

/// The statement reading targets by id.
pub open spec fn targets_by_ids_text(n: nat) -> Seq<char> {
    "SELECT Id, projectId, name, active, ra, dec FROM target WHERE Id IN ("@ + placeholders(n) + ")"@
}

/// The statement reading the targets with the given ids; `None` when there
/// are no ids.
pub fn targets_by_ids_query(ids: &[i32]) -> (r: Option<SqlQuery>)
    ensures
        r is None <==> ids@.len() == 0,
        r matches Some(q) ==> q.text@ == targets_by_ids_text(ids@.len()) && params_of(q) == id_params(ids@),
        r matches Some(q) ==> balanced(q),
{
    proof {
        lemma_marks_ids(); lemma_ids_balanced("SELECT Id, projectId, name, active, ra, dec FROM target WHERE Id IN ("@, ids@.len());
    }
    if ids.len() == 0 {
        None
    } else {
        let q = ids_query("SELECT Id, projectId, name, active, ra, dec FROM target WHERE Id IN (", ids);
        assert(q.params@.len() == params_of(q).len());
        Some(q)
    }
}

/// The statement listing all projects by name.
pub open spec fn projects_text() -> Seq<char> {
    "SELECT Id, profileId, name, description FROM project ORDER BY name"@
}

/// Lists all projects, ordered by name.
pub fn projects_query() -> (q: SqlQuery)
    ensures
        q.text@ == projects_text(),
        params_of(q) == Seq::<SqlParam>::empty(),
        balanced(q),
{
    proof {
        lemma_marks_fixed();
    }
    let q = SqlQuery { text: String::from_str("SELECT Id, profileId, name, description FROM project ORDER BY name"), params: Vec::new() };
    assert(params_of(q) =~= Seq::<SqlParam>::empty());
    q
}

/// The statement finding a project's id by its exact name.
pub open spec fn project_id_by_name_text() -> Seq<char> {
    "SELECT Id FROM project WHERE name = ?"@
}

/// Finds the id of the project named `name`.
pub fn project_id_by_name_query(name: &str) -> (q: SqlQuery)
    ensures
        q.text@ == project_id_by_name_text(),
        params_of(q) == seq![SqlParam::Text(name@)],
        balanced(q),
{
    proof {
        lemma_marks_fixed();
    }
    let mut params: Vec<SqlValue> = Vec::new();
    params.push(SqlValue::Text(String::from_str(name)));
    let q = SqlQuery { text: String::from_str("SELECT Id FROM project WHERE name = ?"), params };
    assert(params_of(q) =~= seq![SqlParam::Text(name@)]);
    q
}

/// The statement listing a project's targets with image counts.
pub open spec fn targets_with_stats_text() -> Seq<char> {
    "SELECT t.Id, t.name, t.active, t.ra, t.dec, COUNT(ai.Id) as image_count, SUM(CASE WHEN ai.gradingStatus = 1 THEN 1 ELSE 0 END) as accepted_count, SUM(CASE WHEN ai.gradingStatus = 2 THEN 1 ELSE 0 END) as rejected_count FROM target t LEFT JOIN acquiredimage ai ON t.Id = ai.targetId WHERE t.projectid = ? GROUP BY t.Id, t.name, t.active, t.ra, t.dec ORDER BY t.name"@
}

/// Lists the targets of project `project_id` by name, each with its number of
/// images, of accepted images and of rejected images.
pub fn targets_with_stats_query(project_id: i32) -> (q: SqlQuery)
    ensures
        q.text@ == targets_with_stats_text(),
        params_of(q) == seq![SqlParam::Int(project_id as int)],
        balanced(q),
{
    proof {
        lemma_marks_stats();
    }
    let mut params: Vec<SqlValue> = Vec::new();
    params.push(SqlValue::Int(project_id as i64));
    let q = SqlQuery {
        text: String::from_str("SELECT t.Id, t.name, t.active, t.ra, t.dec, COUNT(ai.Id) as image_count, SUM(CASE WHEN ai.gradingStatus = 1 THEN 1 ELSE 0 END) as accepted_count, SUM(CASE WHEN ai.gradingStatus = 2 THEN 1 ELSE 0 END) as rejected_count FROM target t LEFT JOIN acquiredimage ai ON t.Id = ai.targetId WHERE t.projectid = ? GROUP BY t.Id, t.name, t.active, t.ra, t.dec ORDER BY t.name"),
        params,
    };
    assert(params_of(q) =~= seq![SqlParam::Int(project_id as int)]);
    q
}

/// The number of `?` placeholders in `s` from position `i` on.
pub open spec fn marks_from(s: Seq<char>, i: int) -> nat
    decreases s.len() - i,
{
    if i < 0 || i >= s.len() {
        0
    } else {
        (if s[i] == '?' { 1nat } else { 0nat }) + marks_from(s, i + 1)
    }
}

/// The number of `?` placeholders in `s`.
pub open spec fn marks(s: Seq<char>) -> nat {
    marks_from(s, 0)
}

/// `marks_from` over `a + b` from a position inside `b`.
proof fn lemma_marks_tail(a: Seq<char>, b: Seq<char>, j: int)
    requires
        0 <= j,
    ensures
        marks_from(a + b, a.len() + j) == marks_from(b, j),
    decreases b.len() - j,
{
    if j < b.len() {
        lemma_marks_tail(a, b, j + 1);
        assert((a + b)[a.len() + j] == b[j]);
    }
}

/// `marks_from` over `a + b` from a position inside `a`.
proof fn lemma_marks_head(a: Seq<char>, b: Seq<char>, i: int)
    requires
        0 <= i <= a.len(),
    ensures
        marks_from(a + b, i) == marks_from(a, i) + marks(b),
    decreases a.len() - i,
{
    if i == a.len() {
        lemma_marks_tail(a, b, 0);
    } else {
        lemma_marks_head(a, b, i + 1);
        assert((a + b)[i] == a[i]);
    }
}

/// Placeholders add up over concatenation.
pub proof fn lemma_marks_concat(a: Seq<char>, b: Seq<char>)
    ensures
        marks(a + b) == marks(a) + marks(b),
{
    lemma_marks_head(a, b, 0);
}

/// The placeholders in the pieces of the image listing statement.
proof fn lemma_marks_listing()
    ensures
        marks("SELECT ai.Id, ai.projectId, ai.targetId, ai.acquireddate, ai.filtername, ai.gradingStatus, ai.metadata, ai.rejectreason, ai.profileId, p.name as project_name, t.name as target_name FROM acquiredimage ai JOIN project p ON ai.projectId = p.Id JOIN target t ON ai.targetId = t.Id WHERE 1=1"@) == 0,
        marks(" ORDER BY ai.acquireddate DESC"@) == 0,
        marks(" AND ai.gradingStatus = ?"@) == 1,
        marks(" AND p.name LIKE ?"@) == 1,
        marks(" AND t.name LIKE ?"@) == 1,
        marks(" AND ai.acquireddate >= ?"@) == 1,
{
    reveal_strlit("SELECT ai.Id, ai.projectId, ai.targetId, ai.acquireddate, ai.filtername, ai.gradingStatus, ai.metadata, ai.rejectreason, ai.profileId, p.name as project_name, t.name as target_name FROM acquiredimage ai JOIN project p ON ai.projectId = p.Id JOIN target t ON ai.targetId = t.Id WHERE 1=1");
    assert(marks("SELECT ai.Id, ai.projectId, ai.targetId, ai.acquireddate, ai.filtername, ai.gradingStatus, ai.metadata, ai.rejectreason, ai.profileId, p.name as project_name, t.name as target_name FROM acquiredimage ai JOIN project p ON ai.projectId = p.Id JOIN target t ON ai.targetId = t.Id WHERE 1=1"@) == 0) by {
        let s = "SELECT ai.Id, ai.projectId, ai.targetId, ai.acquireddate, ai.filtername, ai.gradingStatus, ai.metadata, ai.rejectreason, ai.profileId, p.name as project_name, t.name as target_name FROM acquiredimage ai JOIN project p ON ai.projectId = p.Id JOIN target t ON ai.targetId = t.Id WHERE 1=1"@;
        assert(marks_from(s, 0) == 0 + marks_from(s, 60)) by {
            reveal_with_fuel(marks_from, 61);
        }
        assert(marks_from(s, 60) == 0 + marks_from(s, 120)) by {
            reveal_with_fuel(marks_from, 61);
        }
        assert(marks_from(s, 120) == 0 + marks_from(s, 180)) by {
            reveal_with_fuel(marks_from, 61);
        }
        assert(marks_from(s, 180) == 0 + marks_from(s, 240)) by {
            reveal_with_fuel(marks_from, 61);
        }
        assert(marks_from(s, 240) == 0) by {
            reveal_with_fuel(marks_from, 47);
        }
    }
    reveal_strlit(" ORDER BY ai.acquireddate DESC");
    assert(marks(" ORDER BY ai.acquireddate DESC"@) == 0) by {
        reveal_with_fuel(marks_from, 31);
    }
    reveal_strlit(" AND ai.gradingStatus = ?");
    assert(marks(" AND ai.gradingStatus = ?"@) == 1) by {
        reveal_with_fuel(marks_from, 26);
    }
    reveal_strlit(" AND p.name LIKE ?");
    assert(marks(" AND p.name LIKE ?"@) == 1) by {
        reveal_with_fuel(marks_from, 19);
    }
    reveal_strlit(" AND t.name LIKE ?");
    assert(marks(" AND t.name LIKE ?"@) == 1) by {
        reveal_with_fuel(marks_from, 19);
    }
    reveal_strlit(" AND ai.acquireddate >= ?");
    assert(marks(" AND ai.acquireddate >= ?"@) == 1) by {
        reveal_with_fuel(marks_from, 26);
    }
}

/// The placeholders in the pieces of the reset statements.
pub(crate) proof fn lemma_marks_reset()
    ensures
        marks(" AND projectId IN (SELECT Id FROM project WHERE name LIKE ?)"@) == 1,
        marks(" AND targetId IN (SELECT Id FROM target WHERE name LIKE ?)"@) == 1,
        marks(" AND (gradingStatus != 2 OR rejectreason NOT LIKE '%Manual%')"@) == 0,
        marks("UPDATE acquiredimage SET gradingStatus = 0, rejectreason = NULL WHERE acquireddate >= ?"@) == 1,
        marks("SELECT COUNT(*) FROM acquiredimage WHERE acquireddate >= ?"@) == 1,
        marks(" AND gradingStatus != 0"@) == 0,
{
    reveal_strlit(" AND projectId IN (SELECT Id FROM project WHERE name LIKE ?)");
    assert(marks(" AND projectId IN (SELECT Id FROM project WHERE name LIKE ?)"@) == 1) by {
        reveal_with_fuel(marks_from, 61);
    }
    reveal_strlit(" AND targetId IN (SELECT Id FROM target WHERE name LIKE ?)");
    assert(marks(" AND targetId IN (SELECT Id FROM target WHERE name LIKE ?)"@) == 1) by {
        reveal_with_fuel(marks_from, 59);
    }
    reveal_strlit(" AND (gradingStatus != 2 OR rejectreason NOT LIKE '%Manual%')");
    assert(marks(" AND (gradingStatus != 2 OR rejectreason NOT LIKE '%Manual%')"@) == 0) by {
        let s = " AND (gradingStatus != 2 OR rejectreason NOT LIKE '%Manual%')"@;
        assert(marks_from(s, 0) == 0 + marks_from(s, 60)) by {
            reveal_with_fuel(marks_from, 61);
        }
        assert(marks_from(s, 60) == 0) by {
            reveal_with_fuel(marks_from, 2);
        }
    }
    reveal_strlit("UPDATE acquiredimage SET gradingStatus = 0, rejectreason = NULL WHERE acquireddate >= ?");
    assert(marks("UPDATE acquiredimage SET gradingStatus = 0, rejectreason = NULL WHERE acquireddate >= ?"@) == 1) by {
        let s = "UPDATE acquiredimage SET gradingStatus = 0, rejectreason = NULL WHERE acquireddate >= ?"@;
        assert(marks_from(s, 0) == 0 + marks_from(s, 60)) by {
            reveal_with_fuel(marks_from, 61);
        }
        assert(marks_from(s, 60) == 1) by {
            reveal_with_fuel(marks_from, 28);
        }
    }
    reveal_strlit("SELECT COUNT(*) FROM acquiredimage WHERE acquireddate >= ?");
    assert(marks("SELECT COUNT(*) FROM acquiredimage WHERE acquireddate >= ?"@) == 1) by {
        reveal_with_fuel(marks_from, 59);
    }
    reveal_strlit(" AND gradingStatus != 0");
    assert(marks(" AND gradingStatus != 0"@) == 0) by {
        reveal_with_fuel(marks_from, 24);
    }
}

/// The placeholders in the statements without optional parts.
proof fn lemma_marks_fixed()
    ensures
        marks("UPDATE acquiredimage SET gradingStatus = ?, rejectreason = ? WHERE Id = ?"@) == 3,
        marks("SELECT Id, profileId, name, description FROM project ORDER BY name"@) == 0,
        marks("SELECT Id FROM project WHERE name = ?"@) == 1,
{
    reveal_strlit("UPDATE acquiredimage SET gradingStatus = ?, rejectreason = ? WHERE Id = ?");
    assert(marks("UPDATE acquiredimage SET gradingStatus = ?, rejectreason = ? WHERE Id = ?"@) == 3) by {
        let s = "UPDATE acquiredimage SET gradingStatus = ?, rejectreason = ? WHERE Id = ?"@;
        assert(marks_from(s, 0) == 0 + marks_from(s, 40)) by {
            reveal_with_fuel(marks_from, 41);
        }
        assert(marks_from(s, 40) == 3) by {
            reveal_with_fuel(marks_from, 34);
        }
    }
    reveal_strlit("SELECT Id, profileId, name, description FROM project ORDER BY name");
    assert(marks("SELECT Id, profileId, name, description FROM project ORDER BY name"@) == 0) by {
        let s = "SELECT Id, profileId, name, description FROM project ORDER BY name"@;
        assert(marks_from(s, 0) == 0 + marks_from(s, 40)) by {
            reveal_with_fuel(marks_from, 41);
        }
        assert(marks_from(s, 40) == 0) by {
            reveal_with_fuel(marks_from, 27);
        }
    }
    reveal_strlit("SELECT Id FROM project WHERE name = ?");
    assert(marks("SELECT Id FROM project WHERE name = ?"@) == 1) by {
        reveal_with_fuel(marks_from, 38);
    }
}

/// The placeholders in the statement listing targets with counts.
proof fn lemma_marks_stats()
    ensures
        marks("SELECT t.Id, t.name, t.active, t.ra, t.dec, COUNT(ai.Id) as image_count, SUM(CASE WHEN ai.gradingStatus = 1 THEN 1 ELSE 0 END) as accepted_count, SUM(CASE WHEN ai.gradingStatus = 2 THEN 1 ELSE 0 END) as rejected_count FROM target t LEFT JOIN acquiredimage ai ON t.Id = ai.targetId WHERE t.projectid = ? GROUP BY t.Id, t.name, t.active, t.ra, t.dec ORDER BY t.name"@) == 1,
{
    reveal_strlit("SELECT t.Id, t.name, t.active, t.ra, t.dec, COUNT(ai.Id) as image_count, SUM(CASE WHEN ai.gradingStatus = 1 THEN 1 ELSE 0 END) as accepted_count, SUM(CASE WHEN ai.gradingStatus = 2 THEN 1 ELSE 0 END) as rejected_count FROM target t LEFT JOIN acquiredimage ai ON t.Id = ai.targetId WHERE t.projectid = ? GROUP BY t.Id, t.name, t.active, t.ra, t.dec ORDER BY t.name");
    assert(marks("SELECT t.Id, t.name, t.active, t.ra, t.dec, COUNT(ai.Id) as image_count, SUM(CASE WHEN ai.gradingStatus = 1 THEN 1 ELSE 0 END) as accepted_count, SUM(CASE WHEN ai.gradingStatus = 2 THEN 1 ELSE 0 END) as rejected_count FROM target t LEFT JOIN acquiredimage ai ON t.Id = ai.targetId WHERE t.projectid = ? GROUP BY t.Id, t.name, t.active, t.ra, t.dec ORDER BY t.name"@) == 1) by {
        let s = "SELECT t.Id, t.name, t.active, t.ra, t.dec, COUNT(ai.Id) as image_count, SUM(CASE WHEN ai.gradingStatus = 1 THEN 1 ELSE 0 END) as accepted_count, SUM(CASE WHEN ai.gradingStatus = 2 THEN 1 ELSE 0 END) as rejected_count FROM target t LEFT JOIN acquiredimage ai ON t.Id = ai.targetId WHERE t.projectid = ? GROUP BY t.Id, t.name, t.active, t.ra, t.dec ORDER BY t.name"@;
        assert(marks_from(s, 0) == 0 + marks_from(s, 40)) by {
            reveal_with_fuel(marks_from, 41);
        }
        assert(marks_from(s, 40) == 0 + marks_from(s, 80)) by {
            reveal_with_fuel(marks_from, 41);
        }
        assert(marks_from(s, 80) == 0 + marks_from(s, 120)) by {
            reveal_with_fuel(marks_from, 41);
        }
        assert(marks_from(s, 120) == 0 + marks_from(s, 160)) by {
            reveal_with_fuel(marks_from, 41);
        }
        assert(marks_from(s, 160) == 0 + marks_from(s, 200)) by {
            reveal_with_fuel(marks_from, 41);
        }
        assert(marks_from(s, 200) == 0 + marks_from(s, 240)) by {
            reveal_with_fuel(marks_from, 41);
        }
        assert(marks_from(s, 240) == 0 + marks_from(s, 280)) by {
            reveal_with_fuel(marks_from, 41);
        }
        assert(marks_from(s, 280) == 1 + marks_from(s, 320)) by {
            reveal_with_fuel(marks_from, 41);
        }
        assert(marks_from(s, 320) == 0 + marks_from(s, 360)) by {
            reveal_with_fuel(marks_from, 41);
        }
        assert(marks_from(s, 360) == 0) by {
            reveal_with_fuel(marks_from, 4);
        }
    }
}

/// The placeholders in the pieces of the statements reading by id.
proof fn lemma_marks_ids()
    ensures
        marks("?"@) == 1,
        marks(",?"@) == 1,
        marks(")"@) == 0,
        marks("SELECT Id, projectId, targetId, acquireddate, filtername, gradingStatus, metadata, rejectreason, profileId FROM acquiredimage WHERE Id IN ("@) == 0,
        marks("SELECT Id, projectId, name, active, ra, dec FROM target WHERE Id IN ("@) == 0,
{
    reveal_strlit("?");
    assert(marks("?"@) == 1) by {
        reveal_with_fuel(marks_from, 2);
    }
    reveal_strlit(",?");
    assert(marks(",?"@) == 1) by {
        reveal_with_fuel(marks_from, 3);
    }
    reveal_strlit(")");
    assert(marks(")"@) == 0) by {
        reveal_with_fuel(marks_from, 2);
    }
    reveal_strlit("SELECT Id, projectId, targetId, acquireddate, filtername, gradingStatus, metadata, rejectreason, profileId FROM acquiredimage WHERE Id IN (");
    assert(marks("SELECT Id, projectId, targetId, acquireddate, filtername, gradingStatus, metadata, rejectreason, profileId FROM acquiredimage WHERE Id IN ("@) == 0) by {
        let s = "SELECT Id, projectId, targetId, acquireddate, filtername, gradingStatus, metadata, rejectreason, profileId FROM acquiredimage WHERE Id IN ("@;
        assert(marks_from(s, 0) == 0 + marks_from(s, 60)) by {
            reveal_with_fuel(marks_from, 61);
        }
        assert(marks_from(s, 60) == 0 + marks_from(s, 120)) by {
            reveal_with_fuel(marks_from, 61);
        }
        assert(marks_from(s, 120) == 0) by {
            reveal_with_fuel(marks_from, 20);
        }
    }
    reveal_strlit("SELECT Id, projectId, name, active, ra, dec FROM target WHERE Id IN (");
    assert(marks("SELECT Id, projectId, name, active, ra, dec FROM target WHERE Id IN ("@) == 0) by {
        let s = "SELECT Id, projectId, name, active, ra, dec FROM target WHERE Id IN ("@;
        assert(marks_from(s, 0) == 0 + marks_from(s, 60)) by {
            reveal_with_fuel(marks_from, 61);
        }
        assert(marks_from(s, 60) == 0) by {
            reveal_with_fuel(marks_from, 10);
        }
    }
}

/// Every placeholder of `q` has exactly one bound value, so the statement can
/// be run as it stands.
pub open spec fn balanced(q: SqlQuery) -> bool {
    marks(q.text@) == q.params@.len()
}

/// Placeholders of an optional clause.
pub proof fn lemma_marks_clause(present: bool, c: Seq<char>)
    ensures
        marks(clause(present, c)) == if present { marks(c) } else { 0 },
{
}

/// The image listing has one placeholder per given filter.
proof fn lemma_images_balanced(
    status: Option<GradingStatus>,
    project: Option<Seq<char>>,
    target: Option<Seq<char>>,
    cutoff: Option<i64>,
)
    ensures
        marks(images_query_text(status is Some, project is Some, target is Some, cutoff is Some))
            == (status_param(status) + like_param(project) + like_param(target) + cutoff_param(cutoff)).len(),
{
    lemma_marks_listing();
    let h = "SELECT ai.Id, ai.projectId, ai.targetId, ai.acquireddate, ai.filtername, ai.gradingStatus, ai.metadata, ai.rejectreason, ai.profileId, p.name as project_name, t.name as target_name FROM acquiredimage ai JOIN project p ON ai.projectId = p.Id JOIN target t ON ai.targetId = t.Id WHERE 1=1"@;
    let c1 = clause(status is Some, " AND ai.gradingStatus = ?"@);
    let c2 = clause(project is Some, " AND p.name LIKE ?"@);
    let c3 = clause(target is Some, " AND t.name LIKE ?"@);
    let c4 = clause(cutoff is Some, " AND ai.acquireddate >= ?"@);
    lemma_marks_clause(status is Some, " AND ai.gradingStatus = ?"@);
    lemma_marks_clause(project is Some, " AND p.name LIKE ?"@);
    lemma_marks_clause(target is Some, " AND t.name LIKE ?"@);
    lemma_marks_clause(cutoff is Some, " AND ai.acquireddate >= ?"@);
    lemma_marks_concat(h, c1);
    lemma_marks_concat(h + c1, c2);
    lemma_marks_concat(h + c1 + c2, c3);
    lemma_marks_concat(h + c1 + c2 + c3, c4);
    lemma_marks_concat(h + c1 + c2 + c3 + c4, " ORDER BY ai.acquireddate DESC"@);
}

/// The reset filters have one placeholder per name filter given.
proof fn lemma_reset_filters_balanced(project: bool, target: bool, automatic: bool)
    ensures
        marks(reset_filter_text(project, target, automatic))
            == (if project { 1int } else { 0 }) + (if target { 1int } else { 0 }),
{
    lemma_marks_reset();
    let c1 = clause(project, " AND projectId IN (SELECT Id FROM project WHERE name LIKE ?)"@);
    let c2 = clause(target, " AND targetId IN (SELECT Id FROM target WHERE name LIKE ?)"@);
    let c3 = clause(automatic, " AND (gradingStatus != 2 OR rejectreason NOT LIKE '%Manual%')"@);
    lemma_marks_clause(project, " AND projectId IN (SELECT Id FROM project WHERE name LIKE ?)"@);
    lemma_marks_clause(target, " AND targetId IN (SELECT Id FROM target WHERE name LIKE ?)"@);
    lemma_marks_clause(automatic, " AND (gradingStatus != 2 OR rejectreason NOT LIKE '%Manual%')"@);
    lemma_marks_concat(c1, c2);
    lemma_marks_concat(c1 + c2, c3);
}

/// Both reset statements have one placeholder per bound value.
proof fn lemma_reset_balanced(mode: Seq<char>, cutoff: i64, project: Option<Seq<char>>, target: Option<Seq<char>>)
    ensures
        marks(reset_query_text(project is Some, target is Some, is_automatic(mode))) == reset_params(cutoff, project, target).len(),
        marks(count_reset_query_text(project is Some, target is Some, is_automatic(mode))) == reset_params(cutoff, project, target).len(),
{
    lemma_marks_reset();
    lemma_reset_filters_balanced(project is Some, target is Some, is_automatic(mode));
    let f = reset_filter_text(project is Some, target is Some, is_automatic(mode));
    lemma_marks_concat("UPDATE acquiredimage SET gradingStatus = 0, rejectreason = NULL WHERE acquireddate >= ?"@, f);
    lemma_marks_concat("SELECT COUNT(*) FROM acquiredimage WHERE acquireddate >= ?"@, f);
    lemma_marks_concat("SELECT COUNT(*) FROM acquiredimage WHERE acquireddate >= ?"@ + f, " AND gradingStatus != 0"@);
}

/// `placeholders(n)` holds `n` placeholders.
proof fn lemma_placeholders_marks(n: nat)
    ensures
        marks(placeholders(n)) == n,
    decreases n,
{
    lemma_marks_ids();
    if n > 1 {
        lemma_placeholders_marks((n - 1) as nat);
        lemma_marks_concat(placeholders((n - 1) as nat), ",?"@);
    }
}

/// A statement reading by id has one placeholder per id.
proof fn lemma_ids_balanced(head: Seq<char>, n: nat)
    requires
        marks(head) == 0,
    ensures
        marks(head + placeholders(n) + ")"@) == n,
{
    lemma_marks_ids();
    lemma_placeholders_marks(n);
    lemma_marks_concat(head, placeholders(n));
    lemma_marks_concat(head + placeholders(n), ")"@);
}

} // verus!
