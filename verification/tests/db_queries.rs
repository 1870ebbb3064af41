use psf_guard::commands::regrade::{auto_rejection_query, regrade_count_query, regrade_reset_query, validate_reset_mode};
use psf_guard::db::{
    batch_update_queries, count_reset_query, images_by_ids_query, images_query, like_pattern, placeholder_list,
    project_id_by_name_query, projects_query, reset_query, targets_by_ids_query, targets_with_stats_query,
    update_status_query, SqlQuery, SqlValue,
};
use psf_guard::grading::StatisticalRejection;
use psf_guard::models::GradingStatus;

fn marks(q: &SqlQuery) -> usize {
    q.text.chars().filter(|&c| c == '?').count()
}

fn ints(q: &SqlQuery) -> Vec<Option<i64>> {
    q.params
        .iter()
        .map(|p| match p {
            SqlValue::Int(n) => Some(*n),
            _ => None,
        })
        .collect()
}

fn texts(q: &SqlQuery) -> Vec<Option<String>> {
    q.params
        .iter()
        .map(|p| match p {
            SqlValue::Text(s) => Some(s.clone()),
            _ => None,
        })
        .collect()
}

#[test]
fn like_pattern_wraps_in_percent_signs() {
    assert_eq!(like_pattern("M31"), "%M31%");
    assert_eq!(like_pattern(""), "%%");
}

#[test]
fn image_listing_without_filters() {
    let q = images_query(None, None, None, None);
    assert!(q.text.ends_with("WHERE 1=1 ORDER BY ai.acquireddate DESC"));
    assert!(q.params.is_empty());
    assert_eq!(marks(&q), 0);
}

#[test]
fn image_listing_with_every_filter() {
    let q = images_query(Some(GradingStatus::Rejected), Some("Andromeda"), Some("M31"), Some(1_700_000_000));
    assert!(q.text.ends_with(
        "WHERE 1=1 AND ai.gradingStatus = ? AND p.name LIKE ? AND t.name LIKE ? AND ai.acquireddate >= ? ORDER BY ai.acquireddate DESC"
    ));
    assert_eq!(ints(&q), vec![Some(2), None, None, Some(1_700_000_000)]);
    assert_eq!(texts(&q), vec![None, Some("%Andromeda%".to_string()), Some("%M31%".to_string()), None]);
    assert_eq!(marks(&q), q.params.len());
}

#[test]
fn image_listing_with_target_only() {
    let q = images_query(None, None, Some("NGC 7000"), None);
    assert!(q.text.ends_with("WHERE 1=1 AND t.name LIKE ? ORDER BY ai.acquireddate DESC"));
    assert_eq!(texts(&q), vec![Some("%NGC 7000%".to_string())]);
}

#[test]
fn status_codes() {
    assert_eq!(GradingStatus::Pending.code(), 0);
    assert_eq!(GradingStatus::Accepted.code(), 1);
    assert_eq!(GradingStatus::Rejected.code(), 2);
}

#[test]
fn placeholders_are_comma_separated() {
    assert_eq!(placeholder_list(0), "");
    assert_eq!(placeholder_list(1), "?");
    assert_eq!(placeholder_list(3), "?,?,?");
}

#[test]
fn reading_by_ids() {
    assert!(images_by_ids_query(&[]).is_none());
    assert!(targets_by_ids_query(&[]).is_none());
    let q = images_by_ids_query(&[5, 9, 12]).unwrap();
    assert!(q.text.ends_with("FROM acquiredimage WHERE Id IN (?,?,?)"));
    assert_eq!(ints(&q), vec![Some(5), Some(9), Some(12)]);
    let t = targets_by_ids_query(&[4]).unwrap();
    assert_eq!(t.text, "SELECT Id, projectId, name, active, ra, dec FROM target WHERE Id IN (?)");
    assert_eq!(ints(&t), vec![Some(4)]);
}

#[test]
fn updating_one_grade() {
    let q = update_status_query(42, GradingStatus::Rejected, Some("Clouds"));
    assert_eq!(q.text, "UPDATE acquiredimage SET gradingStatus = ?, rejectreason = ? WHERE Id = ?");
    assert_eq!(ints(&q), vec![Some(2), None, Some(42)]);
    assert_eq!(texts(&q), vec![None, Some("Clouds".to_string()), None]);
    let cleared = update_status_query(7, GradingStatus::Accepted, None);
    assert!(matches!(cleared.params[1], SqlValue::Null));
    assert_eq!(marks(&cleared), 3);
}

#[test]
fn batch_of_updates() {
    let updates = vec![(1, GradingStatus::Accepted, None), (2, GradingStatus::Rejected, Some("Trails".to_string()))];
    let qs = batch_update_queries(&updates);
    assert_eq!(qs.len(), 2);
    assert_eq!(ints(&qs[0]), vec![Some(1), None, Some(1)]);
    assert_eq!(texts(&qs[1]), vec![None, Some("Trails".to_string()), None]);
}

#[test]
fn resetting_grades() {
    let q = reset_query("automatic", 1000, Some("P"), None);
    assert_eq!(
        q.text,
        "UPDATE acquiredimage SET gradingStatus = 0, rejectreason = NULL WHERE acquireddate >= ? AND projectId IN (SELECT Id FROM project WHERE name LIKE ?) AND (gradingStatus != 2 OR rejectreason NOT LIKE '%Manual%')"
    );
    assert_eq!(ints(&q), vec![Some(1000), None]);
    let all = reset_query("all", 5, None, Some("T"));
    assert!(!all.text.contains("Manual"));
    let count = count_reset_query("all", 5, None, Some("T"));
    assert_eq!(
        count.text,
        "SELECT COUNT(*) FROM acquiredimage WHERE acquireddate >= ? AND targetId IN (SELECT Id FROM target WHERE name LIKE ?) AND gradingStatus != 0"
    );
    assert_eq!(marks(&count), count.params.len());
}

#[test]
fn fixed_statements() {
    assert_eq!(projects_query().text, "SELECT Id, profileId, name, description FROM project ORDER BY name");
    let by_name = project_id_by_name_query("Veil");
    assert_eq!(by_name.text, "SELECT Id FROM project WHERE name = ?");
    assert_eq!(texts(&by_name), vec![Some("Veil".to_string())]);
    let stats = targets_with_stats_query(3);
    assert!(stats.text.contains("WHERE t.projectid = ?"));
    assert_eq!(ints(&stats), vec![Some(3)]);
    assert_eq!(marks(&stats), 1);
}

#[test]
fn every_placeholder_is_bound() {
    for q in [
        images_query(Some(GradingStatus::Pending), None, Some("x"), Some(3)),
        reset_query("automatic", 0, Some("a"), Some("b")),
        count_reset_query("none", 0, None, None),
        regrade_reset_query("automatic", 0, Some("a"), None),
        regrade_count_query("all", 0, None, Some("b")),
    ] {
        assert_eq!(marks(&q), q.params.len(), "{}", q.text);
    }
}

#[test]
fn reset_modes() {
    assert!(validate_reset_mode("none").is_ok());
    assert!(validate_reset_mode("automatic").is_ok());
    assert!(validate_reset_mode("all").is_ok());
    assert_eq!(
        validate_reset_mode("some").unwrap_err(),
        "Invalid reset mode: some. Use 'none', 'automatic', or 'all'"
    );
}

#[test]
fn regrading_statements() {
    let q = regrade_reset_query("automatic", 77, None, None);
    assert_eq!(
        q.text,
        "UPDATE acquiredimage SET gradingStatus = 0, rejectreason = NULL WHERE acquireddate >= ? AND (gradingStatus = 2 AND (rejectreason IS NULL OR rejectreason LIKE '%[Auto]%' OR (rejectreason NOT LIKE '%Manual%' AND rejectreason NOT LIKE '%manual%')))"
    );
    let c = regrade_count_query("automatic", 77, None, None);
    assert!(c.text.starts_with("SELECT COUNT(*) FROM acquiredimage WHERE acquireddate >= ? AND (gradingStatus = 2"));
    assert_eq!(ints(&c), vec![Some(77)]);
    let rejection = StatisticalRejection { image_id: 9, reason: "Cloud Detection".to_string(), details: "HFR up".to_string() };
    let a = auto_rejection_query(&rejection);
    assert_eq!(a.text, "UPDATE acquiredimage SET gradingStatus = 2, rejectreason = ? WHERE Id = ?");
    assert_eq!(texts(&a), vec![Some("[Auto] Cloud Detection - HFR up".to_string()), None]);
    assert_eq!(ints(&a), vec![None, Some(9)]);
}
