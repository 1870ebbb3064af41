use psf_guard::server::cache::cached_path;
use psf_guard::models::GradingStatus;
use psf_guard::server::api::{ImageQuery, UpdateGradeRequest};
use psf_guard::server::handlers::{listing_page, listing_status_filter, requested_grade, AppError};

fn query(project: Option<i32>, target: Option<i32>, status: Option<&str>, limit: Option<i32>, offset: Option<i32>) -> ImageQuery {
    ImageQuery { project_id: project, target_id: target, status: status.map(|s| s.to_string()), limit, offset }
}

#[test]
fn listing_status_names_are_exact() {
    assert!(matches!(listing_status_filter(&query(None, None, Some("rejected"), None, None)), Some(GradingStatus::Rejected)));
    assert!(listing_status_filter(&query(None, None, Some("Rejected"), None, None)).is_none());
    assert!(listing_status_filter(&query(None, None, None, None, None)).is_none());
}

#[test]
fn grade_requests() {
    let ok = requested_grade(&UpdateGradeRequest { status: "accepted".to_string(), reason: None });
    assert!(matches!(ok, Ok(GradingStatus::Accepted)));
    match requested_grade(&UpdateGradeRequest { status: "great".to_string(), reason: None }) {
        Err(AppError::BadRequest(m)) => assert_eq!(m, "Invalid status"),
        other => panic!("unexpected {:?}", other),
    }
}

#[test]
fn listing_pages() {
    let ids = vec![(1, 10), (2, 20), (1, 11), (1, 10), (1, 10)];
    assert_eq!(listing_page(&query(None, None, None, None, None), &ids), vec![0, 1, 2, 3, 4]);
    assert_eq!(listing_page(&query(Some(1), None, None, None, None), &ids), vec![0, 2, 3, 4]);
    assert_eq!(listing_page(&query(Some(1), Some(10), None, None, None), &ids), vec![0, 3, 4]);
    assert_eq!(listing_page(&query(Some(1), None, None, Some(2), Some(1)), &ids), vec![2, 3]);
    assert_eq!(listing_page(&query(None, None, None, Some(10), Some(4)), &ids), vec![4]);
    assert!(listing_page(&query(None, None, None, Some(0), None), &ids).is_empty());
    assert!(listing_page(&query(None, None, None, None, Some(-1)), &ids).is_empty());
    assert_eq!(listing_page(&query(None, None, None, Some(-1), None), &ids).len(), 5);
}

#[test]
fn cache_file_locations() {
    assert_eq!(cached_path("/tmp/cache", "previews", "42_large", "png"), "/tmp/cache/previews/42_large.png");
    assert_eq!(cached_path("/tmp/cache/", "stars", "7", "json"), "/tmp/cache/stars/7.json");
}
