use psf_guard::commands::visualize_psf::residuals::psf_visualization_request;
use psf_guard::hocus_focus_star_detection::{apply_hotpixel_filter, find_star_candidates};
use psf_guard::commands::dump_grading::{csv_header, csv_row, status_filter};
use psf_guard::commands::filter_rejected::{epoch_day_of, get_possible_paths, plan_file_move, should_move};
use psf_guard::commands::list_targets::{project_ref, ProjectRef};
use psf_guard::commands::show_images::parse_id_list;
use psf_guard::commands::update_grade::validate_grade_update;
use psf_guard::grading::{sequence_groups, sequence_order, SequenceKey};
use psf_guard::models::{AcquiredImage, GradingStatus};
use psf_guard::text::{split_on, trim_str};

fn image(id: i32, acquired: Option<i64>, metadata: &str) -> AcquiredImage {
    AcquiredImage {
        id,
        project_id: 1,
        target_id: 2,
        acquired_date: acquired,
        filter_name: "Ha".to_string(),
        grading_status: 2,
        metadata: metadata.to_string(),
        reject_reason: Some("Stars".to_string()),
        profile_id: None,
    }
}

#[test]
fn status_names_in_any_case() {
    assert_eq!(GradingStatus::from_name("Rejected"), Ok(GradingStatus::Rejected));
    assert_eq!(GradingStatus::from_name("PENDING"), Ok(GradingStatus::Pending));
    assert_eq!(
        GradingStatus::from_name("done").unwrap_err(),
        "Invalid status: done. Use pending, accepted, or rejected"
    );
}

#[test]
fn grade_updates_need_a_reason_to_reject() {
    assert_eq!(validate_grade_update("accepted", false), Ok(GradingStatus::Accepted));
    assert_eq!(validate_grade_update("Rejected", true), Ok(GradingStatus::Rejected));
    assert_eq!(
        validate_grade_update("rejected", false).unwrap_err(),
        "Rejection reason is required when setting status to rejected"
    );
    assert!(validate_grade_update("maybe", true).is_err());
}

#[test]
fn report_status_filter() {
    assert_eq!(status_filter(None), Ok(None));
    assert_eq!(status_filter(Some("accepted")), Ok(Some(GradingStatus::Accepted)));
    assert!(status_filter(Some("bad")).is_err());
}

#[test]
fn csv_rows() {
    assert_eq!(
        csv_header(),
        "id,filename,project_name,target_name,filter_name,grading_status,acquired_date,reject_reason"
    );
    let img = image(12, Some(1_700_000_000), r#"{"FileName":"C:\\data\\LIGHT\\m31_001.fits"}"#);
    assert_eq!(csv_row(&img, "Galaxies", "M31"), "12,m31_001.fits,Galaxies,M31,Ha,Rejected,1700000000,Stars");
    let bare = AcquiredImage { acquired_date: None, reject_reason: None, grading_status: 0, ..image(-3, None, "{}") };
    assert_eq!(csv_row(&bare, "P", "T"), "-3,Unknown,P,T,Ha,Pending,,");
}

#[test]
fn id_lists() {
    assert_eq!(parse_id_list("1, 2,3"), Ok(vec![1, 2, 3]));
    assert_eq!(parse_id_list(" -7 "), Ok(vec![-7]));
    assert_eq!(parse_id_list("1,,2").unwrap_err(), "cannot parse integer from empty string");
    assert_eq!(parse_id_list("4,x").unwrap_err(), "invalid digit found in string");
    assert_eq!(parse_id_list("99999999999").unwrap_err(), "number too large to fit in target type");
}

#[test]
fn splitting_and_trimming() {
    assert_eq!(split_on("a,b,,c", ','), vec!["a", "b", "", "c"]);
    assert_eq!(split_on("", ','), vec![""]);
    assert_eq!(trim_str("  x y \t"), "x y");
}

#[test]
fn project_identifiers() {
    assert!(matches!(project_ref("42"), ProjectRef::Id(42)));
    match project_ref("Veil Nebula") {
        ProjectRef::Name(n) => assert_eq!(n, "Veil Nebula"),
        ProjectRef::Id(_) => panic!("a name was read as an id"),
    }
}

#[test]
fn moving_decisions() {
    assert!(should_move(2, false, false));
    assert!(!should_move(1, true, false));
    assert!(should_move(1, true, true));
    assert!(!should_move(0, false, true));
}

#[test]
fn epoch_days() {
    assert_eq!(epoch_day_of(0), 0);
    assert_eq!(epoch_day_of(86_399), 0);
    assert_eq!(epoch_day_of(86_400), 1);
    assert_eq!(epoch_day_of(-1), -1);
    assert_eq!(epoch_day_of(-86_400), -1);
    assert_eq!(epoch_day_of(-86_401), -2);
    assert_eq!(epoch_day_of(i64::MIN), i64::MIN.div_euclid(86_400));
}

#[test]
fn move_plan_dates_across_the_calendar() {
    let at = |day: i64| image(12, Some(day * 86400 + 3600), r#"{"FileName":"a.fits"}"#);
    assert_eq!(plan_file_move(&at(-1)).unwrap().date_folder, "1969-12-31");
    assert_eq!(plan_file_move(&at(19782)).unwrap().date_folder, "2024-02-29");
    assert_eq!(plan_file_move(&at(-719528)).unwrap().date_folder, "0000-01-01");
    assert_eq!(plan_file_move(&at(-719529)).unwrap().date_folder, "-0001-12-31");
    assert_eq!(plan_file_move(&at(2932897)).unwrap().date_folder, "+10000-01-01");
    assert_eq!(plan_file_move(&at(-96465292)).unwrap().date_folder, "-262143-01-01");
    assert_eq!(plan_file_move(&at(95026236)).unwrap().date_folder, "+262142-12-31");
    assert_eq!(plan_file_move(&at(-96465293)).unwrap_err(), "Invalid date for image 12");
    assert_eq!(plan_file_move(&at(95026237)).unwrap_err(), "Invalid date for image 12");
}

#[test]
fn candidate_locations_of_a_rejected_file() {
    assert_eq!(
        get_possible_paths("/data", "2024-01-05", "M31", "m31_001.fits"),
        vec![
            "/data/2024-01-05/M31/2024-01-05/LIGHT/m31_001.fits",
            "/data/M31/2024-01-05/LIGHT/m31_001.fits",
            "/data/2024-01-05/M31/2024-01-05/LIGHT/rejected/m31_001.fits",
            "/data/M31/2024-01-05/LIGHT/rejected/m31_001.fits",
        ]
    );
    assert_eq!(get_possible_paths("/data/", "d", "t", "/abs.fits")[1], "/abs.fits");
}

#[test]
fn move_plans() {
    let img = image(5, Some(1_431_648_000), r#"{"FileName":"/data/2015-05-15/LIGHT/m31_001.fits","TargetName":"M31"}"#);
    let plan = plan_file_move(&img).unwrap();
    assert_eq!(plan.file_name, "m31_001.fits");
    assert_eq!(plan.date_folder, "2015-05-15");
    assert_eq!(plan.target_name, "M31");

    let unnamed = image(6, Some(0), r#"{"FileName":"x.fits"}"#);
    let plan = plan_file_move(&unnamed).unwrap();
    assert_eq!(plan.target_name, "Unknown");
    assert_eq!(plan.date_folder, "1970-01-01");

    assert_eq!(plan_file_move(&image(7, Some(0), "{}")).unwrap_err(), "No filename in metadata for image 7");
    assert_eq!(plan_file_move(&image(8, None, r#"{"FileName":"a.fits"}"#)).unwrap_err(), "Invalid date for image 8");
    assert_eq!(plan_file_move(&image(9, Some(0), r#"{"FileName":"/"}"#)).unwrap_err(), "Invalid filename format");
    assert!(plan_file_move(&image(10, Some(0), "not json")).is_err());
    assert_eq!(
        plan_file_move(&image(11, Some(i64::MAX), r#"{"FileName":"a.fits"}"#)).unwrap_err(),
        "Invalid date for image 11"
    );
}

fn key(target: i32, filter: &str, time: &str) -> SequenceKey {
    SequenceKey { target_id: target, filter_name: filter.to_string(), exposure_time: time.to_string() }
}

#[test]
fn sequence_order_and_groups() {
    let keys = vec![
        key(2, "Ha", "2023-08-27T10:05:00Z"),
        key(1, "OIII", "2023-08-27T09:00:00Z"),
        key(2, "Ha", "2023-08-27T10:00:00Z"),
        key(1, "Ha", "2023-08-27T11:00:00Z"),
        key(2, "Ha", "2023-08-27T10:00:00Z"),
    ];
    assert_eq!(sequence_order(&keys), vec![3, 1, 2, 4, 0]);
    assert_eq!(sequence_groups(&keys), vec![vec![3], vec![1], vec![2, 4, 0]]);
    assert!(sequence_groups(&[]).is_empty());
}

#[test]
fn star_candidate_scan_of_a_longer_map_and_an_empty_row() {
    assert!(find_star_candidates(&[true, true], 0, 1, 1, 5).is_empty());
    let w = 3;
    let mut map = vec![false; w * 3];
    map[4] = true;
    map.extend_from_slice(&[true; 5]);
    let found = find_star_candidates(&map, w, 3, 1, 5);
    assert_eq!(found.len(), 1);
    assert_eq!(found[0].pixels, vec![(1, 1)]);
}

#[test]
fn star_candidate_scan() {
    let w = 6;
    let h = 6;
    let mut map = vec![false; w * h];
    for (x, y) in [(1, 1), (2, 1), (1, 2), (2, 2)] {
        map[y * w + x] = true;
    }
    let found = find_star_candidates(&map, w, h, 2, 10);
    assert_eq!(found.len(), 1);
    assert_eq!(found[0].pixels, vec![(1, 1), (2, 1), (1, 2), (2, 2)]);
    assert_eq!(found[0].bounding_box, (1, 1, 3, 2));
    assert!(find_star_candidates(&map, w, h, 4, 10).is_empty());
    assert!(find_star_candidates(&map, w, h, 1, 2).is_empty());
}

#[test]
fn star_candidates_do_not_overlap() {
    let w = 8;
    let h = 5;
    let rows = ["........", ".##..#..", ".##..##.", "........", "........"];
    let map: Vec<bool> = rows.iter().flat_map(|r| r.chars().map(|c| c == '#')).collect();
    let found = find_star_candidates(&map, w, h, 1, 8);
    assert_eq!(found.len(), 2);
    assert_eq!(found[0].pixels, vec![(1, 1), (2, 1), (1, 2), (2, 2)]);
    assert_eq!(found[1].pixels, vec![(5, 1), (5, 2), (6, 2)]);
    for (k, c) in found.iter().enumerate() {
        let (bx, by, bw, bh) = c.bounding_box;
        for &(x, y) in &c.pixels {
            assert!(map[y * w + x]);
            assert!(bx <= x && x < bx + bw && by <= y && y < by + bh);
        }
        for later in &found[k + 1..] {
            for &(x, y) in &later.pixels {
                assert!(!(bx <= x && x < bx + bw && by <= y && y < by + bh));
            }
        }
    }
}

#[test]
fn hot_pixels_take_the_window_median() {
    let mut data = vec![100u16; 9];
    data[4] = 5000;
    assert_eq!(apply_hotpixel_filter(&data, 3, 3, 50)[4], 100);
    assert_eq!(apply_hotpixel_filter(&data, 3, 3, 4900), data);
    assert_eq!(apply_hotpixel_filter(&data, 3, 3, 4899)[4], 100);

    // 4x4: interior pixels are (1,1), (2,1), (1,2), (2,2); the border is kept.
    let data: Vec<u16> = vec![
        10, 20, 30, 40,
        50, 60, 70, 80,
        90, 9000, 110, 120,
        130, 140, 150, 160,
    ];
    let out = apply_hotpixel_filter(&data, 4, 4, 1000);
    let mut expected = data.clone();
    // window of (1,2): 50 60 70 / 90 9000 110 / 130 140 150 -> median 110
    expected[2 * 4 + 1] = 110;
    assert_eq!(out, expected);
    // A single row is left as it is.
    assert_eq!(apply_hotpixel_filter(&[7, 9000, 7], 3, 1, 0), vec![7, 9000, 7]);
}

#[test]
fn psf_residual_view_grid() {
    let one = psf_visualization_request(Some(4), 20);
    assert_eq!((one.num_stars, one.sort_by.as_str(), one.grid_cols, one.selection_mode.as_str()), (1, "r2", 3, "top"));
    assert_eq!(one.star_index, Some(4));
    assert_eq!(psf_visualization_request(None, 20).num_stars, 9);
    assert_eq!(psf_visualization_request(None, 20).star_index, None);
    assert_eq!(psf_visualization_request(None, 4).num_stars, 4);
}
