use psf_guard::commands::filter_rejected::get_reject_path;
use psf_guard::commands::filter_rejected::rejection_reason;
use psf_guard::grading::StatisticalRejection;
use psf_guard::utils::{extract_filename, file_name_of};
use psf_guard::text::{contains_str, replace_all};
use psf_guard::text::{decimal_string, signed_decimal_string, parse_usize_range, parse_i32_range, chars_of, to_lowercase};
use psf_guard::utils::truncate_string;
use psf_guard::header_map::string_less;

#[test]
fn truncation_counts_bytes() {
    assert_eq!(truncate_string("hello", 5), "hello");
    assert_eq!(truncate_string("hello world", 8), "hello...");
    assert_eq!(truncate_string("abcd", 3), "...");
}

#[test]
fn decimal_text() {
    assert_eq!(decimal_string(0), "0");
    assert_eq!(decimal_string(1234567890), "1234567890");
    assert_eq!(signed_decimal_string(-32), "-32");
    assert_eq!(signed_decimal_string(i64::MIN), i64::MIN.to_string());
}

#[test]
fn number_parsing() {
    let cs = chars_of("+42");
    assert_eq!(parse_usize_range(&cs, 0, cs.len()), Some(42));
    let cs = chars_of("-42");
    assert_eq!(parse_usize_range(&cs, 0, cs.len()), None);
    assert_eq!(parse_i32_range(&cs, 0, cs.len()), Some(-42));
    let cs = chars_of("2147483648");
    assert_eq!(parse_i32_range(&cs, 0, cs.len()), None);
    let cs = chars_of("-2147483648");
    assert_eq!(parse_i32_range(&cs, 0, cs.len()), Some(i32::MIN));
    let cs = chars_of("+");
    assert_eq!(parse_usize_range(&cs, 0, cs.len()), None);
    let cs = chars_of("1 2");
    assert_eq!(parse_usize_range(&cs, 0, cs.len()), None);
}

#[test]
fn lowercase_and_order() {
    assert_eq!(to_lowercase("FiTs"), "fits");
    assert!(string_less("NAXIS", "NAXIS1"));
    assert!(string_less("A", "a"));
    assert!(!string_less("b", "a"));
}

#[test]
fn reject_paths() {
    assert_eq!(get_reject_path("/data/2024-01-01/M31/LIGHT/a.fits"), "/data/2024-01-01/M31/LIGHT_REJECT/a.fits");
    assert_eq!(get_reject_path("/data/M31/LIGHT/rejected/a.fits"), "/data/M31/LIGHT_REJECT/a.fits");
    assert_eq!(get_reject_path("C:\\img\\LIGHT\\a.fits"), "C:\\img\\LIGHT_REJECT\\a.fits");
    assert_eq!(get_reject_path("C:\\img\\LIGHT\\rejected\\a.fits"), "C:\\img\\LIGHT_REJECT\\a.fits");
    assert_eq!(get_reject_path("/data/DARK/a.fits"), "/data/DARK/a.fits");
}

#[test]
fn rejection_reasons() {
    let stat = StatisticalRejection { image_id: 1, reason: "HFR".to_string(), details: "too high".to_string() };
    assert_eq!(rejection_reason(Some(&stat), &Some("manual".to_string())), "HFR - too high");
    assert_eq!(rejection_reason(None, &Some("manual".to_string())), "manual");
    assert_eq!(rejection_reason(None, &None), "No reason");
}

#[test]
fn file_names_from_metadata() {
    assert_eq!(extract_filename(r#"{"FileName":"C:\\data\\M31\\img_001.fits"}"#), Some("img_001.fits".to_string()));
    assert_eq!(extract_filename(r#"{"FileName":"/a/b/c.fits","Other":1}"#), Some("c.fits".to_string()));
    assert_eq!(extract_filename(r#"{"FileName":42}"#), None);
    assert_eq!(extract_filename("not json"), None);
    assert_eq!(file_name_of("plain.fits"), "plain.fits");
    assert_eq!(file_name_of("dir/"), "");
}

#[test]
fn replacing_and_searching() {
    assert_eq!(replace_all("aaa", "aa", "b"), "ba");
    assert_eq!(replace_all("x/LIGHT/y/LIGHT/", "/LIGHT/", "/L/"), "x/L/y/L/");
    assert!(contains_str("abc", ""));
    assert!(contains_str("abc", "bc"));
    assert!(!contains_str("abc", "cd"));
}
