//! Where a rejected exposure is moved, and the reason shown for it.

use vstd::prelude::*;
use vstd::string::StringExecFns;
use crate::grading::StatisticalRejection;
use crate::models::AcquiredImage;
use crate::text::{decimal, occurs_only_at, law_replace_single, replaced, contains_seq, replace_all, contains_str, law_replace_absent, signed_decimal, signed_decimal_string};
use crate::utils::{json_error_text, json_parse_error, json_string_member, json_member_str, path_file_name, file_name_component, path_joined, join_path};

verus! {

broadcast use vstd::string::group_string_axioms;

/// The reject location of a file: a file already in a `LIGHT/rejected`
/// folder moves to `LIGHT_REJECT`; otherwise every `LIGHT` folder of the path
/// becomes `LIGHT_REJECT`.  Both `/` and `\` separators are handled.
pub open spec fn reject_path_of(p: Seq<char>) -> Seq<char> {
    if contains_seq(p, "/LIGHT/rejected/"@) || contains_seq(p, "\\LIGHT\\rejected\\"@) {
        replaced(replaced(p, "/LIGHT/rejected/"@, "/LIGHT_REJECT/"@), "\\LIGHT\\rejected\\"@, "\\LIGHT_REJECT\\"@)
    } else {
        replaced(replaced(p, "/LIGHT/"@, "/LIGHT_REJECT/"@), "\\LIGHT\\"@, "\\LIGHT_REJECT\\"@)
    }
}

/// The path a rejected file is moved to.
pub fn get_reject_path(source_path: &str) -> (r: String)
    ensures
        r@ == reject_path_of(source_path@),
{
    proof {
        reveal_strlit("/LIGHT/rejected/");
        reveal_strlit("\\LIGHT\\rejected\\");
        reveal_strlit("/LIGHT/");
        reveal_strlit("\\LIGHT\\");
    }
    if contains_str(source_path, "/LIGHT/rejected/") || contains_str(source_path, "\\LIGHT\\rejected\\") {
        let step = replace_all(source_path, "/LIGHT/rejected/", "/LIGHT_REJECT/");
        replace_all(step.as_str(), "\\LIGHT\\rejected\\", "\\LIGHT_REJECT\\")
    } else {
        let step = replace_all(source_path, "/LIGHT/", "/LIGHT_REJECT/");
        replace_all(step.as_str(), "\\LIGHT\\", "\\LIGHT_REJECT\\")
    }
}

/// The reason shown for moving an image: the statistical test's reason and
/// details when it failed one, else its recorded reject reason, else
/// `No reason`.
pub open spec fn rejection_reason_text(stat: Option<StatisticalRejection>, reject_reason: Option<Seq<char>>) -> Seq<char> {
    match stat {
        Some(s) => s.reason@ + " - "@ + s.details@,
        None => match reject_reason {
            Some(r) => r,
            None => "No reason"@,
        },
    }
}

/// Formats the reason an image is moved.
pub fn rejection_reason(stat: Option<&StatisticalRejection>, reject_reason: &Option<String>) -> (r: String)
    ensures
        r@ == rejection_reason_text(match stat { Some(s) => Some(*s), None => None }, match reject_reason {
            Some(x) => Some(x@),
            None => None,
        }),
{
    match stat {
        Some(s) => {
            let mut out = s.reason.clone();
            out.append(" - ");
            out.append(s.details.as_str());
            out
        },
        None => match reject_reason {
            Some(x) => x.clone(),
            None => String::from_str("No reason"),
        },
    }
}

/// A path without a `LIGHT` folder keeps its place.
pub proof fn law_reject_path_without_light(p: Seq<char>)
    requires
        !contains_seq(p, "/LIGHT/"@),
        !contains_seq(p, "\\LIGHT\\"@),
    ensures
        reject_path_of(p) == p,
{
    reveal_strlit("/LIGHT/rejected/");
    reveal_strlit("\\LIGHT\\rejected\\");
    reveal_strlit("/LIGHT/");
    reveal_strlit("\\LIGHT\\");
    assert(!contains_seq(p, "/LIGHT/rejected/"@)) by {
        if contains_seq(p, "/LIGHT/rejected/"@) {
            let i = choose|i: int| 0 <= i && i + "/LIGHT/rejected/"@.len() <= p.len() && #[trigger] p.subrange(i, i + "/LIGHT/rejected/"@.len()) == "/LIGHT/rejected/"@;
            assert(p.subrange(i, i + "/LIGHT/"@.len()) =~= "/LIGHT/"@);
        }
    }
    assert(!contains_seq(p, "\\LIGHT\\rejected\\"@)) by {
        if contains_seq(p, "\\LIGHT\\rejected\\"@) {
            let i = choose|i: int| 0 <= i && i + "\\LIGHT\\rejected\\"@.len() <= p.len() && #[trigger] p.subrange(i, i + "\\LIGHT\\rejected\\"@.len()) == "\\LIGHT\\rejected\\"@;
            assert(p.subrange(i, i + "\\LIGHT\\"@.len()) =~= "\\LIGHT\\"@);
        }
    }
    law_replace_absent(p, "/LIGHT/"@, "/LIGHT_REJECT/"@);
    law_replace_absent(p, "\\LIGHT\\"@, "\\LIGHT_REJECT\\"@);
}

/// `s` holds no `\\` separator.
pub open spec fn no_backslash(s: Seq<char>) -> bool {
    forall|i: int| 0 <= i < s.len() ==> s[i] != '\\'
}

/// A text without `\\` holds no pattern that starts with one.
proof fn lemma_no_backslash_pattern(s: Seq<char>, q: Seq<char>)
    requires
        no_backslash(s),
        q.len() > 0,
        q[0] == '\\',
    ensures
        !contains_seq(s, q),
{
    if contains_seq(s, q) {
        let i = choose|i: int| 0 <= i && i + q.len() <= s.len() && #[trigger] s.subrange(i, i + q.len()) == q;
        assert(s[i] == s.subrange(i, i + q.len())[0]);
    }
}

/// A file directly in a `LIGHT` folder (a `/`-separated path with one
/// `/LIGHT/` and no `/LIGHT/rejected/`) moves to the `LIGHT_REJECT` folder
/// beside it.
pub proof fn law_reject_path_of_light_file(a: Seq<char>, f: Seq<char>)
    requires
        occurs_only_at(a + "/LIGHT/"@ + f, "/LIGHT/"@, a.len() as int),
        !contains_seq(a + "/LIGHT/"@ + f, "/LIGHT/rejected/"@),
        no_backslash(a + "/LIGHT/"@ + f),
    ensures
        reject_path_of(a + "/LIGHT/"@ + f) == a + "/LIGHT_REJECT/"@ + f,
{
    reveal_strlit("/LIGHT/");
    reveal_strlit("/LIGHT_REJECT/");
    reveal_strlit("\\LIGHT\\rejected\\");
    reveal_strlit("\\LIGHT\\");
    let p = a + "/LIGHT/"@ + f;
    let q = a + "/LIGHT_REJECT/"@ + f;
    lemma_no_backslash_pattern(p, "\\LIGHT\\rejected\\"@);
    law_replace_single(a, "/LIGHT/"@, "/LIGHT_REJECT/"@, f);
    assert(no_backslash(q)) by {
        assert forall|i: int| 0 <= i < q.len() implies q[i] != '\\' by {
            if i < a.len() {
                assert(q[i] == p[i]);
            } else if i >= a.len() + "/LIGHT_REJECT/"@.len() {
                assert(q[i] == p[i - "/LIGHT_REJECT/"@.len() + "/LIGHT/"@.len()]);
            }
        }
    }
    lemma_no_backslash_pattern(q, "\\LIGHT\\"@);
    law_replace_absent(q, "\\LIGHT\\"@, "\\LIGHT_REJECT\\"@);
}

/// A file in a `LIGHT/rejected` folder (a `/`-separated path with one
/// `/LIGHT/rejected/`) moves to the `LIGHT_REJECT` folder beside `LIGHT`.
pub proof fn law_reject_path_of_rejected_file(a: Seq<char>, f: Seq<char>)
    requires
        occurs_only_at(a + "/LIGHT/rejected/"@ + f, "/LIGHT/rejected/"@, a.len() as int),
        no_backslash(a + "/LIGHT/rejected/"@ + f),
    ensures
        reject_path_of(a + "/LIGHT/rejected/"@ + f) == a + "/LIGHT_REJECT/"@ + f,
{
    reveal_strlit("/LIGHT/rejected/");
    reveal_strlit("/LIGHT_REJECT/");
    reveal_strlit("\\LIGHT\\rejected\\");
    let p = a + "/LIGHT/rejected/"@ + f;
    let q = a + "/LIGHT_REJECT/"@ + f;
    assert(p.subrange(a.len() as int, a.len() + "/LIGHT/rejected/"@.len() as int) =~= "/LIGHT/rejected/"@);
    assert(contains_seq(p, "/LIGHT/rejected/"@));
    law_replace_single(a, "/LIGHT/rejected/"@, "/LIGHT_REJECT/"@, f);
    assert(no_backslash(q)) by {
        assert forall|i: int| 0 <= i < q.len() implies q[i] != '\\' by {
            if i < a.len() {
                assert(q[i] == p[i]);
            } else if i >= a.len() + "/LIGHT_REJECT/"@.len() {
                assert(q[i] == p[i - "/LIGHT_REJECT/"@.len() + "/LIGHT/rejected/"@.len()]);
            }
        }
    }
    lemma_no_backslash_pattern(q, "\\LIGHT\\rejected\\"@);
    law_replace_absent(q, "\\LIGHT\\rejected\\"@, "\\LIGHT_REJECT\\"@);
}

/// The day, counted from 1970-01-01, in which the instant `secs` seconds after
/// the Unix epoch falls.
pub open spec fn epoch_day(secs: int) -> int {
    secs / 86400
}

/// Computes `epoch_day(secs)`, rounding toward earlier days.
pub fn epoch_day_of(secs: i64) -> (r: i64)
    ensures
        r == epoch_day(secs as int),
{
    if secs >= 0 {
        secs / 86400
    } else {
        let m: u64 = (-(secs + 1)) as u64;
        let q: u64 = m / 86400;
        assert(q <= i64::MAX);
        proof {
            assert(-(q as int) - 1 == (secs as int) / 86400) by (nonlinear_arith)
                requires
                    m == -(secs + 1),
                    q == m / 86400,
                    secs < 0,
            {
            }
        }
        -(q as i64) - 1
    }
}

/// The proleptic Gregorian year, month and day of the day `days` days after
/// 1970-01-01 (days counted in 400-year eras of 146097 days, from 0000-03-01).
pub open spec fn civil_from_days(days: int) -> (int, int, int) {
    let z = days + 719468;
    let era = z / 146097;
    let doe = z % 146097;
    let yoe = (doe - doe / 1460 + doe / 36524 - doe / 146096) / 365;
    let doy = doe - (365 * yoe + yoe / 4 - yoe / 100);
    let mp = (5 * doy + 2) / 153;
    let d = doy - (153 * mp + 2) / 5 + 1;
    let m = if mp < 10 { mp + 3 } else { mp - 9 };
    (if m <= 2 { yoe + era * 400 + 1 } else { yoe + era * 400 }, m, d)
}

/// Digits `s` padded on the left with zeros to at least four.
pub open spec fn zero_pad4(s: Seq<char>) -> Seq<char> {
    if s.len() >= 4 {
        s
    } else {
        Seq::new((4 - s.len()) as nat, |i: int| '0') + s
    }
}

/// A year as chrono's `%Y` writes it: four digits or more, zero-padded, with
/// a sign before years outside 0 to 9999.
pub open spec fn year_text(y: int) -> Seq<char> {
    if 0 <= y <= 9999 {
        zero_pad4(decimal(y as nat))
    } else if y < 0 {
        seq!['-'] + zero_pad4(decimal((-y) as nat))
    } else {
        seq!['+'] + zero_pad4(decimal(y as nat))
    }
}

/// A month or day number as two digits.
pub open spec fn two_digits(v: int) -> Seq<char> {
    if v < 10 {
        seq!['0'] + decimal(v as nat)
    } else {
        decimal(v as nat)
    }
}

/// The `%Y-%m-%d` text of the day `days` days after 1970-01-01.
pub open spec fn iso_date(days: int) -> Seq<char> {
    let (y, m, d) = civil_from_days(days);
    year_text(y) + seq!['-'] + two_digits(m) + seq!['-'] + two_digits(d)
}

/// chrono's calendar reaches the day `days` days after 1970-01-01: it runs
/// from -262143-01-01 to +262142-12-31.
pub open spec fn calendar_reaches(days: int) -> bool {
    -96465292 <= days <= 95026236
}

/// `chrono::NaiveDate::from_epoch_days(days)`, formatted with
/// `NaiveDate::format("%Y-%m-%d")`: the date's text when chrono's calendar
/// reaches that day, `None` otherwise.
#[verifier::external_body]
fn date_folder(days: i32) -> (r: Option<String>)
    ensures
        r is Some <==> calendar_reaches(days as int),
        r matches Some(s) ==> s@ == iso_date(days as int),
{
    match chrono::NaiveDate::from_epoch_days(days) {
        Some(d) => Some(d.format("%Y-%m-%d").to_string()),
        None => None,
    }
}

/// Whether an acquisition time names a day that chrono's calendar reaches.
pub open spec fn date_known(acquired: Option<i64>) -> bool {
    acquired matches Some(d) && calendar_reaches(epoch_day(d as int))
}

/// The dated folder of an acquisition time, `None` when there is no such day.
fn date_folder_of(acquired: Option<i64>) -> (r: Option<String>)
    ensures
        r is Some <==> date_known(acquired),
        r matches Some(f) ==> f@ == iso_date(epoch_day(acquired.unwrap() as int)),
{
    match acquired {
        Some(d) => {
            let day = epoch_day_of(d);
            if day < i32::MIN as i64 || day > i32::MAX as i64 {
                return None;
            }
            date_folder(day as i32)
        },
        None => None,
    }
}

/// Where to look for a rejected image on disk: its file name, the dated
/// folder of its night and its target's folder name.
#[derive(Debug)]
pub struct MovePlan {
    pub file_name: String,
    pub date_folder: String,
    pub target_name: String,
}

/// The outcome of planning the move of an image with metadata `metadata`,
/// id `id` and acquisition time `acquired`: an error message, or the file
/// name, the dated folder and the target folder to look under.
pub open spec fn move_plan_spec(metadata: Seq<char>, id: i32, acquired: Option<i64>) -> Result<(Seq<char>, Seq<char>, Seq<char>), Seq<char>> {
    match json_error_text(metadata) {
        Some(e) => Err(e),
        None => match json_string_member(metadata, "FileName"@) {
            None => Err("No filename in metadata for image "@ + signed_decimal(id as int)),
            Some(path) => if !date_known(acquired) {
                Err("Invalid date for image "@ + signed_decimal(id as int))
            } else {
                match path_file_name(path) {
                    None => Err("Invalid filename format"@),
                    Some(f) => Ok((f, iso_date(epoch_day(acquired.unwrap() as int)), match json_string_member(metadata, "TargetName"@) {
                        Some(t) => t,
                        None => "Unknown"@,
                    })),
                }
            },
        },
    }
}

/// Works out where a rejected image should be on disk: the metadata must be
/// JSON with a `FileName` string, and the acquisition time a representable
/// instant; the target folder falls back to `Unknown`.
pub fn plan_file_move(image: &AcquiredImage) -> (r: Result<MovePlan, String>)
    ensures
        match move_plan_spec(image.metadata@, image.id, image.acquired_date) {
            Err(e) => r matches Err(m) && m@ == e,
            Ok((f, d, t)) => r matches Ok(p) && p.file_name@ == f && p.date_folder@ == d && p.target_name@ == t,
        },
{
    match json_parse_error(image.metadata.as_str()) {
        Some(e) => {
            return Err(e);
        },
        None => {},
    }
    let path = match json_member_str(image.metadata.as_str(), "FileName") {
        Some(p) => p,
        None => {
            let mut m = String::from_str("No filename in metadata for image ");
            let n = signed_decimal_string(image.id as i64);
            m.append(n.as_str());
            return Err(m);
        },
    };
    let date_folder = match date_folder_of(image.acquired_date) {
        Some(f) => f,
        None => {
            let mut m = String::from_str("Invalid date for image ");
            let n = signed_decimal_string(image.id as i64);
            m.append(n.as_str());
            return Err(m);
        },
    };
    let file_name = match file_name_component(path.as_str()) {
        Some(f) => f,
        None => {
            return Err(String::from_str("Invalid filename format"));
        },
    };
    let target_name = match json_member_str(image.metadata.as_str(), "TargetName") {
        Some(t) => t,
        None => String::from_str("Unknown"),
    };
    Ok(MovePlan { file_name, date_folder, target_name })
}

/// The four places under `base` where an exposure `file` of target `target`,
/// taken on the night `date`, may lie, in the order they are tried:
/// `date/target/date/LIGHT/file`, `target/date/LIGHT/file`, and the same two
/// with a `rejected` folder inside `LIGHT`.
pub open spec fn possible_paths_spec(base: Seq<char>, date: Seq<char>, target: Seq<char>, file: Seq<char>) -> Seq<Seq<char>> {
    seq![
        path_joined(path_joined(path_joined(path_joined(path_joined(base, date), target), date), "LIGHT"@), file),
        path_joined(path_joined(path_joined(path_joined(base, target), date), "LIGHT"@), file),
        path_joined(path_joined(path_joined(path_joined(path_joined(path_joined(base, date), target), date), "LIGHT"@), "rejected"@), file),
        path_joined(path_joined(path_joined(path_joined(path_joined(base, target), date), "LIGHT"@), "rejected"@), file),
    ]
}

/// The places where a rejected exposure may lie on disk, in the order they
/// are tried.
pub fn get_possible_paths(base_dir: &str, date_str: &str, target_name: &str, filename: &str) -> (r: Vec<String>)
    ensures
        r@.map_values(|p: String| p@) == possible_paths_spec(base_dir@, date_str@, target_name@, filename@),
{
    let dated = join_path(base_dir, date_str);
    let dated_target = join_path(dated.as_str(), target_name);
    let dated_night = join_path(dated_target.as_str(), date_str);
    let dated_light = join_path(dated_night.as_str(), "LIGHT");
    let by_target = join_path(base_dir, target_name);
    let by_target_night = join_path(by_target.as_str(), date_str);
    let by_target_light = join_path(by_target_night.as_str(), "LIGHT");
    let dated_rejected = join_path(dated_light.as_str(), "rejected");
    let by_target_rejected = join_path(by_target_light.as_str(), "rejected");
    let mut r: Vec<String> = Vec::new();
    r.push(join_path(dated_light.as_str(), filename));
    r.push(join_path(by_target_light.as_str(), filename));
    r.push(join_path(dated_rejected.as_str(), filename));
    r.push(join_path(by_target_rejected.as_str(), filename));
    proof {
        assert(r@.map_values(|p: String| p@) =~= possible_paths_spec(base_dir@, date_str@, target_name@, filename@));
    }
    r
}

/// Whether an image is moved: when the database rejected it, or, with
/// statistical grading on, when the statistics rejected it.
pub fn should_move(grading_status: i32, statistically_rejected: bool, perform_statistical: bool) -> (r: bool)
    ensures
        r == (grading_status == 2 || (perform_statistical && statistically_rejected)),
{
    grading_status == 2 || (perform_statistical && statistically_rejected)
}

} // verus!
