//! Errors of the web handlers and the HTTP reply each one maps to.

use vstd::prelude::*;
use vstd::string::StringExecFns;
use crate::models::GradingStatus;
use crate::server::api::{ImageQuery, UpdateGradeRequest};

verus! {

broadcast use vstd::string::group_string_axioms;

/// Failures a handler can report.
#[derive(Debug)]
pub enum AppError {
    NotFound,
    DatabaseError,
    BadRequest(String),
    InternalError(String),
    NotImplemented,
}

impl AppError {
    /// HTTP status code of the reply to this error.
    pub fn status_code(&self) -> (r: u16)
        ensures
            r == match self {
                AppError::NotFound => 404u16,
                AppError::DatabaseError => 500u16,
                AppError::BadRequest(_) => 400u16,
                AppError::InternalError(_) => 500u16,
                AppError::NotImplemented => 501u16,
            },
    {
        match self {
            AppError::NotFound => 404,
            AppError::DatabaseError => 500,
            AppError::BadRequest(_) => 400,
            AppError::InternalError(_) => 500,
            AppError::NotImplemented => 501,
        }
    }

    /// Error message of the reply to this error: the carried message where
    /// there is one, a fixed text otherwise.
    pub fn into_message(self) -> (r: String)
        ensures
            r@ == match self {
                AppError::NotFound => "Resource not found"@,
                AppError::DatabaseError => "Database error"@,
                AppError::BadRequest(m) => m@,
                AppError::InternalError(m) => m@,
                AppError::NotImplemented => "Not implemented yet"@,
            },
    {
        match self {
            AppError::NotFound => String::from_str("Resource not found"),
            AppError::DatabaseError => String::from_str("Database error"),
            AppError::BadRequest(m) => m,
            AppError::InternalError(m) => m,
            AppError::NotImplemented => String::from_str("Not implemented yet"),
        }
    }
}

/// The grading status an API request names (`pending`, `accepted` or
/// `rejected`, exactly).
pub open spec fn api_status_named(s: Seq<char>) -> Option<GradingStatus> {
    if s == "pending"@ {
        Some(GradingStatus::Pending)
    } else if s == "accepted"@ {
        Some(GradingStatus::Accepted)
    } else if s == "rejected"@ {
        Some(GradingStatus::Rejected)
    } else {
        None
    }
}

/// The status an API name selects.
fn api_status(s: &String) -> (r: Option<GradingStatus>)
    ensures
        r == api_status_named(s@),
{
    if *s == String::from_str("pending") {
        Some(GradingStatus::Pending)
    } else if *s == String::from_str("accepted") {
        Some(GradingStatus::Accepted)
    } else if *s == String::from_str("rejected") {
        Some(GradingStatus::Rejected)
    } else {
        None
    }
}

/// The status filter of an image listing; a name that is no status filters
/// nothing.
pub fn listing_status_filter(query: &ImageQuery) -> (r: Option<GradingStatus>)
    ensures
        r == match query.status {
            Some(s) => api_status_named(s@),
            None => None,
        },
{
    match &query.status {
        Some(s) => api_status(s),
        None => None,
    }
}

/// The status a grade change asks for; a name that is no status is a bad
/// request.
pub fn requested_grade(request: &UpdateGradeRequest) -> (r: Result<GradingStatus, AppError>)
    ensures
        match api_status_named(request.status@) {
            Some(s) => r == Ok::<GradingStatus, AppError>(s),
            None => r matches Err(AppError::BadRequest(m)) && m@ == "Invalid status"@,
        },
{
    match api_status(&request.status) {
        Some(s) => Ok(s),
        None => Err(AppError::BadRequest(String::from_str("Invalid status"))),
    }
}

/// An image of project `project` and target `target` passes the listing's
/// id filters.
pub open spec fn listing_matches(query: ImageQuery, project: i32, target: i32) -> bool {
    &&& (query.project_id matches Some(id) ==> id == project)
    &&& (query.target_id matches Some(id) ==> id == target)
}

/// Positions of the images, given by project and target ids, that pass the
/// listing's id filters, in order.
pub open spec fn matching_positions(query: ImageQuery, ids: Seq<(i32, i32)>) -> Seq<usize>
    decreases ids.len(),
{
    if ids.len() == 0 {
        Seq::empty()
    } else {
        let m = matching_positions(query, ids.drop_last());
        if listing_matches(query, ids.last().0, ids.last().1) {
            m.push((ids.len() - 1) as usize)
        } else {
            m
        }
    }
}

/// How many matching images a listing skips: its offset (0 when absent),
/// read as `usize`.
pub open spec fn listing_offset(query: ImageQuery) -> int {
    match query.offset {
        Some(o) => (o as usize) as int,
        None => 0,
    }
}

/// How many matching images a listing shows at most: its limit (100 when
/// absent), read as `usize`.
pub open spec fn listing_limit(query: ImageQuery) -> int {
    match query.limit {
        Some(l) => (l as usize) as int,
        None => 100,
    }
}

/// The part of `s` from position `skip` on, at most `take` long.
pub open spec fn page_of(s: Seq<usize>, skip: int, take: int) -> Seq<usize> {
    let a = if skip < s.len() { skip } else { s.len() as int };
    let b = if a + take < s.len() { a + take } else { s.len() as int };
    s.subrange(a, b)
}

/// Positions of the images one listing page shows: those passing the id
/// filters, after skipping the offset, up to the limit.
pub fn listing_page(query: &ImageQuery, ids: &[(i32, i32)]) -> (r: Vec<usize>)
    ensures
        r@ == page_of(matching_positions(*query, ids@), listing_offset(*query), listing_limit(*query)),
{
    let skip: usize = match query.offset {
        Some(o) => o as usize,
        None => 0,
    };
    let take: usize = match query.limit {
        Some(l) => l as usize,
        None => 100,
    };
    let mut seen: usize = 0;
    let mut page: Vec<usize> = Vec::new();
    let mut i: usize = 0;
    while i < ids.len()
        invariant
            i <= ids@.len(),
            skip as int == listing_offset(*query),
            take as int == listing_limit(*query),
            seen as int == matching_positions(*query, ids@.take(i as int)).len(),
            seen <= i,
            page@ == page_of(matching_positions(*query, ids@.take(i as int)), skip as int, take as int),
        decreases ids@.len() - i,
    {
        let ghost m0 = matching_positions(*query, ids@.take(i as int));
        let (p, t) = ids[i];
        let keep = match query.project_id {
            Some(id) => id == p,
            None => true,
        } && match query.target_id {
            Some(id) => id == t,
            None => true,
        };
        proof {
            assert(ids@.take(i as int + 1).drop_last() =~= ids@.take(i as int));
        }
        if keep {
            if seen >= skip && seen - skip < take {
                page.push(i);
            }
            seen = seen + 1;
            proof {
                let m1 = m0.push(i);
                assert(matching_positions(*query, ids@.take(i as int + 1)) == m1);
                assert(page@ =~= page_of(m1, skip as int, take as int));
            }
        } else {
            proof {
                assert(matching_positions(*query, ids@.take(i as int + 1)) == m0);
            }
        }
        i = i + 1;
    }
    proof {
        assert(ids@.take(ids@.len() as int) =~= ids@);
    }
    page
}

} // verus!
