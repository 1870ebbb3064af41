//! Request and response bodies of the web API.

use vstd::prelude::*;

verus! {

/// Envelope of every API reply: the data on success, a message on failure.
#[derive(Debug)]
pub struct ApiResponse<T> {
    pub success: bool,
    pub data: Option<T>,
    pub error: Option<String>,
}

impl<T> ApiResponse<T> {
    /// A successful reply carrying `data`.
    pub fn success(data: T) -> (r: Self)
        ensures
            r.success,
            r.data == Some(data),
            r.error is None,
    {
        Self { success: true, data: Some(data), error: None }
    }

    /// A failed reply carrying `message`.
    pub fn error(message: String) -> (r: Self)
        ensures
            !r.success,
            r.data is None,
            r.error == Some(message),
    {
        Self { success: false, data: None, error: Some(message) }
    }
}

/// A project as listed by the API.
#[derive(Debug)]
pub struct ProjectResponse {
    pub id: i32,
    pub name: String,
    pub description: Option<String>,
}

/// Filters of an image listing.
#[derive(Debug)]
pub struct ImageQuery {
    pub project_id: Option<i32>,
    pub target_id: Option<i32>,
    pub status: Option<String>,
    pub limit: Option<i32>,
    pub offset: Option<i32>,
}

/// A request to change an image's grading status.
#[derive(Debug)]
pub struct UpdateGradeRequest {
    pub status: String,
    pub reason: Option<String>,
}

} // verus!
