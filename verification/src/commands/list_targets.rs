//! Which project a `list-targets` request names.

use vstd::prelude::*;
use vstd::string::StringExecFns;
use crate::text::{parse_i32_spec, parse_i32_text};

verus! {

broadcast use vstd::string::group_string_axioms;

/// A project named by its id or by its name.
pub enum ProjectRef {
    Id(i32),
    Name(String),
}

/// A project identifier that reads as an `i32` is an id; anything else is a
/// name.
pub fn project_ref(identifier: &str) -> (r: ProjectRef)
    ensures
        match parse_i32_spec(identifier@) {
            Some(v) => r matches ProjectRef::Id(id) && id == v,
            None => r matches ProjectRef::Name(n) && n@ == identifier@,
        },
{
    match parse_i32_text(identifier) {
        Ok(id) => ProjectRef::Id(id),
        Err(_) => ProjectRef::Name(String::from_str(identifier)),
    }
}

} // verus!
