//! Reading the list of image ids given on the command line.

use vstd::prelude::*;
use crate::text::{split_char, split_on, trim, trim_str, parse_i32_spec, parse_i32_text, int_parse_message};

verus! {

/// Every one of the first `k` pieces, trimmed, reads as an `i32`.
pub open spec fn pieces_parse(pieces: Seq<Seq<char>>, k: int) -> bool {
    forall|j: int| 0 <= j < k ==> (#[trigger] parse_i32_spec(trim(pieces[j]))) is Some
}

/// Reads a comma-separated list of image ids, each possibly surrounded by
/// white space.  On the first piece that is not an `i32`, the error is that
/// piece's parse error message.
pub fn parse_id_list(ids_str: &str) -> (r: Result<Vec<i32>, String>)
    ensures
        match r {
            Ok(v) => v@.len() == split_char(ids_str@, ',').len()
                && forall|k: int| 0 <= k < v@.len()
                    ==> parse_i32_spec(trim(#[trigger] split_char(ids_str@, ',')[k])) == Some(v@[k] as int),
            Err(e) => exists|k: int| 0 <= k < split_char(ids_str@, ',').len()
                && pieces_parse(split_char(ids_str@, ','), k)
                && parse_i32_spec(trim(#[trigger] split_char(ids_str@, ',')[k])) is None
                && e@ == int_parse_message(trim(split_char(ids_str@, ',')[k])),
        },
{
    let pieces = split_on(ids_str, ',');
    let ghost ps = split_char(ids_str@, ',');
    assert(ps.len() == pieces@.len());
    let mut ids: Vec<i32> = Vec::new();
    let mut i: usize = 0;
    while i < pieces.len()
        invariant
            i <= pieces@.len(),
            ps == split_char(ids_str@, ','),
            ps.len() == pieces@.len(),
            forall|k: int| 0 <= k < pieces@.len() ==> ps[k] == (#[trigger] pieces@[k])@,
            ids@.len() == i,
            forall|k: int| 0 <= k < i ==> parse_i32_spec(trim(#[trigger] ps[k])) == Some(ids@[k] as int),
        decreases pieces@.len() - i,
    {
        let t = trim_str(pieces[i].as_str());
        match parse_i32_text(t.as_str()) {
            Ok(v) => {
                ids.push(v);
            },
            Err(e) => {
                proof {
                    assert(pieces_parse(ps, i as int)) by {
                        assert forall|j: int| 0 <= j < i implies (#[trigger] parse_i32_spec(trim(ps[j]))) is Some by {
                            assert(parse_i32_spec(trim(ps[j])) == Some(ids@[j] as int));
                        }
                    }
                    assert(ps[i as int] == pieces@[i as int]@);
                }
                return Err(e);
            },
        }
        i = i + 1;
    }
    Ok(ids)
}

} // verus!
