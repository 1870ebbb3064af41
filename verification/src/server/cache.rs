//! Where the processed-image cache keeps a file.

use vstd::prelude::*;
use vstd::string::StringExecFns;
use crate::text::push_char;
use crate::utils::{path_joined, join_path};

verus! {

broadcast use vstd::string::group_string_axioms;

/// The cache file of `key` with extension `extension` in the folder of
/// `category` under the cache directory `cache_dir`.
pub open spec fn cached_path_of(cache_dir: Seq<char>, category: Seq<char>, key: Seq<char>, extension: Seq<char>) -> Seq<char> {
    path_joined(path_joined(cache_dir, category), key + seq!['.'] + extension)
}

/// The path of a cache file: `cache_dir/category/key.extension`.
pub fn cached_path(cache_dir: &str, category: &str, key: &str, extension: &str) -> (r: String)
    ensures
        r@ == cached_path_of(cache_dir@, category@, key@, extension@),
{
    let folder = join_path(cache_dir, category);
    let mut name = String::from_str(key);
    push_char(&mut name, '.');
    name.append(extension);
    assert(name@ =~= key@ + seq!['.'] + extension@);
    join_path(folder.as_str(), name.as_str())
}

} // verus!
