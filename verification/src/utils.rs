//! Helpers on qualified module paths: joining, the owning unit's name, and
//! the conventional test and example scope names.

use vstd::prelude::*;
use vstd::string::StrSliceExecFns;
use crate::text::{contains_sub, ends_with_sub, first_seg, join_segments, lemma_first_sep_at,
    lemma_first_sep_none, spec_join, str_contains, str_ends_with};

verus! {

/// Joins scope name components into a `::`-separated module path.
pub fn format_module_path(components: &Vec<String>) -> (r: String)
    ensures
        r@ == spec_join(components.deep_view()),
{
    join_segments(components)
}

/// The leading segment of a fully qualified path: the name of the unit the
/// definition belongs to.
pub fn extract_crate_name(path: &str) -> (r: &str)
    ensures
        r@ == first_seg(path@),
{
    let n = path.unicode_len();
    if n < 2 {
        proof {
            lemma_first_sep_none(path@);
        }
        return path;
    }
    let mut k: usize = 0;
    while k <= n - 2
        invariant
            n == path@.len(),
            2 <= n,
            k <= n,
            forall|j: int| 0 <= j < k ==> !(#[trigger] path@[j] == ':' && path@[j + 1] == ':'),
        decreases n - k,
    {
        if path.get_char(k) == ':' && path.get_char(k + 1) == ':' {
            proof {
                lemma_first_sep_at(path@, k as int);
            }
            return path.substring_char(0, k);
        }
        k = k + 1;
    }
    proof {
        lemma_first_sep_none(path@);
    }
    path
}

/// Whether a module path names a test scope: it mentions `tests` or
/// `test_`, or ends in `_test`.
pub fn is_test_module(path: &str) -> (r: bool)
    ensures
        r == (contains_sub(path@, "tests"@) || contains_sub(path@, "test_"@) || ends_with_sub(
            path@,
            "_test"@,
        )),
{
    str_contains(path, "tests") || str_contains(path, "test_") || str_ends_with(path, "_test")
}

/// Whether a module path names an example scope: it mentions `examples` or
/// `example_`, or ends in `_example`.
pub fn is_example_module(path: &str) -> (r: bool)
    ensures
        r == (contains_sub(path@, "examples"@) || contains_sub(path@, "example_"@)
            || ends_with_sub(path@, "_example"@)),
{
    str_contains(path, "examples") || str_contains(path, "example_") || str_ends_with(
        path,
        "_example",
    )
}

} // verus!
