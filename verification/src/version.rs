//! Depth-aware version comparison.
//!
//! A pin's granularity is its *depth*: the number of `.` characters in the
//! version string (`v1` has depth 0, `v1.2.3` has depth 2). To compare a
//! current pin against the latest published version, both are truncated to
//! the current pin's depth and compared as strings: any difference at that
//! depth means the pin is stale.

use vstd::prelude::*;

verus! {

/// Number of `.` characters in `s` at or after index `i`.
pub open spec fn dot_count_from(s: Seq<char>, i: int) -> nat
    decreases s.len() - i,
{
    if i < 0 || i >= s.len() {
        0
    } else {
        (if s[i] == '.' {
            1nat
        } else {
            0nat
        }) + dot_count_from(s, i + 1)
    }
}

/// The depth of a version string: how many `.` separators it carries.
pub open spec fn depth_spec(s: Seq<char>) -> nat {
    dot_count_from(s, 0)
}

/// `s` without its leading `v`, if it has one.
pub open spec fn strip_v(s: Seq<char>) -> Seq<char> {
    if s.len() > 0 && s[0] == 'v' {
        s.subrange(1, s.len() as int)
    } else {
        s
    }
}

/// Index just past the first `d + 1` dot-separated segments of `s`, scanning
/// from `i` with `d` separators still allowed; the whole length if `s` has
/// fewer segments than that.
pub open spec fn cut_end(s: Seq<char>, d: int, i: int) -> int
    decreases s.len() - i,
{
    if i < 0 || i >= s.len() {
        i
    } else if s[i] == '.' {
        if d <= 0 {
            i
        } else {
            cut_end(s, d - 1, i + 1)
        }
    } else {
        cut_end(s, d, i + 1)
    }
}

/// A version truncated to depth `d`: the leading `v` stripped, then only the
/// first `d + 1` dot-separated segments kept (fewer segments are returned
/// unchanged, without padding).
pub open spec fn truncate_spec(s: Seq<char>, d: int) -> Seq<char> {
    let b = strip_v(s);
    b.take(cut_end(b, d, 0))
}

/// A current pin is stale iff the latest version, truncated to the pin's own
/// depth, differs (as a string) from the truncated pin.
pub open spec fn stale_spec(current: Seq<char>, latest: Seq<char>) -> bool {
    truncate_spec(current, depth_spec(current) as int) != truncate_spec(
        latest,
        depth_spec(current) as int,
    )
}

proof fn lemma_cut_end_bounds(s: Seq<char>, d: int, i: int)
    requires
        0 <= i <= s.len(),
    ensures
        i <= cut_end(s, d, i) <= s.len(),
    decreases s.len() - i,
{
    if i < s.len() {
        if s[i] == '.' {
            if d > 0 {
                lemma_cut_end_bounds(s, d - 1, i + 1);
            }
        } else {
            lemma_cut_end_bounds(s, d, i + 1);
        }
    }
}

/// Depth of `version`: the number of `.` characters it contains.
pub fn get_version_depth(version: &str) -> (depth: usize)
    ensures
        depth as nat == depth_spec(version@),
{
    let len: usize = version.unicode_len();
    let mut count: usize = 0;
    let mut i: usize = 0;
    while i < len
        invariant
            0 <= i <= len,
            len == version@.len(),
            count <= i,
            count as nat + dot_count_from(version@, i as int) == depth_spec(version@),
        decreases len - i,
    {
        if version.get_char(i) == '.' {
            count = count + 1;
        }
        i = i + 1;
    }
    count
}

/// `version` truncated to `depth`: the leading `v` stripped, then only the
/// first `depth + 1` dot-separated segments kept.
pub fn get_version_at_depth(version: &str, depth: usize) -> (r: String)
    ensures
        r@ == truncate_spec(version@, depth as int),
{
    let len: usize = version.unicode_len();
    let start: usize = if len > 0 && version.get_char(0) == 'v' {
        1
    } else {
        0
    };
    let ghost stripped = strip_v(version@);
    let mut d: usize = depth;
    let mut i: usize = start;
    while i < len && !(version.get_char(i) == '.' && d == 0)
        invariant
            start <= i <= len,
            len == version@.len(),
            start == if version@.len() > 0 && version@[0] == 'v' {
                1int
            } else {
                0int
            },
            stripped == strip_v(version@),
            stripped.len() == len - start,
            forall|k: int| 0 <= k < stripped.len() ==> stripped[k] == version@[k + start],
            cut_end(stripped, depth as int, 0) == cut_end(stripped, d as int, i - start),
        decreases len - i,
    {
        if version.get_char(i) == '.' {
            d = d - 1;
        }
        i = i + 1;
    }
    proof {
        lemma_cut_end_bounds(stripped, depth as int, 0);
        assert(cut_end(stripped, d as int, i - start) == i - start);
        assert(version@.subrange(start as int, i as int) =~= stripped.take(
            cut_end(stripped, depth as int, 0),
        ));
    }
    let sub = version.substring_char(start, i);
    sub.to_owned()
}

/// Whether the pin `current` is stale against `latest`: the two are truncated
/// to `current`'s depth and compared as strings; any difference is stale.
pub fn is_stale(current: &str, latest: &str) -> (r: bool)
    ensures
        r == stale_spec(current@, latest@),
{
    let d: usize = get_version_depth(current);
    let a = get_version_at_depth(current, d);
    let b = get_version_at_depth(latest, d);
    !(a == b)
}

/// A pin can never be stale against its own version string: truncation at any
/// one depth maps equal strings to equal strings.
pub proof fn lemma_stale_irreflexive(v: Seq<char>)
    ensures
        !stale_spec(v, v),
{
}

} // verus!
