//! Reference extraction: scans raw workflow text for dependency reference
//! tokens of the form `owner/name[/subpath]@v<major>[.<minor>[.<patch>]]`,
//! where the path segments are runs of alphanumerics and hyphens, and
//! returns each distinct token once, in first-seen order.
//!
//! The scan is deliberately textual, not YAML-aware: it works on malformed
//! documents and is independent of quoting and indentation.

use vstd::prelude::*;
use crate::scan::digit_run;
use crate::scan::digit_run_end;
use crate::scan::exec_is_digit_char;
use crate::scan::exec_is_word_char;
use crate::scan::is_digit_char;
use crate::scan::is_word_char;
use crate::scan::lemma_digit_run_end;
use crate::scan::lemma_digit_run_subrange;
use crate::scan::lemma_word_run_end;
use crate::scan::lemma_word_run_subrange;
use crate::scan::opt_int;
use crate::scan::word_run;
use crate::scan::word_run_end;

verus! {

/// Greedy extension of a version by one more `.`-separated numeric segment:
/// from segment end `e`, the end of the next segment if one starts there,
/// else `e` itself.
pub open spec fn seg_ext(t: Seq<char>, e: int) -> int {
    if 0 <= e && e + 1 < t.len() && t[e] == '.' && is_digit_char(t[e + 1]) {
        digit_run_end(t, e + 1)
    } else {
        e
    }
}

/// End of a version string `v<digits>[.<digits>[.<digits>]]` starting at `i`
/// (pointing at the `v`), matched greedily; `None` if no version starts there.
pub open spec fn version_end(t: Seq<char>, i: int) -> Option<int> {
    if 0 <= i && i + 1 < t.len() && t[i] == 'v' && is_digit_char(t[i + 1]) {
        Some(seg_ext(t, seg_ext(t, digit_run_end(t, i + 1))))
    } else {
        None
    }
}

/// End of a reference token starting exactly at `i`: a word run (owner),
/// `/`, a word run (name), optionally `/` and a word run (sub-path), then
/// `@` and a version; `None` if no token starts at `i`.
pub open spec fn token_end(t: Seq<char>, i: int) -> Option<int> {
    if 0 <= i < t.len() && is_word_char(t[i]) {
        let o = word_run_end(t, i);
        if o + 1 < t.len() && t[o] == '/' && is_word_char(t[o + 1]) {
            let n = word_run_end(t, o + 1);
            if n + 1 < t.len() && t[n] == '/' && is_word_char(t[n + 1]) {
                let s = word_run_end(t, n + 1);
                if s < t.len() && t[s] == '@' {
                    version_end(t, s + 1)
                } else {
                    None
                }
            } else if n < t.len() && t[n] == '@' {
                version_end(t, n + 1)
            } else {
                None
            }
        } else {
            None
        }
    } else {
        None
    }
}

/// `s` is, in its entirety, one well-formed reference token.
pub open spec fn is_token(s: Seq<char>) -> bool {
    token_end(s, 0) == Some(s.len() as int)
}

pub proof fn lemma_seg_ext_bounds(t: Seq<char>, e: int)
    requires
        0 <= e <= t.len(),
    ensures
        e <= seg_ext(t, e) <= t.len(),
{
    if 0 <= e && e + 1 < t.len() && t[e] == '.' && is_digit_char(t[e + 1]) {
        lemma_digit_run_end(t, e + 1);
    }
}

pub proof fn lemma_version_end_bounds(t: Seq<char>, i: int)
    ensures
        version_end(t, i) is Some ==> i + 1 < version_end(t, i)->Some_0 <= t.len(),
{
    if 0 <= i && i + 1 < t.len() && t[i] == 'v' && is_digit_char(t[i + 1]) {
        lemma_digit_run_end(t, i + 1);
        let e1 = digit_run_end(t, i + 1);
        lemma_seg_ext_bounds(t, e1);
        lemma_seg_ext_bounds(t, seg_ext(t, e1));
    }
}

pub broadcast proof fn lemma_token_end_bounds(t: Seq<char>, i: int)
    ensures
        (#[trigger] token_end(t, i)) is Some ==> i < token_end(t, i)->Some_0 <= t.len(),
{
    if 0 <= i < t.len() && is_word_char(t[i]) {
        lemma_word_run_end(t, i);
        let o = word_run_end(t, i);
        if o + 1 < t.len() && t[o] == '/' && is_word_char(t[o + 1]) {
            lemma_word_run_end(t, o + 1);
            let n = word_run_end(t, o + 1);
            if n + 1 < t.len() && t[n] == '/' && is_word_char(t[n + 1]) {
                lemma_word_run_end(t, n + 1);
                let s = word_run_end(t, n + 1);
                if s < t.len() && t[s] == '@' {
                    lemma_version_end_bounds(t, s + 1);
                }
            } else if n < t.len() && t[n] == '@' {
                lemma_version_end_bounds(t, n + 1);
            }
        }
    }
}

/// The characters of a matched version are `v`, `.` and digits only.
pub proof fn lemma_version_chars(t: Seq<char>, v: int)
    requires
        version_end(t, v) is Some,
    ensures
        forall|k: int|
            v <= k < version_end(t, v)->Some_0 ==> (t[k] == 'v' || t[k] == '.' || is_digit_char(
                #[trigger] t[k],
            )),
{
    lemma_digit_run_end(t, v + 1);
    let e1 = digit_run_end(t, v + 1);
    let e2 = seg_ext(t, e1);
    let e3 = seg_ext(t, e2);
    lemma_seg_ext_bounds(t, e1);
    lemma_seg_ext_bounds(t, e2);
    if e2 != e1 {
        lemma_digit_run_end(t, e1 + 1);
    }
    if e3 != e2 {
        lemma_digit_run_end(t, e2 + 1);
    }
    assert forall|k: int| v <= k < e3 implies (t[k] == 'v' || t[k] == '.' || is_digit_char(
        #[trigger] t[k],
    )) by {
        if k == v {
        } else if k < e1 {
        } else if k == e1 {
            assert(e1 < e3);
            if e2 == e1 {
                assert(t[e2] == '.');
            }
        } else if k < e2 {
        } else if k == e2 {
        } else {
        }
    }
}

/// A `seg_ext` step that stays within the cut at `j` is the same step
/// inside `t.subrange(i, j)`.
proof fn lemma_seg_ext_subrange(t: Seq<char>, i: int, j: int, e: int)
    requires
        0 <= i <= e <= j <= t.len(),
        seg_ext(t, e) <= j,
    ensures
        seg_ext(t.subrange(i, j), e - i) == seg_ext(t, e) - i,
{
    let t2 = t.subrange(i, j);
    if 0 <= e && e + 1 < t.len() && t[e] == '.' && is_digit_char(t[e + 1]) {
        lemma_digit_run_end(t, e + 1);
        lemma_digit_run_end(t, e + 2);
        lemma_digit_run_subrange(t, i, j, e + 1);
    } else {
        if e - i + 1 < t2.len() && t2[e - i] == '.' && is_digit_char(t2[e - i + 1]) {
            assert(t[e] == '.' && is_digit_char(t[e + 1]) && e + 1 < t.len());
        }
    }
}

/// A version match that ends at the cut `j` is the same match inside
/// `t.subrange(i, j)`.
proof fn lemma_version_end_subrange(t: Seq<char>, i: int, j: int, v: int)
    requires
        0 <= i <= v,
        version_end(t, v) == Some(j),
        j <= t.len(),
    ensures
        version_end(t.subrange(i, j), v - i) == Some(j - i),
{
    lemma_digit_run_end(t, v + 1);
    lemma_digit_run_end(t, v + 2);
    let e1 = digit_run_end(t, v + 1);
    let e2 = seg_ext(t, e1);
    lemma_seg_ext_bounds(t, e1);
    lemma_seg_ext_bounds(t, e2);
    lemma_digit_run_subrange(t, i, j, v + 1);
    lemma_seg_ext_subrange(t, i, j, e1);
    lemma_seg_ext_subrange(t, i, j, e2);
}

/// Locality of token matching: the substring a match covers is, on its own,
/// a well-formed token. Runs are cut only at the match's end, so the
/// substring matches itself entirely.
pub proof fn lemma_token_is_token(t: Seq<char>, i: int)
    requires
        token_end(t, i) is Some,
    ensures
        is_token(t.subrange(i, token_end(t, i)->Some_0)),
{
    let j = token_end(t, i)->Some_0;
    let t2 = t.subrange(i, j);
    lemma_token_end_bounds(t, i);
    lemma_word_run_end(t, i);
    let o = word_run_end(t, i);
    assert(o != i);
    lemma_word_run_end(t, o + 1);
    let n = word_run_end(t, o + 1);
    assert(n != o + 1);
    if n + 1 < t.len() && t[n] == '/' && is_word_char(t[n + 1]) {
        lemma_word_run_end(t, n + 1);
        let s = word_run_end(t, n + 1);
        assert(s != n + 1);
        assert(s < t.len() && t[s] == '@');
        lemma_version_end_bounds(t, s + 1);
        lemma_word_run_subrange(t, i, j, i);
        lemma_word_run_subrange(t, i, j, o + 1);
        lemma_word_run_subrange(t, i, j, n + 1);
        lemma_version_end_subrange(t, i, j, s + 1);
        assert(token_end(t2, 0) == Some(j - i));
    } else {
        assert(n < t.len() && t[n] == '@');
        lemma_version_end_bounds(t, n + 1);
        lemma_word_run_subrange(t, i, j, i);
        lemma_word_run_subrange(t, i, j, o + 1);
        lemma_version_end_subrange(t, i, j, n + 1);
        assert(token_end(t2, 0) == Some(j - i));
    }
}

/// All tokens found by a left-to-right scan from `i`: at each position the
/// longest token starting there is taken (and the scan resumes at its end),
/// else the scan moves one character right. Duplicates are kept.
pub open spec fn scan_tokens(t: Seq<char>, i: int) -> Seq<Seq<char>>
    decreases t.len() - i,
    via scan_tokens_dec
{
    if i >= t.len() {
        Seq::empty()
    } else {
        match token_end(t, i) {
            Some(j) => seq![t.subrange(i, j)] + scan_tokens(t, j),
            None => scan_tokens(t, i + 1),
        }
    }
}

#[via_fn]
proof fn scan_tokens_dec(t: Seq<char>, i: int) {
    lemma_token_end_bounds(t, i);
}

/// The character sequences of a vector of strings.
pub open spec fn views_of(v: Seq<String>) -> Seq<Seq<char>> {
    v.map_values(|x: String| x@)
}

/// The elements of `s` not already in `acc`, appended to `acc` in order of
/// first occurrence.
pub open spec fn dedup_acc(s: Seq<Seq<char>>, acc: Seq<Seq<char>>) -> Seq<Seq<char>>
    decreases s.len(),
{
    if s.len() == 0 {
        acc
    } else if acc.contains(s[0]) {
        dedup_acc(s.drop_first(), acc)
    } else {
        dedup_acc(s.drop_first(), acc.push(s[0]))
    }
}

/// What reference extraction returns on `t`: the scanned tokens, each kept
/// once, in first-seen order.
pub open spec fn extract_spec(t: Seq<char>) -> Seq<Seq<char>> {
    dedup_acc(scan_tokens(t, 0), Seq::empty())
}

proof fn lemma_dedup_acc_distinct(s: Seq<Seq<char>>, acc: Seq<Seq<char>>)
    requires
        forall|a: int, b: int| 0 <= a < b < acc.len() ==> acc[a] != acc[b],
    ensures
        forall|a: int, b: int|
            0 <= a < b < dedup_acc(s, acc).len() ==> dedup_acc(s, acc)[a] != dedup_acc(s, acc)[b],
    decreases s.len(),
{
    if s.len() == 0 {
    } else if acc.contains(s[0]) {
        lemma_dedup_acc_distinct(s.drop_first(), acc);
        assert(dedup_acc(s, acc) == dedup_acc(s.drop_first(), acc));
    } else {
        let acc2 = acc.push(s[0]);
        assert forall|a: int, b: int| 0 <= a < b < acc2.len() implies acc2[a] != acc2[b] by {
            if b == acc.len() {
                if acc2[a] == acc2[b] {
                    assert(acc[a] == s[0]);
                    assert(acc.contains(s[0]));
                }
            }
        }
        lemma_dedup_acc_distinct(s.drop_first(), acc2);
        assert(dedup_acc(s, acc) == dedup_acc(s.drop_first(), acc2));
    }
}

/// Every token the scan finds is, on its own, well-formed.
pub proof fn lemma_scan_tokens_are_tokens(t: Seq<char>, i: int)
    ensures
        forall|k: int|
            0 <= k < scan_tokens(t, i).len() ==> is_token(#[trigger] scan_tokens(t, i)[k]),
    decreases t.len() - i,
{
    if i >= t.len() {
    } else if token_end(t, i) is Some {
        let j = token_end(t, i)->Some_0;
        lemma_token_end_bounds(t, i);
        lemma_token_is_token(t, i);
        lemma_scan_tokens_are_tokens(t, j);
        assert(scan_tokens(t, i) == seq![t.subrange(i, j)] + scan_tokens(t, j));
        assert forall|k: int| 0 <= k < scan_tokens(t, i).len() implies is_token(
            #[trigger] scan_tokens(t, i)[k],
        ) by {
            if k == 0 {
                assert(scan_tokens(t, i)[0] == t.subrange(i, j));
            } else {
                assert(scan_tokens(t, i)[k] == scan_tokens(t, j)[k - 1]);
                assert(is_token(scan_tokens(t, j)[k - 1]));
            }
        }
    } else {
        lemma_scan_tokens_are_tokens(t, i + 1);
        assert(scan_tokens(t, i) == scan_tokens(t, i + 1));
        assert forall|k: int| 0 <= k < scan_tokens(t, i).len() implies is_token(
            #[trigger] scan_tokens(t, i)[k],
        ) by {
            assert(is_token(scan_tokens(t, i + 1)[k]));
        }
    }
}

/// Every element of a deduplication came from the input or the accumulator.
proof fn lemma_dedup_acc_elems(s: Seq<Seq<char>>, acc: Seq<Seq<char>>)
    ensures
        forall|k: int|
            0 <= k < dedup_acc(s, acc).len() ==> acc.contains(#[trigger] dedup_acc(s, acc)[k])
                || s.contains(dedup_acc(s, acc)[k]),
    decreases s.len(),
{
    if s.len() == 0 {
    } else {
        let rest = s.drop_first();
        if acc.contains(s[0]) {
            lemma_dedup_acc_elems(rest, acc);
            assert(dedup_acc(s, acc) == dedup_acc(rest, acc));
            assert forall|k: int| 0 <= k < dedup_acc(s, acc).len() implies acc.contains(
                #[trigger] dedup_acc(s, acc)[k],
            ) || s.contains(dedup_acc(s, acc)[k]) by {
                let e = dedup_acc(s, acc)[k];
                assert(acc.contains(e) || rest.contains(e));
                if rest.contains(e) {
                    let m = choose|m: int| 0 <= m < rest.len() && rest[m] == e;
                    assert(s[m + 1] == e);
                    assert(s.contains(e));
                }
            }
        } else {
            let acc2 = acc.push(s[0]);
            lemma_dedup_acc_elems(rest, acc2);
            assert(dedup_acc(s, acc) == dedup_acc(rest, acc2));
            assert forall|k: int| 0 <= k < dedup_acc(s, acc).len() implies acc.contains(
                #[trigger] dedup_acc(s, acc)[k],
            ) || s.contains(dedup_acc(s, acc)[k]) by {
                let e = dedup_acc(s, acc)[k];
                assert(acc2.contains(e) || rest.contains(e));
                if rest.contains(e) {
                    let m = choose|m: int| 0 <= m < rest.len() && rest[m] == e;
                    assert(s[m + 1] == e);
                    assert(s.contains(e));
                } else {
                    let m = choose|m: int| 0 <= m < acc2.len() && acc2[m] == e;
                    if m < acc.len() {
                        assert(acc[m] == e);
                        assert(acc.contains(e));
                    } else {
                        assert(e == s[0]);
                        assert(s.contains(e));
                    }
                }
            }
        }
    }
}

/// Every token extraction returns is, on its own, well-formed.
pub proof fn lemma_extract_tokens_are_tokens(t: Seq<char>)
    ensures
        forall|k: int|
            0 <= k < extract_spec(t).len() ==> is_token(#[trigger] extract_spec(t)[k]),
{
    lemma_scan_tokens_are_tokens(t, 0);
    lemma_dedup_acc_elems(scan_tokens(t, 0), Seq::empty());
    assert forall|k: int| 0 <= k < extract_spec(t).len() implies is_token(
        #[trigger] extract_spec(t)[k],
    ) by {
        let e = extract_spec(t)[k];
        assert(Seq::<Seq<char>>::empty().contains(e) || scan_tokens(t, 0).contains(e));
        if scan_tokens(t, 0).contains(e) {
            let m = choose|m: int|
                0 <= m < scan_tokens(t, 0).len() && scan_tokens(t, 0)[m] == e;
            assert(is_token(scan_tokens(t, 0)[m]));
        }
    }
}

/// End of the version starting at `i` (pointing at the `v`), or `None`.
fn version_at(t: &str, i: usize) -> (r: Option<usize>)
    requires
        i as nat <= t@.len(),
    ensures
        opt_int(r) == version_end(t@, i as int),
{
    let len: usize = t.unicode_len();
    if i < len && t.get_char(i) == 'v' && i + 1 < len && exec_is_digit_char(t.get_char(i + 1)) {
        let e1 = digit_run(t, i + 1);
        let e2 = seg_ext_at(t, e1);
        let e3 = seg_ext_at(t, e2);
        Some(e3)
    } else {
        None
    }
}

fn seg_ext_at(t: &str, e: usize) -> (r: usize)
    requires
        e as nat <= t@.len(),
    ensures
        r as int == seg_ext(t@, e as int),
        e <= r,
        r as nat <= t@.len(),
{
    let len: usize = t.unicode_len();
    if e < len && t.get_char(e) == '.' && e + 1 < len && exec_is_digit_char(t.get_char(e + 1)) {
        digit_run(t, e + 1)
    } else {
        e
    }
}

/// End of the reference token starting exactly at `i`, or `None`.
pub fn match_token_at(t: &str, i: usize) -> (r: Option<usize>)
    requires
        i as nat <= t@.len(),
    ensures
        opt_int(r) == token_end(t@, i as int),
{
    let len: usize = t.unicode_len();
    if i >= len || !exec_is_word_char(t.get_char(i)) {
        return None;
    }
    let o = word_run(t, i);
    if !(o < len && t.get_char(o) == '/' && o + 1 < len && exec_is_word_char(t.get_char(o + 1))) {
        return None;
    }
    let n = word_run(t, o + 1);
    if n < len && t.get_char(n) == '/' && n + 1 < len && exec_is_word_char(t.get_char(n + 1)) {
        let s = word_run(t, n + 1);
        if s < len && t.get_char(s) == '@' {
            version_at(t, s + 1)
        } else {
            None
        }
    } else if n < len && t.get_char(n) == '@' {
        version_at(t, n + 1)
    } else {
        None
    }
}

/// Whether some element of `v` views to the same characters as `s`.
pub fn vec_contains_string(v: &Vec<String>, s: &String) -> (r: bool)
    ensures
        r == views_of(v@).contains(s@),
{
    let ghost m = views_of(v@);
    let mut k: usize = 0;
    while k < v.len()
        invariant
            0 <= k <= v.len(),
            m == views_of(v@),
            forall|j: int| 0 <= j < k ==> m[j] != s@,
        decreases v.len() - k,
    {
        if v[k] == *s {
            proof {
                assert(m[k as int] == s@);
            }
            return true;
        }
        k = k + 1;
    }
    proof {
        if m.contains(s@) {
            let j = choose|j: int| 0 <= j < m.len() && m[j] == s@;
            assert(m[j] != s@);
        }
    }
    false
}

/// Every distinct reference token in `text`, in first-seen order; later
/// identical tokens are skipped. Zero matches yield an empty vector.
pub fn extract_references(text: &str) -> (tokens: Vec<String>)
    ensures
        views_of(tokens@) == extract_spec(text@),
        forall|a: int, b: int|
            0 <= a < b < tokens@.len() ==> tokens@[a]@ != tokens@[b]@,
        forall|k: int| 0 <= k < tokens@.len() ==> is_token((#[trigger] tokens@[k])@),
{
    let len: usize = text.unicode_len();
    let mut tokens: Vec<String> = Vec::new();
    proof {
        assert(views_of(tokens@) =~= Seq::<Seq<char>>::empty());
    }
    let mut i: usize = 0;
    while i < len
        invariant
            0 <= i <= len,
            len as nat == text@.len(),
            dedup_acc(scan_tokens(text@, i as int), views_of(tokens@)) == extract_spec(text@),
        decreases len - i,
    {
        let ghost acc = views_of(tokens@);
        match match_token_at(text, i) {
            Some(j) => {
                proof {
                    lemma_token_end_bounds(text@, i as int);
                }
                let tok = text.substring_char(i, j).to_owned();
                proof {
                    let scanned = scan_tokens(text@, i as int);
                    assert(scanned == seq![text@.subrange(i as int, j as int)] + scan_tokens(
                        text@,
                        j as int,
                    ));
                    assert(scanned[0] == tok@);
                    assert(scanned.drop_first() =~= scan_tokens(text@, j as int));
                }
                if !vec_contains_string(&tokens, &tok) {
                    let ghost tokview = tok@;
                    tokens.push(tok);
                    proof {
                        assert(views_of(tokens@) =~= acc.push(tokview));
                    }
                }
                i = j;
            },
            None => {
                i = i + 1;
            },
        }
    }
    proof {
        lemma_dedup_acc_distinct(scan_tokens(text@, 0), Seq::empty());
        lemma_extract_tokens_are_tokens(text@);
        let m = views_of(tokens@);
        assert forall|a: int, b: int| 0 <= a < b < tokens@.len() implies tokens@[a]@ != tokens@[b]@
            by {
            assert(m[a] == tokens@[a]@);
            assert(m[b] == tokens@[b]@);
        }
        assert forall|k: int| 0 <= k < tokens@.len() implies is_token(
            (#[trigger] tokens@[k])@,
        ) by {
            assert(m[k] == tokens@[k]@);
            assert(is_token(extract_spec(text@)[k]));
        }
    }
    tokens
}

} // verus!
