//! Text-scanning primitives shared by the reference extractor, the page
//! extractors and the rewrite engine: character classes, maximal runs,
//! literal matching and substring search, all over `Seq<char>` views.

use vstd::prelude::*;

verus! {

/// Characters allowed in the owner, name and sub-path segments of a
/// reference: ASCII alphanumerics and `-`.
pub open spec fn is_word_char(c: char) -> bool {
    (('a' as u32) <= (c as u32) && (c as u32) <= ('z' as u32)) || (('A' as u32) <= (c as u32) && (c
        as u32) <= ('Z' as u32)) || (('0' as u32) <= (c as u32) && (c as u32) <= ('9' as u32)) || c
        == '-'
}

pub open spec fn is_digit_char(c: char) -> bool {
    ('0' as u32) <= (c as u32) && (c as u32) <= ('9' as u32)
}

/// End of the maximal run of word characters starting at `i`.
pub open spec fn word_run_end(t: Seq<char>, i: int) -> int
    decreases t.len() - i,
{
    if 0 <= i < t.len() && is_word_char(t[i]) {
        word_run_end(t, i + 1)
    } else {
        i
    }
}

/// End of the maximal run of digit characters starting at `i`.
pub open spec fn digit_run_end(t: Seq<char>, i: int) -> int
    decreases t.len() - i,
{
    if 0 <= i < t.len() && is_digit_char(t[i]) {
        digit_run_end(t, i + 1)
    } else {
        i
    }
}

/// End of the maximal run of characters other than `"` starting at `i`.
pub open spec fn nonquote_run_end(t: Seq<char>, i: int) -> int
    decreases t.len() - i,
{
    if 0 <= i < t.len() && t[i] != '"' {
        nonquote_run_end(t, i + 1)
    } else {
        i
    }
}

/// End of the maximal run of characters other than `<` starting at `i`.
pub open spec fn nonlt_run_end(t: Seq<char>, i: int) -> int
    decreases t.len() - i,
{
    if 0 <= i < t.len() && t[i] != '<' {
        nonlt_run_end(t, i + 1)
    } else {
        i
    }
}

pub broadcast proof fn lemma_word_run_end(t: Seq<char>, i: int)
    requires
        0 <= i <= t.len(),
    ensures
        i <= #[trigger] word_run_end(t, i) <= t.len(),
        forall|k: int| i <= k < word_run_end(t, i) ==> is_word_char(t[k]),
        word_run_end(t, i) < t.len() ==> !is_word_char(t[word_run_end(t, i)]),
    decreases t.len() - i,
{
    if i < t.len() && is_word_char(t[i]) {
        lemma_word_run_end(t, i + 1);
    }
}

pub broadcast proof fn lemma_digit_run_end(t: Seq<char>, i: int)
    requires
        0 <= i <= t.len(),
    ensures
        i <= #[trigger] digit_run_end(t, i) <= t.len(),
        forall|k: int| i <= k < digit_run_end(t, i) ==> is_digit_char(t[k]),
        digit_run_end(t, i) < t.len() ==> !is_digit_char(t[digit_run_end(t, i)]),
    decreases t.len() - i,
{
    if i < t.len() && is_digit_char(t[i]) {
        lemma_digit_run_end(t, i + 1);
    }
}

/// A maximal word run agrees with the same run inside a subrange cut at
/// `j`: inside `t.subrange(i, j)` it ends where it ends in `t`, or at the
/// cut where it would run past it.
pub proof fn lemma_word_run_subrange(t: Seq<char>, i: int, j: int, x: int)
    requires
        0 <= i <= x <= j <= t.len(),
    ensures
        word_run_end(t.subrange(i, j), x - i) == (if word_run_end(t, x) <= j {
            word_run_end(t, x) - i
        } else {
            j - i
        }),
    decreases j - x,
{
    lemma_word_run_end(t, x);
    if x < j && is_word_char(t[x]) {
        lemma_word_run_subrange(t, i, j, x + 1);
    }
}

/// The digit-run analogue of `lemma_word_run_subrange`.
pub proof fn lemma_digit_run_subrange(t: Seq<char>, i: int, j: int, x: int)
    requires
        0 <= i <= x <= j <= t.len(),
    ensures
        digit_run_end(t.subrange(i, j), x - i) == (if digit_run_end(t, x) <= j {
            digit_run_end(t, x) - i
        } else {
            j - i
        }),
    decreases j - x,
{
    lemma_digit_run_end(t, x);
    if x < j && is_digit_char(t[x]) {
        lemma_digit_run_subrange(t, i, j, x + 1);
    }
}

/// The pattern `pat` occurs in `t` starting exactly at index `i`.
pub open spec fn matches_at(t: Seq<char>, pat: Seq<char>, i: int) -> bool {
    0 <= i && i + pat.len() <= t.len() && t.subrange(i, i + pat.len()) == pat
}

/// First index in `[i, end - pat.len()]` where `pat` occurs in `t`, for a
/// non-empty pattern; `None` where there is no such occurrence.
pub open spec fn find_within(t: Seq<char>, pat: Seq<char>, i: int, end: int) -> Option<int>
    decreases end - i,
{
    if pat.len() == 0 || i < 0 || end > t.len() || i + pat.len() > end {
        None
    } else if matches_at(t, pat, i) {
        Some(i)
    } else {
        find_within(t, pat, i + 1, end)
    }
}

/// First index at or after `i` where `t` holds the character `c`.
pub open spec fn first_index_of(t: Seq<char>, c: char, i: int) -> Option<int>
    decreases t.len() - i,
{
    if i < 0 || i >= t.len() {
        None
    } else if t[i] == c {
        Some(i)
    } else {
        first_index_of(t, c, i + 1)
    }
}

/// Last index in `[i, end)` where `t` holds the character `c`.
pub open spec fn last_index_in(t: Seq<char>, c: char, i: int, end: int) -> Option<int>
    decreases end,
{
    if i < 0 || end <= i || end > t.len() {
        None
    } else if t[end - 1] == c {
        Some(end - 1)
    } else {
        last_index_in(t, c, i, end - 1)
    }
}

pub broadcast proof fn lemma_find_within_some(t: Seq<char>, pat: Seq<char>, i: int, end: int)
    ensures
        (#[trigger] find_within(t, pat, i, end)) is Some ==> {
            let j = find_within(t, pat, i, end)->Some_0;
            i <= j && j + pat.len() <= end <= t.len() && matches_at(t, pat, j)
        },
    decreases end - i,
{
    if !(pat.len() == 0 || i < 0 || end > t.len() || i + pat.len() > end) && !matches_at(
        t,
        pat,
        i,
    ) {
        lemma_find_within_some(t, pat, i + 1, end);
    }
}

pub broadcast proof fn lemma_first_index_of_some(t: Seq<char>, c: char, i: int)
    ensures
        (#[trigger] first_index_of(t, c, i)) is Some ==> {
            let j = first_index_of(t, c, i)->Some_0;
            i <= j < t.len() && t[j] == c && (forall|k: int| i <= k < j ==> t[k] != c)
        },
    decreases t.len() - i,
{
    if 0 <= i < t.len() && t[i] != c {
        lemma_first_index_of_some(t, c, i + 1);
    }
}

pub broadcast proof fn lemma_last_index_in_some(t: Seq<char>, c: char, i: int, end: int)
    ensures
        (#[trigger] last_index_in(t, c, i, end)) is Some ==> {
            let j = last_index_in(t, c, i, end)->Some_0;
            i <= j < end <= t.len() && t[j] == c && (forall|k: int| j < k < end ==> t[k] != c)
        },
    decreases end,
{
    if 0 <= i < end <= t.len() && t[end - 1] != c {
        lemma_last_index_in_some(t, c, i, end - 1);
    }
}

/// Where `c` first stands at `b` with none before it (from `a` on), the
/// search from `a` finds exactly `b`.
pub proof fn lemma_first_index_exact(t: Seq<char>, c: char, a: int, b: int)
    requires
        0 <= a <= b < t.len(),
        t[b] == c,
        forall|k: int| a <= k < b ==> t[k] != c,
    ensures
        first_index_of(t, c, a) == Some(b),
    decreases b - a,
{
    if a < b {
        lemma_first_index_exact(t, c, a + 1, b);
    }
}

/// Where `c` stands nowhere at or after `a`, the search finds nothing.
pub proof fn lemma_first_index_absent(t: Seq<char>, c: char, a: int)
    requires
        0 <= a,
        forall|k: int| a <= k < t.len() ==> t[k] != c,
    ensures
        first_index_of(t, c, a) is None,
    decreases t.len() - a,
{
    if a < t.len() {
        lemma_first_index_absent(t, c, a + 1);
    }
}

/// A `usize` option as the mathematical option the spec functions return.
pub open spec fn opt_int(o: Option<usize>) -> Option<int> {
    match o {
        Some(u) => Some(u as int),
        None => None,
    }
}

pub fn exec_is_word_char(c: char) -> (r: bool)
    ensures
        r == is_word_char(c),
{
    let u = c as u32;
    (('a' as u32) <= u && u <= ('z' as u32)) || (('A' as u32) <= u && u <= ('Z' as u32)) || (('0'
        as u32) <= u && u <= ('9' as u32)) || c == '-'
}

pub fn word_run(t: &str, from: usize) -> (end: usize)
    requires
        from as nat <= t@.len(),
    ensures
        end as int == word_run_end(t@, from as int),
        from <= end,
        end as nat <= t@.len(),
{
    let len: usize = t.unicode_len();
    let mut i: usize = from;
    while i < len && exec_is_word_char(t.get_char(i))
        invariant
            from <= i <= len,
            len as nat == t@.len(),
            word_run_end(t@, from as int) == word_run_end(t@, i as int),
        decreases len - i,
    {
        i = i + 1;
    }
    i
}

pub fn exec_is_digit_char(c: char) -> (r: bool)
    ensures
        r == is_digit_char(c),
{
    let u = c as u32;
    ('0' as u32) <= u && u <= ('9' as u32)
}

pub fn digit_run(t: &str, from: usize) -> (end: usize)
    requires
        from as nat <= t@.len(),
    ensures
        end as int == digit_run_end(t@, from as int),
        from <= end,
        end as nat <= t@.len(),
{
    let len: usize = t.unicode_len();
    let mut i: usize = from;
    while i < len && exec_is_digit_char(t.get_char(i))
        invariant
            from <= i <= len,
            len as nat == t@.len(),
            digit_run_end(t@, from as int) == digit_run_end(t@, i as int),
        decreases len - i,
    {
        i = i + 1;
    }
    i
}

pub fn nonquote_run(t: &str, from: usize) -> (end: usize)
    requires
        from as nat <= t@.len(),
    ensures
        end as int == nonquote_run_end(t@, from as int),
        from <= end,
        end as nat <= t@.len(),
{
    let len: usize = t.unicode_len();
    let mut i: usize = from;
    while i < len && t.get_char(i) != '"'
        invariant
            from <= i <= len,
            len as nat == t@.len(),
            nonquote_run_end(t@, from as int) == nonquote_run_end(t@, i as int),
        decreases len - i,
    {
        i = i + 1;
    }
    i
}

pub fn nonlt_run(t: &str, from: usize) -> (end: usize)
    requires
        from as nat <= t@.len(),
    ensures
        end as int == nonlt_run_end(t@, from as int),
        from <= end,
        end as nat <= t@.len(),
{
    let len: usize = t.unicode_len();
    let mut i: usize = from;
    while i < len && t.get_char(i) != '<'
        invariant
            from <= i <= len,
            len as nat == t@.len(),
            nonlt_run_end(t@, from as int) == nonlt_run_end(t@, i as int),
        decreases len - i,
    {
        i = i + 1;
    }
    i
}

/// Whether `pat` occurs in `t` starting exactly at `i`.
pub fn str_matches_at(t: &str, i: usize, pat: &str) -> (r: bool)
    ensures
        r == matches_at(t@, pat@, i as int),
{
    let tlen: usize = t.unicode_len();
    let plen: usize = pat.unicode_len();
    if i > tlen || plen > tlen - i {
        return false;
    }
    let mut k: usize = 0;
    while k < plen
        invariant
            0 <= k <= plen,
            i + plen <= tlen,
            tlen as nat == t@.len(),
            plen as nat == pat@.len(),
            forall|m: int| 0 <= m < k ==> t@[i as int + m] == pat@[m],
        decreases plen - k,
    {
        if t.get_char(i + k) != pat.get_char(k) {
            proof {
                assert(t@.subrange(i as int, i as int + plen as int)[k as int] != pat@[k as int]);
            }
            return false;
        }
        k = k + 1;
    }
    proof {
        assert(t@.subrange(i as int, i as int + plen as int) =~= pat@);
    }
    true
}

/// First index in `[from, end - pat.len()]` where the non-empty `pat`
/// occurs in `t`.
pub fn find_pattern(t: &str, pat: &str, from: usize, end: usize) -> (r: Option<usize>)
    requires
        pat@.len() > 0,
        from <= end,
        end as nat <= t@.len(),
    ensures
        opt_int(r) == find_within(t@, pat@, from as int, end as int),
{
    let plen: usize = pat.unicode_len();
    let mut i: usize = from;
    while i < end && !(plen <= end - i && str_matches_at(t, i, pat))
        invariant
            from <= i <= end,
            end as nat <= t@.len(),
            plen as nat == pat@.len(),
            plen > 0,
            find_within(t@, pat@, from as int, end as int) == find_within(
                t@,
                pat@,
                i as int,
                end as int,
            ),
        decreases end - i,
    {
        i = i + 1;
    }
    if i < end {
        Some(i)
    } else {
        None
    }
}

/// First index at or after `from` where `t` holds the character `c`.
pub fn find_char(t: &str, c: char, from: usize) -> (r: Option<usize>)
    requires
        from as nat <= t@.len(),
    ensures
        opt_int(r) == first_index_of(t@, c, from as int),
{
    let len: usize = t.unicode_len();
    let mut i: usize = from;
    while i < len && t.get_char(i) != c
        invariant
            from <= i <= len,
            len as nat == t@.len(),
            first_index_of(t@, c, from as int) == first_index_of(t@, c, i as int),
        decreases len - i,
    {
        i = i + 1;
    }
    if i < len {
        Some(i)
    } else {
        None
    }
}

/// Last index in `[from, end)` where `t` holds the character `c`.
pub fn rfind_char(t: &str, c: char, from: usize, end: usize) -> (r: Option<usize>)
    requires
        from <= end,
        end as nat <= t@.len(),
    ensures
        opt_int(r) == last_index_in(t@, c, from as int, end as int),
{
    let mut e: usize = end;
    while e > from && t.get_char(e - 1) != c
        invariant
            from <= e <= end,
            end as nat <= t@.len(),
            last_index_in(t@, c, from as int, end as int) == last_index_in(
                t@,
                c,
                from as int,
                e as int,
            ),
        decreases e,
    {
        e = e - 1;
    }
    if e > from {
        Some(e - 1)
    } else {
        None
    }
}

} // verus!
