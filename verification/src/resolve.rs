//! Version resolution: given a reference, the latest published version is
//! discovered from one of two remote HTML pages, in priority order — the
//! Marketplace page for the action's name, falling back to the repository's
//! releases page. Fetching is a collaborator's concern; this module builds
//! the URLs, extracts the version from a fetched page, and decides each
//! strategy step from the fetch outcome.
//!
//! The extraction patterns are coupled to the queried pages' current markup
//! and are inherently fragile; they are this module's one external
//! dependency surface.

use vstd::prelude::*;
use crate::reference::opt_view;
use crate::reference::DependencyReference;
use crate::scan::find_pattern;
use crate::scan::find_within;
use crate::scan::last_index_in;
use crate::scan::lemma_last_index_in_some;
use crate::scan::matches_at;
use crate::scan::nonlt_run;
use crate::scan::nonlt_run_end;
use crate::scan::nonquote_run;
use crate::scan::nonquote_run_end;
use crate::scan::rfind_char;
use crate::scan::str_matches_at;

verus! {

/// The Marketplace page consulted by the first strategy.
pub open spec fn marketplace_url_spec(name: Seq<char>) -> Seq<char> {
    ("https://github.com/marketplace/actions/")@ + name
}

/// The repository releases page consulted by the fallback strategy.
pub open spec fn releases_url_spec(owner: Seq<char>, name: Seq<char>) -> Seq<char> {
    ("https://github.com/")@ + owner + ("/")@ + name + ("/releases")@
}

/// Marketplace URL of a reference: built from the action name alone.
pub fn marketplace_url(r: &DependencyReference) -> (u: String)
    ensures
        u@ == marketplace_url_spec(r.name@),
{
    let mut u = String::from_str("https://github.com/marketplace/actions/");
    u.append(r.name.as_str());
    u
}

/// Releases URL of a reference: built from owner and name only; a sub-path
/// takes no part, release pages being repository-level.
pub fn releases_url(r: &DependencyReference) -> (u: String)
    ensures
        u@ == releases_url_spec(r.owner@, r.name@),
{
    let mut u = String::from_str("https://github.com/");
    u.append(r.owner.as_str());
    u.append("/");
    u.append(r.name.as_str());
    u.append("/releases");
    proof {
        assert(u@ =~= releases_url_spec(r.owner@, r.name@));
    }
    u
}

/// The version badge pattern on a Marketplace page, matched at `i`:
/// `<span class="` then a quote-free class value containing `mx-2`, then
/// `">`, then a non-empty `<`-free capture closed by `</span>`. The result
/// is the capture's character range.
pub open spec fn mp_match_at(t: Seq<char>, i: int) -> Option<(int, int)> {
    if matches_at(t, ("<span class=\"")@, i) {
        let cstart = i + ("<span class=\"")@.len();
        let cend = nonquote_run_end(t, cstart);
        if cend + 1 < t.len() && t[cend + 1] == '>' && find_within(t, ("mx-2")@, cstart, cend)
            is Some {
            let vend = nonlt_run_end(t, cend + 2);
            if cend + 2 < vend && matches_at(t, ("</span>")@, vend) {
                Some((cend + 2, vend))
            } else {
                None
            }
        } else {
            None
        }
    } else {
        None
    }
}

/// The first position at or after `i` where the badge pattern matches.
pub open spec fn mp_first(t: Seq<char>, i: int) -> Option<(int, int)>
    decreases t.len() - i,
{
    if i >= t.len() {
        None
    } else if mp_match_at(t, i) is Some {
        mp_match_at(t, i)
    } else {
        mp_first(t, i + 1)
    }
}

/// The version a Marketplace page exposes: the first badge capture, if any.
pub open spec fn marketplace_version_spec(t: Seq<char>) -> Option<Seq<char>> {
    match mp_first(t, 0) {
        Some(p) => Some(t.subrange(p.0, p.1)),
        None => None,
    }
}

/// The release hyperlink pattern on a releases page, matched at `i`:
/// `<a href="` then a quote-free href closed by `"`, whose last `/` has a
/// non-empty segment on either side. The result is the range of the href's
/// final path segment — the release tag.
pub open spec fn rel_match_at(t: Seq<char>, i: int) -> Option<(int, int)> {
    if matches_at(t, ("<a href=\"")@, i) {
        let hstart = i + ("<a href=\"")@.len();
        let hend = nonquote_run_end(t, hstart);
        if hend < t.len() && last_index_in(t, '/', hstart, hend) is Some {
            let ls = last_index_in(t, '/', hstart, hend)->Some_0;
            if hstart < ls && ls + 1 < hend {
                Some((ls + 1, hend))
            } else {
                None
            }
        } else {
            None
        }
    } else {
        None
    }
}

/// The first position at or after `i` where the release pattern matches.
pub open spec fn rel_first(t: Seq<char>, i: int) -> Option<(int, int)>
    decreases t.len() - i,
{
    if i >= t.len() {
        None
    } else if rel_match_at(t, i) is Some {
        rel_match_at(t, i)
    } else {
        rel_first(t, i + 1)
    }
}

/// The release tag a releases page lists first — assumed to be the latest.
pub open spec fn releases_tag_spec(t: Seq<char>) -> Option<Seq<char>> {
    match rel_first(t, 0) {
        Some(p) => Some(t.subrange(p.0, p.1)),
        None => None,
    }
}

fn mp_match(t: &str, i: usize) -> (r: Option<(usize, usize)>)
    requires
        i as nat <= t@.len(),
    ensures
        match r {
            Some(p) => mp_match_at(t@, i as int) == Some((p.0 as int, p.1 as int)) && p.0 <= p.1
                && p.1 as nat <= t@.len(),
            None => mp_match_at(t@, i as int) is None,
        },
{
    let len: usize = t.unicode_len();
    if !str_matches_at(t, i, "<span class=\"") {
        return None;
    }
    let l1: usize = "<span class=\"".unicode_len();
    let cstart: usize = i + l1;
    let cend = nonquote_run(t, cstart);
    if !(cend < len && cend + 1 < len && t.get_char(cend + 1) == '>') {
        return None;
    }
    proof {
        reveal_strlit("mx-2");
    }
    match find_pattern(t, "mx-2", cstart, cend) {
        None => {
            return None;
        },
        Some(_) => {},
    }
    let vend = nonlt_run(t, cend + 2);
    if cend + 2 < vend && str_matches_at(t, vend, "</span>") {
        Some((cend + 2, vend))
    } else {
        None
    }
}

/// The first version badge capture of a Marketplace page body, if any.
pub fn extract_marketplace_version(body: &str) -> (r: Option<String>)
    ensures
        opt_view(r) == marketplace_version_spec(body@),
{
    let len: usize = body.unicode_len();
    let mut i: usize = 0;
    while i < len
        invariant
            0 <= i <= len,
            len as nat == body@.len(),
            mp_first(body@, 0) == mp_first(body@, i as int),
        decreases len - i,
    {
        match mp_match(body, i) {
            Some(p) => {
                let out = body.substring_char(p.0, p.1).to_owned();
                return Some(out);
            },
            None => {
                i = i + 1;
            },
        }
    }
    None
}

fn rel_match(t: &str, i: usize) -> (r: Option<(usize, usize)>)
    requires
        i as nat <= t@.len(),
    ensures
        match r {
            Some(p) => rel_match_at(t@, i as int) == Some((p.0 as int, p.1 as int)) && p.0 <= p.1
                && p.1 as nat <= t@.len(),
            None => rel_match_at(t@, i as int) is None,
        },
{
    let len: usize = t.unicode_len();
    if !str_matches_at(t, i, "<a href=\"") {
        return None;
    }
    let l1: usize = "<a href=\"".unicode_len();
    let hstart: usize = i + l1;
    let hend = nonquote_run(t, hstart);
    if hend >= len {
        return None;
    }
    proof {
        lemma_last_index_in_some(t@, '/', hstart as int, hend as int);
    }
    match rfind_char(t, '/', hstart, hend) {
        Some(ls) => {
            if hstart < ls && ls + 1 < hend {
                Some((ls + 1, hend))
            } else {
                None
            }
        },
        None => None,
    }
}

/// The first release tag of a releases page body, if any.
pub fn extract_release_tag(body: &str) -> (r: Option<String>)
    ensures
        opt_view(r) == releases_tag_spec(body@),
{
    let len: usize = body.unicode_len();
    let mut i: usize = 0;
    while i < len
        invariant
            0 <= i <= len,
            len as nat == body@.len(),
            rel_first(body@, 0) == rel_first(body@, i as int),
        decreases len - i,
    {
        match rel_match(body, i) {
            Some(p) => {
                let out = body.substring_char(p.0, p.1).to_owned();
                return Some(out);
            },
            None => {
                i = i + 1;
            },
        }
    }
    None
}

/// What one page fetch produced: a response with its status and body, or a
/// transport failure (DNS, timeout — anything without a response).
pub enum FetchOutcome {
    Response { status: u16, body: String },
    Failure,
}

/// What to do after the Marketplace fetch: use the version its badge shows,
/// fall back to the releases page, or abort the run.
pub enum MarketplaceStep {
    UseVersion(String),
    TryFallback,
    Abort,
}

/// How one reference's resolution ended: with the latest version string,
/// skipped (no update for this reference, the rest of the run proceeds), or
/// failed (unrecoverable transport trouble — the whole run aborts).
pub enum Resolution {
    Resolved(String),
    Skipped,
    Failed,
}

/// A response status that indicates success.
pub open spec fn is_success_status(s: u16) -> bool {
    200 <= s < 300
}

/// Decides the first strategy from the Marketplace fetch outcome: a
/// transport failure aborts the run; a success response whose body shows a
/// version badge resolves to that version; anything else (non-success
/// status, or no badge in the page) falls back to the releases page.
pub fn after_marketplace(out: &FetchOutcome) -> (r: MarketplaceStep)
    ensures
        out is Failure ==> r is Abort,
        out matches FetchOutcome::Response { status, body } ==> {
            if is_success_status(*status) && marketplace_version_spec(body@) is Some {
                r matches MarketplaceStep::UseVersion(v) && v@ == marketplace_version_spec(
                    body@,
                )->Some_0
            } else {
                r is TryFallback
            }
        },
{
    match out {
        FetchOutcome::Failure => MarketplaceStep::Abort,
        FetchOutcome::Response { status, body } => {
            if 200 <= *status && *status < 300 {
                match extract_marketplace_version(body.as_str()) {
                    Some(v) => MarketplaceStep::UseVersion(v),
                    None => MarketplaceStep::TryFallback,
                }
            } else {
                MarketplaceStep::TryFallback
            }
        },
    }
}

/// Decides the fallback strategy from the releases-page fetch outcome: a
/// transport failure or a non-success non-404 status fails the run; a 404 is
/// non-fatal and skips the reference; a success response resolves to the
/// first listed release tag, or skips the reference when the page shows
/// none.
pub fn after_releases(out: &FetchOutcome) -> (r: Resolution)
    ensures
        out is Failure ==> r is Failed,
        out matches FetchOutcome::Response { status, body } ==> {
            if *status == 404 {
                r is Skipped
            } else if !is_success_status(*status) {
                r is Failed
            } else if releases_tag_spec(body@) is Some {
                r matches Resolution::Resolved(v) && v@ == releases_tag_spec(body@)->Some_0
            } else {
                r is Skipped
            }
        },
{
    match out {
        FetchOutcome::Failure => Resolution::Failed,
        FetchOutcome::Response { status, body } => {
            if *status == 404 {
                Resolution::Skipped
            } else if !(200 <= *status && *status < 300) {
                Resolution::Failed
            } else {
                match extract_release_tag(body.as_str()) {
                    Some(v) => Resolution::Resolved(v),
                    None => Resolution::Skipped,
                }
            }
        },
    }
}

} // verus!
