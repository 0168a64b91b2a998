//! The rewrite engine: extraction, parsing, staleness comparison and bounded
//! in-place substitution, orchestrated over per-reference resolutions.
//!
//! Fetching is the caller's concern: the caller resolves each planned
//! reference (see `crate::resolve`) and hands the resolutions back, in the
//! references' own order. Substitution is textual and bounded — for each
//! stale reference the literal `name@current` is replaced by `name@latest`,
//! at most 256 occurrences per reference, a defensive bound against
//! unbounded work, not a semantic one.

use vstd::prelude::*;
use crate::reference::lemma_extract_parse_round_trip;
use crate::reference::parse_fields;
use crate::reference::parse_reference;
use crate::reference::DependencyReference;
use crate::reference::MalformedReferenceError;
use crate::resolve::Resolution;
use crate::scan::find_pattern;
use crate::scan::find_within;
use crate::scan::lemma_find_within_some;
use crate::token::extract_references;
use crate::token::extract_spec;
use crate::token::views_of;
use crate::version::is_stale;
use crate::version::lemma_stale_irreflexive;
use crate::version::stale_spec;

verus! {

/// `t` with its first `n` occurrences of `pat` replaced by `rep`, scanning
/// left to right, each scan resuming after the inserted replacement.
pub open spec fn replace_spec(t: Seq<char>, pat: Seq<char>, rep: Seq<char>, n: nat) -> Seq<char>
    decreases n,
{
    if n == 0 || pat.len() == 0 {
        t
    } else {
        match find_within(t, pat, 0, t.len() as int) {
            Some(j) => t.take(j) + rep + replace_spec(
                t.skip(j + pat.len()),
                pat,
                rep,
                (n - 1) as nat,
            ),
            None => t,
        }
    }
}

/// `text` with up to `n` occurrences of the non-empty `pat` replaced by
/// `rep`, left to right.
pub fn replace_up_to(text: &str, pat: &str, rep: &str, n: usize) -> (r: String)
    requires
        pat@.len() > 0,
    ensures
        r@ == replace_spec(text@, pat@, rep@, n as nat),
{
    let plen: usize = pat.unicode_len();
    let mut out = String::new();
    let mut rest: &str = text;
    let mut k: usize = n;
    loop
        invariant
            plen as nat == pat@.len(),
            plen > 0,
            replace_spec(text@, pat@, rep@, n as nat) == out@ + replace_spec(
                rest@,
                pat@,
                rep@,
                k as nat,
            ),
        decreases k,
    {
        if k == 0 {
            let mut res = out;
            res.append(rest);
            return res;
        }
        let rlen: usize = rest.unicode_len();
        match find_pattern(rest, pat, 0, rlen) {
            None => {
                let mut res = out;
                res.append(rest);
                return res;
            },
            Some(j) => {
                proof {
                    lemma_find_within_some(rest@, pat@, 0, rlen as int);
                }
                let ghost prev = rest@;
                let ghost out_prev = out@;
                out.append(rest.substring_char(0, j));
                out.append(rep);
                let new_rest = rest.substring_char(j + plen, rlen);
                rest = new_rest;
                k = k - 1;
                proof {
                    assert(prev.take(j as int) =~= prev.subrange(0, j as int));
                    assert(prev.skip(j as int + plen as int) =~= rest@);
                    assert(out_prev + replace_spec(prev, pat@, rep@, (k + 1) as nat) =~= out@
                        + replace_spec(rest@, pat@, rep@, k as nat));
                }
            },
        }
    }
}

/// The literal occurrence of a pin in the text: `name@version`.
pub open spec fn pattern_spec(name: Seq<char>, version: Seq<char>) -> Seq<char> {
    name + ("@")@ + version
}

/// One reference's effect on the text: where its resolution carries a latest
/// version and the pin is stale at its own depth, the bounded substitution
/// of its literal occurrence; otherwise the text unchanged.
pub open spec fn apply_one_spec(text: Seq<char>, r: DependencyReference, res: Resolution) -> Seq<
    char,
> {
    match res {
        Resolution::Resolved(latest) => {
            if stale_spec(r.version@, latest@) {
                replace_spec(
                    text,
                    pattern_spec(r.name@, r.version@),
                    pattern_spec(r.name@, latest@),
                    256,
                )
            } else {
                text
            }
        },
        _ => text,
    }
}

/// The text after the references from index `i` on are applied in order.
pub open spec fn apply_updates_spec(
    text: Seq<char>,
    refs: Seq<DependencyReference>,
    rs: Seq<Resolution>,
    i: int,
) -> Seq<char>
    decreases refs.len() - i,
{
    if i < 0 || i >= refs.len() {
        text
    } else {
        apply_updates_spec(apply_one_spec(text, refs[i], rs[i]), refs, rs, i + 1)
    }
}

/// The report entries (owner, name, from, to) for the references from index
/// `i` on, one per applied substitution, in the references' order.
pub open spec fn report_spec(refs: Seq<DependencyReference>, rs: Seq<Resolution>, i: int) -> Seq<
    (Seq<char>, Seq<char>, Seq<char>, Seq<char>),
>
    decreases refs.len() - i,
{
    if i < 0 || i >= refs.len() {
        Seq::empty()
    } else {
        let rest = report_spec(refs, rs, i + 1);
        match rs[i] {
            Resolution::Resolved(latest) => {
                if stale_spec(refs[i].version@, latest@) {
                    seq![(refs[i].owner@, refs[i].name@, refs[i].version@, latest@)] + rest
                } else {
                    rest
                }
            },
            _ => rest,
        }
    }
}

/// Index of the first resolution that failed, if any.
pub open spec fn first_failed(rs: Seq<Resolution>, i: int) -> Option<int>
    decreases rs.len() - i,
{
    if i < 0 || i >= rs.len() {
        None
    } else if rs[i] is Failed {
        Some(i)
    } else {
        first_failed(rs, i + 1)
    }
}

/// One applied substitution, for reporting: `owner/name` was rewritten from
/// pin `from` to pin `to`.
pub struct ReportEntry {
    pub owner: String,
    pub name: String,
    pub from: String,
    pub to: String,
}

impl ReportEntry {
    /// The entry's fields as character sequences.
    pub open spec fn fields(self) -> (Seq<char>, Seq<char>, Seq<char>, Seq<char>) {
        (self.owner@, self.name@, self.from@, self.to@)
    }
}

/// The character sequences of a report.
pub open spec fn report_views(v: Seq<ReportEntry>) -> Seq<
    (Seq<char>, Seq<char>, Seq<char>, Seq<char>),
> {
    v.map_values(|e: ReportEntry| e.fields())
}

/// Why a rewrite run aborted: a token failed structural parsing, or a
/// reference's resolution hit unrecoverable transport trouble. Both abort
/// the whole run — partial rewriting is worse than none.
#[derive(Debug)]
pub enum RewriteError {
    Malformed(MalformedReferenceError),
    Transport { index: usize },
}

/// The references to process for `text`: every distinct extracted token,
/// parsed, in first-seen order. The result type fails with the parse error
/// on a malformed token — a defect of the extraction pattern, treated as
/// fatal — but extraction and parsing are proven in step: every extracted
/// token parses, so the error can in fact never come.
pub fn plan_references(text: &str) -> (r: Result<
    Vec<DependencyReference>,
    MalformedReferenceError,
>)
    ensures
        r is Ok,
        r matches Ok(refs) ==> {
            &&& refs@.len() == extract_spec(text@).len()
            &&& forall|k: int|
                0 <= k < refs@.len() ==> parse_fields(extract_spec(text@)[k]) == Some(
                    (#[trigger] refs@[k]).fields(),
                ) && refs@[k].wf()
        },
{
    let tokens = extract_references(text);
    let mut refs: Vec<DependencyReference> = Vec::new();
    let mut k: usize = 0;
    while k < tokens.len()
        invariant
            0 <= k <= tokens.len(),
            views_of(tokens@) == extract_spec(text@),
            refs@.len() == k,
            forall|j: int|
                0 <= j < k ==> parse_fields(extract_spec(text@)[j]) == Some(
                    (#[trigger] refs@[j]).fields(),
                ) && refs@[j].wf(),
        decreases tokens.len() - k,
    {
        proof {
            assert(views_of(tokens@)[k as int] == tokens@[k as int]@);
        }
        match parse_reference(tokens[k].as_str()) {
            Ok(d) => {
                refs.push(d);
            },
            Err(e) => {
                proof {
                    lemma_extract_parse_round_trip(text@, k as int);
                }
                return Err(e);
            },
        }
        k = k + 1;
    }
    Ok(refs)
}

/// Applies the resolved updates to `text`: each reference whose resolution
/// carries a latest version and whose pin is stale at its own depth has its
/// literal occurrence `name@current` substituted by `name@latest`, at most
/// 256 occurrences, in the references' order; skipped and up-to-date
/// references leave the text untouched. A failed resolution aborts the run
/// with the index of the first failure, and nothing is returned.
pub fn rewrite_apply(
    text: &str,
    refs: &Vec<DependencyReference>,
    resolutions: &Vec<Resolution>,
) -> (r: Result<(String, Vec<ReportEntry>), RewriteError>)
    requires
        refs@.len() == resolutions@.len(),
    ensures
        r matches Ok(out) ==> {
            &&& first_failed(resolutions@, 0) is None
            &&& out.0@ == apply_updates_spec(text@, refs@, resolutions@, 0)
            &&& report_views(out.1@) == report_spec(refs@, resolutions@, 0)
        },
        r matches Err(e) ==> e matches RewriteError::Transport { index } && first_failed(
            resolutions@,
            0,
        ) == Some(index as int),
{
    let mut cur: String = text.to_owned();
    let mut report: Vec<ReportEntry> = Vec::new();
    let mut i: usize = 0;
    proof {
        assert(report_views(report@) =~= Seq::<(Seq<char>, Seq<char>, Seq<char>, Seq<char>)>::empty());
    }
    while i < refs.len()
        invariant
            0 <= i <= refs.len(),
            refs@.len() == resolutions@.len(),
            first_failed(resolutions@, 0) == first_failed(resolutions@, i as int),
            apply_updates_spec(text@, refs@, resolutions@, 0) == apply_updates_spec(
                cur@,
                refs@,
                resolutions@,
                i as int,
            ),
            report_spec(refs@, resolutions@, 0) == report_views(report@) + report_spec(
                refs@,
                resolutions@,
                i as int,
            ),
        decreases refs.len() - i,
    {
        let ghost report_prev = report@;
        let rf = &refs[i];
        match &resolutions[i] {
            Resolution::Failed => {
                return Err(RewriteError::Transport { index: i });
            },
            Resolution::Skipped => {},
            Resolution::Resolved(latest) => {
                if is_stale(rf.version.as_str(), latest.as_str()) {
                    let mut pat = rf.name.clone();
                    pat.append("@");
                    pat.append(rf.version.as_str());
                    let mut rep = rf.name.clone();
                    rep.append("@");
                    rep.append(latest.as_str());
                    proof {
                        reveal_strlit("@");
                        assert(pat@.len() > 0);
                    }
                    cur = replace_up_to(cur.as_str(), pat.as_str(), rep.as_str(), 256);
                    let entry = ReportEntry {
                        owner: rf.owner.clone(),
                        name: rf.name.clone(),
                        from: rf.version.clone(),
                        to: latest.clone(),
                    };
                    let ghost ef = entry.fields();
                    report.push(entry);
                    proof {
                        assert(report_views(report@) =~= report_views(report_prev).push(ef));
                        assert(report_views(report_prev).push(ef) + report_spec(
                            refs@,
                            resolutions@,
                            i + 1,
                        ) =~= report_views(report_prev) + report_spec(
                            refs@,
                            resolutions@,
                            i as int,
                        ));
                    }
                }
            },
        }
        i = i + 1;
    }
    proof {
        assert(report_views(report@) + Seq::<
            (Seq<char>, Seq<char>, Seq<char>, Seq<char>),
        >::empty() =~= report_views(report@));
    }
    Ok((cur, report))
}

/// A fully up-to-date document is left untouched: where no resolved
/// reference is stale at its own pin depth, the rewrite is the identity and
/// the report is empty.
pub proof fn lemma_rewrite_identity_when_current(
    text: Seq<char>,
    refs: Seq<DependencyReference>,
    rs: Seq<Resolution>,
)
    requires
        rs.len() == refs.len(),
        forall|i: int|
            0 <= i < refs.len() ==> ((#[trigger] rs[i]) matches Resolution::Resolved(l)
                ==> !stale_spec(refs[i].version@, l@)),
    ensures
        apply_updates_spec(text, refs, rs, 0) == text,
        report_spec(refs, rs, 0) == Seq::<(Seq<char>, Seq<char>, Seq<char>, Seq<char>)>::empty(),
{
    lemma_rewrite_noop_from(text, refs, rs, 0);
}

/// A rewrite is idempotent: where every resolved latest version equals the
/// reference's own pin — as holds on a second pass over already-updated
/// text, whose pins are the previously substituted latest strings — no pin
/// is stale at any depth, and the text comes back unchanged.
pub proof fn lemma_rewrite_idempotent(
    text: Seq<char>,
    refs: Seq<DependencyReference>,
    rs: Seq<Resolution>,
)
    requires
        rs.len() == refs.len(),
        forall|i: int|
            0 <= i < refs.len() ==> ((#[trigger] rs[i]) matches Resolution::Resolved(l) ==> l@
                == refs[i].version@),
    ensures
        apply_updates_spec(text, refs, rs, 0) == text,
        report_spec(refs, rs, 0) == Seq::<(Seq<char>, Seq<char>, Seq<char>, Seq<char>)>::empty(),
{
    assert forall|i: int|
        0 <= i < refs.len() implies ((#[trigger] rs[i]) matches Resolution::Resolved(l)
        ==> !stale_spec(refs[i].version@, l@)) by {
        if rs[i] matches Resolution::Resolved(l) {
            lemma_stale_irreflexive(refs[i].version@);
        }
    }
    lemma_rewrite_identity_when_current(text, refs, rs);
}

proof fn lemma_rewrite_noop_from(
    text: Seq<char>,
    refs: Seq<DependencyReference>,
    rs: Seq<Resolution>,
    i: int,
)
    requires
        rs.len() == refs.len(),
        forall|k: int|
            0 <= k < refs.len() ==> ((#[trigger] rs[k]) matches Resolution::Resolved(l)
                ==> !stale_spec(refs[k].version@, l@)),
    ensures
        apply_updates_spec(text, refs, rs, i) == text,
        report_spec(refs, rs, i) == Seq::<(Seq<char>, Seq<char>, Seq<char>, Seq<char>)>::empty(),
    decreases refs.len() - i,
{
    if 0 <= i < refs.len() {
        assert(apply_one_spec(text, refs[i], rs[i]) == text);
        lemma_rewrite_noop_from(text, refs, rs, i + 1);
    }
}

} // verus!
