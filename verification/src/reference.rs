//! Reference parsing: splits a raw token into its structural fields.
//!
//! A token `owner/name[/subpath]@version` is split at its first `/` (owner),
//! at the first `@` after that (version), and, when one stands between the
//! two, at the first further `/` (name from sub-path). Release pages are
//! repository-level, so URL construction later uses only `owner` and `name`;
//! the sub-path is captured but takes no part in it.

use vstd::prelude::*;
use crate::scan::find_char;
use crate::scan::first_index_of;
use crate::scan::is_word_char;
use crate::scan::lemma_first_index_absent;
use crate::scan::lemma_first_index_exact;
use crate::scan::lemma_first_index_of_some;
use crate::scan::lemma_word_run_end;
use crate::scan::word_run_end;
use crate::token::extract_spec;
use crate::token::is_token;
use crate::token::lemma_extract_tokens_are_tokens;
use crate::token::lemma_version_chars;
use crate::token::lemma_version_end_bounds;
use crate::token::version_end;

verus! {

/// A structured dependency reference. All fields present are non-empty.
pub struct DependencyReference {
    pub owner: String,
    pub name: String,
    pub subpath: Option<String>,
    pub version: String,
}

/// A matched token failed structural parsing (no `/`, no `@`, or an empty
/// field). With a correct extraction pattern this never occurs, so a caller
/// treats it as a defect and fails the whole run rather than skipping.
#[derive(Clone, Copy, PartialEq, Eq, Structural, Debug)]
pub struct MalformedReferenceError;

/// The view of an optional string.
pub open spec fn opt_view(o: Option<String>) -> Option<Seq<char>> {
    match o {
        Some(s) => Some(s@),
        None => None,
    }
}

/// The token a tuple of structural fields recomposes to.
pub open spec fn recompose_fields(f: (Seq<char>, Seq<char>, Option<Seq<char>>, Seq<char>)) -> Seq<
    char,
> {
    f.0 + seq!['/'] + f.1 + (match f.2 {
        Some(sp) => seq!['/'] + sp,
        None => Seq::<char>::empty(),
    }) + seq!['@'] + f.3
}

/// The structural fields a token splits into: owner, name, optional
/// sub-path, version; `None` where the token is malformed (no `/` before
/// the version, no `@` after the owner, or an empty field).
pub open spec fn parse_fields(t: Seq<char>) -> Option<
    (Seq<char>, Seq<char>, Option<Seq<char>>, Seq<char>),
> {
    if first_index_of(t, '/', 0) is None {
        None
    } else {
        let sl = first_index_of(t, '/', 0)->Some_0;
        if sl == 0 || first_index_of(t, '@', sl + 1) is None {
            None
        } else {
            let at = first_index_of(t, '@', sl + 1)->Some_0;
            let version = t.subrange(at + 1, t.len() as int);
            if version.len() == 0 {
                None
            } else {
                let sl2 = first_index_of(t, '/', sl + 1);
                if sl2 is Some && sl2->Some_0 < at {
                    let s2 = sl2->Some_0;
                    let name = t.subrange(sl + 1, s2);
                    let sub = t.subrange(s2 + 1, at);
                    if name.len() == 0 || sub.len() == 0 {
                        None
                    } else {
                        Some((t.subrange(0, sl), name, Some(sub), version))
                    }
                } else {
                    let name = t.subrange(sl + 1, at);
                    if name.len() == 0 {
                        None
                    } else {
                        Some((t.subrange(0, sl), name, None, version))
                    }
                }
            }
        }
    }
}

impl DependencyReference {
    /// The structural fields of this reference, as character sequences.
    pub open spec fn fields(self) -> (Seq<char>, Seq<char>, Option<Seq<char>>, Seq<char>) {
        (self.owner@, self.name@, opt_view(self.subpath), self.version@)
    }

    /// The token this reference recomposes to.
    pub open spec fn token_view(self) -> Seq<char> {
        recompose_fields(self.fields())
    }

    /// Structural invariant: every field present is non-empty.
    pub open spec fn wf(self) -> bool {
        &&& self.owner@.len() > 0
        &&& self.name@.len() > 0
        &&& self.version@.len() > 0
        &&& (self.subpath matches Some(s) ==> s@.len() > 0)
    }
}

/// Splits `token` into owner, name, optional sub-path and version, exactly
/// as `parse_fields` describes; fails with `MalformedReferenceError` on the
/// tokens `parse_fields` rejects, and only on those.
pub fn parse_reference(token: &str) -> (r: Result<DependencyReference, MalformedReferenceError>)
    ensures
        r matches Ok(d) ==> parse_fields(token@) == Some(d.fields()) && d.wf(),
        r is Err ==> parse_fields(token@) is None,
{
    proof {
        lemma_first_index_of_some(token@, '/', 0);
    }
    let len: usize = token.unicode_len();
    let sl: usize = match find_char(token, '/', 0) {
        Some(s) => s,
        None => {
            return Err(MalformedReferenceError);
        },
    };
    if sl == 0 {
        return Err(MalformedReferenceError);
    }
    proof {
        lemma_first_index_of_some(token@, '@', sl + 1);
    }
    let at: usize = match find_char(token, '@', sl + 1) {
        Some(a) => a,
        None => {
            return Err(MalformedReferenceError);
        },
    };
    if at + 1 >= len {
        return Err(MalformedReferenceError);
    }
    let version = token.substring_char(at + 1, len).to_owned();
    let owner = token.substring_char(0, sl).to_owned();
    proof {
        lemma_first_index_of_some(token@, '/', sl + 1);
    }
    let sl2 = find_char(token, '/', sl + 1);
    match sl2 {
        Some(s2) if s2 < at => {
            if s2 <= sl + 1 || at <= s2 + 1 {
                return Err(MalformedReferenceError);
            }
            let name = token.substring_char(sl + 1, s2).to_owned();
            let sub = token.substring_char(s2 + 1, at).to_owned();
            Ok(DependencyReference { owner, name, subpath: Some(sub), version })
        },
        _ => {
            if at <= sl + 1 {
                return Err(MalformedReferenceError);
            }
            let name = token.substring_char(sl + 1, at).to_owned();
            Ok(DependencyReference { owner, name, subpath: None, version })
        },
    }
}

/// A well-formed token parses, and its fields recompose to exactly the
/// token: splitting never loses or reorders characters.
pub proof fn lemma_token_parse_round_trip(t: Seq<char>)
    requires
        is_token(t),
    ensures
        parse_fields(t) is Some,
        recompose_fields(parse_fields(t)->Some_0) == t,
{
    let len = t.len() as int;
    lemma_word_run_end(t, 0);
    let o = word_run_end(t, 0);
    assert(is_word_char(t[0]));
    assert(o != 0);
    assert(o + 1 < len && t[o] == '/' && is_word_char(t[o + 1]));
    lemma_word_run_end(t, o + 1);
    let n = word_run_end(t, o + 1);
    assert(n != o + 1);
    assert forall|k: int| 0 <= k < t.len() && is_word_char(#[trigger] t[k]) implies t[k] != '/'
        && t[k] != '@' by {}
    lemma_first_index_exact(t, '/', 0, o);
    if n + 1 < len && t[n] == '/' && is_word_char(t[n + 1]) {
        lemma_word_run_end(t, n + 1);
        let s = word_run_end(t, n + 1);
        assert(s != n + 1);
        assert(s < len && t[s] == '@');
        assert(version_end(t, s + 1) == Some(len));
        lemma_version_end_bounds(t, s + 1);
        lemma_first_index_exact(t, '@', o + 1, s);
        lemma_first_index_exact(t, '/', o + 1, n);
        let f = parse_fields(t)->Some_0;
        assert(recompose_fields(f) =~= t);
    } else {
        assert(n < len && t[n] == '@');
        assert(version_end(t, n + 1) == Some(len));
        lemma_version_end_bounds(t, n + 1);
        lemma_version_chars(t, n + 1);
        lemma_first_index_exact(t, '@', o + 1, n);
        assert forall|k: int| o + 1 <= k < t.len() implies #[trigger] t[k] != '/' by {
            if k < n {
            } else if k == n {
            } else {
                assert(t[k] == 'v' || t[k] == '.' || crate::scan::is_digit_char(t[k]));
            }
        }
        lemma_first_index_absent(t, '/', o + 1);
        let f = parse_fields(t)->Some_0;
        assert(recompose_fields(f) =~= t);
    }
}

/// Extraction and parsing round-trip: every token extraction returns parses
/// successfully, and the parsed fields recompose to exactly that token.
pub proof fn lemma_extract_parse_round_trip(text: Seq<char>, k: int)
    requires
        0 <= k < extract_spec(text).len(),
    ensures
        parse_fields(extract_spec(text)[k]) is Some,
        recompose_fields(parse_fields(extract_spec(text)[k])->Some_0) == extract_spec(text)[k],
{
    lemma_extract_tokens_are_tokens(text);
    lemma_token_parse_round_trip(extract_spec(text)[k]);
}

} // verus!
