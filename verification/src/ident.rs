//! The identifier grammar: one stripped store path is split on `-` into
//! fragments, from which a name, a version and an optional suffix are read.

use vstd::prelude::*;

use crate::text::all_alpha;
use crate::text::all_alpha_str;
use crate::text::first_char;
use crate::text::has_digit;
use crate::text::has_digit_str;
use crate::text::is_version_frag;
use crate::text::join_dash;
use crate::text::join_dash_range;
use crate::text::split_char;
use crate::text::split_char_str;
use crate::text::version_frag;

verus! {

/// The fields read out of one identifier string.
pub struct IdentView {
    pub name: Seq<char>,
    pub version: Seq<char>,
    pub suffix: Option<Seq<char>>,
}

/// Index of the first fragment that looks like a version, or `parts.len()`
/// when none does.
pub open spec fn first_version_frag(parts: Seq<Seq<char>>) -> int
    decreases parts.len(),
{
    if parts.len() == 0 {
        0
    } else if is_version_frag(parts[0]) {
        0
    } else {
        1 + first_version_frag(parts.drop_first())
    }
}

pub proof fn lemma_first_version_frag_is(parts: Seq<Seq<char>>, i: int)
    requires
        0 <= i <= parts.len(),
        forall|k: int| 0 <= k < i ==> !is_version_frag(parts[k]),
        i < parts.len() ==> is_version_frag(parts[i]),
    ensures
        first_version_frag(parts) == i,
    decreases parts.len(),
{
    if parts.len() > 0 && !is_version_frag(parts[0]) {
        assert(i != 0);
        assert(forall|k: int| 0 <= k < i - 1 ==> !is_version_frag(parts.drop_first()[k]));
        lemma_first_version_frag_is(parts.drop_first(), i - 1);
    }
}

/// What the fragments of one identifier mean.
///
/// Fewer than two fragments cannot carry a version. With exactly two, the
/// first is the name and the second the version, accepted only when it holds
/// a digit. With more, an all-alphabetic last fragment is set aside as the
/// suffix; the first remaining fragment that looks like a version starts the
/// version, which runs to the end of the remaining fragments, and what stands
/// before it is the name. Without such a fragment the identifier is rejected.
pub open spec fn parse_frags(parts: Seq<Seq<char>>) -> Option<IdentView> {
    if parts.len() < 2 {
        None
    } else if parts.len() == 2 {
        if has_digit(parts[1]) {
            Some(IdentView { name: parts[0], version: parts[1], suffix: None })
        } else {
            None
        }
    } else {
        let has_sfx = all_alpha(parts.last());
        let body = if has_sfx {
            parts.drop_last()
        } else {
            parts
        };
        let vp = first_version_frag(body);
        if vp < 0 || vp >= body.len() {
            None
        } else {
            Some(
                IdentView {
                    name: join_dash(body.subrange(0, vp)),
                    version: join_dash(body.subrange(vp, body.len() as int)),
                    suffix: if has_sfx {
                        Some(parts.last())
                    } else {
                        None
                    },
                },
            )
        }
    }
}

/// The meaning of one stripped identifier string.
pub open spec fn parse_ident_spec(s: Seq<char>) -> Option<IdentView> {
    parse_frags(split_char(s, '-'))
}

/// What stripping the content-hash prefix leaves of a raw store path:
/// everything past the first `-`, or nothing when no `-` is there or nothing
/// follows it.
pub open spec fn strip_spec(s: Seq<char>) -> Option<Seq<char>> {
    let i = first_char(s, '-');
    if i + 1 >= s.len() {
        None
    } else {
        Some(s.subrange(i + 1, s.len() as int))
    }
}

/// The meaning of one full store path: strip the hash prefix at the first
/// `-`, then read the identifier grammar.
pub open spec fn parse_path_spec(s: Seq<char>) -> Option<IdentView> {
    match strip_spec(s) {
        Some(t) => parse_ident_spec(t),
        None => None,
    }
}

/// Whether the strings `(name, version, suffix)` carry exactly the fields of
/// `v`.
pub open spec fn ident_matches(t: (String, String, Option<String>), v: IdentView) -> bool {
    t.0@ == v.name && t.1@ == v.version && t.2.deep_view() == v.suffix
}

/// Reads `(name, version, suffix)` out of a stripped store path, or rejects
/// it when no fragment can be its version.
pub fn parse_ident(s: &str) -> (r: Option<(String, String, Option<String>)>)
    ensures
        r is Some <==> parse_ident_spec(s@) is Some,
        r is Some ==> ident_matches(r->Some_0, parse_ident_spec(s@)->Some_0),
{
    let parts = split_char_str(s, '-');
    let ghost dv = parts.deep_view();
    proof {
        assert(dv.len() == parts.len());
        assert forall|i: int| 0 <= i < parts.len() implies #[trigger] dv[i] == parts@[i]@ by {}
    }
    let n = parts.len();
    if n < 2 {
        return None;
    }
    if n == 2 {
        if !has_digit_str(parts[1].as_str()) {
            return None;
        }
        let name = parts[0].clone();
        let version = parts[1].clone();
        return Some((name, version, None));
    }
    let has_sfx = all_alpha_str(parts[n - 1].as_str());
    let ghost body = if has_sfx {
        dv.drop_last()
    } else {
        dv
    };
    let body_len = if has_sfx {
        n - 1
    } else {
        n
    };
    proof {
        assert(body =~= dv.subrange(0, body_len as int));
    }
    let vp = scan_version(&parts, body_len);
    if vp == body_len {
        return None;
    }
    let name = join_dash_range(&parts, 0, vp);
    let version = join_dash_range(&parts, vp, body_len);
    let suffix: Option<String> = if has_sfx {
        Some(parts[n - 1].clone())
    } else {
        None
    };
    proof {
        assert(body.subrange(0, vp as int) =~= dv.subrange(0, vp as int));
        assert(body.subrange(vp as int, body.len() as int) =~= dv.subrange(
            vp as int,
            body_len as int,
        ));
    }
    Some((name, version, suffix))
}

/// Index of the first fragment among `parts[..body_len]` that looks like a
/// version, or `body_len` when none does.
fn scan_version(parts: &Vec<String>, body_len: usize) -> (r: usize)
    requires
        body_len <= parts.len(),
    ensures
        r == first_version_frag(parts.deep_view().subrange(0, body_len as int)),
        r <= body_len,
{
    let ghost body = parts.deep_view().subrange(0, body_len as int);
    let mut i: usize = 0;
    while i < body_len
        invariant
            i <= body_len <= parts.len(),
            body == parts.deep_view().subrange(0, body_len as int),
            forall|k: int| 0 <= k < i ==> !is_version_frag(body[k]),
        decreases body_len - i,
    {
        proof {
            assert(body[i as int] == parts@[i as int]@);
        }
        if version_frag(parts[i].as_str()) {
            proof {
                lemma_first_version_frag_is(body, i as int);
            }
            return i;
        }
        i = i + 1;
    }
    proof {
        lemma_first_version_frag_is(body, body_len as int);
    }
    body_len
}

} // verus!
