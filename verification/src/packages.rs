//! Store paths read from external command output, the packages built from
//! them, the shared-dependency partition and the snapshot diff.
//!
//! A detected suffix is folded into the record's name after a `|`, so that
//! two build outputs of one package are never taken for each other.

use vstd::prelude::*;

use crate::error::StoreError;
use crate::ident::parse_ident;
use crate::ident::parse_path_spec;
use crate::ident::strip_spec;
use crate::ident::IdentView;
use crate::keyed::find_key;
use crate::keyed::has_key;
use crate::keyed::has_name_str;
use crate::keyed::keys_unique;
use crate::keyed::lemma_find_key_at;
use crate::keyed::lemma_find_key_props;
use crate::keyed::lemma_find_key_push;
use crate::keyed::lemma_has_key_push;
use crate::keyed::lemma_has_name_push;
use crate::keyed::name_in;
use crate::keyed::remove_key;
use crate::keyed::KeyedVec;
use crate::keyed::Named;
use crate::text::find_char;
use crate::text::find_dash;
use crate::text::first_char;
use crate::text::split_char;
use crate::text::split_char_str;
use crate::text::tokens_of;
use crate::text::tokens_vec;

verus! {

/// A package's logical name.
pub type Name = String;

/// One parsed store path: the raw path it was read from, its logical name
/// (with any suffix folded in after a `|`), and its version.
#[derive(Debug, Clone)]
pub struct StorePath {
    pub path: Option<String>,
    pub name: Name,
    pub version: String,
}

impl Named for StorePath {
    open spec fn key(&self) -> Seq<char> {
        self.name@
    }

    fn name_ref(&self) -> (r: &String) {
        &self.name
    }
}

/// Store paths keyed by name: records of one name are one identity, whatever
/// their versions.
pub type StorePathMap = KeyedVec<StorePath>;

/// The name under which a parsed identifier is kept: its suffix, when one was
/// read, is folded in after a `|`.
pub open spec fn folded_name(v: IdentView) -> Seq<char> {
    match v.suffix {
        Some(sfx) => v.name + seq!['|'] + sfx,
        None => v.name,
    }
}

impl StorePath {
    /// Everything past the first `-` of `path`, or nothing when no `-` is
    /// there or nothing follows it.
    pub fn strip(path: &str) -> (r: Option<String>)
        ensures
            r is Some <==> strip_spec(path@) is Some,
            r matches Some(t) ==> Some(t@) == strip_spec(path@),
    {
        let n = path.unicode_len();
        let i = find_dash(path);
        if i >= n || i + 1 >= n {
            None
        } else {
            Some(path.substring_char(i + 1, n).to_owned())
        }
    }

    /// Parses one full store path into a record, or rejects it when no
    /// fragment can be its version. The record keeps the raw path, the name
    /// (suffix folded in after a `|`) and the version.
    pub fn parse(path: &str) -> (r: Option<StorePath>)
        ensures
            r is Some <==> parse_path_spec(path@) is Some,
            r matches Some(p) ==> ({
                let v = parse_path_spec(path@)->Some_0;
                &&& p.name@ == folded_name(v)
                &&& p.version@ == v.version
                &&& p.path.deep_view() == Some(path@)
            }),
    {
        let stripped = match Self::strip(path) {
            Some(s) => s,
            None => {
                return None;
            },
        };
        match parse_ident(stripped.as_str()) {
            None => None,
            Some((base, version, suffix)) => {
                let mut name = base;
                match suffix {
                    Some(sfx) => {
                        name.append("|");
                        name.append(sfx.as_str());
                        proof {
                            reveal_strlit("|");
                            assert("|"@ =~= seq!['|']);
                        }
                    },
                    None => {},
                }
                Some(StorePath { path: Some(path.to_owned()), name, version })
            },
        }
    }
}

/// One detected version change: the identity it belongs to, the version it
/// left and the version it reached.
#[derive(Debug, Clone)]
pub struct StoreDiff {
    pub name: String,
    pub ver_from: String,
    pub ver_to: String,
}

/// The change between two records of one identity: none when the versions
/// are equal, else the pair of versions under the new record's name.
pub open spec fn store_diff_spec(new: StorePath, old: StorePath) -> Option<StoreDiff> {
    if new.version@ == old.version@ {
        None
    } else {
        Some(StoreDiff { name: new.name, ver_from: old.version, ver_to: new.version })
    }
}

/// Records with equal names are one identity, whatever their versions and
/// raw paths: every membership test and lookup in a record set goes by the
/// name alone.
pub proof fn lemma_identity_ignores_version(a: StorePath, b: StorePath, s: Seq<StorePath>)
    requires
        a.name@ == b.name@,
    ensures
        crate::keyed::same_identity(a, b),
        find_key(s, a.name@) == find_key(s, b.name@),
        has_key(s, a.name@) == has_key(s, b.name@),
{
}

/// Comparing a record to itself yields no change.
pub proof fn lemma_noop_diff(x: StorePath)
    ensures
        store_diff_spec(x, x) is None,
{
}

/// Compares two records already known to share an identity; no change is
/// reported when the versions are equal.
pub fn get_store_diff(new: &StorePath, old: &StorePath) -> (r: Option<StoreDiff>)
    ensures
        r == store_diff_spec(*new, *old),
{
    if new.version.eq(&old.version) {
        return None;
    }
    Some(
        StoreDiff {
            name: new.name.clone(),
            ver_from: old.version.clone(),
            ver_to: new.version.clone(),
        },
    )
}

/// The changes between two record sets, in the order of the new set: one for
/// every new record whose identity stands in `old` with another version.
/// Identities absent from `old` are no change.
pub open spec fn store_diffs_spec(new: Seq<StorePath>, old: Seq<StorePath>) -> Seq<StoreDiff>
    decreases new.len(),
{
    if new.len() == 0 {
        Seq::empty()
    } else {
        let rest = store_diffs_spec(new.drop_last(), old);
        match find_key(old, new.last().key()) {
            None => rest,
            Some(o) => match store_diff_spec(new.last(), o) {
                None => rest,
                Some(d) => rest.push(d),
            },
        }
    }
}

/// Every version change from `old_stores` to `new_stores`, in the order of
/// the new set.
pub fn get_store_diffs(new_stores: &StorePathMap, old_stores: &StorePathMap) -> (r: Vec<
    StoreDiff,
>)
    ensures
        r@ == store_diffs_spec(new_stores.seq(), old_stores.seq()),
{
    let mut diffs: Vec<StoreDiff> = Vec::new();
    let nv = new_stores.as_vec();
    let len = nv.len();
    let mut i: usize = 0;
    while i < len
        invariant
            i <= len == new_stores.seq().len(),
            nv@ == new_stores.seq(),
            diffs@ == store_diffs_spec(new_stores.seq().take(i as int), old_stores.seq()),
        decreases len - i,
    {
        proof {
            assert(new_stores.seq().take(i + 1).drop_last() =~= new_stores.seq().take(i as int));
            assert(new_stores.seq().take(i + 1).last() == new_stores.seq()[i as int]);
        }
        let p = &nv[i];
        match old_stores.get(&p.name) {
            Some(o) => {
                match get_store_diff(p, o) {
                    Some(d) => diffs.push(d),
                    None => {},
                }
            },
            None => {},
        }
        i = i + 1;
    }
    proof {
        assert(new_stores.seq().take(len as int) =~= new_stores.seq());
    }
    diffs
}

/// The observable fields of a record, as character sequences.
pub struct StorePathView {
    pub path: Option<Seq<char>>,
    pub name: Seq<char>,
    pub version: Seq<char>,
}

impl View for StorePath {
    type V = StorePathView;

    open spec fn view(&self) -> StorePathView {
        StorePathView { path: self.path.deep_view(), name: self.name@, version: self.version@ }
    }
}

/// The records of `s`, each reduced to its observable fields.
pub open spec fn views_of(s: Seq<StorePath>) -> Seq<StorePathView> {
    s.map_values(|p: StorePath| p@)
}

/// Whether some record view in `s` carries the name `n`.
pub open spec fn view_has_key(s: Seq<StorePathView>, n: Seq<char>) -> bool {
    exists|i: int| 0 <= i < s.len() && s[i].name == n
}

proof fn lemma_has_key_views(s: Seq<StorePath>, n: Seq<char>)
    ensures
        has_key(s, n) == view_has_key(views_of(s), n),
{
    if has_key(s, n) {
        let i = choose|i: int| 0 <= i < s.len() && s[i].key() == n;
        assert(views_of(s)[i].name == n);
    }
    if view_has_key(views_of(s), n) {
        let i = choose|i: int| 0 <= i < views_of(s).len() && views_of(s)[i].name == n;
        assert(s[i].key() == n);
    }
}

/// No two record views in `s` share a name.
pub open spec fn view_keys_unique(s: Seq<StorePathView>) -> bool {
    forall|i: int, j: int| 0 <= i < j < s.len() ==> s[i].name != s[j].name
}

/// The first record view named `n`, if any.
pub open spec fn find_view(s: Seq<StorePathView>, n: Seq<char>) -> Option<StorePathView>
    decreases s.len(),
{
    if s.len() == 0 {
        None
    } else if s[0].name == n {
        Some(s[0])
    } else {
        find_view(s.drop_first(), n)
    }
}

/// `s` with the first record view named `n` taken out, order kept.
pub open spec fn remove_view(s: Seq<StorePathView>, n: Seq<char>) -> Seq<StorePathView>
    decreases s.len(),
{
    if s.len() == 0 {
        s
    } else if s[0].name == n {
        s.drop_first()
    } else {
        seq![s[0]] + remove_view(s.drop_first(), n)
    }
}

proof fn lemma_find_view_of(s: Seq<StorePath>, n: Seq<char>)
    ensures
        find_view(views_of(s), n) == match find_key(s, n) {
            Some(p) => Some(p@),
            None => None::<StorePathView>,
        },
    decreases s.len(),
{
    if s.len() > 0 {
        assert(views_of(s)[0] == s[0]@);
        if s[0].key() != n {
            assert(views_of(s).drop_first() =~= views_of(s.drop_first()));
            lemma_find_view_of(s.drop_first(), n);
        }
    }
}

proof fn lemma_remove_view_of(s: Seq<StorePath>, n: Seq<char>)
    ensures
        remove_view(views_of(s), n) == views_of(remove_key(s, n)),
    decreases s.len(),
{
    if s.len() > 0 {
        assert(views_of(s)[0] == s[0]@);
        if s[0].key() == n {
            assert(remove_view(views_of(s), n) =~= views_of(remove_key(s, n)));
        } else {
            assert(views_of(s).drop_first() =~= views_of(s.drop_first()));
            lemma_remove_view_of(s.drop_first(), n);
            assert(remove_view(views_of(s), n) =~= views_of(remove_key(s, n)));
        }
    }
}

/// Removing a name that no record carries changes nothing.
proof fn lemma_remove_view_absent(s: Seq<StorePathView>, n: Seq<char>)
    requires
        find_view(s, n) is None,
    ensures
        remove_view(s, n) == s,
    decreases s.len(),
{
    if s.len() > 0 {
        lemma_remove_view_absent(s.drop_first(), n);
        assert(seq![s[0]] + s.drop_first() =~= s);
    }
}

/// Removing a name from views without repeated names leaves the name gone.
proof fn lemma_remove_view_gone(s: Seq<StorePathView>, n: Seq<char>)
    requires
        view_keys_unique(s),
    ensures
        !view_has_key(remove_view(s, n), n),
    decreases s.len(),
{
    if s.len() > 0 {
        if s[0].name == n {
            if view_has_key(s.drop_first(), n) {
                let i = choose|i: int|
                    0 <= i < s.drop_first().len() && s.drop_first()[i].name == n;
                assert(s[i + 1].name == s[0].name);
                assert(false);
            }
        } else {
            assert(view_keys_unique(s.drop_first())) by {
                assert forall|a: int, b: int|
                    0 <= a < b < s.drop_first().len() implies s.drop_first()[a].name
                    != s.drop_first()[b].name by {
                    assert(s[a + 1].name != s[b + 1].name);
                }
            }
            lemma_remove_view_gone(s.drop_first(), n);
            if view_has_key(remove_view(s, n), n) {
                let i = choose|i: int|
                    0 <= i < remove_view(s, n).len() && remove_view(s, n)[i].name == n;
                if i > 0 {
                    assert(remove_view(s, n)[i] == remove_view(s.drop_first(), n)[i - 1]);
                }
            }
        }
    }
}

/// What parsing one raw line yields: the record's observable fields, with
/// the line itself kept as the raw path.
pub open spec fn parsed_view(line: Seq<char>) -> Option<StorePathView> {
    match parse_path_spec(line) {
        Some(v) => Some(StorePathView { path: Some(line), name: folded_name(v), version: v.version }),
        None => None,
    }
}

/// One step of the duplicate policy without registration times, over the
/// records kept so far (`u`) and the names dropped as ambiguous (`d`).
///
/// A record of a dropped name stays dropped. A record of a new name is kept.
/// A repeated name at another version is ambiguous — with no registration
/// time to arbitrate, neither version is authoritative — and the name leaves
/// the set for good; at the same version the first record stays.
pub open spec fn untimed_step(u: Seq<StorePathView>, d: Set<Seq<char>>, v: StorePathView) -> (
    Seq<StorePathView>,
    Set<Seq<char>>,
) {
    if d.contains(v.name) {
        (u, d)
    } else {
        match find_view(u, v.name) {
            Some(ex) => if ex.version != v.version {
                (remove_view(u, v.name), d.insert(v.name))
            } else {
                (u, d)
            },
            None => (u.push(v), d),
        }
    }
}

/// The record views read from `lines` in order under the untimed duplicate
/// policy, beside the names dropped as ambiguous; lines that parse to
/// nothing are skipped.
pub open spec fn insert_parsed(lines: Seq<Seq<char>>) -> (Seq<StorePathView>, Set<Seq<char>>)
    decreases lines.len(),
{
    if lines.len() == 0 {
        (Seq::<StorePathView>::empty(), Set::<Seq<char>>::empty())
    } else {
        let rest = insert_parsed(lines.drop_last());
        match parsed_view(lines.last()) {
            None => rest,
            Some(v) => untimed_step(rest.0, rest.1, v),
        }
    }
}

/// The five characters that open every raw store path.
pub open spec fn nix_marker() -> Seq<char> {
    seq!['/', 'n', 'i', 'x', '/']
}

/// Whether the marker stands at position `i` of `s`.
pub open spec fn marker_at(s: Seq<char>, i: int) -> bool {
    0 <= i && i + 5 <= s.len() && s.subrange(i, i + 5) == nix_marker()
}

/// The last position of the marker in `s`, or `-1` when it stands nowhere.
pub open spec fn last_marker(s: Seq<char>) -> int
    decreases s.len(),
{
    if s.len() < 5 {
        -1
    } else if marker_at(s, s.len() - 5) {
        s.len() - 5
    } else {
        last_marker(s.drop_last())
    }
}

/// Everything before the last marker, or all of `s` when it stands nowhere:
/// the last line of the listing names the package itself and is cut off.
pub open spec fn truncated_output(s: Seq<char>) -> Seq<char> {
    let i = last_marker(s);
    if 0 <= i && i <= s.len() {
        s.subrange(0, i)
    } else {
        s
    }
}

proof fn lemma_marker_drop_last(s: Seq<char>, k: int)
    requires
        s.len() > 0,
    ensures
        k + 5 <= s.len() - 1 ==> marker_at(s.drop_last(), k) == marker_at(s, k),
{
    if 0 <= k && k + 5 <= s.len() - 1 {
        assert(s.drop_last().subrange(k, k + 5) =~= s.subrange(k, k + 5));
    }
}

proof fn lemma_last_marker_is(s: Seq<char>, i: int)
    requires
        marker_at(s, i),
        forall|k: int| k > i ==> !marker_at(s, k),
    ensures
        last_marker(s) == i,
    decreases s.len(),
{
    if s.len() - 5 != i {
        assert(!marker_at(s, s.len() - 5));
        lemma_marker_drop_last(s, i);
        assert forall|k: int| k > i implies !marker_at(s.drop_last(), k) by {
            lemma_marker_drop_last(s, k);
        }
        lemma_last_marker_is(s.drop_last(), i);
    }
}

proof fn lemma_last_marker_none(s: Seq<char>)
    requires
        forall|k: int| !marker_at(s, k),
    ensures
        last_marker(s) == -1,
    decreases s.len(),
{
    if s.len() >= 5 {
        assert forall|k: int| !marker_at(s.drop_last(), k) by {
            lemma_marker_drop_last(s, k);
        }
        lemma_last_marker_none(s.drop_last());
    }
}

/// Whether the marker stands at position `i`.
fn marker_check(s: &str, i: usize) -> (b: bool)
    requires
        i + 5 <= s@.len(),
        s@.len() <= usize::MAX,
    ensures
        b == marker_at(s@, i as int),
{
    let b = s.get_char(i) == '/' && s.get_char(i + 1) == 'n' && s.get_char(i + 2) == 'i'
        && s.get_char(i + 3) == 'x' && s.get_char(i + 4) == '/';
    proof {
        if b {
            assert(s@.subrange(i as int, i as int + 5) =~= nix_marker());
        } else {
            if marker_at(s@, i as int) {
                assert(s@.subrange(i as int, i as int + 5)[0] == s@[i as int]);
                assert(s@.subrange(i as int, i as int + 5)[1] == s@[i as int + 1]);
                assert(s@.subrange(i as int, i as int + 5)[2] == s@[i as int + 2]);
                assert(s@.subrange(i as int, i as int + 5)[3] == s@[i as int + 3]);
                assert(s@.subrange(i as int, i as int + 5)[4] == s@[i as int + 4]);
            }
        }
    }
    b
}

/// The last position of the marker in `s`, when it stands anywhere.
fn find_last_marker(s: &str) -> (r: Option<usize>)
    ensures
        match r {
            Some(i) => last_marker(s@) == i && i + 5 <= s@.len(),
            None => last_marker(s@) == -1,
        },
{
    let n = s.unicode_len();
    if n < 5 {
        proof {
            lemma_last_marker_none(s@);
        }
        return None;
    }
    let mut i: usize = n - 4;
    while i > 0
        invariant
            i <= n - 4,
            n == s@.len(),
            5 <= n,
            forall|k: int| k >= i ==> !marker_at(s@, k),
        decreases i,
    {
        if marker_check(s, i - 1) {
            proof {
                lemma_last_marker_is(s@, i as int - 1);
            }
            return Some(i - 1);
        }
        i = i - 1;
    }
    proof {
        lemma_last_marker_none(s@);
    }
    None
}

/// One line with a trailing carriage return taken off.
pub open spec fn strip_cr(l: Seq<char>) -> Seq<char> {
    if l.len() > 0 && l.last() == '\r' {
        l.drop_last()
    } else {
        l
    }
}

/// The lines of `s`: fragments between newlines, a final newline closing the
/// last line rather than opening an empty one, and a carriage return before
/// any newline dropped.
pub open spec fn lines_of(s: Seq<char>) -> Seq<Seq<char>> {
    if s.len() == 0 {
        Seq::empty()
    } else {
        let parts = if s.last() == '\n' {
            split_char(s, '\n').drop_last()
        } else {
            split_char(s, '\n')
        };
        parts.map_values(|l: Seq<char>| strip_cr(l))
    }
}

/// The lines of `s`, as owned strings.
fn lines_vec(s: &str) -> (r: Vec<String>)
    ensures
        r.deep_view() == lines_of(s@),
{
    let n = s.unicode_len();
    if n == 0 {
        let r: Vec<String> = Vec::new();
        proof {
            assert(r.deep_view() =~= lines_of(s@));
        }
        return r;
    }
    let mut parts = split_char_str(s, '\n');
    if s.get_char(n - 1) == '\n' {
        proof {
            assert(split_char(s@, '\n').len() >= 1);
        }
        let _ = parts.pop();
    }
    let ghost target = lines_of(s@);
    proof {
        assert(parts.deep_view().map_values(|l: Seq<char>| strip_cr(l)) =~= target);
    }
    let len = parts.len();
    let mut out: Vec<String> = Vec::new();
    let mut i: usize = 0;
    while i < len
        invariant
            i <= len == parts.len(),
            target == parts.deep_view().map_values(|l: Seq<char>| strip_cr(l)),
            out.deep_view() == target.take(i as int),
        decreases len - i,
    {
        proof {
            assert(parts.deep_view()[i as int] == parts@[i as int]@);
            assert(target.take(i as int + 1) =~= target.take(i as int).push(target[i as int]));
        }
        let li = &parts[i];
        let m = li.as_str().unicode_len();
        if m > 0 && li.as_str().get_char(m - 1) == '\r' {
            out.push(li.as_str().substring_char(0, m - 1).to_owned());
            proof {
                assert(li@.subrange(0, m as int - 1) =~= strip_cr(li@));
            }
        } else {
            out.push(li.clone());
        }
        proof {
            assert(out.deep_view() =~= target.take(i as int + 1));
        }
        i = i + 1;
    }
    proof {
        assert(target.take(len as int) =~= target);
    }
    out
}

/// Applies one parsed record to the kept set and the dropped names under
/// the untimed duplicate policy (see [`untimed_step`]).
fn untimed_insert(
    kept: &mut StorePathMap,
    dropped: &mut Vec<String>,
    p: StorePath,
    Ghost(d0): Ghost<Set<Seq<char>>>,
)
    requires
        old(kept).wf(),
        forall|n: Seq<char>| #[trigger] has_name_str(old(dropped)@, n) <==> d0.contains(n),
    ensures
        final(kept).wf(),
        views_of(final(kept).seq()) == untimed_step(views_of(old(kept).seq()), d0, p@).0,
        forall|n: Seq<char>| #[trigger] has_name_str(final(dropped)@, n) <==> untimed_step(
            views_of(old(kept).seq()),
            d0,
            p@,
        ).1.contains(n),
{
    let ghost u0 = kept.seq();
    let ghost pg = p;
    if name_in(dropped, &p.name) {
        return ;
    }
    proof {
        lemma_find_view_of(u0, p.name@);
        lemma_find_key_props(u0, p.name@);
    }
    let present: bool;
    let dup_found: bool;
    match kept.get(&p.name) {
        Some(ex) => {
            present = true;
            dup_found = !ex.version.eq(&p.version);
        },
        None => {
            present = false;
            dup_found = false;
        },
    }
    if !present {
        let _ = kept.insert(p);
        proof {
            assert(views_of(u0.push(pg)) =~= views_of(u0).push(pg@));
        }
    } else if dup_found {
        let name = p.name;
        let _ = kept.take(&name);
        proof {
            lemma_remove_view_of(u0, name@);
        }
        let ghost dropped0 = dropped@;
        dropped.push(name);
        proof {
            assert forall|n: Seq<char>| #[trigger] has_name_str(dropped@, n) <==> untimed_step(
                views_of(u0),
                d0,
                pg@,
            ).1.contains(n) by {
                lemma_has_name_push(dropped0, dropped@.last(), n);
            }
        }
    }
}

/// The record views read from one dependency listing under the untimed
/// duplicate policy: the last line (the package itself, opened by the path
/// marker) is cut off, every other line is parsed, a name repeated at
/// another version is dropped as ambiguous, and finally any record named
/// like the package itself (`own`) is taken out — a package's dependencies
/// never hold its own name.
pub open spec fn deps_from_output(out: Seq<char>, own: Seq<char>) -> Seq<StorePathView> {
    remove_view(insert_parsed(lines_of(truncated_output(out))).0, own)
}

/// One top-level package: its own record and its dependency records.
#[derive(Debug)]
pub struct SystemPackage {
    pub path: StorePath,
    pub deps: StorePathMap,
}

impl Named for SystemPackage {
    open spec fn key(&self) -> Seq<char> {
        self.path.name@
    }

    fn name_ref(&self) -> (r: &String) {
        &self.path.name
    }
}

/// Packages keyed by their own record's name.
pub type SystemPackageMap = KeyedVec<SystemPackage>;

impl SystemPackage {
    /// A package with no dependencies yet.
    pub fn from_path(path: StorePath) -> (r: SystemPackage)
        ensures
            r.path == path,
            r.deps.seq() == Seq::<StorePath>::empty(),
            r.deps.wf(),
    {
        SystemPackage { path, deps: StorePathMap::new() }
    }

    /// A package with its dependencies read from one listing (see
    /// [`SystemPackage::parse_deps`]).
    pub fn with_deps(path: StorePath, output: &str) -> (r: SystemPackage)
        ensures
            r.path == path,
            r.deps.wf(),
            views_of(r.deps.seq()) == deps_from_output(output@, path.name@),
            !has_key(r.deps.seq(), path.name@),
    {
        let mut package = SystemPackage::from_path(path);
        package.parse_deps(output);
        package
    }

    /// Replaces the package's dependencies with the records read from one
    /// dependency listing, as an external command printed it: one raw store
    /// path per line, the package's own path last. The last line is cut off
    /// at the path marker, lines that parse to nothing are skipped, a name
    /// repeated at another version is dropped as ambiguous, and a record
    /// named like the package itself is excluded: the dependencies never
    /// hold the package's own name.
    pub fn parse_deps(&mut self, output: &str)
        ensures
            final(self).path == old(self).path,
            final(self).deps.wf(),
            views_of(final(self).deps.seq()) == deps_from_output(
                output@,
                old(self).path.name@,
            ),
            !has_key(final(self).deps.seq(), old(self).path.name@),
    {
        let trunc: String = match find_last_marker(output) {
            Some(i) => output.substring_char(0, i).to_owned(),
            None => output.to_owned(),
        };
        proof {
            assert(trunc@ == truncated_output(output@));
        }
        let lines = lines_vec(trunc.as_str());
        let ghost ldv = lines.deep_view();
        let mut deps = StorePathMap::new();
        let mut dropped: Vec<String> = Vec::new();
        let len = lines.len();
        let mut i: usize = 0;
        while i < len
            invariant
                i <= len == lines.len(),
                ldv == lines.deep_view(),
                deps.wf(),
                views_of(deps.seq()) == insert_parsed(ldv.take(i as int)).0,
                forall|n: Seq<char>| #[trigger] has_name_str(dropped@, n) <==> insert_parsed(
                    ldv.take(i as int),
                ).1.contains(n),
            decreases len - i,
        {
            proof {
                assert(ldv[i as int] == lines@[i as int]@);
                assert(ldv.take(i as int + 1).drop_last() =~= ldv.take(i as int));
                assert(ldv.take(i as int + 1).last() == ldv[i as int]);
            }
            match StorePath::parse(lines[i].as_str()) {
                Some(p) => {
                    untimed_insert(
                        &mut deps,
                        &mut dropped,
                        p,
                        Ghost(insert_parsed(ldv.take(i as int)).1),
                    );
                },
                None => {},
            }
            i = i + 1;
        }
        proof {
            assert(ldv.take(len as int) =~= ldv);
        }
        let ghost u_end = deps.seq();
        proof {
            lemma_find_view_of(u_end, self.path.name@);
            lemma_find_key_props(u_end, self.path.name@);
            assert(view_keys_unique(views_of(u_end))) by {
                assert forall|a: int, b: int|
                    0 <= a < b < views_of(u_end).len() implies views_of(u_end)[a].name
                    != views_of(u_end)[b].name by {
                    assert(views_of(u_end)[a] == u_end[a]@);
                    assert(views_of(u_end)[b] == u_end[b]@);
                    assert(u_end[a].key() != u_end[b].key());
                }
            }
        }
        let _ = deps.take(&self.path.name);
        proof {
            match find_key(u_end, self.path.name@) {
                Some(_) => {
                    lemma_remove_view_of(u_end, self.path.name@);
                },
                None => {
                    lemma_remove_view_absent(views_of(u_end), self.path.name@);
                },
            }
            lemma_remove_view_gone(views_of(u_end), self.path.name@);
            lemma_has_key_views(deps.seq(), self.path.name@);
        }
        self.deps = deps;
    }
}

/// Whether the opening marker `[ ` of the package listing stands at `i`.
pub open spec fn open_at(s: Seq<char>, i: int) -> bool {
    0 <= i && i + 2 <= s.len() && s[i] == '[' && s[i + 1] == ' '
}

/// The first position of the opening marker, or `s.len()` when it stands
/// nowhere.
pub open spec fn first_open(s: Seq<char>) -> int
    decreases s.len(),
{
    if s.len() == 0 {
        0
    } else if open_at(s, 0) {
        0
    } else {
        1 + first_open(s.drop_first())
    }
}

proof fn lemma_first_open_is(s: Seq<char>, i: int)
    requires
        0 <= i <= s.len(),
        forall|k: int| 0 <= k < i ==> !open_at(s, k),
        i < s.len() ==> open_at(s, i),
    ensures
        first_open(s) == i,
    decreases s.len(),
{
    if s.len() > 0 && !open_at(s, 0) {
        assert(i != 0);
        assert forall|k: int| 0 <= k < i - 1 implies !open_at(s.drop_first(), k) by {
            assert(!open_at(s, k + 1));
        }
        assert(i - 1 < s.drop_first().len() ==> open_at(s.drop_first(), i - 1));
        lemma_first_open_is(s.drop_first(), i - 1);
    }
}

/// The first position of the opening marker `[ `, or the length when it
/// stands nowhere.
fn find_open(s: &str) -> (r: usize)
    ensures
        r == first_open(s@),
        r <= s@.len(),
{
    let n = s.unicode_len();
    let mut i: usize = 0;
    while i < n && i + 1 < n
        invariant
            i <= n,
            n == s@.len(),
            forall|k: int| 0 <= k < i ==> !open_at(s@, k),
        decreases n - i,
    {
        if s.get_char(i) == '[' && s.get_char(i + 1) == ' ' {
            proof {
                lemma_first_open_is(s@, i as int);
            }
            return i;
        }
        i = i + 1;
    }
    proof {
        assert forall|k: int| 0 <= k < n implies !open_at(s@, k) by {
            if k < i {
            } else {
                assert(k + 2 > n);
            }
        }
        lemma_first_open_is(s@, n as int);
    }
    n
}

/// The store path inside a double-quoted token, when the token is one.
pub open spec fn quoted_inner(t: Seq<char>) -> Option<Seq<char>> {
    if t.len() >= 2 && t[0] == '"' && t.last() == '"' {
        Some(t.subrange(1, t.len() - 1))
    } else {
        None
    }
}

/// The record views read from the listing's tokens in order under the
/// untimed duplicate policy, beside the names dropped as ambiguous: only
/// double-quoted tokens count, and their contents are parsed as store paths.
pub open spec fn stores_from_tokens(toks: Seq<Seq<char>>) -> (
    Seq<StorePathView>,
    Set<Seq<char>>,
)
    decreases toks.len(),
{
    if toks.len() == 0 {
        (Seq::<StorePathView>::empty(), Set::<Seq<char>>::empty())
    } else {
        let rest = stores_from_tokens(toks.drop_last());
        match quoted_inner(toks.last()) {
            None => rest,
            Some(inner) => match parsed_view(inner) {
                None => rest,
                Some(v) => untimed_step(rest.0, rest.1, v),
            },
        }
    }
}

/// What one package listing means: nothing unless `[ ` and a later `]`
/// bound it; between them, the quoted tokens are read as store paths.
pub open spec fn system_stores_spec(out: Seq<char>) -> Option<Seq<StorePathView>> {
    let a = first_open(out);
    let b = first_char(out, ']');
    if a < 0 || a >= out.len() || b >= out.len() || b < a + 2 {
        None
    } else {
        Some(stores_from_tokens(tokens_of(out.subrange(a + 2, b))).0)
    }
}

/// Reads the top-level package records out of the system's package listing:
/// the part between `[ ` and the first `]` is split into whitespace-separated
/// tokens, each double-quoted token is parsed as a store path, and a name
/// repeated at another version is dropped as ambiguous. Output without both
/// markers in that order is malformed.
pub fn parse_system_stores(output: &str) -> (r: Result<StorePathMap, StoreError>)
    ensures
        r is Ok <==> system_stores_spec(output@) is Some,
        r matches Ok(m) ==> m.wf() && views_of(m.seq()) == system_stores_spec(output@)->Some_0,
        r matches Err(e) ==> e is MalformedOutput,
{
    let n = output.unicode_len();
    let a = find_open(output);
    let b = find_char(output, ']');
    if a >= n || b >= n || b < 2 || a > b - 2 {
        return Err(StoreError::MalformedOutput);
    }
    let content = output.substring_char(a + 2, b);
    let toks = tokens_vec(content);
    let ghost tdv = toks.deep_view();
    let len = toks.len();
    let mut stores = StorePathMap::new();
    let mut dropped: Vec<String> = Vec::new();
    let mut i: usize = 0;
    while i < len
        invariant
            i <= len == toks.len(),
            tdv == toks.deep_view(),
            stores.wf(),
            views_of(stores.seq()) == stores_from_tokens(tdv.take(i as int)).0,
            forall|n2: Seq<char>| #[trigger] has_name_str(dropped@, n2) <==> stores_from_tokens(
                tdv.take(i as int),
            ).1.contains(n2),
        decreases len - i,
    {
        proof {
            assert(tdv[i as int] == toks@[i as int]@);
            assert(tdv.take(i as int + 1).drop_last() =~= tdv.take(i as int));
            assert(tdv.take(i as int + 1).last() == tdv[i as int]);
        }
        let t = &toks[i];
        let m = t.as_str().unicode_len();
        if m >= 2 && t.as_str().get_char(0) == '"' && t.as_str().get_char(m - 1) == '"' {
            let inner = t.as_str().substring_char(1, m - 1);
            match StorePath::parse(inner) {
                Some(st) => {
                    untimed_insert(
                        &mut stores,
                        &mut dropped,
                        st,
                        Ghost(stores_from_tokens(tdv.take(i as int)).1),
                    );
                },
                None => {},
            }
        }
        i = i + 1;
    }
    proof {
        assert(tdv.take(len as int) =~= tdv);
    }
    Ok(stores)
}

/// The packages of `s` keyed by name, in order, the first package of each
/// name winning.
pub open spec fn insert_packages(s: Seq<SystemPackage>) -> Seq<SystemPackage>
    decreases s.len(),
{
    if s.len() == 0 {
        Seq::empty()
    } else {
        let rest = insert_packages(s.drop_last());
        if has_key(rest, s.last().key()) {
            rest
        } else {
            rest.push(s.last())
        }
    }
}

/// Gathers built packages into a map keyed by their names; the first package
/// of each name wins.
pub fn parse_system_packages(pkgs: Vec<SystemPackage>) -> (r: SystemPackageMap)
    ensures
        r.wf(),
        r.seq() == insert_packages(pkgs@),
{
    let ghost all = pkgs@;
    let mut v = pkgs;
    let mut m = SystemPackageMap::new();
    while v.len() > 0
        invariant
            v@.len() <= all.len(),
            v@ == all.skip(all.len() - v@.len()),
            m.wf(),
            m.seq() == insert_packages(all.take(all.len() - v@.len())),
        decreases v.len(),
    {
        let ghost k = all.len() - v@.len();
        proof {
            assert(all.take(k + 1).drop_last() =~= all.take(k));
            assert(all.take(k + 1).last() == all[k]);
            assert(v@[0] == all[k]);
        }
        let p = v.remove(0);
        let _ = m.insert(p);
        proof {
            assert(v@ =~= all.skip(all.len() - v@.len()));
        }
    }
    proof {
        assert(all.take(all.len() as int) =~= all);
    }
    m
}

/// Every change one package shows between two snapshots: its own version
/// change, when there is one, and its dependencies' version changes.
#[derive(Debug)]
pub struct PackageDiff {
    pub name: String,
    pub pkg: Option<StoreDiff>,
    pub deps: Vec<StoreDiff>,
}

/// The package-level changes, in the order of the new snapshot: one entry
/// for every package whose identity stands in both snapshots and that shows
/// a primary or dependency change; packages showing neither are left out.
pub open spec fn package_diffs_spec(new: Seq<SystemPackage>, old: Seq<SystemPackage>) -> Seq<
    (String, Option<StoreDiff>, Seq<StoreDiff>),
>
    decreases new.len(),
{
    if new.len() == 0 {
        Seq::empty()
    } else {
        let rest = package_diffs_spec(new.drop_last(), old);
        let p = new.last();
        match find_key(old, p.key()) {
            None => rest,
            Some(op) => {
                let pd = store_diff_spec(p.path, op.path);
                let dd = store_diffs_spec(p.deps.seq(), op.deps.seq());
                if pd is None && dd.len() == 0 {
                    rest
                } else {
                    rest.push((p.path.name, pd, dd))
                }
            },
        }
    }
}

/// Whether one produced entry carries exactly the name, primary change and
/// dependency changes of `t`.
pub open spec fn package_diff_matches(
    d: PackageDiff,
    t: (String, Option<StoreDiff>, Seq<StoreDiff>),
) -> bool {
    d.name == t.0 && d.pkg == t.1 && d.deps@ == t.2
}

/// Compares two package snapshots: for every new package whose identity
/// stands in the old snapshot, its primary change and its dependencies'
/// changes; packages showing neither are left out, as are packages new to
/// the system.
pub fn get_package_diffs(new: &SystemPackageMap, old: &SystemPackageMap) -> (r: Vec<PackageDiff>)
    ensures
        r@.len() == package_diffs_spec(new.seq(), old.seq()).len(),
        forall|i: int|
            0 <= i < r@.len() ==> package_diff_matches(
                r@[i],
                package_diffs_spec(new.seq(), old.seq())[i],
            ),
{
    let mut diffs: Vec<PackageDiff> = Vec::new();
    let nv = new.as_vec();
    let len = nv.len();
    let mut i: usize = 0;
    while i < len
        invariant
            i <= len == new.seq().len(),
            nv@ == new.seq(),
            diffs@.len() == package_diffs_spec(new.seq().take(i as int), old.seq()).len(),
            forall|j: int|
                0 <= j < diffs@.len() ==> package_diff_matches(
                    diffs@[j],
                    package_diffs_spec(new.seq().take(i as int), old.seq())[j],
                ),
        decreases len - i,
    {
        proof {
            assert(new.seq().take(i + 1).drop_last() =~= new.seq().take(i as int));
            assert(new.seq().take(i + 1).last() == new.seq()[i as int]);
        }
        let p = &nv[i];
        match old.get(&p.path.name) {
            Some(op) => {
                let pd = get_store_diff(&p.path, &op.path);
                let dd = get_store_diffs(&p.deps, &op.deps);
                if pd.is_some() || dd.len() > 0 {
                    diffs.push(PackageDiff { name: p.path.name.clone(), pkg: pd, deps: dd });
                }
            },
            None => {},
        }
        i = i + 1;
    }
    proof {
        assert(new.seq().take(len as int) =~= new.seq());
    }
    diffs
}

/// The version (by its characters) that package `p` pins dependency `n` at,
/// if it depends on it.
pub open spec fn dep_version_of(p: SystemPackage, n: Seq<char>) -> Option<Seq<char>> {
    match find_key(p.deps.seq(), n) {
        Some(d) => Some(d.version@),
        None => None,
    }
}

/// Whether some package of `pkgs` depends on `n`.
pub open spec fn dep_appears(pkgs: Seq<SystemPackage>, n: Seq<char>) -> bool {
    exists|i: int| 0 <= i < pkgs.len() && dep_version_of(pkgs[i], n) is Some
}

/// Whether all packages depending on `n` pin it at one version.
pub open spec fn dep_versions_agree(pkgs: Seq<SystemPackage>, n: Seq<char>) -> bool {
    forall|i: int, j: int|
        0 <= i < pkgs.len() && 0 <= j < pkgs.len() ==> (dep_version_of(pkgs[i], n) is Some
            && dep_version_of(pkgs[j], n) is Some ==> dep_version_of(pkgs[i], n)
            == dep_version_of(pkgs[j], n))
}

/// A dependency name is shared system-wide when some package depends on it
/// and every package that does agrees on its version.
pub open spec fn qualifies(pkgs: Seq<SystemPackage>, n: Seq<char>) -> bool {
    dep_appears(pkgs, n) && dep_versions_agree(pkgs, n)
}

/// The record a name keeps in the shared set: the first package's.
pub open spec fn first_dep(pkgs: Seq<SystemPackage>, n: Seq<char>) -> Option<StorePath>
    decreases pkgs.len(),
{
    if pkgs.len() == 0 {
        None
    } else {
        match find_key(pkgs[0].deps.seq(), n) {
            Some(d) => Some(d),
            None => first_dep(pkgs.drop_first(), n),
        }
    }
}

/// Keeps a dependency in its package exactly when its name is not shared
/// system-wide.
pub open spec fn keeps(before: Seq<SystemPackage>) -> spec_fn(StorePath) -> bool {
    |d: StorePath| !qualifies(before, d.name@)
}

proof fn lemma_first_dep_appears(pkgs: Seq<SystemPackage>, n: Seq<char>)
    ensures
        first_dep(pkgs, n) is Some <==> dep_appears(pkgs, n),
    decreases pkgs.len(),
{
    if pkgs.len() > 0 {
        lemma_first_dep_appears(pkgs.drop_first(), n);
        if find_key(pkgs[0].deps.seq(), n) is Some {
            assert(dep_version_of(pkgs[0], n) is Some);
        } else {
            if dep_appears(pkgs.drop_first(), n) {
                let i = choose|i: int|
                    0 <= i < pkgs.drop_first().len() && dep_version_of(
                        pkgs.drop_first()[i],
                        n,
                    ) is Some;
                assert(dep_version_of(pkgs[i + 1], n) is Some);
            }
            if dep_appears(pkgs, n) {
                let i = choose|i: int| 0 <= i < pkgs.len() && dep_version_of(pkgs[i], n) is Some;
                assert(i != 0);
                assert(dep_version_of(pkgs.drop_first()[i - 1], n) is Some);
            }
        }
    }
}

proof fn lemma_first_dep_push(pkgs: Seq<SystemPackage>, p: SystemPackage, n: Seq<char>)
    ensures
        first_dep(pkgs.push(p), n) == match first_dep(pkgs, n) {
            Some(d) => Some(d),
            None => find_key(p.deps.seq(), n),
        },
    decreases pkgs.len(),
{
    if pkgs.len() == 0 {
        assert(pkgs.push(p) =~= seq![p]);
        assert(pkgs.push(p).drop_first() =~= Seq::<SystemPackage>::empty());
        assert(pkgs.push(p)[0] == p);
        assert(first_dep(pkgs.push(p).drop_first(), n) is None);
    } else {
        assert(pkgs.push(p).drop_first() =~= pkgs.drop_first().push(p));
        lemma_first_dep_push(pkgs.drop_first(), p, n);
        assert(pkgs.push(p)[0] == pkgs[0]);
    }
}

/// Whether the dependency name `n` is shared system-wide: some package
/// depends on it, and every package that does pins the same version.
fn dep_qualifies(pkgs: &SystemPackageMap, n: &String) -> (b: bool)
    ensures
        b == qualifies(pkgs.seq(), n@),
{
    let pv = pkgs.as_vec();
    let len = pv.len();
    let mut seen: Option<&String> = None;
    let mut i: usize = 0;
    while i < len
        invariant
            i <= len == pkgs.seq().len(),
            pv@ == pkgs.seq(),
            match seen {
                Some(vs) => (exists|k: int|
                    0 <= k < i && dep_version_of(pkgs.seq()[k], n@) == Some(vs@)) && (forall|
                    k: int,
                |
                    0 <= k < i ==> (dep_version_of(#[trigger] pkgs.seq()[k], n@) is Some
                        ==> dep_version_of(pkgs.seq()[k], n@) == Some(vs@))),
                None => forall|k: int|
                    0 <= k < i ==> dep_version_of(#[trigger] pkgs.seq()[k], n@) is None,
            },
        decreases len - i,
    {
        match pv[i].deps.get(n) {
            Some(d) => {
                match seen {
                    Some(vs) => {
                        if !d.version.eq(vs) {
                            proof {
                                let k = choose|k: int|
                                    0 <= k < i && dep_version_of(pkgs.seq()[k], n@) == Some(vs@);
                                assert(dep_version_of(pkgs.seq()[i as int], n@) == Some(
                                    d.version@,
                                ));
                                assert(!dep_versions_agree(pkgs.seq(), n@));
                            }
                            return false;
                        }
                        proof {
                            assert(dep_version_of(pkgs.seq()[i as int], n@) == Some(vs@));
                        }
                    },
                    None => {
                        proof {
                            assert(dep_version_of(pkgs.seq()[i as int], n@) == Some(d.version@));
                        }
                        seen = Some(&d.version);
                    },
                }
            },
            None => {
                proof {
                    assert(dep_version_of(pkgs.seq()[i as int], n@) is None);
                }
            },
        }
        i = i + 1;
    }
    match seen {
        Some(_) => {
            proof {
                assert(dep_appears(pkgs.seq(), n@));
            }
            true
        },
        None => {
            proof {
                if dep_appears(pkgs.seq(), n@) {
                    let k = choose|k: int|
                        0 <= k < pkgs.seq().len() && dep_version_of(pkgs.seq()[k], n@) is Some;
                    assert(false);
                }
            }
            false
        },
    }
}

/// Splits the system-wide shared dependencies out of every package.
///
/// A dependency name is shared exactly when every package depending on it
/// pins one version; judging that takes a full scan, so the whole map is
/// read before anything moves. Each shared name is then removed from every
/// package and collected once — under the first holding package's record —
/// into the returned set. A name pinned at two versions anywhere stays in
/// every package that holds it and never reaches the shared set, so no name
/// ends up both in a package and in the shared set.
pub fn isolate_global_dependencies(pkgs: &mut SystemPackageMap) -> (r: Result<
    StorePathMap,
    StoreError,
>)
    requires
        old(pkgs).wf(),
        forall|i: int| 0 <= i < old(pkgs).seq().len() ==> (#[trigger] old(pkgs).seq()[i]).deps.wf(),
    ensures
        r is Ok,
        final(pkgs).wf(),
        ({
            let shared = r->Ok_0;
            let before = old(pkgs).seq();
            let after = final(pkgs).seq();
            &&& shared.wf()
            &&& forall|n: Seq<char>| #[trigger] has_key(shared.seq(), n) <==> qualifies(before, n)
            &&& forall|n: Seq<char>|
                qualifies(before, n) ==> #[trigger] find_key(shared.seq(), n) == first_dep(
                    before,
                    n,
                )
            &&& after.len() == before.len()
            &&& forall|i: int| 0 <= i < after.len() ==> (#[trigger] after[i]).path == before[i].path
            &&& forall|i: int| 0 <= i < after.len() ==> (#[trigger] after[i]).deps.wf()
            &&& forall|i: int|
                0 <= i < after.len() ==> (#[trigger] after[i]).deps.seq() == before[i].deps.seq()
                    .filter(keeps(before))
            &&& forall|i: int, n: Seq<char>|
                0 <= i < after.len() && #[trigger] has_key(after[i].deps.seq(), n) ==> !has_key(
                    shared.seq(),
                    n,
                )
        }),
{
    let ghost before = pkgs.seq();
    let mut qual: Vec<String> = Vec::new();
    let plen = pkgs.len();
    let mut i: usize = 0;
    proof {
        assert forall|n: Seq<char>| #[trigger] has_name_str(qual@, n) <==> qualifies(before, n)
            && dep_appears(before.take(0), n) by {
            if dep_appears(before.take(0), n) {
                let t = choose|t: int|
                    0 <= t < before.take(0).len() && dep_version_of(before.take(0)[t], n) is Some;
                assert(false);
            }
        }
    }
    while i < plen
        invariant
            i <= plen == before.len(),
            pkgs.seq() == before,
            forall|n: Seq<char>| #[trigger] has_name_str(qual@, n) <==> qualifies(before, n)
                && dep_appears(before.take(i as int), n),
        decreases plen - i,
    {
        let ghost dseq = before[i as int].deps.seq();
        let dlen = pkgs.as_vec()[i].deps.len();
        let mut j: usize = 0;
        while j < dlen
            invariant
                0 <= i < plen == before.len(),
                pkgs.seq() == before,
                dseq == before[i as int].deps.seq(),
                j <= dlen == dseq.len(),
                forall|n: Seq<char>| #[trigger] has_name_str(qual@, n) <==> qualifies(before, n)
                    && (dep_appears(before.take(i as int), n) || has_key(
                    dseq.take(j as int),
                    n,
                )),
            decreases dlen - j,
        {
            let pv = pkgs.as_vec();
            let d_name = pv[i].deps.as_vec()[j].name.clone();
            proof {
                assert(dseq.take(j + 1) =~= dseq.take(j as int).push(dseq[j as int]));
                assert(dseq[j as int].key() == d_name@);
            }
            let q = dep_qualifies(pkgs, &d_name);
            if q && !name_in(&qual, &d_name) {
                let ghost qual0 = qual@;
                qual.push(d_name.clone());
                proof {
                    assert forall|n: Seq<char>| #[trigger] has_name_str(qual@, n) <==> qualifies(
                        before,
                        n,
                    ) && (dep_appears(before.take(i as int), n) || has_key(
                        dseq.take(j + 1),
                        n,
                    )) by {
                        lemma_has_name_push(qual0, d_name, n);
                        lemma_has_key_push(dseq.take(j as int), dseq[j as int], n);
                    }
                }
            } else {
                proof {
                    assert forall|n: Seq<char>| #[trigger] has_name_str(qual@, n) <==> qualifies(
                        before,
                        n,
                    ) && (dep_appears(before.take(i as int), n) || has_key(
                        dseq.take(j + 1),
                        n,
                    )) by {
                        lemma_has_key_push(dseq.take(j as int), dseq[j as int], n);
                    }
                }
            }
            j = j + 1;
        }
        proof {
            assert(dseq.take(dlen as int) =~= dseq);
            assert(before.take(i + 1) =~= before.take(i as int).push(before[i as int]));
            assert forall|n: Seq<char>| #[trigger] has_name_str(qual@, n) <==> qualifies(before, n)
                && dep_appears(before.take(i + 1), n) by {
                lemma_find_key_props(dseq, n);
                if dep_appears(before.take(i as int), n) {
                    let t = choose|t: int|
                        0 <= t < i && dep_version_of(before.take(i as int)[t], n) is Some;
                    assert(dep_version_of(before.take(i + 1)[t], n) is Some);
                }
                if has_key(dseq, n) {
                    assert(dep_version_of(before.take(i + 1)[i as int], n) is Some);
                }
                if dep_appears(before.take(i + 1), n) {
                    let t = choose|t: int|
                        0 <= t < i + 1 && #[trigger] dep_version_of(
                            before.take(i + 1)[t],
                            n,
                        ) is Some;
                    if t < i {
                        assert(dep_version_of(before.take(i as int)[t], n) is Some);
                    } else {
                        assert(find_key(dseq, n) is Some);
                    }
                }
            }
        }
        i = i + 1;
    }
    proof {
        assert(before.take(plen as int) =~= before);
        assert forall|n: Seq<char>| #[trigger] has_name_str(qual@, n) <==> qualifies(
            before,
            n,
        ) by {}
    }
    let mut shared = StorePathMap::new();
    let mut v = pkgs.take_all();
    let mut new_items: Vec<SystemPackage> = Vec::new();
    while v.len() > 0
        invariant
            v@.len() <= before.len(),
            v@ == before.skip(before.len() - v@.len()),
            new_items@.len() == before.len() - v@.len(),
            forall|t: int|
                0 <= t < new_items@.len() ==> (#[trigger] new_items@[t]).path == before[t].path,
            forall|t: int| 0 <= t < new_items@.len() ==> (#[trigger] new_items@[t]).deps.wf(),
            forall|t: int|
                0 <= t < new_items@.len() ==> (#[trigger] new_items@[t]).deps.seq()
                    == before[t].deps.seq().filter(keeps(before)),
            shared.wf(),
            forall|n: Seq<char>| #[trigger] find_key(shared.seq(), n) == if qualifies(before, n) {
                first_dep(before.take(before.len() - v@.len()), n)
            } else {
                None::<StorePath>
            },
            forall|n: Seq<char>| #[trigger] has_name_str(qual@, n) <==> qualifies(before, n),
            forall|t: int| 0 <= t < before.len() ==> (#[trigger] before[t]).deps.wf(),
        decreases v@.len(),
    {
        let ghost k = before.len() - v@.len();
        proof {
            assert(v@[0] == before[k]);
        }
        let pkg = v.remove(0);
        let path = pkg.path;
        let mut dv = pkg.deps.into_vec();
        let ghost dseq = before[k].deps.seq();
        let mut kept: Vec<StorePath> = Vec::new();
        proof {
            reveal(Seq::filter);
            assert(dseq.take(0) =~= Seq::<StorePath>::empty());
            assert(kept@ =~= dseq.take(0).filter(keeps(before)));
        }
        while dv.len() > 0
            invariant
                0 <= k < before.len(),
                dseq == before[k].deps.seq(),
                keys_unique(dseq),
                dv@.len() <= dseq.len(),
                dv@ == dseq.skip(dseq.len() - dv@.len()),
                kept@ == dseq.take(dseq.len() - dv@.len()).filter(keeps(before)),
                keys_unique(kept@),
                forall|n: Seq<char>| #[trigger] has_key(kept@, n) ==> has_key(
                    dseq.take(dseq.len() - dv@.len()),
                    n,
                ),
                shared.wf(),
                forall|n: Seq<char>| #[trigger] find_key(shared.seq(), n) == if qualifies(
                    before,
                    n,
                ) {
                    match first_dep(before.take(k), n) {
                        Some(d) => Some(d),
                        None => find_key(dseq.take(dseq.len() - dv@.len()), n),
                    }
                } else {
                    None::<StorePath>
                },
                forall|n: Seq<char>| #[trigger] has_name_str(qual@, n) <==> qualifies(before, n),
            decreases dv@.len(),
        {
            let ghost jj = dseq.len() - dv@.len();
            proof {
                reveal(Seq::filter);
                assert(dv@[0] == dseq[jj]);
                assert(dseq.take(jj + 1).drop_last() =~= dseq.take(jj));
                assert(dseq.take(jj + 1).last() == dseq[jj]);
                assert(dseq.take(jj + 1) =~= dseq.take(jj).push(dseq[jj]));
            }
            let d = dv.remove(0);
            let ghost dg = d;
            if name_in(&qual, &d.name) {
                let ghost sbefore = shared.seq();
                proof {
                    assert(qualifies(before, dg.name@));
                    assert(!keeps(before)(dseq[jj]));
                    assert forall|t: int| 0 <= t < jj implies dseq.take(jj)[t].key()
                        != dg.name@ by {
                        assert(dseq[t].key() != dseq[jj].key());
                    }
                    lemma_find_key_at(dseq.take(jj), dg.name@, jj);
                }
                let _ = shared.insert(d);
                proof {
                    assert forall|n: Seq<char>| #[trigger] find_key(shared.seq(), n) == if
                        qualifies(before, n) {
                        match first_dep(before.take(k), n) {
                            Some(dd) => Some(dd),
                            None => find_key(dseq.take(jj + 1), n),
                        }
                    } else {
                        None::<StorePath>
                    } by {
                        assert(dg == dseq[jj]);
                        assert(find_key(sbefore, n) == if qualifies(before, n) {
                            match first_dep(before.take(k), n) {
                                Some(dd) => Some(dd),
                                None => find_key(dseq.take(jj), n),
                            }
                        } else {
                            None::<StorePath>
                        });
                        lemma_find_key_props(sbefore, dg.name@);
                        if !has_key(sbefore, dg.name@) {
                            lemma_find_key_push(sbefore, dg, n);
                        }
                        lemma_find_key_push(dseq.take(jj), dseq[jj], n);
                    }
                }
            } else {
                proof {
                    assert(!qualifies(before, dg.name@));
                    assert(keeps(before)(dseq[jj]));
                    assert forall|t: int| 0 <= t < jj implies dseq.take(jj)[t].key()
                        != dg.name@ by {
                        assert(dseq[t].key() != dseq[jj].key());
                    }
                    if has_key(kept@, dg.name@) {
                        let t = choose|t: int| 0 <= t < jj && dseq.take(jj)[t].key() == dg.name@;
                        assert(false);
                    }
                }
                let ghost kept0 = kept@;
                kept.push(d);
                proof {
                    assert(kept@ == kept0.push(dg));
                    assert(kept@ =~= dseq.take(jj + 1).filter(keeps(before)));
                    assert forall|a: int, b2: int|
                        0 <= a < b2 < kept@.len() implies kept@[a].key() != kept@[b2].key() by {
                        if b2 < kept0.len() {
                        } else {
                            assert(kept@[b2] == dg);
                            assert(has_key(kept0, kept0[a].key()));
                        }
                    }
                    assert forall|n: Seq<char>| #[trigger] has_key(kept@, n) implies has_key(
                        dseq.take(jj + 1),
                        n,
                    ) by {
                        lemma_has_key_push(kept0, dg, n);
                        lemma_has_key_push(dseq.take(jj), dseq[jj], n);
                    }
                    assert forall|n: Seq<char>| #[trigger] find_key(shared.seq(), n) == if
                        qualifies(before, n) {
                        match first_dep(before.take(k), n) {
                            Some(dd) => Some(dd),
                            None => find_key(dseq.take(jj + 1), n),
                        }
                    } else {
                        None::<StorePath>
                    } by {
                        assert(dg == dseq[jj]);
                        assert(find_key(shared.seq(), n) == if qualifies(before, n) {
                            match first_dep(before.take(k), n) {
                                Some(dd) => Some(dd),
                                None => find_key(dseq.take(jj), n),
                            }
                        } else {
                            None::<StorePath>
                        });
                        lemma_find_key_push(dseq.take(jj), dseq[jj], n);
                    }
                }
            }
            proof {
                assert(dv@ =~= dseq.skip(dseq.len() - dv@.len()));
            }
        }
        proof {
            assert(dseq.take(dseq.len() as int) =~= dseq);
        }
        let newpkg = SystemPackage { path, deps: StorePathMap::from_vec(kept) };
        new_items.push(newpkg);
        proof {
            assert(new_items@.last().path == before[k].path);
            assert(before.take(k + 1) =~= before.take(k).push(before[k]));
            assert forall|n: Seq<char>| #[trigger] find_key(shared.seq(), n) == if qualifies(
                before,
                n,
            ) {
                first_dep(before.take(k + 1), n)
            } else {
                None::<StorePath>
            } by {
                lemma_first_dep_push(before.take(k), before[k], n);
            }
            assert(v@ =~= before.skip(before.len() - v@.len()));
        }
    }
    proof {
        assert(before.take(before.len() as int) =~= before);
        assert(keys_unique(before));
        assert forall|a: int, b2: int|
            0 <= a < b2 < new_items@.len() implies new_items@[a].key() != new_items@[b2].key() by {
            assert(new_items@[a].path == before[a].path);
            assert(new_items@[b2].path == before[b2].path);
            assert(before[a].key() != before[b2].key());
        }
    }
    *pkgs = SystemPackageMap::from_vec(new_items);
    proof {
        assert forall|n: Seq<char>| #[trigger] has_key(shared.seq(), n) <==> qualifies(
            before,
            n,
        ) by {
            lemma_find_key_props(shared.seq(), n);
            if qualifies(before, n) {
                lemma_first_dep_appears(before, n);
            }
        }
        assert forall|t: int, n: Seq<char>|
            0 <= t < pkgs.seq().len() && #[trigger] has_key(pkgs.seq()[t].deps.seq(), n) implies
            !has_key(shared.seq(), n) by {
            let fseq = before[t].deps.seq().filter(keeps(before));
            assert(pkgs.seq()[t].deps.seq() == fseq);
            let u = choose|u: int| 0 <= u < fseq.len() && fseq[u].key() == n;
            before[t].deps.seq().lemma_filter_pred(keeps(before), u);
            assert(keeps(before)(fseq[u]));
        }
    }
    Ok(shared)
}

} // verus!
