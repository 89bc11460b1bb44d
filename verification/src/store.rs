//! Store records read from the system's own database: each carries the
//! database row id and registration time beside the parsed name, version and
//! suffix, and ambiguous duplicates are dropped by the registration-time
//! window.

pub mod diff;

use vstd::prelude::*;

use crate::ident::parse_ident;
use crate::ident::parse_path_spec;
use crate::ident::IdentView;
use crate::keyed::find_key;
use crate::keyed::has_key;
use crate::keyed::has_name_str;
use crate::keyed::lemma_find_key_props;
use crate::keyed::lemma_has_name_push;
use crate::keyed::name_in;
use crate::keyed::remove_key;
use crate::keyed::KeyedVec;
use crate::keyed::Named;

verus! {

/// One store: its database row id, parsed name, version, optional suffix,
/// and the epoch second it was registered on the system.
#[derive(Debug)]
pub struct Store {
    /// The store's row id. It cannot identify a store across updates.
    pub id: u32,
    /// The store's name.
    pub name: String,
    /// The store's version.
    pub version: String,
    /// The suffix of the store's name: a build output or special variant.
    pub suffix: Option<String>,
    /// The epoch time the store was registered on the system.
    pub register_time: u32,
}

impl Named for Store {
    open spec fn key(&self) -> Seq<char> {
        self.name@
    }

    fn name_ref(&self) -> (r: &String) {
        &self.name
    }
}

/// Stores keyed by name: records of one name are one identity, whatever
/// their versions or suffixes.
pub type StoreSet = KeyedVec<Store>;

/// The observable fields of a store record.
pub struct StoreView {
    pub id: u32,
    pub name: Seq<char>,
    pub version: Seq<char>,
    pub suffix: Option<Seq<char>>,
    pub register_time: u32,
}

impl View for Store {
    type V = StoreView;

    open spec fn view(&self) -> StoreView {
        StoreView {
            id: self.id,
            name: self.name@,
            version: self.version@,
            suffix: self.suffix.deep_view(),
            register_time: self.register_time,
        }
    }
}

/// The records of `s`, each reduced to its observable fields.
pub open spec fn store_views_of(s: Seq<Store>) -> Seq<StoreView> {
    s.map_values(|st: Store| st@)
}

/// Index of the first `-` byte in `b`, or `b.len()` when there is none.
pub open spec fn first_dash_byte(b: Seq<u8>) -> int
    decreases b.len(),
{
    if b.len() == 0 {
        0
    } else if b[0] == 45u8 {
        0
    } else {
        1 + first_dash_byte(b.drop_first())
    }
}

proof fn lemma_first_dash_byte_is(b: Seq<u8>, i: int)
    requires
        0 <= i <= b.len(),
        forall|k: int| 0 <= k < i ==> b[k] != 45u8,
        i < b.len() ==> b[i] == 45u8,
    ensures
        first_dash_byte(b) == i,
    decreases b.len(),
{
    if b.len() > 0 && b[0] != 45u8 {
        assert(i != 0);
        assert(forall|k: int| 0 <= k < i - 1 ==> b.drop_first()[k] != 45u8);
        lemma_first_dash_byte_is(b.drop_first(), i - 1);
    }
}

/// What `Store::strip_prefix` leaves of a raw store path: everything past
/// the first `-` (the one closing the content-hash prefix), or nothing when
/// no `-` is there or nothing follows it.
pub open spec fn strip_prefix_spec(b: Seq<u8>) -> Option<Seq<u8>> {
    let i = first_dash_byte(b);
    if i + 1 >= b.len() {
        None
    } else {
        Some(b.subrange(i + 1, b.len() as int))
    }
}

/// Whether the byte `c` is an ASCII decimal digit.
pub open spec fn is_digit_byte(c: u8) -> bool {
    48 <= c && c <= 57
}

/// A byte fragment that looks like a version: it starts with a digit, or
/// with `v` followed by a digit, and past the start holds only digits,
/// lowercase letters, `.` and `_`.
pub open spec fn is_version_bytes(b: Seq<u8>) -> bool {
    if b.len() == 0 {
        false
    } else if b[0] == 118u8 {
        b.len() >= 2 && is_digit_byte(b[1]) && (forall|i: int|
            1 <= i < b.len() ==> is_version_char_byte(b[i]))
    } else {
        is_digit_byte(b[0]) && (forall|i: int| 0 <= i < b.len() ==> is_version_char_byte(b[i]))
    }
}

/// Bytes a version fragment may contain past its start.
pub open spec fn is_version_char_byte(c: u8) -> bool {
    is_digit_byte(c) || (97 <= c && c <= 122) || c == 46 || c == 95
}

impl Store {
    /// Parses one raw store path into a record carrying `id` and
    /// `register_time`, or rejects it when no fragment can be its version.
    pub fn parse(id: u32, register_time: u32, path: &str) -> (r: Option<Store>)
        ensures
            r is Some <==> parse_path_spec(path@) is Some,
            r matches Some(st) ==> ({
                let v = parse_path_spec(path@)->Some_0;
                &&& st.id == id
                &&& st.register_time == register_time
                &&& st.name@ == v.name
                &&& st.version@ == v.version
                &&& st.suffix.deep_view() == v.suffix
            }),
    {
        let n = path.unicode_len();
        let i = crate::text::find_dash(path);
        if i >= n || i + 1 >= n {
            return None;
        }
        let stripped: &str = path.substring_char(i + 1, n);
        match parse_ident(stripped) {
            None => None,
            Some((name, version, suffix)) => Some(
                Store { id, register_time, name, version, suffix },
            ),
        }
    }

    /// Whether the byte fragment looks like a version: it starts with a
    /// digit, or with `v` followed by a digit, and past the start holds only
    /// digits, lowercase letters, `.` and `_`.
    pub fn is_version_str(bytes: &[u8]) -> (b: bool)
        ensures
            b == is_version_bytes(bytes@),
    {
        let n = bytes.len();
        if n == 0 {
            return false;
        }
        let c0 = *vstd::slice::slice_index_get(bytes, 0);
        let start: usize = if c0 == 118u8 {
            if n < 2 || !byte_digit(*vstd::slice::slice_index_get(bytes, 1)) {
                return false;
            }
            1
        } else {
            if !byte_digit(c0) {
                return false;
            }
            0
        };
        let mut i: usize = start;
        while i < n
            invariant
                start <= i <= n,
                n == bytes@.len(),
                forall|k: int| start <= k < i ==> is_version_char_byte(bytes@[k]),
            decreases n - i,
        {
            let c = *vstd::slice::slice_index_get(bytes, i);
            if !(byte_digit(c) || (97 <= c && c <= 122) || c == 46 || c == 95) {
                return false;
            }
            i = i + 1;
        }
        true
    }

    /// Strips the store directory and content-hash prefix off a raw store
    /// path: everything past the first `-`, or nothing when no `-` is there
    /// or nothing follows it.
    pub fn strip_prefix(bytes: &[u8]) -> (r: Option<&[u8]>)
        ensures
            r is Some <==> strip_prefix_spec(bytes@) is Some,
            r matches Some(t) ==> Some(t@) == strip_prefix_spec(bytes@),
    {
        let n = bytes.len();
        let mut i: usize = 0;
        while i < n
            invariant
                i <= n,
                n == bytes@.len(),
                forall|k: int| 0 <= k < i ==> bytes@[k] != 45u8,
            decreases n - i,
        {
            if *vstd::slice::slice_index_get(bytes, i) == 45u8 {
                proof {
                    lemma_first_dash_byte_is(bytes@, i as int);
                }
                if i + 1 >= n {
                    return None;
                }
                return Some(vstd::slice::slice_subrange(bytes, i + 1, n));
            }
            i = i + 1;
        }
        proof {
            lemma_first_dash_byte_is(bytes@, n as int);
        }
        None
    }
}

/// Whether the byte is an ASCII decimal digit.
fn byte_digit(c: u8) -> (b: bool)
    ensures
        b == is_digit_byte(c),
{
    48 <= c && c <= 57
}

/// Records with equal names are one identity, whatever their versions,
/// suffixes, row ids and registration times: every membership test and
/// lookup in a record set goes by the name alone.
pub proof fn lemma_identity_ignores_version_suffix(a: Store, b: Store, s: Seq<Store>)
    requires
        a.name@ == b.name@,
    ensures
        crate::keyed::same_identity(a, b),
        find_key(s, a.name@) == find_key(s, b.name@),
        has_key(s, a.name@) == has_key(s, b.name@),
{
}

/// The first record view named `n`, if any.
pub open spec fn find_view(s: Seq<StoreView>, n: Seq<char>) -> Option<StoreView>
    decreases s.len(),
{
    if s.len() == 0 {
        None
    } else if s[0].name == n {
        Some(s[0])
    } else {
        find_view(s.drop_first(), n)
    }
}

/// `s` with the first record view named `n` taken out, order kept.
pub open spec fn remove_view(s: Seq<StoreView>, n: Seq<char>) -> Seq<StoreView>
    decreases s.len(),
{
    if s.len() == 0 {
        s
    } else if s[0].name == n {
        s.drop_first()
    } else {
        seq![s[0]] + remove_view(s.drop_first(), n)
    }
}

proof fn lemma_find_view_of(s: Seq<Store>, n: Seq<char>)
    ensures
        find_view(store_views_of(s), n) == match find_key(s, n) {
            Some(st) => Some(st@),
            None => None::<StoreView>,
        },
    decreases s.len(),
{
    if s.len() > 0 {
        assert(store_views_of(s)[0] == s[0]@);
        if s[0].key() != n {
            assert(store_views_of(s).drop_first() =~= store_views_of(s.drop_first()));
            lemma_find_view_of(s.drop_first(), n);
        }
    }
}

proof fn lemma_remove_view_of(s: Seq<Store>, n: Seq<char>)
    ensures
        remove_view(store_views_of(s), n) == store_views_of(remove_key(s, n)),
    decreases s.len(),
{
    if s.len() > 0 {
        assert(store_views_of(s)[0] == s[0]@);
        if s[0].key() == n {
            assert(remove_view(store_views_of(s), n) =~= store_views_of(remove_key(s, n)));
        } else {
            assert(store_views_of(s).drop_first() =~= store_views_of(s.drop_first()));
            lemma_remove_view_of(s.drop_first(), n);
            assert(remove_view(store_views_of(s), n) =~= store_views_of(remove_key(s, n)));
        }
    }
}

/// No two record views in `s` share a name.
pub open spec fn view_keys_unique(s: Seq<StoreView>) -> bool {
    forall|i: int, j: int| 0 <= i < j < s.len() ==> s[i].name != s[j].name
}

/// Whether some record view in `s` carries the name `n`.
pub open spec fn view_has_name(s: Seq<StoreView>, n: Seq<char>) -> bool {
    exists|i: int| 0 <= i < s.len() && s[i].name == n
}

proof fn lemma_has_key_views(s: Seq<Store>, n: Seq<char>)
    ensures
        has_key(s, n) == view_has_name(store_views_of(s), n),
{
    if has_key(s, n) {
        let i = choose|i: int| 0 <= i < s.len() && s[i].key() == n;
        assert(store_views_of(s)[i].name == n);
    }
    if view_has_name(store_views_of(s), n) {
        let i = choose|i: int|
            0 <= i < store_views_of(s).len() && store_views_of(s)[i].name == n;
        assert(s[i].key() == n);
    }
}

/// Removing a name that no record carries changes nothing.
proof fn lemma_remove_view_absent(s: Seq<StoreView>, n: Seq<char>)
    requires
        find_view(s, n) is None,
    ensures
        remove_view(s, n) == s,
    decreases s.len(),
{
    if s.len() > 0 {
        lemma_remove_view_absent(s.drop_first(), n);
        assert(seq![s[0]] + s.drop_first() =~= s);
    }
}

/// Removing a name from views without repeated names leaves the name gone.
proof fn lemma_remove_view_gone(s: Seq<StoreView>, n: Seq<char>)
    requires
        view_keys_unique(s),
    ensures
        !view_has_name(remove_view(s, n), n),
    decreases s.len(),
{
    if s.len() > 0 {
        if s[0].name == n {
            if view_has_name(s.drop_first(), n) {
                let i = choose|i: int|
                    0 <= i < s.drop_first().len() && s.drop_first()[i].name == n;
                assert(s[i + 1].name == s[0].name);
                assert(false);
            }
        } else {
            assert(view_keys_unique(s.drop_first())) by {
                assert forall|a: int, b: int|
                    0 <= a < b < s.drop_first().len() implies s.drop_first()[a].name
                    != s.drop_first()[b].name by {
                    assert(s[a + 1].name != s[b + 1].name);
                }
            }
            lemma_remove_view_gone(s.drop_first(), n);
            if view_has_name(remove_view(s, n), n) {
                let i = choose|i: int|
                    0 <= i < remove_view(s, n).len() && remove_view(s, n)[i].name == n;
                if i > 0 {
                    assert(remove_view(s, n)[i] == remove_view(s.drop_first(), n)[i - 1]);
                }
            }
        }
    }
}

/// Two registrations within an hour of each other belong to one system
/// update.
pub open spec fn same_event(a: u32, b: u32) -> bool {
    (if a >= b {
        a - b
    } else {
        b - a
    }) < 3600
}

/// One step of the duplicate policy over the records kept so far (`u`) and
/// the names dropped as ambiguous (`d`).
///
/// A record of a dropped name stays dropped. A record of a new name is kept.
/// A record whose name is already kept at another version is a duplicate:
/// when the two registrations fall within one hour — one system update —
/// neither version is authoritative and the name is dropped entirely; when
/// they lie further apart, the record seen first (the later-registered one,
/// with input in descending registration order) stays authoritative.
pub open spec fn dedup_step(u: Seq<StoreView>, d: Set<Seq<char>>, st: StoreView) -> (
    Seq<StoreView>,
    Set<Seq<char>>,
) {
    if d.contains(st.name) {
        (u, d)
    } else {
        match find_view(u, st.name) {
            Some(ex) => if same_event(ex.register_time, st.register_time) && ex.version
                != st.version {
                (remove_view(u, st.name), d.insert(st.name))
            } else {
                (u, d)
            },
            None => (u.push(st), d),
        }
    }
}

/// The duplicate policy folded over a whole sequence of records.
pub open spec fn dedup(stores: Seq<StoreView>) -> (Seq<StoreView>, Set<Seq<char>>)
    decreases stores.len(),
{
    if stores.len() == 0 {
        (Seq::<StoreView>::empty(), Set::<Seq<char>>::empty())
    } else {
        let p = dedup(stores.drop_last());
        dedup_step(p.0, p.1, stores.last())
    }
}

/// The record views parsed from raw database rows `(id, path, time)`, in
/// order; rows whose path parses to nothing are skipped.
pub open spec fn parsed_store_views(rows: Seq<(i32, String, i32)>) -> Seq<StoreView>
    decreases rows.len(),
{
    if rows.len() == 0 {
        Seq::empty()
    } else {
        let rest = parsed_store_views(rows.drop_last());
        let row = rows.last();
        match parse_path_spec(row.1@) {
            None => rest,
            Some(v) => rest.push(
                StoreView {
                    id: row.0 as u32,
                    name: v.name,
                    version: v.version,
                    suffix: v.suffix,
                    register_time: row.2 as u32,
                },
            ),
        }
    }
}

impl Store {
    /// Keeps of each name the one record that is not an ambiguous duplicate.
    ///
    /// A name held at different versions registered within an hour of each
    /// other likely stems from one system update, and since nothing but its
    /// name identifies a store across updates, such a name is dropped
    /// entirely. With registrations an hour or more apart the record seen
    /// first stays; callers hand records in descending registration order.
    pub fn get_unique(stores: Vec<Store>) -> (r: StoreSet)
        ensures
            r.wf(),
            store_views_of(r.seq()) == dedup(store_views_of(stores@)).0,
    {
        let ghost all = store_views_of(stores@);
        let mut v = stores;
        let mut unique = StoreSet::new();
        let mut dups: Vec<String> = Vec::new();
        proof {
            assert(store_views_of(v@) =~= all.skip(0));
            assert(all.take(0) =~= Seq::<StoreView>::empty());
            assert(store_views_of(unique.seq()) =~= dedup(all.take(0)).0);
        }
        while v.len() > 0
            invariant
                v@.len() <= all.len(),
                store_views_of(v@) == all.skip(all.len() - v@.len()),
                unique.wf(),
                store_views_of(unique.seq()) == dedup(all.take(all.len() - v@.len())).0,
                forall|n: Seq<char>| #[trigger] has_name_str(dups@, n) <==> dedup(
                    all.take(all.len() - v@.len()),
                ).1.contains(n),
            decreases v@.len(),
        {
            let ghost k = all.len() - v@.len();
            proof {
                assert(store_views_of(v@).len() == v@.len());
                assert(store_views_of(v@)[0] == v@[0]@);
                assert(v@[0]@ == all[k]);
                assert(all.take(k + 1).drop_last() =~= all.take(k));
                assert(all.take(k + 1).last() == all[k]);
            }
            let ghost vpre = v@;
            let st = v.remove(0);
            let ghost stg = st;
            proof {
                assert(stg@ == all[k]);
                assert(v@ == vpre.remove(0));
                assert(store_views_of(v@) =~= all.skip(k + 1)) by {
                    assert forall|t: int| 0 <= t < v@.len() implies store_views_of(v@)[t]
                        == all.skip(k + 1)[t] by {
                        assert(v@[t] == vpre[t + 1]);
                        assert(store_views_of(vpre)[t + 1] == vpre[t + 1]@);
                        assert(store_views_of(vpre)[t + 1] == all.skip(k)[t + 1]);
                        assert(all.skip(k)[t + 1] == all[k + 1 + t]);
                        assert(all.skip(k + 1)[t] == all[k + 1 + t]);
                    }
                }
            }
            let ghost u0 = unique.seq();
            let ghost d0 = dedup(all.take(k)).1;
            if name_in(&dups, &st.name) {
                proof {
                    assert(d0.contains(stg@.name));
                    assert(store_views_of(unique.seq()) == dedup(all.take(k + 1)).0);
                }
            } else {
                proof {
                    lemma_find_view_of(u0, st.name@);
                    lemma_find_key_props(u0, st.name@);
                }
                let present: bool;
                let dup_found: bool;
                match unique.get(&st.name) {
                    Some(ex) => {
                        let newer = if ex.register_time >= st.register_time {
                            ex.register_time
                        } else {
                            st.register_time
                        };
                        let older = if ex.register_time >= st.register_time {
                            st.register_time
                        } else {
                            ex.register_time
                        };
                        present = true;
                        dup_found = newer - older < 3600 && !ex.version.eq(&st.version);
                    },
                    None => {
                        present = false;
                        dup_found = false;
                    },
                }
                if !present {
                    let _ = unique.insert(st);
                    proof {
                        assert(store_views_of(u0.push(stg)) =~= store_views_of(u0).push(stg@));
                        assert(find_view(store_views_of(u0), stg@.name) is None);
                        assert(store_views_of(unique.seq()) == dedup(all.take(k + 1)).0);
                    }
                } else if dup_found {
                    let name = st.name;
                    let _ = unique.take(&name);
                    proof {
                        lemma_remove_view_of(u0, name@);
                    }
                    let ghost dups0 = dups@;
                    dups.push(name);
                    proof {
                        assert(store_views_of(unique.seq()) == dedup(all.take(k + 1)).0);
                        assert forall|n: Seq<char>| #[trigger] has_name_str(dups@, n) <==> dedup(
                            all.take(k + 1),
                        ).1.contains(n) by {
                            lemma_has_name_push(dups0, dups@.last(), n);
                        }
                    }
                } else {
                    proof {
                        assert(store_views_of(unique.seq()) == dedup(all.take(k + 1)).0);
                    }
                }
            }
        }
        proof {
            assert(all.take(all.len() as int) =~= all);
        }
        unique
    }

    /// Builds the deduplicated set of top-level store records from the raw
    /// database rows `(id, path, registration time)`, which the caller hands
    /// over in descending registration order.
    pub fn all_from_system(rows: Vec<(i32, String, i32)>) -> (r: StoreSet)
        ensures
            r.wf(),
            store_views_of(r.seq()) == dedup(parsed_store_views(rows@)).0,
    {
        let mut parsed: Vec<Store> = Vec::new();
        let len = rows.len();
        let mut i: usize = 0;
        while i < len
            invariant
                i <= len == rows@.len(),
                store_views_of(parsed@) == parsed_store_views(rows@.take(i as int)),
            decreases len - i,
        {
            proof {
                assert(rows@.take(i + 1).drop_last() =~= rows@.take(i as int));
                assert(rows@.take(i + 1).last() == rows@[i as int]);
            }
            let row = &rows[i];
            let sid: u32 = #[verifier::truncate] (row.0 as u32);
            let reg: u32 = #[verifier::truncate] (row.2 as u32);
            let ghost p0 = parsed@;
            match Store::parse(sid, reg, row.1.as_str()) {
                Some(st) => {
                    parsed.push(st);
                    proof {
                        assert(store_views_of(parsed@) =~= store_views_of(p0).push(
                            parsed@.last()@,
                        ));
                    }
                },
                None => {},
            }
            i = i + 1;
        }
        proof {
            assert(rows@.take(len as int) =~= rows@);
        }
        Store::get_unique(parsed)
    }
}

/// One top-level package as the database shows it: its own store record and
/// its deduplicated dependency records.
#[derive(Debug)]
pub struct Derivation {
    pub store: Store,
    pub deps: StoreSet,
}

impl Named for Derivation {
    open spec fn key(&self) -> Seq<char> {
        self.store.name@
    }

    fn name_ref(&self) -> (r: &String) {
        &self.store.name
    }
}

/// Derivations keyed by their own store's name.
pub type DerivationSet = KeyedVec<Derivation>;

/// The dependency record views parsed from raw rows, the package's own row
/// (the one with its id) excluded.
pub open spec fn parsed_dep_views(rows: Seq<(i32, String, i32)>, sid: i32) -> Seq<StoreView>
    decreases rows.len(),
{
    if rows.len() == 0 {
        Seq::empty()
    } else {
        let rest = parsed_dep_views(rows.drop_last(), sid);
        let row = rows.last();
        if row.0 == sid {
            rest
        } else {
            match parse_path_spec(row.1@) {
                None => rest,
                Some(v) => rest.push(
                    StoreView {
                        id: row.0 as u32,
                        name: v.name,
                        version: v.version,
                        suffix: v.suffix,
                        register_time: row.2 as u32,
                    },
                ),
            }
        }
    }
}

impl Derivation {
    /// Builds one package per store from its raw dependency rows: the
    /// package's own row is excluded by id, the rest are parsed and
    /// deduplicated, and finally any record named like the store itself is
    /// taken out — a package's dependencies never hold its own name. The
    /// stores' names must be pairwise distinct, as
    /// [`Store::all_from_system`] leaves them.
    pub fn all_from_stores(inputs: Vec<(Store, Vec<(i32, String, i32)>)>) -> (r: DerivationSet)
        requires
            forall|i: int, j: int|
                0 <= i < j < inputs@.len() ==> inputs@[i].0.name@ != inputs@[j].0.name@,
        ensures
            r.wf(),
            r.seq().len() == inputs@.len(),
            forall|i: int|
                0 <= i < inputs@.len() ==> (#[trigger] r.seq()[i]).store == inputs@[i].0
                    && r.seq()[i].deps.wf() && store_views_of(r.seq()[i].deps.seq())
                    == remove_view(
                    dedup(parsed_dep_views(inputs@[i].1@, inputs@[i].0.id as i32)).0,
                    inputs@[i].0.name@,
                ) && !has_key(r.seq()[i].deps.seq(), inputs@[i].0.name@),
    {
        let ghost all = inputs@;
        let mut v = inputs;
        let mut packages = DerivationSet::new();
        while v.len() > 0
            invariant
                v@.len() <= all.len(),
                v@ == all.skip(all.len() - v@.len()),
                forall|i: int, j: int|
                    0 <= i < j < all.len() ==> all[i].0.name@ != all[j].0.name@,
                packages.wf(),
                packages.seq().len() == all.len() - v@.len(),
                forall|i: int|
                    0 <= i < packages.seq().len() ==> (#[trigger] packages.seq()[i]).store
                        == all[i].0 && packages.seq()[i].deps.wf() && store_views_of(
                        packages.seq()[i].deps.seq(),
                    ) == remove_view(
                        dedup(parsed_dep_views(all[i].1@, all[i].0.id as i32)).0,
                        all[i].0.name@,
                    ) && !has_key(packages.seq()[i].deps.seq(), all[i].0.name@),
            decreases v@.len(),
        {
            let ghost k = all.len() - v@.len();
            proof {
                assert(v@[0] == all[k]);
            }
            let input = v.remove(0);
            let store = input.0;
            let rows = input.1;
            let sid: i32 = #[verifier::truncate] (store.id as i32);
            let mut dep_stores: Vec<Store> = Vec::new();
            let rlen = rows.len();
            let mut j: usize = 0;
            proof {
                assert(rows@.take(0) =~= Seq::<(i32, String, i32)>::empty());
            }
            while j < rlen
                invariant
                    j <= rlen == rows@.len(),
                    sid == all[k].0.id as i32,
                    0 <= k < all.len(),
                    rows == all[k].1,
                    store_views_of(dep_stores@) == parsed_dep_views(
                        rows@.take(j as int),
                        sid,
                    ),
                decreases rlen - j,
            {
                proof {
                    assert(rows@.take(j + 1).drop_last() =~= rows@.take(j as int));
                    assert(rows@.take(j + 1).last() == rows@[j as int]);
                }
                let row = &rows[j];
                if row.0 != sid {
                    let rid: u32 = #[verifier::truncate] (row.0 as u32);
                    let reg: u32 = #[verifier::truncate] (row.2 as u32);
                    let ghost p0 = dep_stores@;
                    match Store::parse(rid, reg, row.1.as_str()) {
                        Some(st) => {
                            dep_stores.push(st);
                            proof {
                                assert(store_views_of(dep_stores@) =~= store_views_of(p0).push(
                                    dep_stores@.last()@,
                                ));
                            }
                        },
                        None => {},
                    }
                }
                j = j + 1;
            }
            proof {
                assert(rows@.take(rlen as int) =~= rows@);
            }
            let mut deps = Store::get_unique(dep_stores);
            let ghost u_end = deps.seq();
            proof {
                lemma_find_view_of(u_end, store.name@);
                lemma_find_key_props(u_end, store.name@);
                assert(view_keys_unique(store_views_of(u_end))) by {
                    assert forall|a: int, b: int|
                        0 <= a < b < store_views_of(u_end).len() implies store_views_of(
                        u_end,
                    )[a].name != store_views_of(u_end)[b].name by {
                        assert(store_views_of(u_end)[a] == u_end[a]@);
                        assert(store_views_of(u_end)[b] == u_end[b]@);
                        assert(u_end[a].key() != u_end[b].key());
                    }
                }
            }
            let _ = deps.take(&store.name);
            proof {
                match find_key(u_end, store.name@) {
                    Some(_) => {
                        lemma_remove_view_of(u_end, store.name@);
                    },
                    None => {
                        lemma_remove_view_absent(store_views_of(u_end), store.name@);
                    },
                }
                lemma_remove_view_gone(store_views_of(u_end), store.name@);
                lemma_has_key_views(deps.seq(), store.name@);
            }
            let ghost pk0 = packages.seq();
            proof {
                if has_key(pk0, store.name@) {
                    let t = choose|t: int| 0 <= t < pk0.len() && pk0[t].key() == store.name@;
                    assert(all[t].0.name@ == all[k].0.name@);
                    assert(false);
                }
            }
            let _ = packages.insert(Derivation { store, deps });
            proof {
                assert(v@ =~= all.skip(all.len() - v@.len()));
            }
        }
        packages
    }
}

} // verus!
