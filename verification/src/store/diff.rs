//! Changes between two snapshots of the system's stores and packages.

use vstd::prelude::*;

use crate::keyed::find_key;
use crate::store::Derivation;
use crate::store::DerivationSet;
use crate::store::Store;
use crate::store::StoreSet;

verus! {

/// One detected version change: the identity it belongs to, its suffix, the
/// version it left and the version it reached.
#[derive(Debug)]
pub struct StoreDiff {
    pub name: String,
    pub suffix: Option<String>,
    pub ver_from: String,
    pub ver_to: String,
}

/// The change between two records of one identity: none when the versions
/// are equal, and none when the suffixes differ — a differently tagged build
/// output that happens to share the name is no comparable change. Otherwise
/// the pair of versions under the new record's name and suffix.
pub open spec fn from_store_spec(new: Store, old: Store) -> Option<StoreDiff> {
    if new.version@ == old.version@ {
        None
    } else {
        let comparable = match (new.suffix, old.suffix) {
            (Some(a), Some(b)) => a@ == b@,
            (Some(_), None) => false,
            (None, Some(_)) => false,
            (None, None) => true,
        };
        if comparable {
            Some(
                StoreDiff {
                    name: new.name,
                    suffix: new.suffix,
                    ver_from: old.version,
                    ver_to: new.version,
                },
            )
        } else {
            None
        }
    }
}

/// The changes between two store sets, in the order of the new set: one for
/// every new record whose identity stands in `old` with another version and
/// a matching suffix. Identities absent from `old` are no change.
pub open spec fn store_diffs_spec(new: Seq<Store>, old: Seq<Store>) -> Seq<StoreDiff>
    decreases new.len(),
{
    if new.len() == 0 {
        Seq::empty()
    } else {
        let rest = store_diffs_spec(new.drop_last(), old);
        match find_key(old, new.last().name@) {
            None => rest,
            Some(o) => match from_store_spec(new.last(), o) {
                None => rest,
                Some(d) => rest.push(d),
            },
        }
    }
}

/// The package-level changes, in the order of the new snapshot: one entry
/// for every package whose identity stands in both snapshots and that shows
/// a primary or dependency change; packages showing neither are left out.
pub open spec fn package_diffs_spec(new: Seq<Derivation>, old: Seq<Derivation>) -> Seq<
    (String, Option<StoreDiff>, Seq<StoreDiff>),
>
    decreases new.len(),
{
    if new.len() == 0 {
        Seq::empty()
    } else {
        let rest = package_diffs_spec(new.drop_last(), old);
        let p = new.last();
        match find_key(old, p.store.name@) {
            None => rest,
            Some(op) => {
                let pd = from_store_spec(p.store, op.store);
                let dd = store_diffs_spec(p.deps.seq(), op.deps.seq());
                if pd is None && dd.len() == 0 {
                    rest
                } else {
                    rest.push((p.store.name, pd, dd))
                }
            },
        }
    }
}

/// Whether one produced entry carries exactly the name, primary change and
/// dependency changes of `t`.
pub open spec fn package_diff_matches(
    d: PackageDiff,
    t: (String, Option<StoreDiff>, Seq<StoreDiff>),
) -> bool {
    d.name == t.0 && d.pkg == t.1 && d.deps@ == t.2
}

/// Comparing a record to itself yields no change.
pub proof fn lemma_noop_diff(x: Store)
    ensures
        from_store_spec(x, x) is None,
{
}

impl StoreDiff {
    /// Compares two records already known to share an identity; no change is
    /// reported when the versions are equal or the suffixes differ.
    pub fn from_store(new: &Store, old: &Store) -> (r: Option<StoreDiff>)
        ensures
            r == from_store_spec(*new, *old),
    {
        if new.version.eq(&old.version) {
            return None;
        }
        let suffix: Option<String> = match (&new.suffix, &old.suffix) {
            (Some(a), Some(b)) => {
                if !a.eq(b) {
                    return None;
                }
                Some(a.clone())
            },
            (Some(_), None) => {
                return None;
            },
            (None, Some(_)) => {
                return None;
            },
            (None, None) => None,
        };
        Some(
            StoreDiff {
                name: new.name.clone(),
                suffix,
                ver_from: old.version.clone(),
                ver_to: new.version.clone(),
            },
        )
    }

    /// Every version change from `old_stores` to `new_stores`, in the order
    /// of the new set.
    pub fn from_store_list(new_stores: &StoreSet, old_stores: &StoreSet) -> (r: Vec<StoreDiff>)
        ensures
            r@ == store_diffs_spec(new_stores.seq(), old_stores.seq()),
    {
        let mut diffs: Vec<StoreDiff> = Vec::new();
        let nv = new_stores.as_vec();
        let len = nv.len();
        let mut i: usize = 0;
        while i < len
            invariant
                i <= len == new_stores.seq().len(),
                nv@ == new_stores.seq(),
                diffs@ == store_diffs_spec(new_stores.seq().take(i as int), old_stores.seq()),
            decreases len - i,
        {
            proof {
                assert(new_stores.seq().take(i + 1).drop_last() =~= new_stores.seq().take(
                    i as int,
                ));
                assert(new_stores.seq().take(i + 1).last() == new_stores.seq()[i as int]);
            }
            let p = &nv[i];
            match old_stores.get(&p.name) {
                Some(o) => {
                    match StoreDiff::from_store(p, o) {
                        Some(d) => diffs.push(d),
                        None => {},
                    }
                },
                None => {},
            }
            i = i + 1;
        }
        proof {
            assert(new_stores.seq().take(len as int) =~= new_stores.seq());
        }
        diffs
    }
}

/// Every change one package shows between two snapshots: its own version
/// change, when there is one, and its dependencies' version changes.
#[derive(Debug)]
pub struct PackageDiff {
    pub name: String,
    pub pkg: Option<StoreDiff>,
    pub deps: Vec<StoreDiff>,
}

/// Compares two package snapshots: for every new package whose identity
/// stands in the old snapshot, its primary change and its dependencies'
/// changes; packages showing neither are left out, as are packages new to
/// the system.
pub fn get_package_diffs(new: &DerivationSet, old: &DerivationSet) -> (r: Vec<PackageDiff>)
    ensures
        r@.len() == package_diffs_spec(new.seq(), old.seq()).len(),
        forall|i: int|
            0 <= i < r@.len() ==> package_diff_matches(
                r@[i],
                package_diffs_spec(new.seq(), old.seq())[i],
            ),
{
    let mut diffs: Vec<PackageDiff> = Vec::new();
    let nv = new.as_vec();
    let len = nv.len();
    let mut i: usize = 0;
    while i < len
        invariant
            i <= len == new.seq().len(),
            nv@ == new.seq(),
            diffs@.len() == package_diffs_spec(new.seq().take(i as int), old.seq()).len(),
            forall|j: int|
                0 <= j < diffs@.len() ==> package_diff_matches(
                    diffs@[j],
                    package_diffs_spec(new.seq().take(i as int), old.seq())[j],
                ),
        decreases len - i,
    {
        proof {
            assert(new.seq().take(i + 1).drop_last() =~= new.seq().take(i as int));
            assert(new.seq().take(i + 1).last() == new.seq()[i as int]);
        }
        let p = &nv[i];
        match old.get(&p.store.name) {
            Some(op) => {
                let pd = StoreDiff::from_store(&p.store, &op.store);
                let dd = StoreDiff::from_store_list(&p.deps, &op.deps);
                if pd.is_some() || dd.len() > 0 {
                    diffs.push(PackageDiff { name: p.store.name.clone(), pkg: pd, deps: dd });
                }
            },
            None => {},
        }
        i = i + 1;
    }
    proof {
        assert(new.seq().take(len as int) =~= new.seq());
    }
    diffs
}

} // verus!
