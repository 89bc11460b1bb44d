//! A small map from names to records, kept as a vector without repeated
//! names. Records are looked up, inserted and removed by their name alone;
//! what else they hold plays no part, so a name found across two snapshots
//! names the same identity whatever its versions there.

use vstd::prelude::*;

verus! {

/// A record owned by a name that identifies it.
pub trait Named: Sized {
    /// The name that identifies the record.
    spec fn key(&self) -> Seq<char>;

    /// The name as it is stored.
    fn name_ref(&self) -> (r: &String)
        ensures
            r@ == self.key(),
    ;
}

/// No two records share a name.
pub open spec fn keys_unique<T: Named>(s: Seq<T>) -> bool {
    forall|i: int, j: int| 0 <= i < j < s.len() ==> s[i].key() != s[j].key()
}

/// One identity: the records' names are equal. Nothing else of a record
/// takes part in identity.
pub open spec fn same_identity<T: Named>(a: T, b: T) -> bool {
    a.key() == b.key()
}

/// Whether some record in `s` is named `n`.
pub open spec fn has_key<T: Named>(s: Seq<T>, n: Seq<char>) -> bool {
    exists|i: int| 0 <= i < s.len() && s[i].key() == n
}

/// The first record in `s` named `n`, if any.
pub open spec fn find_key<T: Named>(s: Seq<T>, n: Seq<char>) -> Option<T>
    decreases s.len(),
{
    if s.len() == 0 {
        None
    } else if s[0].key() == n {
        Some(s[0])
    } else {
        find_key(s.drop_first(), n)
    }
}

/// `s` with the first record named `n` taken out, order kept.
pub open spec fn remove_key<T: Named>(s: Seq<T>, n: Seq<char>) -> Seq<T>
    decreases s.len(),
{
    if s.len() == 0 {
        s
    } else if s[0].key() == n {
        s.drop_first()
    } else {
        seq![s[0]] + remove_key(s.drop_first(), n)
    }
}

/// `find_key` returns a record exactly when one is named `n`, and then a
/// record of that name that stands in `s`.
pub proof fn lemma_find_key_props<T: Named>(s: Seq<T>, n: Seq<char>)
    ensures
        find_key(s, n) is Some <==> has_key(s, n),
        find_key(s, n) matches Some(p) ==> p.key() == n && (exists|i: int|
            0 <= i < s.len() && s[i] == p),
    decreases s.len(),
{
    if s.len() > 0 && s[0].key() != n {
        lemma_find_key_props(s.drop_first(), n);
        if has_key(s, n) {
            let i = choose|i: int| 0 <= i < s.len() && s[i].key() == n;
            assert(s.drop_first()[i - 1].key() == n);
        }
        match find_key(s.drop_first(), n) {
            Some(p) => {
                let i = choose|i: int| 0 <= i < s.drop_first().len() && s.drop_first()[i] == p;
                assert(s[i + 1] == p);
            },
            None => {},
        }
    }
}

/// When the first record named `n` stands at `i`, `find_key` returns it,
/// or `None` when `i` is past the end.
pub proof fn lemma_find_key_at<T: Named>(s: Seq<T>, n: Seq<char>, i: int)
    requires
        0 <= i <= s.len(),
        forall|k: int| 0 <= k < i ==> s[k].key() != n,
        i < s.len() ==> s[i].key() == n,
    ensures
        find_key(s, n) == if i == s.len() {
            None::<T>
        } else {
            Some(s[i])
        },
    decreases s.len(),
{
    if s.len() > 0 && s[0].key() != n {
        assert(i != 0);
        assert(forall|k: int| 0 <= k < i - 1 ==> s.drop_first()[k].key() != n);
        lemma_find_key_at(s.drop_first(), n, i - 1);
    }
}

/// What `find_key` gives after one more record: the earlier ones still win.
pub proof fn lemma_find_key_push<T: Named>(s: Seq<T>, x: T, n: Seq<char>)
    ensures
        find_key(s.push(x), n) == match find_key(s, n) {
            Some(p) => Some(p),
            None => if x.key() == n {
                Some(x)
            } else {
                None::<T>
            },
        },
    decreases s.len(),
{
    if s.len() == 0 {
        assert(s.push(x) =~= seq![x]);
        assert(s.push(x).drop_first() =~= Seq::<T>::empty());
        assert(s.push(x)[0] == x);
        assert(find_key(s.push(x).drop_first(), n) is None);
    } else {
        assert(s.push(x).drop_first() =~= s.drop_first().push(x));
        lemma_find_key_push(s.drop_first(), x, n);
        assert(s.push(x)[0] == s[0]);
    }
}

/// One more record holds a name exactly when it had the name or brings it.
pub proof fn lemma_has_key_push<T: Named>(s: Seq<T>, x: T, n: Seq<char>)
    ensures
        has_key(s.push(x), n) == (has_key(s, n) || x.key() == n),
{
    if has_key(s, n) {
        let i = choose|i: int| 0 <= i < s.len() && s[i].key() == n;
        assert(s.push(x)[i].key() == n);
    }
    if x.key() == n {
        assert(s.push(x)[s.len() as int].key() == n);
    }
    if has_key(s.push(x), n) {
        let i = choose|i: int| 0 <= i < s.push(x).len() && s.push(x)[i].key() == n;
        if i < s.len() {
            assert(s[i].key() == n);
        }
    }
}

/// When the first record named `n` stands at `i`, removing the name removes
/// exactly that index.
pub proof fn lemma_remove_key_at<T: Named>(s: Seq<T>, n: Seq<char>, i: int)
    requires
        0 <= i < s.len(),
        forall|k: int| 0 <= k < i ==> s[k].key() != n,
        s[i].key() == n,
    ensures
        remove_key(s, n) =~= s.remove(i),
    decreases s.len(),
{
    if s[0].key() != n {
        assert(i != 0);
        assert(forall|k: int| 0 <= k < i - 1 ==> s.drop_first()[k].key() != n);
        lemma_remove_key_at(s.drop_first(), n, i - 1);
        assert(s.drop_first().remove(i - 1) =~= s.remove(i).drop_first());
        assert(remove_key(s, n) =~= seq![s[0]] + s.drop_first().remove(i - 1));
    }
}

/// A set of records with pairwise distinct names, in insertion order.
#[derive(Debug)]
pub struct KeyedVec<T: Named> {
    items: Vec<T>,
}

impl<T: Named> KeyedVec<T> {
    /// The records, in order.
    pub closed spec fn seq(&self) -> Seq<T> {
        self.items@
    }

    /// Well-formed: no two records share a name.
    pub open spec fn wf(&self) -> bool {
        keys_unique(self.seq())
    }

    pub fn new() -> (r: Self)
        ensures
            r.seq() == Seq::<T>::empty(),
            r.wf(),
    {
        KeyedVec { items: Vec::new() }
    }

    /// Wraps records already known to have pairwise distinct names.
    pub fn from_vec(items: Vec<T>) -> (r: Self)
        requires
            keys_unique(items@),
        ensures
            r.seq() == items@,
            r.wf(),
    {
        KeyedVec { items }
    }

    /// The records as a plain vector, consuming the map.
    pub fn into_vec(self) -> (r: Vec<T>)
        ensures
            r@ == self.seq(),
    {
        self.items
    }

    /// Moves every record out, leaving the map empty.
    pub fn take_all(&mut self) -> (r: Vec<T>)
        ensures
            r@ == old(self).seq(),
            final(self).seq() == Seq::<T>::empty(),
            final(self).wf(),
    {
        let mut v: Vec<T> = Vec::new();
        core::mem::swap(&mut v, &mut self.items);
        v
    }

    pub fn len(&self) -> (n: usize)
        ensures
            n == self.seq().len(),
    {
        self.items.len()
    }

    /// The records as a plain vector, for iteration.
    pub fn as_vec(&self) -> (r: &Vec<T>)
        ensures
            r@ == self.seq(),
    {
        &self.items
    }

    /// Index of the first record named `n`, or the length when none is.
    fn position(&self, n: &String) -> (r: usize)
        ensures
            r <= self.seq().len(),
            forall|k: int| 0 <= k < r ==> self.seq()[k].key() != n@,
            r < self.seq().len() ==> self.seq()[r as int].key() == n@,
            find_key(self.seq(), n@) == if r == self.seq().len() {
                None::<T>
            } else {
                Some(self.seq()[r as int])
            },
    {
        let len = self.items.len();
        let mut i: usize = 0;
        while i < len
            invariant
                i <= len == self.seq().len(),
                self.seq() == self.items@,
                forall|k: int| 0 <= k < i ==> self.seq()[k].key() != n@,
            decreases len - i,
        {
            if self.items[i].name_ref().eq(n) {
                proof {
                    lemma_find_key_at(self.seq(), n@, i as int);
                }
                return i;
            }
            i = i + 1;
        }
        proof {
            lemma_find_key_at(self.seq(), n@, len as int);
        }
        len
    }

    /// The record named `n`, if one is held.
    pub fn get(&self, n: &String) -> (r: Option<&T>)
        ensures
            match r {
                Some(p) => find_key(self.seq(), n@) == Some(*p),
                None => find_key(self.seq(), n@) is None,
            },
    {
        let i = self.position(n);
        if i < self.items.len() {
            Some(&self.items[i])
        } else {
            None
        }
    }

    /// Whether a record named `n` is held.
    pub fn contains(&self, n: &String) -> (b: bool)
        ensures
            b == has_key(self.seq(), n@),
    {
        proof {
            lemma_find_key_props(self.seq(), n@);
        }
        self.position(n) < self.items.len()
    }

    /// Adds `p` unless its name is already held; the earlier record wins.
    /// Returns whether `p` went in.
    pub fn insert(&mut self, p: T) -> (b: bool)
        requires
            old(self).wf(),
        ensures
            final(self).wf(),
            b == !has_key(old(self).seq(), p.key()),
            final(self).seq() == if b {
                old(self).seq().push(p)
            } else {
                old(self).seq()
            },
    {
        proof {
            lemma_find_key_props(self.seq(), p.key());
        }
        let i = self.position(p.name_ref());
        if i < self.items.len() {
            false
        } else {
            self.items.push(p);
            true
        }
    }

    /// Removes and returns the record named `n`, when one is held.
    pub fn take(&mut self, n: &String) -> (r: Option<T>)
        requires
            old(self).wf(),
        ensures
            final(self).wf(),
            r == find_key(old(self).seq(), n@),
            final(self).seq() == match r {
                Some(_) => remove_key(old(self).seq(), n@),
                None => old(self).seq(),
            },
    {
        let i = self.position(n);
        if i < self.items.len() {
            proof {
                lemma_remove_key_at(self.seq(), n@, i as int);
            }
            let p = self.items.remove(i);
            proof {
                assert(keys_unique(self.items@)) by {
                    assert forall|a: int, b: int|
                        0 <= a < b < self.items@.len() implies self.items@[a].key()
                        != self.items@[b].key() by {
                        assert(self.items@[a] == if a < i {
                            old(self).seq()[a]
                        } else {
                            old(self).seq()[a + 1]
                        });
                        assert(self.items@[b] == if b < i {
                            old(self).seq()[b]
                        } else {
                            old(self).seq()[b + 1]
                        });
                    }
                }
            }
            Some(p)
        } else {
            None
        }
    }
}

/// Whether some string in `s` spells `n`.
pub open spec fn has_name_str(s: Seq<String>, n: Seq<char>) -> bool {
    exists|k: int| 0 <= k < s.len() && s[k]@ == n
}

/// One more string spells a name exactly when the list did or it is that
/// name.
pub proof fn lemma_has_name_push(s: Seq<String>, x: String, n: Seq<char>)
    ensures
        has_name_str(s.push(x), n) == (has_name_str(s, n) || x@ == n),
{
    if has_name_str(s, n) {
        let k = choose|k: int| 0 <= k < s.len() && s[k]@ == n;
        assert(s.push(x)[k]@ == n);
    }
    if x@ == n {
        assert(s.push(x)[s.len() as int]@ == n);
    }
    if has_name_str(s.push(x), n) {
        let k = choose|k: int| 0 <= k < s.push(x).len() && s.push(x)[k]@ == n;
        if k < s.len() {
            assert(s[k]@ == n);
        }
    }
}

/// Whether `n` spells one of the collected names.
pub(crate) fn name_in(v: &Vec<String>, n: &String) -> (b: bool)
    ensures
        b == has_name_str(v@, n@),
{
    let len = v.len();
    let mut i: usize = 0;
    while i < len
        invariant
            i <= len == v@.len(),
            forall|k: int| 0 <= k < i ==> v@[k]@ != n@,
        decreases len - i,
    {
        if v[i].eq(n) {
            return true;
        }
        i = i + 1;
    }
    false
}

} // verus!
