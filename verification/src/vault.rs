//! The vault: an insertion-ordered mapping from domain to
//! (username, encrypted secret), backed by `linked_hash_map::LinkedHashMap`.
//!
//! The map is modelled as the sequence of its entries in iteration order;
//! each entry is `(domain, username, secret)` as character sequences.
use vstd::prelude::*;

use linked_hash_map::LinkedHashMap;

use crate::text::field_ok;

verus! {

/// The model of one stored entry: domain, username, encoded secret.
pub type Rec = (Seq<char>, Seq<char>, Seq<char>);

#[verifier::external_type_specification]
#[verifier::external_body]
#[verifier::reject_recursive_types(K)]
#[verifier::reject_recursive_types(V)]
#[verifier::reject_recursive_types(S)]
pub struct ExLinkedHashMap<K, V, S>(LinkedHashMap<K, V, S>);

/// What the map holds, in iteration order (the order of insertion).
pub uninterp spec fn map_entries(m: LinkedHashMap<String, (String, String)>) -> Seq<Rec>;

/// The index of the entry with key `k`, or -1 if there is none.
pub open spec fn idx_of(s: Seq<Rec>, k: Seq<char>) -> int
    decreases s.len(),
{
    if s.len() == 0 {
        -1
    } else if s[0].0 == k {
        0
    } else {
        let r = idx_of(s.drop_first(), k);
        if r == -1 {
            -1
        } else {
            r + 1
        }
    }
}

/// Whether an entry with key `k` is present.
pub open spec fn has_key(s: Seq<Rec>, k: Seq<char>) -> bool {
    idx_of(s, k) >= 0
}

/// No two entries share a key.
pub open spec fn unique_keys(s: Seq<Rec>) -> bool {
    forall|i: int, j: int| 0 <= i < j < s.len() ==> (#[trigger] s[i]).0 != (#[trigger] s[j]).0
}

/// One entry is storable: a non-empty domain, and every field free of the
/// record separator and terminator.
pub open spec fn entry_ok(e: Rec) -> bool {
    e.0.len() > 0 && field_ok(e.0) && field_ok(e.1) && field_ok(e.2)
}

/// Every entry is storable.
pub open spec fn entries_ok(s: Seq<Rec>) -> bool {
    forall|i: int| 0 <= i < s.len() ==> entry_ok(#[trigger] s[i])
}

/// The vault invariant: unique keys, and every entry storable.
pub open spec fn vault_wf(s: Seq<Rec>) -> bool {
    unique_keys(s) && entries_ok(s)
}

/// `idx_of` finds the first entry with the key, and -1 exactly when no entry
/// has it.
pub proof fn lemma_idx_of(s: Seq<Rec>, k: Seq<char>)
    ensures
        idx_of(s, k) >= -1,
        idx_of(s, k) == -1 <==> (forall|i: int| 0 <= i < s.len() ==> (#[trigger] s[i]).0 != k),
        idx_of(s, k) >= 0 ==> idx_of(s, k) < s.len() && s[idx_of(s, k)].0 == k && (forall|j: int|
            0 <= j < idx_of(s, k) ==> (#[trigger] s[j]).0 != k),
    decreases s.len(),
{
    if s.len() == 0 {
    } else if s[0].0 == k {
    } else {
        let t = s.drop_first();
        lemma_idx_of(t, k);
        if idx_of(t, k) == -1 {
            assert forall|i: int| 0 <= i < s.len() implies (#[trigger] s[i]).0 != k by {
                if i >= 1 {
                    assert(s[i] == t[i - 1]);
                }
            }
        } else {
            let r = idx_of(t, k);
            assert(idx_of(s, k) == r + 1);
            assert(s[r + 1] == t[r]);
            assert forall|j: int| 0 <= j < r + 1 implies (#[trigger] s[j]).0 != k by {
                if j >= 1 {
                    assert(s[j] == t[j - 1]);
                    assert(t[j - 1].0 != k);
                }
            }
        }
    }
}

/// Removing an entry keeps the invariant.
pub proof fn lemma_remove_wf(s: Seq<Rec>, i: int)
    requires
        vault_wf(s),
        0 <= i < s.len(),
    ensures
        vault_wf(s.remove(i)),
{
    let t = s.remove(i);
    assert forall|p: int, q: int| 0 <= p < q < t.len() implies (#[trigger] t[p]).0 != (
    #[trigger] t[q]).0 by {
        let sp = if p < i {
            p
        } else {
            p + 1
        };
        let sq = if q < i {
            q
        } else {
            q + 1
        };
        assert(t[p] == s[sp]);
        assert(t[q] == s[sq]);
    }
    assert forall|j: int| 0 <= j < t.len() implies entry_ok(#[trigger] t[j]) by {
        if j < i {
            assert(t[j] == s[j]);
        } else {
            assert(t[j] == s[j + 1]);
        }
    }
}

/// Replacing the value of one entry, keeping its key, keeps the invariant.
pub proof fn lemma_set_wf(s: Seq<Rec>, i: int, e: Rec)
    requires
        vault_wf(s),
        0 <= i < s.len(),
        e.0 == s[i].0,
        entry_ok(e),
    ensures
        vault_wf(s.update(i, e)),
{
    let t = s.update(i, e);
    assert forall|p: int, q: int| 0 <= p < q < t.len() implies (#[trigger] t[p]).0 != (
    #[trigger] t[q]).0 by {
        assert(t[p].0 == s[p].0);
        assert(t[q].0 == s[q].0);
    }
    assert forall|j: int| 0 <= j < t.len() implies entry_ok(#[trigger] t[j]) by {
        if j != i {
            assert(t[j] == s[j]);
        }
    }
}

/// The first match in a concatenation lies in the left part if it has one.
pub proof fn lemma_idx_of_take(s: Seq<Rec>, k: Seq<char>, n: int)
    requires
        0 <= n <= s.len(),
        idx_of(s, k) == -1 || idx_of(s, k) >= n,
    ensures
        idx_of(s.take(n), k) == -1,
{
    lemma_idx_of(s, k);
    lemma_idx_of(s.take(n), k);
    if idx_of(s.take(n), k) >= 0 {
        let i = idx_of(s.take(n), k);
        assert(s[i].0 == k);
    }
}

#[verifier::external_body]
fn map_new() -> (r: LinkedHashMap<String, (String, String)>)
    ensures
        map_entries(r) == Seq::<Rec>::empty(),
{
    LinkedHashMap::new()
}

#[verifier::external_body]
fn map_len(m: &LinkedHashMap<String, (String, String)>) -> (r: usize)
    ensures
        r == map_entries(*m).len(),
{
    m.len()
}

#[verifier::external_body]
fn map_contains(m: &LinkedHashMap<String, (String, String)>, k: &String) -> (r: bool)
    ensures
        r == has_key(map_entries(*m), k@),
{
    m.contains_key(k)
}

#[verifier::external_body]
fn map_get(m: &LinkedHashMap<String, (String, String)>, k: &String) -> (r: Option<
    (String, String),
>)
    ensures
        r matches Some(v) ==> {
            let s = map_entries(*m);
            let i = idx_of(s, k@);
            i >= 0 && v.0@ == s[i].1 && v.1@ == s[i].2
        },
        r is None ==> idx_of(map_entries(*m), k@) == -1,
{
    m.get(k).map(|v| (v.0.clone(), v.1.clone()))
}

/// Relies on `LinkedHashMap::insert`: a fresh key is appended at the back of
/// the iteration order; an existing key's entry is given the new value and
/// moved to the back, and its old value is returned.
#[verifier::external_body]
fn map_insert(
    m: &mut LinkedHashMap<String, (String, String)>,
    k: String,
    user: String,
    secret: String,
) -> (r: Option<(String, String)>)
    ensures
        ({
            let s = map_entries(*old(m));
            let i = idx_of(s, k@);
            if i >= 0 {
                map_entries(*final (m)) == s.remove(i).push((k@, user@, secret@)) && (
                r matches Some(v) && v.0@ == s[i].1 && v.1@ == s[i].2)
            } else {
                map_entries(*final (m)) == s.push((k@, user@, secret@)) && r is None
            }
        }),
{
    m.insert(k, (user, secret))
}

/// Relies on `LinkedHashMap::get_mut`: a plain lookup that keeps the entry's
/// place in the iteration order; the value alone is replaced.
#[verifier::external_body]
fn map_set_value(
    m: &mut LinkedHashMap<String, (String, String)>,
    k: &String,
    user: String,
    secret: String,
) -> (r: Option<(String, String)>)
    ensures
        ({
            let s = map_entries(*old(m));
            let i = idx_of(s, k@);
            if i >= 0 {
                map_entries(*final (m)) == s.update(i, (k@, user@, secret@)) && (
                r matches Some(v) && v.0@ == s[i].1 && v.1@ == s[i].2)
            } else {
                map_entries(*final (m)) == s && r is None
            }
        }),
{
    match m.get_mut(k) {
        Some(slot) => {
            let prev = slot.clone();
            *slot = (user, secret);
            Some(prev)
        },
        None => None,
    }
}

/// Relies on `LinkedHashMap::remove`: the entry leaves the iteration order,
/// the others keep their relative order, and its value is returned.
#[verifier::external_body]
fn map_remove(m: &mut LinkedHashMap<String, (String, String)>, k: &String) -> (r: Option<
    (String, String),
>)
    ensures
        ({
            let s = map_entries(*old(m));
            let i = idx_of(s, k@);
            if i >= 0 {
                map_entries(*final (m)) == s.remove(i) && (r matches Some(v) && v.0@ == s[i].1
                    && v.1@ == s[i].2)
            } else {
                map_entries(*final (m)) == s && r is None
            }
        }),
{
    m.remove(k)
}

/// Relies on `LinkedHashMap::iter`: the entries come out in iteration order.
#[verifier::external_body]
fn map_entries_vec(m: &LinkedHashMap<String, (String, String)>) -> (r: Vec<
    (String, String, String),
>)
    ensures
        r@.len() == map_entries(*m).len(),
        forall|i: int|
            0 <= i < r@.len() ==> ((#[trigger] r@[i]).0@, r@[i].1@, r@[i].2@) == map_entries(
                *m,
            )[i],
{
    m.iter().map(|(k, v)| (k.clone(), v.0.clone(), v.1.clone())).collect()
}

/// The insertion-ordered credential store of one session.
pub struct Vault {
    map: LinkedHashMap<String, (String, String)>,
}

impl View for Vault {
    type V = Seq<Rec>;

    closed spec fn view(&self) -> Seq<Rec> {
        map_entries(self.map)
    }
}

impl Vault {
    /// An empty vault.
    pub fn new() -> (r: Vault)
        ensures
            r@ == Seq::<Rec>::empty(),
    {
        Vault { map: map_new() }
    }

    /// How many entries the vault holds.
    pub fn len(&self) -> (r: usize)
        ensures
            r == self@.len(),
    {
        map_len(&self.map)
    }

    /// Whether an entry for this domain is present.
    pub fn contains(&self, domain: &String) -> (r: bool)
        ensures
            r == has_key(self@, domain@),
    {
        map_contains(&self.map, domain)
    }

    /// The username and encoded secret stored for this domain.
    pub fn get(&self, domain: &String) -> (r: Option<(String, String)>)
        ensures
            r matches Some(v) ==> {
                let i = idx_of(self@, domain@);
                i >= 0 && v.0@ == self@[i].1 && v.1@ == self@[i].2
            },
            r is None ==> idx_of(self@, domain@) == -1,
    {
        map_get(&self.map, domain)
    }

    /// Insert an entry: a fresh domain is appended; an existing domain's
    /// entry is replaced and moved to the back, its old value returned.
    pub fn insert(&mut self, domain: String, user: String, secret: String) -> (r: Option<
        (String, String),
    >)
        ensures
            ({
                let s = old(self)@;
                let i = idx_of(s, domain@);
                if i >= 0 {
                    final (self)@ == s.remove(i).push((domain@, user@, secret@)) && (
                    r matches Some(v) && v.0@ == s[i].1 && v.1@ == s[i].2)
                } else {
                    final (self)@ == s.push((domain@, user@, secret@)) && r is None
                }
            }),
    {
        map_insert(&mut self.map, domain, user, secret)
    }

    /// Replace the value stored for an existing domain, keeping its place in
    /// the order; the old value is returned. Absent domains are untouched.
    pub fn set_value(&mut self, domain: &String, user: String, secret: String) -> (r: Option<
        (String, String),
    >)
        ensures
            ({
                let s = old(self)@;
                let i = idx_of(s, domain@);
                if i >= 0 {
                    final (self)@ == s.update(i, (domain@, user@, secret@)) && (
                    r matches Some(v) && v.0@ == s[i].1 && v.1@ == s[i].2)
                } else {
                    final (self)@ == s && r is None
                }
            }),
    {
        map_set_value(&mut self.map, domain, user, secret)
    }

    /// Remove the entry for a domain, returning its value; the other entries
    /// keep their relative order.
    pub fn remove(&mut self, domain: &String) -> (r: Option<(String, String)>)
        ensures
            ({
                let s = old(self)@;
                let i = idx_of(s, domain@);
                if i >= 0 {
                    final (self)@ == s.remove(i) && (r matches Some(v) && v.0@ == s[i].1 && v.1@
                        == s[i].2)
                } else {
                    final (self)@ == s && r is None
                }
            }),
    {
        map_remove(&mut self.map, domain)
    }

    /// All entries, in insertion order.
    pub fn entries(&self) -> (r: Vec<(String, String, String)>)
        ensures
            r@.len() == self@.len(),
            forall|i: int|
                0 <= i < r@.len() ==> ((#[trigger] r@[i]).0@, r@[i].1@, r@[i].2@) == self@[i],
    {
        map_entries_vec(&self.map)
    }

    /// Put an entry back at a given position: the exact inverse of removing
    /// it. The key must not be present and the keys must be unique.
    #[verifier::loop_isolation(false)]
    pub fn restore_at(&mut self, idx: usize, domain: String, user: String, secret: String)
        requires
            idx <= old(self)@.len(),
            idx_of(old(self)@, domain@) == -1,
            unique_keys(old(self)@),
        ensures
            final (self)@ == old(self)@.insert(idx as int, (domain@, user@, secret@)),
    {
        let ghost s = self@;
        let items = self.entries();
        let mut m = map_new();
        let mut j: usize = 0;
        while j < idx
            invariant
                j <= idx <= s.len(),
                idx_of(s, domain@) == -1,
                unique_keys(s),
                items@.len() == s.len(),
                forall|i: int|
                    0 <= i < items@.len() ==> ((#[trigger] items@[i]).0@, items@[i].1@,
                    items@[i].2@) == s[i],
                map_entries(m) == s.take(j as int),
            decreases idx - j,
        {
            let e = &items[j];
            proof {
                let k = s[j as int].0;
                let cur = s.take(j as int);
                lemma_idx_of(cur, k);
                if idx_of(cur, k) >= 0 {
                    let i = idx_of(cur, k);
                    assert(cur[i] == s[i]);
                    assert(s[i].0 == s[j as int].0);
                    assert(false);
                }
            }
            map_insert(&mut m, e.0.clone(), e.1.clone(), e.2.clone());
            proof {
                assert(map_entries(m) =~= s.take(j + 1));
            }
            j = j + 1;
        }
        proof {
            lemma_idx_of_take(s, domain@, idx as int);
        }
        map_insert(&mut m, domain, user, secret);
        let ghost mid = s.take(idx as int).push((domain@, user@, secret@));
        assert(map_entries(m) == mid);
        let mut j: usize = idx;
        while j < items.len()
            invariant
                idx <= j <= items@.len(),
                idx_of(s, domain@) == -1,
                unique_keys(s),
                items@.len() == s.len(),
                forall|i: int|
                    0 <= i < items@.len() ==> ((#[trigger] items@[i]).0@, items@[i].1@,
                    items@[i].2@) == s[i],
                map_entries(m) == mid + s.subrange(idx as int, j as int),
            decreases items@.len() - j,
        {
            let e = &items[j];
            proof {
                let cur = map_entries(m);
                let k = s[j as int].0;
                lemma_idx_of(cur, k);
                lemma_idx_of(s, domain@);
                if idx_of(cur, k) >= 0 {
                    let i = idx_of(cur, k);
                    assert(cur[i].0 == k);
                    assert(cur.len() == idx + 1 + (j - idx));
                    if i < idx {
                        assert(cur[i] == mid[i]);
                        assert(mid[i] == s.take(idx as int)[i]);
                        assert(s[i].0 == s[j as int].0);
                    } else if i == idx {
                        assert(cur[i] == mid[i]);
                        assert(mid[i] == (domain@, user@, secret@));
                        assert(s[j as int].0 == domain@);
                    } else {
                        assert(cur[i] == s.subrange(idx as int, j as int)[i - idx - 1]);
                        assert(s[i - 1].0 == s[j as int].0);
                    }
                    assert(false);
                }
            }
            map_insert(&mut m, e.0.clone(), e.1.clone(), e.2.clone());
            proof {
                assert(map_entries(m) =~= mid + s.subrange(idx as int, j + 1));
            }
            j = j + 1;
        }
        self.map = m;
        proof {
            assert(final (self)@ =~= s.insert(idx as int, (domain@, user@, secret@)));
        }
    }
}

} // verus!
