//! The ordered key-value store: the capability contract every backend
//! must honor, and the in-memory backend.
//!
//! A store is modelled as a map from key characters to value
//! characters.  The scan contract deliberately promises no order on the
//! returned pairs: callers that need order sort after the scan.

use vstd::prelude::*;

use crate::error::StoreError;
use crate::text::{lex_le, lex_lt, str_eq, str_le, str_lt};

verus! {

/// Whether `k` lies in the half-open range `[lo, hi)`.
pub open spec fn in_scan_range(k: Seq<char>, lo: Seq<char>, hi: Seq<char>) -> bool {
    lex_le(lo, k) && lex_lt(k, hi)
}

/// The view of a vector of key-value pairs.
pub open spec fn pairs_view(v: Seq<(String, String)>) -> Seq<(Seq<char>, Seq<char>)> {
    v.map_values(|p: (String, String)| (p.0@, p.1@))
}

/// What a successful scan hands back: pairs with pairwise-distinct keys
/// that are exactly the entries of `m` whose key lies in `[lo, hi)`, in no
/// promised order.
pub open spec fn is_range_snapshot(
    pairs: Seq<(Seq<char>, Seq<char>)>,
    m: Map<Seq<char>, Seq<char>>,
    lo: Seq<char>,
    hi: Seq<char>,
) -> bool {
    &&& forall|i: int, j: int| 0 <= i < j < pairs.len() ==> pairs[i].0 != pairs[j].0
    &&& forall|i: int|
        0 <= i < pairs.len() ==> {
            &&& m.contains_key((#[trigger] pairs[i]).0)
            &&& m[pairs[i].0] == pairs[i].1
            &&& in_scan_range(pairs[i].0, lo, hi)
        }
    &&& forall|k: Seq<char>|
        m.contains_key(k) && in_scan_range(k, lo, hi) ==> exists|i: int|
            0 <= i < pairs.len() && (#[trigger] pairs[i]).0 == k
}

/// What a successful `keys` call hands back: every key of `m`, once
/// each, in no promised order.
pub open spec fn is_key_listing(ks: Seq<String>, m: Map<Seq<char>, Seq<char>>) -> bool {
    &&& forall|i: int, j: int| 0 <= i < j < ks.len() ==> ks[i]@ != ks[j]@
    &&& forall|i: int| 0 <= i < ks.len() ==> m.contains_key((#[trigger] ks[i])@)
    &&& forall|k: Seq<char>|
        m.contains_key(k) ==> exists|i: int| 0 <= i < ks.len() && (#[trigger] ks[i])@ == k
}

/// The ordered key-value capability that every backend offers.
///
/// `model` is the backend's current contents as a map; `inv` is whatever
/// internal well-formedness the backend maintains.  Both carry defaults
/// so that backends outside the verifier can implement the trait; nothing
/// is proved about such backends.  Methods may fail for backend-specific
/// reasons (a durable backend may hit its medium), so success is promised
/// nowhere; what each result means is, and each failure's kind follows
/// the error design: `InvalidKey` exactly for an empty key, `IoError` for
/// the medium, `SerializationError` for a corrupt snapshot.  A failed
/// write leaves either the old contents or the completed write: there is
/// no rollback and no other partial state.
pub trait KeyValueStore: Sized {
    open spec fn inv(&self) -> bool {
        true
    }

    open spec fn model(&self) -> Map<Seq<char>, Seq<char>> {
        Map::empty()
    }

    /// Upsert. An empty key is rejected as `InvalidKey`.
    fn put(&mut self, key: String, value: String) -> (r: Result<(), StoreError>)
        requires
            old(self).inv(),
        ensures
            final(self).inv(),
            key@.len() == 0 ==> (r matches Err(e) && e is InvalidKey && final(self).model()
                == old(self).model()),
            r is Ok ==> key@.len() > 0 && final(self).model() == old(self).model().insert(
                key@,
                value@,
            ),
            r matches Err(e) ==> {
                &&& e is InvalidKey || e is IoError || e is SerializationError
                &&& e is InvalidKey ==> key@.len() == 0
                &&& final(self).model() == old(self).model() || final(self).model() == old(
                    self,
                ).model().insert(key@, value@)
            },
    ;

    /// Point lookup. An empty key is rejected as `InvalidKey`.
    fn get(&self, key: &str) -> (r: Result<Option<String>, StoreError>)
        requires
            self.inv(),
        ensures
            key@.len() == 0 ==> (r matches Err(e) && e is InvalidKey),
            r matches Ok(opt) ==> key@.len() > 0 && match opt {
                Some(v) => self.model().contains_key(key@) && self.model()[key@] == v@,
                None => !self.model().contains_key(key@),
            },
            r matches Err(e) ==> {
                &&& e is InvalidKey || e is IoError || e is SerializationError
                &&& e is InvalidKey ==> key@.len() == 0
            },
    ;

    /// Idempotent removal. An empty key is rejected as `InvalidKey`.
    fn delete(&mut self, key: &str) -> (r: Result<(), StoreError>)
        requires
            old(self).inv(),
        ensures
            final(self).inv(),
            key@.len() == 0 ==> (r matches Err(e) && e is InvalidKey && final(self).model()
                == old(self).model()),
            r is Ok ==> key@.len() > 0 && final(self).model() == old(self).model().remove(key@),
            r matches Err(e) ==> {
                &&& e is InvalidKey || e is IoError || e is SerializationError
                &&& e is InvalidKey ==> key@.len() == 0
                &&& final(self).model() == old(self).model() || final(self).model() == old(
                    self,
                ).model().remove(key@)
            },
    ;

    /// Every stored key, once each, in no promised order.
    fn keys(&self) -> (r: Result<Vec<String>, StoreError>)
        requires
            self.inv(),
        ensures
            r matches Ok(ks) ==> is_key_listing(ks@, self.model()),
            r matches Err(e) ==> e is IoError || e is SerializationError,
    ;

    /// Removes every entry.
    fn clear(&mut self) -> (r: Result<(), StoreError>)
        requires
            old(self).inv(),
        ensures
            final(self).inv(),
            r is Ok ==> final(self).model() === Map::<Seq<char>, Seq<char>>::empty(),
            r matches Err(e) ==> {
                &&& e is IoError || e is SerializationError
                &&& final(self).model() == old(self).model() || final(self).model() === Map::<
                    Seq<char>,
                    Seq<char>,
                >::empty()
            },
    ;

    /// Every entry whose key lies in `[start, end)`, in no promised order.
    /// Empty bounds are rejected as `InvalidKey`.
    fn scan(&self, start: &str, end: &str) -> (r: Result<Vec<(String, String)>, StoreError>)
        requires
            self.inv(),
        ensures
            (start@.len() == 0 || end@.len() == 0) ==> (r matches Err(e) && e is InvalidKey),
            r matches Ok(v) ==> start@.len() > 0 && end@.len() > 0 && is_range_snapshot(
                pairs_view(v@),
                self.model(),
                start@,
                end@,
            ),
            r matches Err(e) ==> {
                &&& e is InvalidKey || e is IoError || e is SerializationError
                &&& e is InvalidKey ==> start@.len() == 0 || end@.len() == 0
            },
    ;
}

// ---------------------------------------------------------------------------
// The in-memory backend.
// ---------------------------------------------------------------------------

/// The contents of an entry vector, read as a map; later entries win.
pub open spec fn entries_map(s: Seq<(String, String)>) -> Map<Seq<char>, Seq<char>>
    decreases s.len(),
{
    if s.len() == 0 {
        Map::empty()
    } else {
        entries_map(s.drop_last()).insert(s.last().0@, s.last().1@)
    }
}

/// Pairwise-distinct keys.
pub open spec fn unique_keys(s: Seq<(String, String)>) -> bool {
    forall|i: int, j: int| 0 <= i < j < s.len() ==> s[i].0@ != s[j].0@
}

/// A key of `entries_map` is a key of some entry.
proof fn lemma_entries_map_dom(s: Seq<(String, String)>, k: Seq<char>)
    ensures
        entries_map(s).contains_key(k) <==> exists|i: int| 0 <= i < s.len() && (#[trigger] s[i]).0@
            == k,
    decreases s.len(),
{
    if s.len() > 0 {
        lemma_entries_map_dom(s.drop_last(), k);
        if s.last().0@ == k {
            assert(s[s.len() - 1].0@ == k);
        } else if entries_map(s).contains_key(k) {
            let i = choose|i: int| 0 <= i < s.drop_last().len() && (#[trigger] s.drop_last()[i]).0@
                == k;
            assert(s[i].0@ == k);
        } else {
            assert forall|i: int| 0 <= i < s.len() implies (#[trigger] s[i]).0@ != k by {
                if i < s.len() - 1 {
                    assert(s.drop_last()[i].0@ == s[i].0@);
                }
            }
        }
    }
}

/// With unique keys, `entries_map` maps each entry's key to its value.
proof fn lemma_entries_map_index(s: Seq<(String, String)>, i: int)
    requires
        unique_keys(s),
        0 <= i < s.len(),
    ensures
        entries_map(s).contains_key(s[i].0@),
        entries_map(s)[s[i].0@] == s[i].1@,
    decreases s.len(),
{
    if i == s.len() - 1 {
    } else {
        lemma_entries_map_index(s.drop_last(), i);
        assert(s.drop_last()[i] == s[i]);
    }
}

/// Removing the entry at `i` removes exactly its key from the map.
proof fn lemma_entries_map_remove(s: Seq<(String, String)>, i: int)
    requires
        unique_keys(s),
        0 <= i < s.len(),
    ensures
        entries_map(s.remove(i)) == entries_map(s).remove(s[i].0@),
    decreases s.len(),
{
    let k = s[i].0@;
    if i == s.len() - 1 {
        assert(s.remove(i) =~= s.drop_last());
        lemma_entries_map_dom(s.drop_last(), k);
        assert forall|j: int| 0 <= j < s.drop_last().len() implies (#[trigger] s.drop_last()[j]).0@
            != k by {
            assert(s.drop_last()[j].0@ == s[j].0@);
        }
        assert(entries_map(s.drop_last()) =~= entries_map(s).remove(k));
    } else {
        assert(s.remove(i).drop_last() =~= s.drop_last().remove(i));
        assert(s.remove(i).last() == s.last());
        assert forall|a: int, b: int| 0 <= a < b < s.drop_last().len() implies (#[trigger] s.drop_last()[a]).0@
            != (#[trigger] s.drop_last()[b]).0@ by {
            assert(s.drop_last()[a].0@ == s[a].0@);
            assert(s.drop_last()[b].0@ == s[b].0@);
        }
        lemma_entries_map_remove(s.drop_last(), i);
        assert(s.drop_last()[i] == s[i]);
        assert(entries_map(s.remove(i)) == entries_map(s.drop_last()).remove(k).insert(
            s.last().0@,
            s.last().1@,
        ));
        assert(s.last().0@ != k);
        assert(entries_map(s.drop_last()).remove(k).insert(s.last().0@, s.last().1@)
            =~= entries_map(s).remove(k));
    }
}

/// The non-durable backend: a vector of entries with distinct keys.
#[derive(Debug, Clone)]
pub struct MemoryStore {
    entries: Vec<(String, String)>,
}

impl MemoryStore {
    /// An empty store.
    pub fn new() -> (r: MemoryStore)
        ensures
            r.inv(),
            r.model() === Map::<Seq<char>, Seq<char>>::empty(),
    {
        MemoryStore { entries: Vec::new() }
    }

    /// The position of `key` among the entries, if it is there.
    fn find(&self, key: &str) -> (r: Option<usize>)
        ensures
            match r {
                Some(i) => i < self.entries@.len() && self.entries@[i as int].0@ == key@,
                None => forall|i: int|
                    0 <= i < self.entries@.len() ==> (#[trigger] self.entries@[i]).0@ != key@,
            },
    {
        let n = self.entries.len();
        let mut i: usize = 0;
        while i < n
            invariant
                i <= n,
                n == self.entries@.len(),
                forall|j: int| 0 <= j < i ==> (#[trigger] self.entries@[j]).0@ != key@,
            decreases n - i,
        {
            if str_eq(self.entries[i].0.as_str(), key) {
                return Some(i);
            }
            i = i + 1;
        }
        None
    }
}

impl Default for MemoryStore {
    /// An empty store.
    fn default() -> (r: MemoryStore)
        ensures
            r.inv(),
            r.model() === Map::<Seq<char>, Seq<char>>::empty(),
    {
        MemoryStore::new()
    }
}

impl KeyValueStore for MemoryStore {
    closed spec fn inv(&self) -> bool {
        unique_keys(self.entries@)
    }

    closed spec fn model(&self) -> Map<Seq<char>, Seq<char>> {
        entries_map(self.entries@)
    }

    fn put(&mut self, key: String, value: String) -> (r: Result<(), StoreError>)
        ensures
            key@.len() > 0 ==> r is Ok,
    {
        if key.as_str().is_empty() {
            return Err(StoreError::InvalidKey);
        }
        let ghost m0 = entries_map(self.entries@);
        match self.find(key.as_str()) {
            Some(i) => {
                proof {
                    lemma_entries_map_remove(self.entries@, i as int);
                }
                self.entries.remove(i);
                proof {
                    assert(unique_keys(self.entries@));
                    lemma_entries_map_dom(self.entries@, key@);
                }
            },
            None => {
                proof {
                    lemma_entries_map_dom(self.entries@, key@);
                    assert(entries_map(self.entries@) =~= m0.remove(key@));
                }
            },
        }
        let ghost before = self.entries@;
        self.entries.push((key, value));
        proof {
            assert(self.entries@.drop_last() =~= before);
            assert(forall|i: int|
                0 <= i < before.len() ==> (#[trigger] before[i]).0@ != key@);
            assert(forall|i: int|
                0 <= i < before.len() ==> self.entries@[i] == before[i]);
            assert(unique_keys(self.entries@));
            assert(entries_map(self.entries@) =~= m0.insert(key@, value@));
        }
        Ok(())
    }

    fn get(&self, key: &str) -> (r: Result<Option<String>, StoreError>)
        ensures
            key@.len() > 0 ==> r is Ok,
    {
        if key.is_empty() {
            return Err(StoreError::InvalidKey);
        }
        match self.find(key) {
            Some(i) => {
                proof {
                    lemma_entries_map_index(self.entries@, i as int);
                }
                Ok(Some(self.entries[i].1.clone()))
            },
            None => {
                proof {
                    lemma_entries_map_dom(self.entries@, key@);
                }
                Ok(None)
            },
        }
    }

    fn delete(&mut self, key: &str) -> (r: Result<(), StoreError>)
        ensures
            key@.len() > 0 ==> r is Ok,
    {
        if key.is_empty() {
            return Err(StoreError::InvalidKey);
        }
        let ghost m0 = entries_map(self.entries@);
        match self.find(key) {
            Some(i) => {
                proof {
                    lemma_entries_map_remove(self.entries@, i as int);
                }
                self.entries.remove(i);
                proof {
                    assert(unique_keys(self.entries@));
                }
            },
            None => {
                proof {
                    lemma_entries_map_dom(self.entries@, key@);
                    assert(entries_map(self.entries@) =~= m0.remove(key@));
                }
            },
        }
        Ok(())
    }

    fn keys(&self) -> (r: Result<Vec<String>, StoreError>)
        ensures
            r is Ok,
    {
        let n = self.entries.len();
        let mut out: Vec<String> = Vec::new();
        let mut i: usize = 0;
        while i < n
            invariant
                i <= n,
                n == self.entries@.len(),
                unique_keys(self.entries@),
                out@.len() == i,
                forall|j: int| 0 <= j < i ==> (#[trigger] out@[j])@ == self.entries@[j].0@,
            decreases n - i,
        {
            out.push(self.entries[i].0.clone());
            i = i + 1;
        }
        proof {
            assert forall|a: int, b: int| 0 <= a < b < out@.len() implies (#[trigger] out@[a])@ != (
            #[trigger] out@[b])@ by {
                assert(out@[a]@ == self.entries@[a].0@);
                assert(out@[b]@ == self.entries@[b].0@);
                assert(self.entries@[a].0@ != self.entries@[b].0@);
            }
            assert forall|k: Seq<char>| entries_map(self.entries@).contains_key(k) implies exists|t: int|
                0 <= t < out@.len() && (#[trigger] out@[t])@ == k by {
                lemma_entries_map_dom(self.entries@, k);
                let j = choose|j: int|
                    0 <= j < self.entries@.len() && (#[trigger] self.entries@[j]).0@ == k;
                assert(out@[j]@ == k);
            }
            assert forall|t: int| 0 <= t < out@.len() implies entries_map(
                self.entries@,
            ).contains_key((#[trigger] out@[t])@) by {
                lemma_entries_map_index(self.entries@, t);
            }
            assert(is_key_listing(out@, entries_map(self.entries@)));
        }
        Ok(out)
    }

    fn clear(&mut self) -> (r: Result<(), StoreError>)
        ensures
            r is Ok,
    {
        self.entries.clear();
        Ok(())
    }

    fn scan(&self, start: &str, end: &str) -> (r: Result<Vec<(String, String)>, StoreError>)
        ensures
            start@.len() > 0 && end@.len() > 0 ==> r is Ok,
    {
        if start.is_empty() || end.is_empty() {
            return Err(StoreError::InvalidKey);
        }
        let n = self.entries.len();
        let mut out: Vec<(String, String)> = Vec::new();
        let mut i: usize = 0;
        while i < n
            invariant
                i <= n,
                n == self.entries@.len(),
                unique_keys(self.entries@),
                forall|t: int|
                    0 <= t < out@.len() ==> exists|j: int|
                        0 <= j < i && (#[trigger] out@[t]).0@ == self.entries@[j].0@ && out@[t].1@
                            == self.entries@[j].1@ && in_scan_range(out@[t].0@, start@, end@),
                forall|j: int|
                    0 <= j < i && in_scan_range((#[trigger] self.entries@[j]).0@, start@, end@)
                        ==> exists|t: int| 0 <= t < out@.len() && (#[trigger] out@[t]).0@
                        == self.entries@[j].0@,
                forall|t1: int, t2: int|
                    0 <= t1 < t2 < out@.len() ==> (#[trigger] out@[t1]).0@ != (#[trigger] out@[t2]).0@,
            decreases n - i,
        {
            let ks = self.entries[i].0.as_str();
            if str_le(start, ks) && str_lt(ks, end) {
                let ghost out0 = out@;
                out.push((self.entries[i].0.clone(), self.entries[i].1.clone()));
                proof {
                    assert(out@.drop_last() =~= out0);
                    assert(out@.last().0@ == self.entries@[i as int].0@);
                    assert forall|t1: int, t2: int| 0 <= t1 < t2 < out@.len() implies (
                    #[trigger] out@[t1]).0@ != (#[trigger] out@[t2]).0@ by {
                        if t2 == out@.len() - 1 {
                            let j = choose|j: int|
                                0 <= j < i && (#[trigger] out0[t1]).0@ == self.entries@[j].0@
                                    && out0[t1].1@ == self.entries@[j].1@ && in_scan_range(
                                    out0[t1].0@,
                                    start@,
                                    end@,
                                );
                            assert(self.entries@[j].0@ != self.entries@[i as int].0@);
                        }
                    }
                }
            }
            i = i + 1;
        }
        proof {
            let pv = pairs_view(out@);
            assert(pv.len() == out@.len());
            assert forall|t: int| 0 <= t < pv.len() implies {
                &&& entries_map(self.entries@).contains_key((#[trigger] pv[t]).0)
                &&& entries_map(self.entries@)[pv[t].0] == pv[t].1
                &&& in_scan_range(pv[t].0, start@, end@)
            } by {
                assert(pv[t].0 == out@[t].0@ && pv[t].1 == out@[t].1@);
                let j = choose|j: int|
                    0 <= j < n && (#[trigger] out@[t]).0@ == self.entries@[j].0@ && out@[t].1@
                        == self.entries@[j].1@ && in_scan_range(out@[t].0@, start@, end@);
                lemma_entries_map_index(self.entries@, j);
            }
            assert forall|k: Seq<char>|
                entries_map(self.entries@).contains_key(k) && in_scan_range(
                    k,
                    start@,
                    end@,
                ) implies exists|t: int| 0 <= t < pv.len() && (#[trigger] pv[t]).0 == k by {
                lemma_entries_map_dom(self.entries@, k);
                let j = choose|j: int|
                    0 <= j < self.entries@.len() && (#[trigger] self.entries@[j]).0@ == k;
                let t = choose|t: int|
                    0 <= t < out@.len() && (#[trigger] out@[t]).0@ == self.entries@[j].0@;
                assert(pv[t].0 == k);
            }
            assert forall|t1: int, t2: int| 0 <= t1 < t2 < pv.len() implies (#[trigger] pv[t1]).0
                != (#[trigger] pv[t2]).0 by {
                assert(pv[t1].0 == out@[t1].0@ && pv[t2].0 == out@[t2].0@);
            }
        }
        Ok(out)
    }
}

// ---------------------------------------------------------------------------
// Permutations of scan results.
// ---------------------------------------------------------------------------

/// Two positions holding the same value put its count at two or more.
proof fn lemma_two_indices_count<A>(s: Seq<A>, i: int, j: int)
    requires
        0 <= i < j < s.len(),
        s[i] == s[j],
    ensures
        s.to_multiset().count(s[i]) >= 2,
    decreases s.len(),
{
    broadcast use vstd::seq_lib::group_to_multiset_ensures;

    assert(s =~= s.drop_last().push(s.last()));
    if j == s.len() - 1 {
        assert(s.drop_last().contains(s.drop_last()[i]));
    } else {
        lemma_two_indices_count(s.drop_last(), i, j);
    }
}

/// A count of two or more comes from two positions.
proof fn lemma_count_two_indices<A>(s: Seq<A>, x: A)
    requires
        s.to_multiset().count(x) >= 2,
    ensures
        exists|i: int, j: int| 0 <= i < j < s.len() && s[i] == x && s[j] == x,
    decreases s.len(),
{
    broadcast use vstd::seq_lib::group_to_multiset_ensures;

    if s.len() == 0 {
        assert(!s.contains(x));
    } else {
        assert(s =~= s.drop_last().push(s.last()));
        if s.last() == x {
            assert(s.drop_last().to_multiset().count(x) >= 1);
            assert(s.drop_last().contains(x));
            let i = choose|i: int| 0 <= i < s.drop_last().len() && s.drop_last()[i] == x;
            assert(s[i] == x && s[s.len() - 1] == x && i < s.len() - 1);
        } else {
            assert(s.drop_last().to_multiset().count(x) >= 2);
            lemma_count_two_indices(s.drop_last(), x);
            let (i, j) = choose|i: int, j: int|
                0 <= i < j < s.drop_last().len() && s.drop_last()[i] == x && s.drop_last()[j] == x;
            assert(s[i] == x && s[j] == x);
        }
    }
}

/// Rearranging the pairs of a range snapshot leaves it a range snapshot.
pub proof fn lemma_range_snapshot_permutation(
    a: Seq<(Seq<char>, Seq<char>)>,
    b: Seq<(Seq<char>, Seq<char>)>,
    m: Map<Seq<char>, Seq<char>>,
    lo: Seq<char>,
    hi: Seq<char>,
)
    requires
        is_range_snapshot(a, m, lo, hi),
        a.to_multiset() == b.to_multiset(),
    ensures
        is_range_snapshot(b, m, lo, hi),
{
    broadcast use vstd::seq_lib::group_to_multiset_ensures;

    assert forall|i: int| 0 <= i < b.len() implies {
        &&& m.contains_key((#[trigger] b[i]).0)
        &&& m[b[i].0] == b[i].1
        &&& in_scan_range(b[i].0, lo, hi)
    } by {
        assert(b.contains(b[i]));
        assert(b.to_multiset().count(b[i]) > 0);
        assert(a.to_multiset().count(b[i]) > 0);
        assert(a.contains(b[i]));
        let t = choose|t: int| 0 <= t < a.len() && a[t] == b[i];
        assert(m.contains_key(a[t].0));
    }
    assert forall|k: Seq<char>| m.contains_key(k) && in_scan_range(k, lo, hi) implies exists|i: int|
        0 <= i < b.len() && (#[trigger] b[i]).0 == k by {
        let t = choose|t: int| 0 <= t < a.len() && (#[trigger] a[t]).0 == k;
        assert(a.contains(a[t]));
        assert(a.to_multiset().count(a[t]) > 0);
        assert(b.to_multiset().count(a[t]) > 0);
        assert(b.contains(a[t]));
        let i = choose|i: int| 0 <= i < b.len() && b[i] == a[t];
        assert(b[i].0 == k);
    }
    assert forall|i: int, j: int| 0 <= i < j < b.len() implies (#[trigger] b[i]).0 != (
    #[trigger] b[j]).0 by {
        if b[i].0 == b[j].0 {
            if b[i] == b[j] {
                lemma_two_indices_count(b, i, j);
                lemma_count_two_indices(a, b[i]);
                let (t1, t2) = choose|t1: int, t2: int|
                    0 <= t1 < t2 < a.len() && a[t1] == b[i] && a[t2] == b[i];
                assert(a[t1].0 != a[t2].0);
            } else {
                assert(b.contains(b[i]) && b.contains(b[j]));
                assert(b.to_multiset().count(b[i]) > 0 && b.to_multiset().count(b[j]) > 0);
                assert(a.to_multiset().count(b[i]) > 0 && a.to_multiset().count(b[j]) > 0);
                assert(a.contains(b[i]) && a.contains(b[j]));
                let t1 = choose|t1: int| 0 <= t1 < a.len() && a[t1] == b[i];
                let t2 = choose|t2: int| 0 <= t2 < a.len() && a[t2] == b[j];
                assert(t1 != t2);
                if t1 < t2 {
                    assert(a[t1].0 != a[t2].0);
                } else {
                    assert(a[t2].0 != a[t1].0);
                }
            }
        }
    }
}

/// Mapping the two sides of a permutation gives a permutation.
pub proof fn lemma_map_values_permutation<A, B>(a: Seq<A>, b: Seq<A>, f: spec_fn(A) -> B)
    requires
        a.to_multiset() == b.to_multiset(),
    ensures
        a.map_values(f).to_multiset() == b.map_values(f).to_multiset(),
    decreases a.len(),
{
    broadcast use vstd::seq_lib::group_to_multiset_ensures;

    if a.len() == 0 {
        assert(a.to_multiset().len() == 0);
        assert(b.to_multiset().len() == b.len());
        assert(b.len() == 0);
        assert(a.map_values(f) =~= Seq::<B>::empty());
        assert(b.map_values(f) =~= Seq::<B>::empty());
    } else {
        let x = a.last();
        assert(a =~= a.drop_last().push(x));
        assert(a.contains(x));
        assert(a.to_multiset().count(x) > 0);
        assert(b.to_multiset().count(x) > 0);
        assert(b.contains(x));
        let j = choose|j: int| 0 <= j < b.len() && b[j] == x;
        assert(b.remove(j).to_multiset() == b.to_multiset().remove(x));
        assert(a.drop_last().to_multiset() =~= b.remove(j).to_multiset());
        lemma_map_values_permutation(a.drop_last(), b.remove(j), f);
        assert(a.map_values(f) =~= a.drop_last().map_values(f).push(f(x)));
        assert(b.remove(j).map_values(f) =~= b.map_values(f).remove(j));
        assert(b.map_values(f).remove(j).to_multiset() == b.map_values(f).to_multiset().remove(
            b.map_values(f)[j],
        ));
        assert(b.map_values(f)[j] == f(x));
        assert(b.map_values(f).contains(f(x)));
        assert(a.map_values(f).to_multiset() == b.map_values(f).to_multiset().remove(
            f(x),
        ).insert(f(x)));
        assert(b.map_values(f).to_multiset().remove(f(x)).insert(f(x)) =~= b.map_values(
            f,
        ).to_multiset());
    }
}

// ---------------------------------------------------------------------------
// Point-operation laws.
// ---------------------------------------------------------------------------

/// For every non-empty key: after a put, a get of that key sees exactly
/// the value written, until it is overwritten (the new value wins) or
/// deleted (the key is absent); keys other than the one written are
/// untouched.  Stated over the store model that `put`, `get` and `delete`
/// are specified against.
pub proof fn lemma_get_after_put_delete(m: Map<Seq<char>, Seq<char>>, k: Seq<char>, v: Seq<char>)
    ensures
        m.insert(k, v).contains_key(k),
        m.insert(k, v)[k] == v,
        forall|w: Seq<char>| (#[trigger] m.insert(k, v).insert(k, w))[k] == w,
        !m.insert(k, v).remove(k).contains_key(k),
        forall|k2: Seq<char>|
            k2 != k ==> m.insert(k, v).contains_key(k2) == m.contains_key(k2) && m.remove(
                k,
            ).contains_key(k2) == m.contains_key(k2),
        forall|k2: Seq<char>|
            k2 != k && m.contains_key(k2) ==> (#[trigger] m.insert(k, v)[k2]) == m[k2] && m.remove(
                k,
            )[k2] == m[k2],
{
}

} // verus!
