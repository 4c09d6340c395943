//! An ordered key-value store: entries held as a vector of key-value
//! pairs in strictly ascending key order, with get / insert / remove and
//! positional access. All entity tables of the auction system live in
//! stores of this shape, so ascending range scans and exclusive-cursor
//! pagination fall out of the representation.

use vstd::prelude::*;

verus! {

/// The entries are in strictly ascending key order (so keys are unique).
pub open spec fn sorted_entries<V>(s: Seq<(u64, V)>) -> bool {
    forall|i: int, j: int| 0 <= i < j < s.len() ==> s[i].0 < s[j].0
}

/// Some entry carries key `k`.
pub open spec fn has_key<V>(s: Seq<(u64, V)>, k: u64) -> bool {
    exists|i: int| 0 <= i < s.len() && (#[trigger] s[i]).0 == k
}

/// The value bound to `k` at the first entry carrying it, if any.
pub open spec fn lookup<V>(s: Seq<(u64, V)>, k: u64) -> Option<V>
    decreases s.len(),
{
    if s.len() == 0 {
        None
    } else if s[0].0 == k {
        Some(s[0].1)
    } else {
        lookup(s.drop_first(), k)
    }
}

/// The entries with `k` bound to `v`, inserted or replaced at its sorted
/// position.
pub open spec fn insert_entry<V>(s: Seq<(u64, V)>, k: u64, v: V) -> Seq<(u64, V)>
    decreases s.len(),
{
    if s.len() == 0 {
        seq![(k, v)]
    } else if k < s[0].0 {
        seq![(k, v)] + s
    } else if k == s[0].0 {
        seq![(k, v)] + s.drop_first()
    } else {
        seq![s[0]] + insert_entry(s.drop_first(), k, v)
    }
}

/// The entries with the entry carrying `k` (if any) taken out.
pub open spec fn remove_entry<V>(s: Seq<(u64, V)>, k: u64) -> Seq<(u64, V)>
    decreases s.len(),
{
    if s.len() == 0 {
        s
    } else if s[0].0 == k {
        s.drop_first()
    } else {
        seq![s[0]] + remove_entry(s.drop_first(), k)
    }
}

/// The keys of the entries, in order.
pub open spec fn keys_of<V>(s: Seq<(u64, V)>) -> Seq<u64> {
    s.map_values(|p: (u64, V)| p.0)
}

/// The keys of the first `limit` entries whose key lies strictly beyond
/// the cursor, in order (all entries count when the cursor is `None`).
pub open spec fn page_keys<V>(s: Seq<(u64, V)>, start_after: Option<u64>, limit: nat) -> Seq<u64>
    decreases s.len(),
{
    if s.len() == 0 || limit == 0 {
        Seq::empty()
    } else if start_after is Some && s[0].0 <= start_after.unwrap() {
        page_keys(s.drop_first(), start_after, limit)
    } else {
        seq![s[0].0] + page_keys(s.drop_first(), start_after, (limit - 1) as nat)
    }
}

pub proof fn lemma_has_key_drop_first<V>(s: Seq<(u64, V)>, k: u64)
    requires
        s.len() > 0,
    ensures
        has_key(s, k) <==> (s[0].0 == k || has_key(s.drop_first(), k)),
{
    if has_key(s, k) {
        let i = choose|i: int| 0 <= i < s.len() && (#[trigger] s[i]).0 == k;
        if i > 0 {
            assert(s.drop_first()[i - 1].0 == k);
        }
    }
    if has_key(s.drop_first(), k) {
        let i = choose|i: int| 0 <= i < s.drop_first().len() && (#[trigger] s.drop_first()[i]).0
            == k;
        assert(s[i + 1].0 == k);
    }
}

pub proof fn lemma_lookup_at<V>(s: Seq<(u64, V)>, k: u64, i: int)
    requires
        0 <= i < s.len(),
        s[i].0 == k,
        forall|j: int| 0 <= j < i ==> (#[trigger] s[j]).0 != k,
    ensures
        lookup(s, k) == Some(s[i].1),
    decreases s.len(),
{
    if i > 0 {
        assert(s.drop_first()[i - 1] == s[i]);
        assert(forall|j: int| 0 <= j < i - 1 ==> (#[trigger] s.drop_first()[j]).0 != k);
        lemma_lookup_at(s.drop_first(), k, i - 1);
    }
}

pub proof fn lemma_lookup_absent<V>(s: Seq<(u64, V)>, k: u64)
    requires
        !has_key(s, k),
    ensures
        lookup(s, k) is None,
    decreases s.len(),
{
    if s.len() > 0 {
        assert(s[0].0 != k);
        lemma_has_key_drop_first(s, k);
        lemma_lookup_absent(s.drop_first(), k);
    }
}

pub proof fn lemma_lookup_has_key<V>(s: Seq<(u64, V)>, k: u64)
    ensures
        has_key(s, k) <==> lookup(s, k) is Some,
    decreases s.len(),
{
    if s.len() > 0 {
        lemma_has_key_drop_first(s, k);
        lemma_lookup_has_key(s.drop_first(), k);
    }
}

/// Inserting keeps the entries sorted, rebinds exactly `k`, leaves every
/// other key bound as before, and introduces no key but `k`.
pub proof fn lemma_insert_entry<V>(s: Seq<(u64, V)>, k: u64, v: V)
    requires
        sorted_entries(s),
    ensures
        sorted_entries(insert_entry(s, k, v)),
        lookup(insert_entry(s, k, v), k) == Some(v),
        forall|k2: u64| k2 != k ==> lookup(insert_entry(s, k, v), k2) == lookup(s, k2),
        insert_entry(s, k, v).len() == if has_key(s, k) {
            s.len()
        } else {
            s.len() + 1
        },
        forall|i: int|
            0 <= i < insert_entry(s, k, v).len() ==> (#[trigger] insert_entry(s, k, v)[i]) == (k, v)
                || s.contains(insert_entry(s, k, v)[i]),
        has_key(s, k) ==> keys_of(insert_entry(s, k, v)) == keys_of(s),
    decreases s.len(),
{
    let ins = insert_entry(s, k, v);
    if s.len() == 0 {
        assert(!has_key(s, k));
        assert(ins[0].0 == k);
        assert(forall|k2: u64| k2 != k ==> lookup(ins, k2) == lookup(s, k2)) by {
            assert(ins.drop_first() =~= s);
        }
    } else if k < s[0].0 {
        assert(ins =~= seq![(k, v)] + s);
        assert(!has_key(s, k)) by {
            if has_key(s, k) {
                let i = choose|i: int| 0 <= i < s.len() && (#[trigger] s[i]).0 == k;
                if i > 0 {
                    assert(s[0].0 < s[i].0);
                }
            }
        }
        assert(sorted_entries(ins)) by {
            assert(forall|j: int| 1 <= j < ins.len() ==> (#[trigger] ins[j]) == s[j - 1]);
        }
        assert(ins.drop_first() =~= s);
        assert(forall|i: int| 0 <= i < ins.len() ==> (#[trigger] ins[i]) == (k, v) || s.contains(
            ins[i],
        )) by {
            assert(forall|i: int| 1 <= i < ins.len() ==> (#[trigger] ins[i]) == s[i - 1]);
        }
    } else if k == s[0].0 {
        assert(has_key(s, k));
        assert(ins =~= seq![(k, v)] + s.drop_first());
        assert(sorted_entries(ins)) by {
            assert(forall|j: int| 1 <= j < ins.len() ==> (#[trigger] ins[j]) == s[j]);
        }
        assert(ins.drop_first() =~= s.drop_first());
        assert(forall|k2: u64| k2 != k ==> lookup(ins, k2) == lookup(s, k2));
        assert(forall|i: int| 0 <= i < ins.len() ==> (#[trigger] ins[i]).0 == s[i].0);
        assert(keys_of(ins) =~= keys_of(s)) by {
            assert(forall|i: int|
                0 <= i < ins.len() ==> (#[trigger] keys_of(ins)[i]) == ins[i].0 && keys_of(s)[i]
                    == s[i].0);
        }
        assert(forall|i: int| 0 <= i < ins.len() ==> (#[trigger] ins[i]) == (k, v) || s.contains(
            ins[i],
        )) by {
            assert(forall|i: int| 1 <= i < ins.len() ==> (#[trigger] ins[i]) == s[i]);
        }
    } else {
        let d = s.drop_first();
        assert(sorted_entries(d)) by {
            assert(forall|i: int| 0 <= i < d.len() ==> (#[trigger] d[i]) == s[i + 1]);
        }
        lemma_insert_entry(d, k, v);
        let t = insert_entry(d, k, v);
        assert(ins =~= seq![s[0]] + t);
        lemma_has_key_drop_first(s, k);
        assert(forall|m: int| 0 <= m < d.len() ==> (#[trigger] d[m]) == s[m + 1]);
        assert(forall|j: int| 1 <= j < ins.len() ==> (#[trigger] ins[j]) == t[j - 1]);
        assert(forall|j: int| 1 <= j < ins.len() ==> s[0].0 < (#[trigger] ins[j]).0) by {
            assert forall|j: int| 1 <= j < ins.len() implies s[0].0 < (#[trigger] ins[j]).0 by {
                if t[j - 1] == (k, v) {
                } else {
                    assert(d.contains(t[j - 1]));
                    let m = choose|m: int| 0 <= m < d.len() && (#[trigger] d[m]) == t[j - 1];
                    assert(s[0].0 < s[m + 1].0);
                }
            }
        }
        assert(sorted_entries(ins));
        assert(ins.drop_first() =~= t);
        assert(ins[0].0 != k);
        assert(lookup(ins, k) == Some(v));
        assert(forall|k2: u64| k2 != k ==> lookup(ins, k2) == lookup(s, k2)) by {
            assert forall|k2: u64| k2 != k implies lookup(ins, k2) == lookup(s, k2) by {
                if k2 == s[0].0 {
                } else {
                    assert(lookup(ins, k2) == lookup(t, k2));
                    assert(lookup(s, k2) == lookup(d, k2));
                }
            }
        }
        assert(forall|i: int| 0 <= i < ins.len() ==> (#[trigger] ins[i]) == (k, v) || s.contains(
            ins[i],
        )) by {
            assert forall|i: int|
                0 <= i < ins.len() && (#[trigger] ins[i]) != (k, v) implies s.contains(ins[i]) by {
                if i == 0 {
                    assert(s[0] == ins[0]);
                } else {
                    assert(d.contains(t[i - 1]));
                    let m = choose|m: int| 0 <= m < d.len() && (#[trigger] d[m]) == t[i - 1];
                    assert(s[m + 1] == ins[i]);
                }
            }
        }
        if has_key(s, k) {
            assert(has_key(d, k));
            assert(keys_of(t) == keys_of(d));
            assert(keys_of(ins) =~= keys_of(s)) by {
                assert forall|i: int| 0 <= i < ins.len() implies keys_of(ins)[i] == keys_of(s)[i] by {
                    assert(keys_of(ins)[i] == ins[i].0);
                    assert(keys_of(s)[i] == s[i].0);
                    if i >= 1 {
                        assert(ins[i] == t[i - 1]);
                        assert(keys_of(t)[i - 1] == t[i - 1].0);
                        assert(keys_of(d)[i - 1] == d[i - 1].0);
                        assert(d[i - 1] == s[i]);
                    }
                }
            }
        }
    }
}

/// Removing keeps the entries sorted, unbinds exactly `k`, and leaves
/// every other key bound as before.
pub proof fn lemma_remove_entry<V>(s: Seq<(u64, V)>, k: u64)
    requires
        sorted_entries(s),
    ensures
        sorted_entries(remove_entry(s, k)),
        lookup(remove_entry(s, k), k) is None,
        forall|k2: u64| k2 != k ==> lookup(remove_entry(s, k), k2) == lookup(s, k2),
        remove_entry(s, k).len() == if has_key(s, k) {
            s.len() - 1
        } else {
            s.len() as int
        },
        forall|i: int|
            0 <= i < remove_entry(s, k).len() ==> (#[trigger] remove_entry(s, k)[i]).0 != k
                && s.contains(remove_entry(s, k)[i]),
    decreases s.len(),
{
    let rem = remove_entry(s, k);
    if s.len() == 0 {
        assert(!has_key(s, k));
    } else if s[0].0 == k {
        assert(has_key(s, k));
        let d = s.drop_first();
        assert(sorted_entries(d)) by {
            assert(forall|i: int| 0 <= i < d.len() ==> (#[trigger] d[i]) == s[i + 1]);
        }
        assert(forall|i: int| 0 <= i < d.len() ==> (#[trigger] d[i]).0 != k) by {
            assert(forall|i: int| 0 <= i < d.len() ==> s[0].0 < (#[trigger] d[i]).0);
        }
        lemma_lookup_absent_from_indices(d, k);
        assert(forall|k2: u64| k2 != k ==> lookup(rem, k2) == lookup(s, k2));
        assert(forall|i: int| 0 <= i < rem.len() ==> s.contains(#[trigger] rem[i])) by {
            assert forall|i: int| 0 <= i < rem.len() implies s.contains(#[trigger] rem[i]) by {
                assert(s[i + 1] == rem[i]);
            }
        }
    } else {
        let d = s.drop_first();
        assert(sorted_entries(d)) by {
            assert(forall|i: int| 0 <= i < d.len() ==> (#[trigger] d[i]) == s[i + 1]);
        }
        lemma_remove_entry(d, k);
        let t = remove_entry(d, k);
        assert(rem =~= seq![s[0]] + t);
        lemma_has_key_drop_first(s, k);
        assert(forall|j: int| 1 <= j < rem.len() ==> (#[trigger] rem[j]) == t[j - 1]);
        assert(forall|j: int| 1 <= j < rem.len() ==> s[0].0 < (#[trigger] rem[j]).0) by {
            assert forall|j: int| 1 <= j < rem.len() implies s[0].0 < (#[trigger] rem[j]).0 by {
                assert(d.contains(t[j - 1]));
                let m = choose|m: int| 0 <= m < d.len() && (#[trigger] d[m]) == t[j - 1];
                assert(s[0].0 < s[m + 1].0);
            }
        }
        assert(sorted_entries(rem));
        assert(rem.drop_first() =~= t);
        assert(lookup(rem, k) is None);
        assert(forall|k2: u64| k2 != k ==> lookup(rem, k2) == lookup(s, k2)) by {
            assert forall|k2: u64| k2 != k implies lookup(rem, k2) == lookup(s, k2) by {
                if k2 == s[0].0 {
                } else {
                    assert(lookup(rem, k2) == lookup(t, k2));
                    assert(lookup(s, k2) == lookup(d, k2));
                }
            }
        }
        assert(forall|i: int|
            0 <= i < rem.len() ==> (#[trigger] rem[i]).0 != k && s.contains(rem[i])) by {
            assert forall|i: int|
                0 <= i < rem.len() implies (#[trigger] rem[i]).0 != k && s.contains(rem[i]) by {
                if i == 0 {
                    assert(s[0] == rem[0]);
                } else {
                    assert(d.contains(t[i - 1]));
                    let m = choose|m: int| 0 <= m < d.len() && (#[trigger] d[m]) == t[i - 1];
                    assert(s[m + 1] == rem[i]);
                }
            }
        }
    }
}

proof fn lemma_lookup_absent_from_indices<V>(s: Seq<(u64, V)>, k: u64)
    requires
        forall|i: int| 0 <= i < s.len() ==> (#[trigger] s[i]).0 != k,
    ensures
        lookup(s, k) is None,
{
    assert(!has_key(s, k));
    lemma_lookup_absent(s, k);
}

/// An ordered map from `u64` keys to values, kept as entries in strictly
/// ascending key order.
pub struct StoreMap<V> {
    entries: Vec<(u64, V)>,
}

impl<V> View for StoreMap<V> {
    type V = Seq<(u64, V)>;

    closed spec fn view(&self) -> Seq<(u64, V)> {
        self.entries.view()
    }
}

impl<V> StoreMap<V> {
    pub open spec fn wf(self) -> bool {
        sorted_entries(self.view())
    }

    pub fn new() -> (r: Self)
        ensures
            r.view() == Seq::<(u64, V)>::empty(),
            r.wf(),
    {
        let r = StoreMap { entries: Vec::new() };
        proof {
            assert(r.view() =~= Seq::<(u64, V)>::empty());
        }
        r
    }

    pub fn len(&self) -> (n: usize)
        ensures
            n == self.view().len(),
    {
        self.entries.len()
    }

    pub fn key_at(&self, i: usize) -> (k: u64)
        requires
            i < self.view().len(),
        ensures
            k == self.view()[i as int].0,
    {
        self.entries[i].0
    }

    pub fn value_at(&self, i: usize) -> (v: &V)
        requires
            i < self.view().len(),
        ensures
            *v == self.view()[i as int].1,
    {
        &self.entries[i].1
    }

    /// The index of the first entry whose key is not below `k`.
    fn find_index(&self, k: u64) -> (i: usize)
        requires
            self.wf(),
        ensures
            i <= self.view().len(),
            forall|j: int| 0 <= j < i ==> (#[trigger] self.view()[j]).0 < k,
            i < self.view().len() ==> self.view()[i as int].0 >= k,
    {
        let n = self.entries.len();
        let mut i: usize = 0;
        while i < n
            invariant
                i <= n,
                n == self.view().len(),
                forall|j: int| 0 <= j < i ==> (#[trigger] self.view()[j]).0 < k,
            decreases n - i,
        {
            if self.entries[i].0 >= k {
                return i;
            }
            i += 1;
        }
        i
    }

    pub fn get(&self, k: u64) -> (r: Option<&V>)
        requires
            self.wf(),
        ensures
            match r {
                Some(v) => lookup(self.view(), k) == Some(*v),
                None => lookup(self.view(), k) is None && !has_key(self.view(), k),
            },
    {
        let i = self.find_index(k);
        if i < self.entries.len() && self.entries[i].0 == k {
            proof {
                lemma_lookup_at(self.view(), k, i as int);
            }
            Some(&self.entries[i].1)
        } else {
            proof {
                assert(forall|j: int|
                    0 <= j < self.view().len() ==> (#[trigger] self.view()[j]).0 != k) by {
                    assert(forall|j: int|
                        i <= j < self.view().len() ==> self.view()[i as int].0 <= (
                        #[trigger] self.view()[j]).0);
                }
                assert(!has_key(self.view(), k));
                lemma_lookup_absent(self.view(), k);
            }
            None
        }
    }

    pub fn insert(&mut self, k: u64, v: V)
        requires
            old(self).wf(),
        ensures
            final(self).view() == insert_entry(old(self).view(), k, v),
            final(self).wf(),
    {
        proof {
            lemma_insert_entry(old(self).view(), k, v);
        }
        let i = self.find_index(k);
        if i < self.entries.len() && self.entries[i].0 == k {
            let ghost s0 = self.view();
            self.entries.remove(i);
            self.entries.insert(i, (k, v));
            proof {
                assert(self.view() =~= s0.update(i as int, (k, v)));
                lemma_insert_entry_replace(s0, k, v, i as int);
            }
        } else {
            let ghost s0 = self.view();
            self.entries.insert(i, (k, v));
            proof {
                assert(forall|j: int| i <= j < s0.len() ==> (#[trigger] s0[j]).0 > k) by {
                    assert(forall|j: int|
                        i < j < s0.len() ==> s0[i as int].0 <= (#[trigger] s0[j]).0);
                }
                lemma_insert_entry_position(s0, k, v, i as int);
            }
        }
    }

    /// The keys of the first `limit` entries beyond the exclusive
    /// cursor, in ascending order.
    pub fn keys_page(&self, start_after: Option<u64>, limit: usize) -> (r: Vec<u64>)
        ensures
            r.view() == page_keys(self.view(), start_after, limit as nat),
    {
        let mut r: Vec<u64> = Vec::new();
        let n = self.entries.len();
        let mut i: usize = 0;
        proof {
            assert(self.view().subrange(0, n as int) =~= self.view());
            assert(Seq::<u64>::empty() + page_keys(self.view(), start_after, limit as nat)
                =~= page_keys(self.view(), start_after, limit as nat));
        }
        while i < n && r.len() < limit
            invariant
                i <= n,
                n == self.view().len(),
                r.view().len() <= limit,
                page_keys(self.view(), start_after, limit as nat) == r.view() + page_keys(
                    self.view().subrange(i as int, n as int),
                    start_after,
                    (limit - r.view().len()) as nat,
                ),
            decreases n - i,
        {
            let k = self.entries[i].0;
            let ghost rem = self.view().subrange(i as int, n as int);
            proof {
                assert(rem[0] == self.view()[i as int]);
                assert(rem.drop_first() =~= self.view().subrange(i as int + 1, n as int));
            }
            let skip = match start_after {
                Some(s) => k <= s,
                None => false,
            };
            if !skip {
                let ghost r0 = r.view();
                r.push(k);
                proof {
                    assert(r.view() =~= r0 + seq![k]);
                    assert((r0 + seq![k]) + page_keys(
                        rem.drop_first(),
                        start_after,
                        (limit - r.view().len()) as nat,
                    ) =~= r0 + (seq![k] + page_keys(
                        rem.drop_first(),
                        start_after,
                        (limit - r.view().len()) as nat,
                    )));
                }
            }
            i += 1;
        }
        proof {
            if i == n {
                assert(self.view().subrange(n as int, n as int) =~= Seq::<(u64, V)>::empty());
            }
            assert(r.view() + Seq::<u64>::empty() =~= r.view());
        }
        r
    }

    pub fn remove(&mut self, k: u64)
        requires
            old(self).wf(),
        ensures
            final(self).view() == remove_entry(old(self).view(), k),
            final(self).wf(),
    {
        proof {
            lemma_remove_entry(old(self).view(), k);
        }
        let i = self.find_index(k);
        if i < self.entries.len() && self.entries[i].0 == k {
            let ghost s0 = self.view();
            self.entries.remove(i);
            proof {
                lemma_remove_entry_position(s0, k, i as int);
            }
        } else {
            proof {
                let s0 = self.view();
                assert(forall|j: int| 0 <= j < s0.len() ==> (#[trigger] s0[j]).0 != k) by {
                    assert(forall|j: int|
                        i <= j < s0.len() ==> self.view()[i as int].0 <= (#[trigger] s0[j]).0);
                }
                lemma_remove_entry_absent(s0, k);
            }
        }
    }
}

/// Inserting an absent key lands at its sorted position.
pub proof fn lemma_insert_entry_position<V>(s: Seq<(u64, V)>, k: u64, v: V, i: int)
    requires
        sorted_entries(s),
        0 <= i <= s.len(),
        forall|j: int| 0 <= j < i ==> (#[trigger] s[j]).0 < k,
        forall|j: int| i <= j < s.len() ==> (#[trigger] s[j]).0 > k,
    ensures
        insert_entry(s, k, v) == s.insert(i, (k, v)),
    decreases s.len(),
{
    if s.len() == 0 {
        assert(insert_entry(s, k, v) =~= s.insert(0, (k, v)));
    } else if i == 0 {
        assert(k < s[0].0);
        assert(insert_entry(s, k, v) =~= s.insert(0, (k, v)));
    } else {
        assert(s[0].0 < k);
        let d = s.drop_first();
        assert(sorted_entries(d)) by {
            assert(forall|m: int| 0 <= m < d.len() ==> (#[trigger] d[m]) == s[m + 1]);
        }
        assert(forall|j: int| 0 <= j < i - 1 ==> (#[trigger] d[j]).0 < k) by {
            assert(forall|j: int| 0 <= j < d.len() ==> (#[trigger] d[j]) == s[j + 1]);
        }
        assert(forall|j: int| i - 1 <= j < d.len() ==> (#[trigger] d[j]).0 > k) by {
            assert(forall|j: int| 0 <= j < d.len() ==> (#[trigger] d[j]) == s[j + 1]);
        }
        lemma_insert_entry_position(d, k, v, i - 1);
        assert(insert_entry(s, k, v) =~= s.insert(i, (k, v)));
    }
}

/// Inserting a present key replaces the entry in place.
pub proof fn lemma_insert_entry_replace<V>(s: Seq<(u64, V)>, k: u64, v: V, i: int)
    requires
        sorted_entries(s),
        0 <= i < s.len(),
        s[i].0 == k,
    ensures
        insert_entry(s, k, v) == s.update(i, (k, v)),
    decreases s.len(),
{
    if i == 0 {
        assert(insert_entry(s, k, v) =~= s.update(0, (k, v)));
    } else {
        assert(s[0].0 < k);
        let d = s.drop_first();
        assert(sorted_entries(d)) by {
            assert(forall|m: int| 0 <= m < d.len() ==> (#[trigger] d[m]) == s[m + 1]);
        }
        assert(d[i - 1].0 == k);
        lemma_insert_entry_replace(d, k, v, i - 1);
        assert(insert_entry(s, k, v) =~= s.update(i, (k, v)));
    }
}

/// Removing a present key takes out exactly its entry.
pub proof fn lemma_remove_entry_position<V>(s: Seq<(u64, V)>, k: u64, i: int)
    requires
        sorted_entries(s),
        0 <= i < s.len(),
        s[i].0 == k,
    ensures
        remove_entry(s, k) == s.remove(i),
    decreases s.len(),
{
    if i == 0 {
        assert(remove_entry(s, k) =~= s.remove(0));
    } else {
        assert(s[0].0 < k);
        let d = s.drop_first();
        assert(sorted_entries(d)) by {
            assert(forall|m: int| 0 <= m < d.len() ==> (#[trigger] d[m]) == s[m + 1]);
        }
        assert(d[i - 1].0 == k);
        lemma_remove_entry_position(d, k, i - 1);
        assert(remove_entry(s, k) =~= s.remove(i));
    }
}

/// Every key a page reports is a key of the store.
pub proof fn lemma_page_keys_in<V>(s: Seq<(u64, V)>, start_after: Option<u64>, limit: nat)
    ensures
        forall|i: int|
            0 <= i < page_keys(s, start_after, limit).len() ==> has_key(
                s,
                #[trigger] page_keys(s, start_after, limit)[i],
            ),
    decreases s.len(),
{
    if s.len() == 0 || limit == 0 {
    } else {
        let d = s.drop_first();
        if start_after is Some && s[0].0 <= start_after.unwrap() {
            lemma_page_keys_in(d, start_after, limit);
            assert(page_keys(s, start_after, limit) == page_keys(d, start_after, limit));
            assert forall|i: int| 0 <= i < page_keys(s, start_after, limit).len() implies has_key(
                s,
                #[trigger] page_keys(s, start_after, limit)[i],
            ) by {
                assert(page_keys(d, start_after, limit)[i] == page_keys(s, start_after, limit)[i]);
                assert(has_key(d, page_keys(s, start_after, limit)[i]));
                lemma_has_key_drop_first(s, page_keys(s, start_after, limit)[i]);
            }
        } else {
            lemma_page_keys_in(d, start_after, (limit - 1) as nat);
            assert(page_keys(s, start_after, limit) == seq![s[0].0] + page_keys(
                d,
                start_after,
                (limit - 1) as nat,
            ));
            assert forall|i: int| 0 <= i < page_keys(s, start_after, limit).len() implies has_key(
                s,
                #[trigger] page_keys(s, start_after, limit)[i],
            ) by {
                if i == 0 {
                    assert(s[0].0 == page_keys(s, start_after, limit)[0]);
                } else {
                    assert(page_keys(s, start_after, limit)[i] == page_keys(
                        d,
                        start_after,
                        (limit - 1) as nat,
                    )[i - 1]);
                    assert(has_key(d, page_keys(s, start_after, limit)[i]));
                    lemma_has_key_drop_first(s, page_keys(s, start_after, limit)[i]);
                }
            }
        }
    }
}

/// With no cursor, a page is exactly the first `limit` keys.
pub proof fn lemma_page_from_start<V>(s: Seq<(u64, V)>, limit: nat)
    ensures
        page_keys(s, None, limit) == keys_of(s).take(
            if limit <= s.len() {
                limit as int
            } else {
                s.len() as int
            },
        ),
    decreases s.len(),
{
    let t: int = if limit <= s.len() {
        limit as int
    } else {
        s.len() as int
    };
    let p = page_keys(s, None, limit);
    if s.len() == 0 || limit == 0 {
        assert(p =~= keys_of(s).take(t));
    } else {
        let d = s.drop_first();
        lemma_page_from_start(d, (limit - 1) as nat);
        let t1: int = if limit - 1 <= d.len() {
            limit - 1
        } else {
            d.len() as int
        };
        assert(p == seq![s[0].0] + page_keys(d, None, (limit - 1) as nat));
        assert(p.len() == t);
        assert forall|i: int| 0 <= i < t implies p[i] == keys_of(s).take(t)[i] by {
            assert(keys_of(s)[i] == s[i].0);
            if i == 0 {
            } else {
                assert(p[i] == page_keys(d, None, (limit - 1) as nat)[i - 1]);
                assert(page_keys(d, None, (limit - 1) as nat)[i - 1] == keys_of(d).take(t1)[i
                    - 1]);
                assert(keys_of(d)[i - 1] == d[i - 1].0);
                assert(d[i - 1] == s[i]);
            }
        }
        assert(p =~= keys_of(s).take(t));
    }
}

/// A cursor below every key changes nothing.
pub proof fn lemma_page_cursor_below<V>(s: Seq<(u64, V)>, c: u64, limit: nat)
    requires
        forall|i: int| 0 <= i < s.len() ==> (#[trigger] s[i]).0 > c,
    ensures
        page_keys(s, Some(c), limit) == page_keys(s, None, limit),
    decreases s.len(),
{
    if s.len() == 0 || limit == 0 {
    } else {
        let d = s.drop_first();
        assert(forall|i: int| 0 <= i < d.len() ==> (#[trigger] d[i]) == s[i + 1]);
        lemma_page_cursor_below(d, c, (limit - 1) as nat);
    }
}

/// With the key at index `j` as the cursor, a page is the next `limit`
/// keys after position `j`.
pub proof fn lemma_page_after_key<V>(s: Seq<(u64, V)>, j: int, limit: nat)
    requires
        sorted_entries(s),
        0 <= j < s.len(),
    ensures
        page_keys(s, Some(s[j].0), limit) == keys_of(s).skip(j + 1).take(
            if limit <= s.len() - j - 1 {
                limit as int
            } else {
                s.len() - j - 1
            },
        ),
    decreases s.len(),
{
    let c = s[j].0;
    let d = s.drop_first();
    assert(forall|i: int| 0 <= i < d.len() ==> (#[trigger] d[i]) == s[i + 1]);
    assert(sorted_entries(d));
    let t: int = if limit <= s.len() - j - 1 {
        limit as int
    } else {
        s.len() - j - 1
    };
    if limit == 0 {
        assert(page_keys(s, Some(c), limit) =~= keys_of(s).skip(j + 1).take(0));
    } else if j == 0 {
        assert(s[0].0 <= c);
        assert(page_keys(s, Some(c), limit) == page_keys(d, Some(c), limit));
        assert(forall|i: int| 0 <= i < d.len() ==> (#[trigger] d[i]).0 > c);
        lemma_page_cursor_below(d, c, limit);
        lemma_page_from_start(d, limit);
        let td: int = if limit <= d.len() {
            limit as int
        } else {
            d.len() as int
        };
        assert(td == t);
        assert(keys_of(d).take(t) =~= keys_of(s).skip(1).take(t)) by {
            assert(forall|i: int|
                0 <= i < d.len() ==> (#[trigger] keys_of(d)[i]) == d[i].0 && keys_of(s).skip(1)[i]
                    == s[i + 1].0);
        }
    } else {
        assert(s[0].0 < c);
        assert(page_keys(s, Some(c), limit) == page_keys(d, Some(c), limit));
        assert(d[j - 1].0 == c);
        lemma_page_after_key(d, j - 1, limit);
        let td: int = if limit <= d.len() - j {
            limit as int
        } else {
            d.len() - j
        };
        assert(td == t);
        assert(keys_of(d).skip(j).take(t) =~= keys_of(s).skip(j + 1).take(t)) by {
            assert(forall|i: int|
                0 <= i < d.len() - j ==> (#[trigger] keys_of(d).skip(j)[i]) == d[j + i].0
                    && keys_of(s).skip(j + 1)[i] == s[j + 1 + i].0);
        }
    }
}

/// Two successive pages — the second starting after the first page's
/// last key — cover one contiguous ascending prefix of the key
/// sequence, with no overlap and no gap.
pub proof fn lemma_pages_contiguous<V>(s: Seq<(u64, V)>, l1: nat, l2: nat)
    requires
        sorted_entries(s),
        l1 > 0,
        page_keys(s, None, l1).len() > 0,
    ensures
        ({
            let p1 = page_keys(s, None, l1);
            let p2 = page_keys(s, Some(p1.last()), l2);
            p1 + p2 == keys_of(s).take(
                if l1 + l2 <= s.len() {
                    (l1 + l2) as int
                } else {
                    s.len() as int
                },
            )
        }),
{
    lemma_page_from_start(s, l1);
    let m1: int = if l1 <= s.len() {
        l1 as int
    } else {
        s.len() as int
    };
    let p1 = page_keys(s, None, l1);
    assert(p1.len() == m1);
    assert(p1.last() == keys_of(s)[m1 - 1]);
    assert(keys_of(s)[m1 - 1] == s[m1 - 1].0);
    lemma_page_after_key(s, m1 - 1, l2);
    let p2 = page_keys(s, Some(p1.last()), l2);
    let t: int = if l1 + l2 <= s.len() {
        (l1 + l2) as int
    } else {
        s.len() as int
    };
    assert((p1 + p2).len() == t);
    assert forall|i: int| 0 <= i < t implies (p1 + p2)[i] == keys_of(s).take(t)[i] by {
        if i < m1 {
            assert((p1 + p2)[i] == p1[i]);
            assert(p1[i] == keys_of(s)[i]);
        } else {
            assert((p1 + p2)[i] == p2[i - m1]);
            assert(p2[i - m1] == keys_of(s).skip(m1)[i - m1]);
            assert(keys_of(s).skip(m1)[i - m1] == keys_of(s)[i]);
        }
    }
    assert(p1 + p2 =~= keys_of(s).take(t));
}

/// In a sorted store, each entry is what looking its key up returns.
pub proof fn lemma_entry_lookup<V>(s: Seq<(u64, V)>, i: int)
    requires
        sorted_entries(s),
        0 <= i < s.len(),
    ensures
        lookup(s, s[i].0) == Some(s[i].1),
{
    assert(forall|j: int| 0 <= j < i ==> (#[trigger] s[j]).0 < s[i].0);
    lemma_lookup_at(s, s[i].0, i);
}

/// A successful lookup comes from some entry.
pub proof fn lemma_lookup_entry<V>(s: Seq<(u64, V)>, k: u64)
    requires
        lookup(s, k) is Some,
    ensures
        s.contains((k, lookup(s, k).unwrap())),
    decreases s.len(),
{
    if s.len() > 0 {
        if s[0].0 == k {
            assert(s[0] == (k, lookup(s, k).unwrap()));
        } else {
            lemma_lookup_entry(s.drop_first(), k);
            let d = s.drop_first();
            let i = choose|i: int|
                0 <= i < d.len() && (#[trigger] d[i]) == (k, lookup(d, k).unwrap());
            assert(s[i + 1] == (k, lookup(s, k).unwrap()));
        }
    }
}

/// Removing an absent key changes nothing.
pub proof fn lemma_remove_entry_absent<V>(s: Seq<(u64, V)>, k: u64)
    requires
        forall|j: int| 0 <= j < s.len() ==> (#[trigger] s[j]).0 != k,
    ensures
        remove_entry(s, k) == s,
    decreases s.len(),
{
    if s.len() > 0 {
        let d = s.drop_first();
        assert(forall|j: int| 0 <= j < d.len() ==> (#[trigger] d[j]) == s[j + 1]);
        lemma_remove_entry_absent(d, k);
        assert(remove_entry(s, k) =~= s);
    }
}

} // verus!
