//! An ordered byte-keyed in-memory key-value store: the entries sit in one
//! vector, sorted strictly ascending by key in lexicographic order. It
//! supports point get and put and positioning by lower bound, which is what
//! forward and reverse prefix scans and "latest" lookups are built from.

use crate::order::lemma_lex_irrefl;
use crate::order::lemma_lex_total;
use crate::order::lemma_lex_trans;
use crate::order::lex_less;
use crate::order::lex_lt;
use vstd::prelude::*;

verus! {

/// One stored pair.
pub struct KvPair {
    pub key: Vec<u8>,
    pub value: Vec<u8>,
}

/// The store itself. The sort invariant is stated by `kv_sorted` over the
/// view and carried by every operation.
pub struct KvStore {
    entries: Vec<KvPair>,
}

/// Keys strictly ascending: no duplicates, lexicographic order.
pub open spec fn kv_sorted(s: Seq<(Seq<u8>, Seq<u8>)>) -> bool {
    forall|i: int, j: int| 0 <= i < j < s.len() ==> #[trigger] lex_lt(s[i].0, s[j].0)
}

/// The value stored under `k`, if any.
pub open spec fn kv_get(s: Seq<(Seq<u8>, Seq<u8>)>, k: Seq<u8>) -> Option<Seq<u8>>
    decreases s.len(),
{
    if s.len() == 0 {
        None
    } else if s[0].0 == k {
        Some(s[0].1)
    } else {
        kv_get(s.drop_first(), k)
    }
}

/// Whether some value is stored under `k`.
pub open spec fn kv_contains(s: Seq<(Seq<u8>, Seq<u8>)>, k: Seq<u8>) -> bool {
    kv_get(s, k) is Some
}

/// The store after writing `v` under `k`: the sorted insert, replacing the
/// value if the key is already present.
pub open spec fn kv_put(s: Seq<(Seq<u8>, Seq<u8>)>, k: Seq<u8>, v: Seq<u8>) -> Seq<
    (Seq<u8>, Seq<u8>),
>
    decreases s.len(),
{
    if s.len() == 0 {
        seq![(k, v)]
    } else if lex_lt(k, s[0].0) {
        seq![(k, v)] + s
    } else if k == s[0].0 {
        seq![(k, v)] + s.drop_first()
    } else {
        seq![s[0]] + kv_put(s.drop_first(), k, v)
    }
}

/// The number of leading entries whose key sorts below `k`; in a sorted
/// store, the position where `k` or its successor sits.
pub open spec fn lb_spec(s: Seq<(Seq<u8>, Seq<u8>)>, k: Seq<u8>) -> int
    decreases s.len(),
{
    if s.len() == 0 {
        0
    } else if lex_lt(s[0].0, k) {
        1 + lb_spec(s.drop_first(), k)
    } else {
        0
    }
}

/// In a sorted store the lower bound splits the entries: strictly below `k`
/// before it, at or above `k` from it on.
pub proof fn lemma_lb_split(s: Seq<(Seq<u8>, Seq<u8>)>, k: Seq<u8>)
    requires
        kv_sorted(s),
    ensures
        0 <= lb_spec(s, k) <= s.len(),
        forall|j: int| 0 <= j < lb_spec(s, k) ==> #[trigger] lex_lt(s[j].0, k),
        forall|j: int| lb_spec(s, k) <= j < s.len() ==> !#[trigger] lex_lt(s[j].0, k),
    decreases s.len(),
{
    if s.len() > 0 {
        let rest = s.drop_first();
        assert(kv_sorted(rest)) by {
            assert(forall|i: int, j: int|
                0 <= i < j < rest.len() ==> rest[i] == s[i + 1] && rest[j] == s[j + 1]);
        }
        lemma_lb_split(rest, k);
        if lex_lt(s[0].0, k) {
            assert(forall|j: int| 1 <= j < lb_spec(s, k) ==> s[j] == rest[j - 1]);
            assert(forall|j: int| lb_spec(s, k) <= j < s.len() ==> s[j] == rest[j - 1]);
        } else {
            assert forall|j: int| 0 <= j < s.len() implies !#[trigger] lex_lt(s[j].0, k) by {
                if j > 0 {
                    if lex_lt(s[j].0, k) {
                        lemma_lex_trans(s[0].0, s[j].0, k);
                    }
                }
            }
        }
    }
}

/// Where `kv_get` finds its answer: the entry at the first index holding `k`.
pub proof fn lemma_kv_get_index(s: Seq<(Seq<u8>, Seq<u8>)>, k: Seq<u8>, i: int)
    requires
        0 <= i < s.len(),
        s[i].0 == k,
        forall|j: int| 0 <= j < i ==> #[trigger] s[j].0 != k,
    ensures
        kv_get(s, k) == Some(s[i].1),
    decreases i,
{
    if i > 0 {
        let rest = s.drop_first();
        assert(forall|j: int| 0 <= j < i - 1 ==> #[trigger] rest[j].0 == s[j + 1].0);
        lemma_kv_get_index(rest, k, i - 1);
    }
}

/// A key held by no entry is absent.
pub proof fn lemma_kv_get_none(s: Seq<(Seq<u8>, Seq<u8>)>, k: Seq<u8>)
    requires
        forall|j: int| 0 <= j < s.len() ==> #[trigger] s[j].0 != k,
    ensures
        kv_get(s, k) is None,
    decreases s.len(),
{
    if s.len() > 0 {
        let rest = s.drop_first();
        assert(forall|j: int| 0 <= j < rest.len() ==> #[trigger] rest[j].0 == s[j + 1].0);
        lemma_kv_get_none(rest, k);
    }
}

/// A present key is held by some entry.
pub proof fn lemma_kv_get_some_index(s: Seq<(Seq<u8>, Seq<u8>)>, k: Seq<u8>)
    requires
        kv_get(s, k) is Some,
    ensures
        exists|i: int| 0 <= i < s.len() && #[trigger] s[i].0 == k && s[i].1 == kv_get(s, k)->Some_0,
    decreases s.len(),
{
    if s.len() > 0 && s[0].0 != k {
        lemma_kv_get_some_index(s.drop_first(), k);
        let i = choose|i: int|
            0 <= i < s.drop_first().len() && #[trigger] s.drop_first()[i].0 == k
                && s.drop_first()[i].1 == kv_get(s.drop_first(), k)->Some_0;
        assert(s[i + 1].0 == k && s[i + 1].1 == kv_get(s, k)->Some_0);
    }
}

/// What a write does to every later read: the written key now holds `v`,
/// every other key is untouched.
pub proof fn lemma_kv_get_put(s: Seq<(Seq<u8>, Seq<u8>)>, k: Seq<u8>, v: Seq<u8>, q: Seq<u8>)
    ensures
        kv_get(kv_put(s, k, v), q) == if q == k {
            Some(v)
        } else {
            kv_get(s, q)
        },
    decreases s.len(),
{
    let out = kv_put(s, k, v);
    if s.len() == 0 {
        assert(out =~= seq![(k, v)]);
        assert(out[0] == (k, v));
        if q == k {
            assert(kv_get(out, q) == Some(v));
        } else {
            assert(kv_get(out, q) == kv_get(out.drop_first(), q));
            assert(out.drop_first() =~= Seq::<(Seq<u8>, Seq<u8>)>::empty());
            assert(kv_get(out.drop_first(), q) is None);
        }
    } else if lex_lt(k, s[0].0) {
        assert(out =~= seq![(k, v)] + s);
        assert(out[0] == (k, v));
        if q == k {
            assert(kv_get(out, q) == Some(v));
        } else {
            assert(kv_get(out, q) == kv_get(out.drop_first(), q));
            assert(out.drop_first() =~= s);
        }
    } else if k == s[0].0 {
        assert(out =~= seq![(k, v)] + s.drop_first());
        assert(out[0] == (k, v));
        if q == k {
            assert(kv_get(out, q) == Some(v));
        } else {
            assert(kv_get(out, q) == kv_get(out.drop_first(), q));
            assert(out.drop_first() =~= s.drop_first());
            assert(kv_get(s, q) == kv_get(s.drop_first(), q));
        }
    } else {
        assert(out =~= seq![s[0]] + kv_put(s.drop_first(), k, v));
        assert(out[0] == s[0]);
        lemma_lex_irrefl(k);
        assert(s[0].0 != k);
        lemma_kv_get_put(s.drop_first(), k, v, q);
        assert(out.drop_first() =~= kv_put(s.drop_first(), k, v));
        if q == s[0].0 {
            assert(q != k);
            assert(kv_get(out, q) == Some(out[0].1));
            assert(kv_get(s, q) == Some(s[0].1));
        } else {
            assert(kv_get(out, q) == kv_get(out.drop_first(), q));
            assert(kv_get(s, q) == kv_get(s.drop_first(), q));
        }
    }
}

/// A write into a sorted store by way of the lower bound: an update in place
/// where the key is present, an insert at the bound where it is not.
pub proof fn lemma_kv_put_at(s: Seq<(Seq<u8>, Seq<u8>)>, k: Seq<u8>, v: Seq<u8>, i: int)
    requires
        0 <= i <= s.len(),
        forall|j: int| 0 <= j < i ==> #[trigger] lex_lt(s[j].0, k),
        i < s.len() ==> !lex_lt(s[i].0, k),
    ensures
        kv_put(s, k, v) == if i < s.len() && s[i].0 == k {
            s.update(i, (k, v))
        } else {
            s.insert(i, (k, v))
        },
    decreases s.len(),
{
    if i == 0 {
        if s.len() == 0 {
            assert(s.insert(0, (k, v)) =~= seq![(k, v)]);
        } else {
            lemma_lex_total(k, s[0].0);
            if s[0].0 == k {
                assert(s.update(0, (k, v)) =~= seq![(k, v)] + s.drop_first());
            } else {
                assert(lex_lt(k, s[0].0));
                assert(s.insert(0, (k, v)) =~= seq![(k, v)] + s);
            }
        }
    } else {
        assert(lex_lt(s[0].0, k));
        lemma_lex_irrefl(k);
        assert(s[0].0 != k);
        assert(!lex_lt(k, s[0].0)) by {
            lemma_lex_total(s[0].0, k);
        }
        let rest = s.drop_first();
        assert(forall|j: int| 0 <= j < i - 1 ==> #[trigger] rest[j].0 == s[j + 1].0);
        lemma_kv_put_at(rest, k, v, i - 1);
        if i < s.len() && s[i].0 == k {
            assert(rest[i - 1].0 == k);
            assert(seq![s[0]] + rest.update(i - 1, (k, v)) =~= s.update(i, (k, v)));
        } else {
            assert(seq![s[0]] + rest.insert(i - 1, (k, v)) =~= s.insert(i, (k, v)));
        }
    }
}

/// A write keeps the store sorted.
pub proof fn lemma_kv_put_sorted(s: Seq<(Seq<u8>, Seq<u8>)>, k: Seq<u8>, v: Seq<u8>)
    requires
        kv_sorted(s),
    ensures
        kv_sorted(kv_put(s, k, v)),
{
    lemma_lb_split(s, k);
    let i = lb_spec(s, k);
    lemma_kv_put_at(s, k, v, i);
    let out = kv_put(s, k, v);
    if i < s.len() && s[i].0 == k {
        assert forall|a: int, b: int| 0 <= a < b < out.len() implies #[trigger] lex_lt(
            out[a].0,
            out[b].0,
        ) by {
            assert(out =~= s.update(i, (k, v)));
            if a == i {
                assert(out[b] == s[b]);
                assert(lex_lt(s[i].0, s[b].0));
            } else if b == i {
                assert(out[a] == s[a]);
                assert(lex_lt(s[a].0, s[i].0));
            } else {
                assert(out[a] == s[a] && out[b] == s[b]);
            }
        }
    } else {
        lemma_lex_total(k, if i < s.len() {
            s[i].0
        } else {
            k
        });
        assert forall|a: int, b: int| 0 <= a < b < out.len() implies #[trigger] lex_lt(
            out[a].0,
            out[b].0,
        ) by {
            assert(out =~= s.insert(i, (k, v)));
            assert(forall|j: int| 0 <= j < i ==> out[j] == s[j]);
            assert(forall|j: int| i < j < out.len() ==> out[j] == s[j - 1]);
            if a == i {
                let prev = s[b - 1].0;
                assert(!lex_lt(prev, k));
                lemma_lex_total(prev, k);
                assert(prev != k);
                assert(lex_lt(k, prev));
            } else if b == i {
                assert(lex_lt(s[a].0, k));
            }
        }
    }
}

/// In a sorted store every row is what `kv_get` answers for its key.
pub proof fn lemma_sorted_kv_get_at(s: Seq<(Seq<u8>, Seq<u8>)>, i: int)
    requires
        kv_sorted(s),
        0 <= i < s.len(),
    ensures
        kv_get(s, s[i].0) == Some(s[i].1),
{
    assert forall|j: int| 0 <= j < i implies #[trigger] s[j].0 != s[i].0 by {
        if s[j].0 == s[i].0 {
            lemma_lex_irrefl(s[i].0);
        }
    }
    lemma_kv_get_index(s, s[i].0, i);
}

/// A fresh copy of a byte vector.
pub fn copy_bytes(v: &Vec<u8>) -> (r: Vec<u8>)
    ensures
        r@ == v@,
{
    let mut r: Vec<u8> = Vec::new();
    let mut i: usize = 0;
    while i < v.len()
        invariant
            0 <= i <= v@.len(),
            r@ == v@.take(i as int),
        decreases v@.len() - i,
    {
        r.push(v[i]);
        proof {
            assert(v@.take(i + 1) =~= v@.take(i as int).push(v@[i as int]));
        }
        i += 1;
    }
    proof {
        assert(v@.take(v@.len() as int) =~= v@);
    }
    r
}

/// Two byte strings are equal exactly when they agree byte for byte.
pub fn bytes_eq(a: &[u8], b: &[u8]) -> (r: bool)
    ensures
        r == (a@ == b@),
{
    if a.len() != b.len() {
        proof {
            assert(a@ != b@);
        }
        return false;
    }
    let mut i: usize = 0;
    while i < a.len()
        invariant
            a@.len() == b@.len(),
            0 <= i <= a@.len(),
            a@.take(i as int) == b@.take(i as int),
        decreases a@.len() - i,
    {
        if a[i] != b[i] {
            proof {
                assert(a@.take(i + 1)[i as int] == a@[i as int]);
                assert(b@.take(i + 1)[i as int] == b@[i as int]);
            }
            return false;
        }
        proof {
            assert(a@.take(i + 1) =~= b@.take(i + 1));
        }
        i += 1;
    }
    proof {
        assert(a@.take(a@.len() as int) =~= a@);
        assert(b@.take(b@.len() as int) =~= b@);
    }
    true
}

impl KvStore {
    /// The entries, in key order.
    pub closed spec fn view(&self) -> Seq<(Seq<u8>, Seq<u8>)> {
        self.entries@.map_values(|p: KvPair| (p.key@, p.value@))
    }

    /// An empty store.
    pub fn new() -> (r: KvStore)
        ensures
            r@ == Seq::<(Seq<u8>, Seq<u8>)>::empty(),
            kv_sorted(r@),
    {
        let r = KvStore { entries: Vec::new() };
        proof {
            assert(r@ =~= Seq::<(Seq<u8>, Seq<u8>)>::empty());
        }
        r
    }

    /// How many entries the store holds.
    pub fn num_entries(&self) -> (n: usize)
        ensures
            n == self@.len(),
    {
        self.entries.len()
    }

    /// The key of the entry at position `i`.
    pub fn key_at(&self, i: usize) -> (k: &Vec<u8>)
        requires
            i < self@.len(),
        ensures
            k@ == self@[i as int].0,
    {
        &self.entries[i].key
    }

    /// The value of the entry at position `i`.
    pub fn value_at(&self, i: usize) -> (v: &Vec<u8>)
        requires
            i < self@.len(),
        ensures
            v@ == self@[i as int].1,
    {
        &self.entries[i].value
    }

    /// Point lookup.
    pub fn get(&self, key: &[u8]) -> (r: Option<&Vec<u8>>)
        ensures
            r is Some <==> kv_contains(self@, key@),
            r matches Some(v) ==> kv_get(self@, key@) == Some(v@),
    {
        let n = self.entries.len();
        let mut i: usize = 0;
        while i < n
            invariant
                n == self@.len(),
                0 <= i <= n,
                forall|j: int| 0 <= j < i ==> #[trigger] self@[j].0 != key@,
            decreases n - i,
        {
            if bytes_eq(self.entries[i].key.as_slice(), key) {
                proof {
                    lemma_kv_get_index(self@, key@, i as int);
                }
                return Some(&self.entries[i].value);
            }
            i += 1;
        }
        proof {
            lemma_kv_get_none(self@, key@);
        }
        None
    }

    /// The first position whose key does not sort below `key`.
    pub fn lower_bound(&self, key: &[u8]) -> (r: usize)
        ensures
            0 <= r <= self@.len(),
            r == lb_spec(self@, key@),
            forall|j: int| 0 <= j < r ==> #[trigger] lex_lt(self@[j].0, key@),
            r < self@.len() ==> !lex_lt(self@[r as int].0, key@),
    {
        let n = self.entries.len();
        let mut i: usize = 0;
        proof {
            assert(self@.skip(0) =~= self@);
        }
        while i < n
            invariant
                n == self@.len(),
                0 <= i <= n,
                forall|j: int| 0 <= j < i ==> #[trigger] lex_lt(self@[j].0, key@),
                lb_spec(self@, key@) == i + lb_spec(self@.skip(i as int), key@),
            decreases n - i,
        {
            proof {
                assert(self@.skip(i as int)[0] == self@[i as int]);
            }
            if !lex_less(self.entries[i].key.as_slice(), key) {
                proof {
                    assert(lb_spec(self@.skip(i as int), key@) == 0);
                }
                return i;
            }
            proof {
                assert(self@.skip(i as int).drop_first() =~= self@.skip(i + 1));
            }
            i += 1;
        }
        proof {
            assert(self@.skip(n as int).len() == 0);
        }
        i
    }

    /// A snapshot: a fresh store with the same entries.
    pub fn duplicate(&self) -> (r: KvStore)
        ensures
            r@ == self@,
    {
        let mut entries: Vec<KvPair> = Vec::new();
        let mut i: usize = 0;
        while i < self.entries.len()
            invariant
                0 <= i <= self.entries@.len(),
                entries@.len() == i,
                forall|j: int|
                    0 <= j < i ==> (#[trigger] entries@[j].key@, entries@[j].value@) == (
                    self.entries@[j].key@,
                    self.entries@[j].value@,
                ),
            decreases self.entries@.len() - i,
        {
            let key = copy_bytes(&self.entries[i].key);
            let value = copy_bytes(&self.entries[i].value);
            entries.push(KvPair { key, value });
            i += 1;
        }
        let r = KvStore { entries };
        proof {
            assert(r@ =~= self@);
        }
        r
    }

    /// Writes `value` under `key`, keeping the entries sorted; an existing
    /// entry with the same key is replaced.
    pub fn put(&mut self, key: Vec<u8>, value: Vec<u8>)
        requires
            kv_sorted(old(self)@),
        ensures
            final(self)@ == kv_put(old(self)@, key@, value@),
            kv_sorted(final(self)@),
    {
        let ghost s = self@;
        let ghost kview = key@;
        let ghost vview = value@;
        let i = self.lower_bound(key.as_slice());
        proof {
            lemma_kv_put_at(s, kview, vview, i as int);
            lemma_kv_put_sorted(s, kview, vview);
        }
        if i < self.entries.len() && bytes_eq(self.entries[i].key.as_slice(), key.as_slice()) {
            self.entries.remove(i);
            self.entries.insert(i, KvPair { key, value });
            proof {
                assert(self@ =~= s.update(i as int, (kview, vview)));
            }
        } else {
            self.entries.insert(i, KvPair { key, value });
            proof {
                assert(self@ =~= s.insert(i as int, (kview, vview)));
            }
        }
    }
}

} // verus!
