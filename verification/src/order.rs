//! Lexicographic order on byte strings, the order in which the key-value
//! store keeps its keys.

use vstd::prelude::*;

verus! {

/// Strict lexicographic order on byte strings: a proper prefix sorts before
/// every extension of it, and otherwise the first differing byte decides.
pub open spec fn lex_lt(a: Seq<u8>, b: Seq<u8>) -> bool
    decreases a.len(),
{
    if b.len() == 0 {
        false
    } else if a.len() == 0 {
        true
    } else if a[0] < b[0] {
        true
    } else if a[0] > b[0] {
        false
    } else {
        lex_lt(a.drop_first(), b.drop_first())
    }
}

/// Non-strict lexicographic order.
pub open spec fn lex_le(a: Seq<u8>, b: Seq<u8>) -> bool {
    lex_lt(a, b) || a == b
}

/// `lex_lt` is asymmetric, and two strings neither of which sorts below the
/// other are equal.
pub proof fn lemma_lex_total(a: Seq<u8>, b: Seq<u8>)
    ensures
        lex_lt(a, b) ==> !lex_lt(b, a),
        !lex_lt(a, b) && !lex_lt(b, a) ==> a == b,
    decreases a.len(),
{
    if a.len() > 0 && b.len() > 0 && a[0] == b[0] {
        lemma_lex_total(a.drop_first(), b.drop_first());
        if !lex_lt(a, b) && !lex_lt(b, a) {
            assert(a.drop_first() == b.drop_first());
            assert forall|i: int| 0 <= i < a.len() implies a[i] == b[i] by {
                if i > 0 {
                    assert(a[i] == a.drop_first()[i - 1]);
                    assert(b[i] == b.drop_first()[i - 1]);
                }
            }
            assert(a =~= b);
        }
    } else if a.len() == 0 && b.len() == 0 {
        assert(a =~= b);
    }
}

/// `lex_lt` is irreflexive.
pub proof fn lemma_lex_irrefl(a: Seq<u8>)
    ensures
        !lex_lt(a, a),
    decreases a.len(),
{
    if a.len() > 0 {
        lemma_lex_irrefl(a.drop_first());
    }
}

/// `lex_lt` is transitive.
pub proof fn lemma_lex_trans(a: Seq<u8>, b: Seq<u8>, c: Seq<u8>)
    requires
        lex_lt(a, b),
        lex_lt(b, c),
    ensures
        lex_lt(a, c),
    decreases a.len(),
{
    if a.len() > 0 && c.len() > 0 && a[0] == c[0] {
        lemma_lex_trans(a.drop_first(), b.drop_first(), c.drop_first());
    }
}

/// A common prefix neither creates nor hides an order difference.
pub proof fn lemma_lex_common_prefix(p: Seq<u8>, a: Seq<u8>, b: Seq<u8>)
    ensures
        lex_lt(p + a, p + b) == lex_lt(a, b),
    decreases p.len(),
{
    if p.len() == 0 {
        assert(p + a =~= a);
        assert(p + b =~= b);
    } else {
        assert((p + a).drop_first() =~= p.drop_first() + a);
        assert((p + b).drop_first() =~= p.drop_first() + b);
        lemma_lex_common_prefix(p.drop_first(), a, b);
    }
}

/// If a common prefix of `a` and `b` has been checked byte by byte up to `i`,
/// the order of `a` and `b` is the order of their remainders.
pub proof fn lemma_lex_skip(a: Seq<u8>, b: Seq<u8>, i: int)
    requires
        0 <= i <= a.len(),
        i <= b.len(),
        a.take(i) == b.take(i),
    ensures
        lex_lt(a, b) == lex_lt(a.skip(i), b.skip(i)),
    decreases i,
{
    if i == 0 {
        assert(a.skip(0) =~= a);
        assert(b.skip(0) =~= b);
    } else {
        assert(a.take(i)[0] == a[0]);
        assert(b.take(i)[0] == b[0]);
        assert(a.drop_first().take(i - 1) =~= a.take(i).drop_first());
        assert(b.drop_first().take(i - 1) =~= b.take(i).drop_first());
        assert(a.drop_first().skip(i - 1) =~= a.skip(i));
        assert(b.drop_first().skip(i - 1) =~= b.skip(i));
        lemma_lex_skip(a.drop_first(), b.drop_first(), i - 1);
    }
}

/// Every byte string between `p` extended by `lo` and `p` extended by `hi`
/// starts with `p` and continues with a byte in `[lo, hi)`.
pub proof fn lemma_lex_between(p: Seq<u8>, k: Seq<u8>, lo: u8, hi: u8)
    requires
        lo < hi,
        lex_le(p.push(lo), k),
        lex_lt(k, p.push(hi)),
    ensures
        k.len() > p.len(),
        k.take(p.len() as int) == p,
        lo <= k[p.len() as int] < hi,
    decreases p.len(),
{
    if p.len() == 0 {
        assert(p.push(lo) =~= seq![lo]);
        assert(p.push(hi) =~= seq![hi]);
        if seq![lo] == k {
            assert(k.len() == 1 && k[0] == lo);
        } else {
            assert(lex_lt(seq![lo], k));
            assert(k.len() > 0);
            if k[0] < lo {
                assert(!lex_lt(seq![lo], k));
                assert(false);
            }
        }
        if k[0] >= hi {
            if k[0] == hi {
                assert(lex_lt(k.drop_first(), seq![hi].drop_first()));
                assert(seq![hi].drop_first().len() == 0);
            }
            assert(false);
        }
        assert(k.take(0) =~= p);
    } else {
        let p2 = p.drop_first();
        assert(p.push(lo)[0] == p[0]);
        assert(p.push(hi)[0] == p[0]);
        assert(p.push(lo).drop_first() =~= p2.push(lo));
        assert(p.push(hi).drop_first() =~= p2.push(hi));
        if p.push(lo) == k {
            assert(k[0] == p[0]);
            assert(k.drop_first() == p2.push(lo));
            assert(lex_le(p2.push(lo), k.drop_first()));
        } else {
            assert(lex_lt(p.push(lo), k));
            assert(k.len() > 0);
            if k[0] < p[0] {
                assert(!lex_lt(p.push(lo), k));
                assert(false);
            }
            if k[0] > p[0] {
                assert(!lex_lt(k, p.push(hi)));
                assert(false);
            }
            assert(k[0] == p[0]);
            assert(lex_lt(p2.push(lo), k.drop_first()));
        }
        assert(lex_lt(k.drop_first(), p2.push(hi)));
        lemma_lex_between(p2, k.drop_first(), lo, hi);
        assert(k.len() > p.len());
        assert(k.take(p.len() as int) =~= p) by {
            assert forall|j: int| 0 <= j < p.len() implies k.take(p.len() as int)[j] == p[j] by {
                if j > 0 {
                    assert(k[j] == k.drop_first()[j - 1]);
                    assert(k.drop_first().take(p.len() - 1) == p2);
                    assert(k.drop_first().take(p.len() - 1)[j - 1] == k.drop_first()[j - 1]);
                    assert(p2[j - 1] == p[j]);
                }
            }
        }
        assert(k[p.len() as int] == k.drop_first()[p.len() - 1]);
    }
}

/// The converse: a byte string that starts with `p` and continues with a byte
/// in `[lo, hi)` sorts between `p` extended by `lo` and `p` extended by `hi`.
pub proof fn lemma_lex_between_converse(p: Seq<u8>, k: Seq<u8>, lo: u8, hi: u8)
    requires
        lo < hi,
        k.len() > p.len(),
        k.take(p.len() as int) == p,
        lo <= k[p.len() as int] < hi,
    ensures
        lex_le(p.push(lo), k),
        lex_lt(k, p.push(hi)),
{
    let n = p.len() as int;
    assert(p.push(lo).take(n) =~= p);
    assert(p.push(hi).take(n) =~= p);
    lemma_lex_skip(p.push(lo), k, n);
    lemma_lex_skip(k, p.push(hi), n);
    assert(p.push(lo).skip(n) =~= seq![lo]);
    assert(p.push(hi).skip(n) =~= seq![hi]);
    let rest = k.skip(n);
    assert(rest.len() >= 1);
    assert(rest[0] == k[n]);
    if lo < k[n] {
        assert(lex_lt(seq![lo], rest));
    } else {
        assert(lo == k[n]);
        if rest.len() == 1 {
            assert(rest =~= seq![lo]);
            assert(k =~= p.push(lo));
        } else {
            assert(seq![lo].drop_first().len() == 0);
            assert(rest.drop_first().len() > 0);
            assert(lex_lt(seq![lo].drop_first(), rest.drop_first()));
            assert(lex_lt(seq![lo], rest));
        }
    }
    assert(lex_lt(rest, seq![hi]));
}

/// Compares two byte strings in lexicographic order.
pub fn lex_less(a: &[u8], b: &[u8]) -> (r: bool)
    ensures
        r == lex_lt(a@, b@),
{
    let n = if a.len() < b.len() {
        a.len()
    } else {
        b.len()
    };
    let mut i: usize = 0;
    while i < n
        invariant
            n <= a@.len(),
            n <= b@.len(),
            n == if a@.len() < b@.len() {
                a@.len() as int
            } else {
                b@.len() as int
            },
            0 <= i <= n,
            a@.take(i as int) == b@.take(i as int),
        decreases n - i,
    {
        proof {
            lemma_lex_skip(a@, b@, i as int);
            assert(a@.skip(i as int)[0] == a@[i as int]);
            assert(b@.skip(i as int)[0] == b@[i as int]);
        }
        if a[i] < b[i] {
            return true;
        }
        if a[i] > b[i] {
            return false;
        }
        proof {
            assert(a@.take(i + 1) =~= b@.take(i + 1));
        }
        i += 1;
    }
    proof {
        lemma_lex_skip(a@, b@, n as int);
        if a.len() < b.len() {
            assert(a@.skip(n as int).len() == 0);
            assert(b@.skip(n as int).len() > 0);
        } else {
            assert(a@.skip(n as int).len() >= 0);
            assert(b@.skip(n as int).len() == 0);
        }
    }
    a.len() < b.len()
}

/// Whether `k` starts with the bytes of `p`.
pub open spec fn starts_with(k: Seq<u8>, p: Seq<u8>) -> bool {
    k.len() >= p.len() && k.take(p.len() as int) == p
}

} // verus!
