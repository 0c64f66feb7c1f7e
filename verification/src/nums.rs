//! Fixed-width big-endian encoding of timestamps, so that lexicographic
//! order on encoded timestamps coincides with numeric order.

use crate::order::lex_lt;
use vstd::arithmetic::div_mod::lemma_fundamental_div_mod;
use vstd::arithmetic::power::lemma_pow_increases;
use vstd::arithmetic::power::pow;
use vstd::prelude::*;

verus! {

/// The `n` big-endian bytes of `t`, most significant first.
pub open spec fn be_bytes_of(t: nat, n: nat) -> Seq<u8>
    decreases n,
{
    if n == 0 {
        Seq::empty()
    } else {
        be_bytes_of(t / 256, (n - 1) as nat).push((t % 256) as u8)
    }
}

/// The number whose big-endian bytes are `s`.
pub open spec fn be_value_of(s: Seq<u8>) -> nat
    decreases s.len(),
{
    if s.len() == 0 {
        0
    } else {
        be_value_of(s.drop_last()) * 256 + (s.last() as nat)
    }
}

/// The capacity of sixteen bytes, worked out step by step.
proof fn lemma_pow256_16()
    ensures
        pow(256, 16) == 0x100000000000000000000000000000000,
{
    reveal(pow);
    assert(pow(256, 0) == 1);
    assert(pow(256, 1) == 0x100);
    assert(pow(256, 2) == 0x10000);
    assert(pow(256, 3) == 0x1000000);
    assert(pow(256, 4) == 0x100000000);
    assert(pow(256, 5) == 0x10000000000);
    assert(pow(256, 6) == 0x1000000000000);
    assert(pow(256, 7) == 0x100000000000000);
    assert(pow(256, 8) == 0x10000000000000000);
    assert(pow(256, 9) == 0x1000000000000000000);
    assert(pow(256, 10) == 0x100000000000000000000);
    assert(pow(256, 11) == 0x10000000000000000000000);
    assert(pow(256, 12) == 0x1000000000000000000000000);
    assert(pow(256, 13) == 0x100000000000000000000000000);
    assert(pow(256, 14) == 0x10000000000000000000000000000);
    assert(pow(256, 15) == 0x1000000000000000000000000000000);
    assert(pow(256, 16) == 0x100000000000000000000000000000000);
}

/// The big-endian encoding has exactly the requested width.
pub proof fn lemma_be_bytes_len(t: nat, n: nat)
    ensures
        be_bytes_of(t, n).len() == n,
    decreases n,
{
    if n > 0 {
        lemma_be_bytes_len(t / 256, (n - 1) as nat);
    }
}

/// A number below the width's capacity is recovered from its big-endian
/// bytes.
pub proof fn lemma_be_round_trip(t: nat, n: nat)
    requires
        t < pow(256, n),
    ensures
        be_value_of(be_bytes_of(t, n)) == t,
    decreases n,
{
    reveal(pow);
    if n == 0 {
        assert(pow(256, 0) == 1);
    } else {
        let x = t / 256;
        let r = t % 256;
        lemma_fundamental_div_mod(t as int, 256);
        assert(pow(256, n) == 256 * pow(256, (n - 1) as nat));
        assert(x < pow(256, (n - 1) as nat)) by (nonlinear_arith)
            requires
                t < 256 * pow(256, (n - 1) as nat),
                t == 256 * x + r,
                0 <= r < 256,
                0 <= x,
        {}
        lemma_be_round_trip(x, (n - 1) as nat);
        lemma_be_bytes_len(x, (n - 1) as nat);
        let s = be_bytes_of(t, n);
        assert(s.drop_last() =~= be_bytes_of(x, (n - 1) as nat));
        assert(s.last() == (r as u8));
        assert(be_value_of(s) == x * 256 + r);
    }
}

/// A big-endian value is below its width's capacity.
pub proof fn lemma_be_value_bound(s: Seq<u8>)
    ensures
        be_value_of(s) < pow(256, s.len() as nat),
    decreases s.len(),
{
    reveal(pow);
    if s.len() == 0 {
        assert(pow(256, 0) == 1);
    } else {
        lemma_be_value_bound(s.drop_last());
        let a = be_value_of(s.drop_last());
        let cap = pow(256, (s.len() - 1) as nat);
        assert(pow(256, s.len() as nat) == 256 * cap);
        assert(a * 256 + s.last() < 256 * cap) by (nonlinear_arith)
            requires
                a < cap,
                s.last() < 256,
                0 <= a,
        {}
    }
}

/// Writes `t` as 16 big-endian bytes.
pub fn u128_to_be_bytes(t: u128) -> (r: Vec<u8>)
    ensures
        r@ == be_bytes_of(t as nat, 16),
        r@.len() == 16,
{
    let mut v: Vec<u8> = Vec::new();
    let mut x = t;
    let mut i: usize = 0;
    proof {
        lemma_be_bytes_len(t as nat, 16);
        assert(be_bytes_of(t as nat, 16) + Seq::<u8>::empty() =~= be_bytes_of(t as nat, 16));
    }
    while i < 16
        invariant
            0 <= i <= 16,
            v@.len() == i,
            be_bytes_of(x as nat, (16 - i) as nat) + v@ == be_bytes_of(t as nat, 16),
        decreases 16 - i,
    {
        let b = (x % 256) as u8;
        let ghost prev = v@;
        v.insert(0, b);
        proof {
            assert(v@ =~= seq![b] + prev);
            let w = (16 - i) as nat;
            assert(be_bytes_of(x as nat, w) == be_bytes_of((x as nat) / 256, (w - 1) as nat).push(
                ((x as nat) % 256) as u8,
            ));
            assert(be_bytes_of((x / 256) as nat, (w - 1) as nat).push(b) + prev =~= be_bytes_of(
                (x / 256) as nat,
                (w - 1) as nat,
            ) + (seq![b] + prev));
        }
        x = x / 256;
        i += 1;
    }
    proof {
        assert(be_bytes_of(x as nat, 0) + v@ =~= v@);
        lemma_be_bytes_len(t as nat, 16);
    }
    v
}

/// Reads a number from 16 big-endian bytes.
pub fn u128_from_be_bytes(b: &[u8]) -> (r: u128)
    requires
        b@.len() == 16,
    ensures
        r as nat == be_value_of(b@),
{
    let mut acc: u128 = 0;
    let mut i: usize = 0;
    proof {
        assert(b@.take(0) =~= Seq::<u8>::empty());
    }
    while i < 16
        invariant
            0 <= i <= 16,
            b@.len() == 16,
            acc as nat == be_value_of(b@.take(i as int)),
        decreases 16 - i,
    {
        proof {
            reveal(pow);
            lemma_be_value_bound(b@.take(i as int));
            lemma_pow_increases(256, i as nat, 15);
            assert(pow(256, 16) == 256 * pow(256, 15));
            lemma_pow256_16();
            assert((acc as nat) * 256 + 255 < pow(256, 16)) by (nonlinear_arith)
                requires
                    (acc as nat) < pow(256, i as nat),
                    pow(256, i as nat) <= pow(256, 15),
                    pow(256, 16) == 256 * pow(256, 15),
            {}
        }
        let byte = b[i];
        acc = acc * 256 + (byte as u128);
        proof {
            assert(b@.take(i + 1).drop_last() =~= b@.take(i as int));
            assert(b@.take(i + 1).last() == b@[i as int]);
        }
        i += 1;
    }
    proof {
        assert(b@.take(16) =~= b@);
    }
    acc
}

/// Reads the ingest timestamp out of the leading 16 bytes of a decoded
/// time part.
pub fn extract_time(bytes: &[u8]) -> (t: u128)
    requires
        bytes@.len() >= 16,
    ensures
        t as nat == be_value_of(bytes@.take(16)),
{
    let head = vstd::slice::slice_subrange(bytes, 0, 16);
    proof {
        assert(bytes@.subrange(0, 16) =~= bytes@.take(16));
    }
    u128_from_be_bytes(head)
}


/// Any sixteen-byte timestamp survives the round trip.
pub proof fn lemma_u128_be_round_trip(t: u128)
    ensures
        be_value_of(be_bytes_of(t as nat, 16)) == t as nat,
{
    lemma_pow256_16();
    lemma_be_round_trip(t as nat, 16);
}

/// Prepending one byte weighs it by the capacity of the rest.
proof fn lemma_be_value_cons(x: u8, s: Seq<u8>)
    ensures
        be_value_of(seq![x] + s) == (x as nat) * pow(256, s.len() as nat) + be_value_of(s),
    decreases s.len(),
{
    reveal(pow);
    if s.len() == 0 {
        assert(seq![x] + s =~= seq![x]);
        assert(seq![x].drop_last() =~= Seq::<u8>::empty());
        assert(be_value_of(Seq::<u8>::empty()) == 0);
        assert(be_value_of(seq![x]) == x as nat);
        assert(pow(256, 0) == 1);
    } else {
        let front = s.drop_last();
        let y = s.last();
        assert((seq![x] + s).drop_last() =~= seq![x] + front);
        assert((seq![x] + s).last() == y);
        lemma_be_value_cons(x, front);
        assert(((x as nat) * pow(256, front.len() as nat) + be_value_of(front)) * 256 == (x as nat)
            * (256 * pow(256, front.len() as nat)) + be_value_of(front) * 256) by (nonlinear_arith);
    }
}

/// On byte strings of one width, lexicographic order is numeric order.
pub proof fn lemma_be_lex_order(a: Seq<u8>, b: Seq<u8>)
    requires
        a.len() == b.len(),
        lex_lt(a, b),
    ensures
        be_value_of(a) < be_value_of(b),
    decreases a.len(),
{
    reveal(pow);
    let a2 = a.drop_first();
    let b2 = b.drop_first();
    assert(a.len() > 0);
    assert(seq![a[0]] + a2 =~= a);
    assert(seq![b[0]] + b2 =~= b);
    lemma_be_value_cons(a[0], a2);
    lemma_be_value_cons(b[0], b2);
    let cap = pow(256, a2.len() as nat);
    if a[0] < b[0] {
        lemma_be_value_bound(a2);
        assert(pow(256, a2.len() as nat) == pow(256, b2.len() as nat));
        assert((a[0] as nat) * cap + be_value_of(a2) < (b[0] as nat) * cap + be_value_of(b2))
            by (nonlinear_arith)
            requires
                (a[0] as nat) < (b[0] as nat),
                be_value_of(a2) < cap,
                0 <= be_value_of(b2),
                cap > 0,
        {}
    } else {
        assert(a[0] == b[0]);
        lemma_be_lex_order(a2, b2);
        assert((a[0] as nat) * cap + be_value_of(a2) < (a[0] as nat) * cap + be_value_of(b2));
    }
}

} // verus!
