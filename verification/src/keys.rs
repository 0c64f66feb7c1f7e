//! The reversible key codec: a sequence of opaque byte parts is joined into
//! one key with `#` as separator, and `\` escapes both special bytes inside a
//! part.

use vstd::prelude::*;

verus! {

/// Separator byte placed between adjacent key parts: `#`.
pub const KEY_SEPARATOR: u8 = 0x23;

/// Escape byte placed before a literal separator or escape byte: `\`.
pub const KEY_ESCAPE: u8 = 0x5C;

/// The next byte after the separator: `$`. A prefix key extended by the
/// separator and by this byte bound the half-open range of all keys that
/// continue the prefix with at least one further part.
pub const KEY_RANGE_END: u8 = 0x24;

/// A byte that must be escaped inside an encoded key part.
pub open spec fn is_special_byte(b: u8) -> bool {
    b == KEY_SEPARATOR || b == KEY_ESCAPE
}

/// How one byte of a part appears in the encoded key.
pub open spec fn escape_byte(b: u8) -> Seq<u8> {
    if is_special_byte(b) {
        seq![KEY_ESCAPE, b]
    } else {
        seq![b]
    }
}

/// How a whole part appears in the encoded key.
pub open spec fn escape_part(p: Seq<u8>) -> Seq<u8>
    decreases p.len(),
{
    if p.len() == 0 {
        Seq::empty()
    } else {
        escape_byte(p[0]) + escape_part(p.drop_first())
    }
}

/// The encoded form of a sequence of parts: escaped parts joined by the
/// separator byte.
pub open spec fn encode_parts(parts: Seq<Seq<u8>>) -> Seq<u8>
    decreases parts.len(),
{
    if parts.len() == 0 {
        Seq::empty()
    } else if parts.len() == 1 {
        escape_part(parts[0])
    } else {
        escape_part(parts[0]) + seq![KEY_SEPARATOR] + encode_parts(parts.drop_first())
    }
}

/// The decoding automaton: scans `bytes` with a current `part`, a one-shot
/// `escape` state, and the parts already `done`.
pub open spec fn decode_from(bytes: Seq<u8>, part: Seq<u8>, escape: bool, done: Seq<Seq<u8>>) -> Seq<
    Seq<u8>,
>
    decreases bytes.len(),
{
    if bytes.len() == 0 {
        done.push(part)
    } else {
        let b = bytes[0];
        if escape {
            decode_from(bytes.drop_first(), part.push(b), false, done)
        } else if b == KEY_ESCAPE {
            decode_from(bytes.drop_first(), part, true, done)
        } else if b == KEY_SEPARATOR {
            decode_from(bytes.drop_first(), Seq::empty(), false, done.push(part))
        } else {
            decode_from(bytes.drop_first(), part.push(b), false, done)
        }
    }
}

/// The parts encoded in a key.
pub open spec fn decode_key(bytes: Seq<u8>) -> Seq<Seq<u8>> {
    decode_from(bytes, Seq::empty(), false, Seq::empty())
}

/// The escape of a single byte is that byte's escaped form.
pub proof fn lemma_escape_single(b: u8)
    ensures
        escape_part(seq![b]) == escape_byte(b),
{
    assert(seq![b].drop_first() =~= Seq::<u8>::empty());
    assert(escape_part(Seq::<u8>::empty()) == Seq::<u8>::empty());
    assert(escape_part(seq![b]) == escape_byte(b) + Seq::<u8>::empty());
    assert(escape_byte(b) + Seq::<u8>::empty() =~= escape_byte(b));
}

/// Pushing one element onto a vector of byte vectors pushes its view onto the
/// deep view.
proof fn lemma_deep_view_push(w: Vec<Vec<u8>>, prev: Vec<Vec<u8>>, x: Vec<u8>)
    requires
        w@ == prev@.push(x),
    ensures
        w.deep_view() == prev.deep_view().push(x@),
{
    let pushed = prev.deep_view().push(x@);
    assert forall|i: int| 0 <= i < w@.len() implies w.deep_view()[i] == pushed[i] by {
        if i < prev@.len() {
            assert(w@[i] == prev@[i]);
        } else {
            assert(w@[i] == x);
            assert(x.deep_view() =~= x@);
        }
    }
    assert(w.deep_view() =~= prev.deep_view().push(x@));
}

/// Escaping distributes over concatenation of parts.
pub proof fn lemma_escape_append(s: Seq<u8>, t: Seq<u8>)
    ensures
        escape_part(s + t) == escape_part(s) + escape_part(t),
    decreases s.len(),
{
    if s.len() == 0 {
        assert(s + t =~= t);
        assert(Seq::<u8>::empty() + escape_part(t) =~= escape_part(t));
    } else {
        assert((s + t).drop_first() =~= s.drop_first() + t);
        lemma_escape_append(s.drop_first(), t);
        assert(escape_byte(s[0]) + (escape_part(s.drop_first()) + escape_part(t)) =~= (escape_byte(
            s[0],
        ) + escape_part(s.drop_first())) + escape_part(t));
    }
}

/// Splitting a part list splits its encoding at a separator byte.
pub proof fn lemma_encode_split(a: Seq<Seq<u8>>, b: Seq<Seq<u8>>)
    requires
        a.len() >= 1,
        b.len() >= 1,
    ensures
        encode_parts(a + b) == encode_parts(a) + seq![KEY_SEPARATOR] + encode_parts(b),
    decreases a.len(),
{
    if a.len() == 1 {
        assert((a + b).drop_first() =~= b);
        assert((a + b)[0] == a[0]);
    } else {
        assert((a + b).drop_first() =~= a.drop_first() + b);
        assert((a + b)[0] == a[0]);
        lemma_encode_split(a.drop_first(), b);
        assert(escape_part(a[0]) + seq![KEY_SEPARATOR] + ((encode_parts(a.drop_first()) + seq![
            KEY_SEPARATOR,
        ]) + encode_parts(b)) =~= (escape_part(a[0]) + seq![KEY_SEPARATOR] + encode_parts(
            a.drop_first(),
        )) + seq![KEY_SEPARATOR] + encode_parts(b));
    }
}

/// The key of a part list is the key of any proper front of it, then the
/// separator byte, then the key of the rest. In particular the front's key
/// followed by the separator is a strict byte-prefix of the whole key.
pub proof fn lemma_encode_prefix_split(parts: Seq<Seq<u8>>, k: int)
    requires
        1 <= k < parts.len(),
    ensures
        encode_parts(parts) == encode_parts(parts.take(k)) + seq![KEY_SEPARATOR] + encode_parts(
            parts.skip(k),
        ),
{
    lemma_encode_split(parts.take(k), parts.skip(k));
    assert(parts.take(k) + parts.skip(k) =~= parts);
}

/// Running the decoder over an escaped part appends that part to the current
/// part, byte for byte.
proof fn lemma_decode_escaped(p: Seq<u8>, rest: Seq<u8>, part: Seq<u8>, done: Seq<Seq<u8>>)
    ensures
        decode_from(escape_part(p) + rest, part, false, done) == decode_from(
            rest,
            part + p,
            false,
            done,
        ),
    decreases p.len(),
{
    if p.len() == 0 {
        assert(escape_part(p) + rest =~= rest);
        assert(part + p =~= part);
    } else {
        let b = p[0];
        let tail = escape_part(p.drop_first()) + rest;
        if is_special_byte(b) {
            let bytes = escape_part(p) + rest;
            assert(bytes =~= seq![KEY_ESCAPE, b] + tail);
            assert(bytes[0] == KEY_ESCAPE);
            assert(bytes.drop_first() =~= seq![b] + tail);
            assert((seq![b] + tail)[0] == b);
            assert((seq![b] + tail).drop_first() =~= tail);
            assert(decode_from(bytes, part, false, done) == decode_from(
                seq![b] + tail,
                part,
                true,
                done,
            ));
            assert(decode_from(seq![b] + tail, part, true, done) == decode_from(
                tail,
                part.push(b),
                false,
                done,
            ));
        } else {
            let bytes = escape_part(p) + rest;
            assert(bytes =~= seq![b] + tail);
            assert(bytes[0] == b);
            assert(bytes.drop_first() =~= tail);
            assert(decode_from(bytes, part, false, done) == decode_from(
                tail,
                part.push(b),
                false,
                done,
            ));
        }
        lemma_decode_escaped(p.drop_first(), rest, part.push(b), done);
        assert(part.push(b) + p.drop_first() =~= part + p);
    }
}

/// Decoding the encoding of a part list appends the parts to those already
/// decoded.
proof fn lemma_decode_encode_general(parts: Seq<Seq<u8>>, done: Seq<Seq<u8>>)
    requires
        parts.len() >= 1,
    ensures
        decode_from(encode_parts(parts), Seq::empty(), false, done) == done + parts,
    decreases parts.len(),
{
    if parts.len() == 1 {
        assert(escape_part(parts[0]) + Seq::<u8>::empty() =~= escape_part(parts[0]));
        lemma_decode_escaped(parts[0], Seq::empty(), Seq::empty(), done);
        assert(Seq::<u8>::empty() + parts[0] =~= parts[0]);
        assert(done.push(parts[0]) =~= done + parts);
    } else {
        let rest = seq![KEY_SEPARATOR] + encode_parts(parts.drop_first());
        assert(encode_parts(parts) =~= escape_part(parts[0]) + rest);
        lemma_decode_escaped(parts[0], rest, Seq::empty(), done);
        assert(Seq::<u8>::empty() + parts[0] =~= parts[0]);
        assert(rest[0] == KEY_SEPARATOR);
        assert(rest.drop_first() =~= encode_parts(parts.drop_first()));
        lemma_decode_encode_general(parts.drop_first(), done.push(parts[0]));
        assert(done.push(parts[0]) + parts.drop_first() =~= done + parts);
    }
}

/// Decoding an encoded key yields the original parts.
pub proof fn lemma_decode_encode(parts: Seq<Seq<u8>>)
    requires
        parts.len() >= 1,
    ensures
        decode_key(encode_parts(parts)) == parts,
{
    lemma_decode_encode_general(parts, Seq::empty());
    assert(Seq::<Seq<u8>>::empty() + parts =~= parts);
}

/// Law: the key codec round-trips. For any non-empty list of non-empty byte
/// parts, decoding the encoded key yields exactly the original parts.
pub proof fn lemma_key_round_trip(parts: Seq<Seq<u8>>)
    requires
        parts.len() >= 1,
        forall|i: int| 0 <= i < parts.len() ==> parts[i].len() > 0,
    ensures
        decode_key(encode_parts(parts)) == parts,
{
    lemma_decode_encode(parts);
}

/// A part without special bytes is its own escaped form.
pub proof fn lemma_escape_id(p: Seq<u8>)
    requires
        forall|i: int| 0 <= i < p.len() ==> !is_special_byte(#[trigger] p[i]),
    ensures
        escape_part(p) == p,
    decreases p.len(),
{
    if p.len() > 0 {
        assert(forall|i: int|
            0 <= i < p.drop_first().len() ==> #[trigger] p.drop_first()[i] == p[i + 1]);
        lemma_escape_id(p.drop_first());
        assert(seq![p[0]] + p.drop_first() =~= p);
    }
}

/// Parts already decoded pass through the decoder unchanged.
pub proof fn lemma_decode_from_frame(bytes: Seq<u8>, part: Seq<u8>, escape: bool, done: Seq<
    Seq<u8>,
>)
    ensures
        decode_from(bytes, part, escape, done) == done + decode_from(
            bytes,
            part,
            escape,
            Seq::empty(),
        ),
    decreases bytes.len(),
{
    if bytes.len() == 0 {
        assert(Seq::<Seq<u8>>::empty().push(part) =~= seq![part]);
        assert(done + seq![part] =~= done.push(part));
    } else {
        let b = bytes[0];
        let rest = bytes.drop_first();
        if escape {
            lemma_decode_from_frame(rest, part.push(b), false, done);
        } else if b == KEY_ESCAPE {
            lemma_decode_from_frame(rest, part, true, done);
        } else if b == KEY_SEPARATOR {
            lemma_decode_from_frame(rest, Seq::empty(), false, done.push(part));
            lemma_decode_from_frame(rest, Seq::empty(), false, Seq::<Seq<u8>>::empty().push(part));
            assert(Seq::<Seq<u8>>::empty().push(part) =~= seq![part]);
            assert(done.push(part) + decode_from(rest, Seq::empty(), false, Seq::empty()) =~= done
                + (seq![part] + decode_from(rest, Seq::empty(), false, Seq::empty())));
        } else {
            lemma_decode_from_frame(rest, part.push(b), false, done);
        }
    }
}

/// The decoder always yields at least one part beyond those already done.
pub proof fn lemma_decode_len(bytes: Seq<u8>, part: Seq<u8>, escape: bool, done: Seq<Seq<u8>>)
    ensures
        decode_from(bytes, part, escape, done).len() >= done.len() + 1,
    decreases bytes.len(),
{
    if bytes.len() > 0 {
        let b = bytes[0];
        let rest = bytes.drop_first();
        if escape {
            lemma_decode_len(rest, part.push(b), false, done);
        } else if b == KEY_ESCAPE {
            lemma_decode_len(rest, part, true, done);
        } else if b == KEY_SEPARATOR {
            lemma_decode_len(rest, Seq::empty(), false, done.push(part));
        } else {
            lemma_decode_len(rest, part.push(b), false, done);
        }
    }
}

/// Decoding a key that begins with the encoding of `q` and a separator first
/// yields `q`, then whatever the rest of the key holds.
pub proof fn lemma_decode_prefix(q: Seq<Seq<u8>>, suffix: Seq<u8>, done: Seq<Seq<u8>>)
    requires
        q.len() >= 1,
    ensures
        decode_from(encode_parts(q) + seq![KEY_SEPARATOR] + suffix, Seq::empty(), false, done)
            == decode_from(suffix, Seq::empty(), false, done + q),
    decreases q.len(),
{
    if q.len() == 1 {
        let sep_suffix = seq![KEY_SEPARATOR] + suffix;
        assert(encode_parts(q) + seq![KEY_SEPARATOR] + suffix =~= escape_part(q[0]) + sep_suffix);
        lemma_decode_escaped(q[0], sep_suffix, Seq::empty(), done);
        assert(Seq::<u8>::empty() + q[0] =~= q[0]);
        assert(sep_suffix[0] == KEY_SEPARATOR);
        assert(sep_suffix.drop_first() =~= suffix);
        assert(decode_from(sep_suffix, q[0], false, done) == decode_from(
            suffix,
            Seq::empty(),
            false,
            done.push(q[0]),
        ));
        assert(done.push(q[0]) =~= done + q);
    } else {
        let qrest = q.drop_first();
        let tail = encode_parts(qrest) + seq![KEY_SEPARATOR] + suffix;
        let sep_tail = seq![KEY_SEPARATOR] + tail;
        assert(encode_parts(q) + seq![KEY_SEPARATOR] + suffix =~= escape_part(q[0]) + sep_tail);
        lemma_decode_escaped(q[0], sep_tail, Seq::empty(), done);
        assert(Seq::<u8>::empty() + q[0] =~= q[0]);
        assert(sep_tail[0] == KEY_SEPARATOR);
        assert(sep_tail.drop_first() =~= tail);
        assert(decode_from(sep_tail, q[0], false, done) == decode_from(
            tail,
            Seq::empty(),
            false,
            done.push(q[0]),
        ));
        lemma_decode_prefix(qrest, suffix, done.push(q[0]));
        assert(done.push(q[0]) + qrest =~= done + q);
    }
}

/// A canonical key that begins with the encoding of `q` and a separator
/// decodes to parts that extend `q`.
pub proof fn lemma_encode_prefix_parts(parts: Seq<Seq<u8>>, q: Seq<Seq<u8>>)
    requires
        parts.len() >= 1,
        q.len() >= 1,
        crate::order::starts_with(encode_parts(parts), encode_parts(q).push(KEY_SEPARATOR)),
    ensures
        parts.len() > q.len(),
        parts.take(q.len() as int) == q,
{
    let k = encode_parts(parts);
    let plen = encode_parts(q).len() as int;
    let suffix = k.skip(plen + 1);
    let rhs = encode_parts(q) + seq![KEY_SEPARATOR] + suffix;
    assert(k.take(plen + 1) == encode_parts(q).push(KEY_SEPARATOR));
    assert(k.len() >= plen + 1);
    assert(rhs.len() == k.len());
    assert forall|j: int| 0 <= j < k.len() implies k[j] == rhs[j] by {
        if j <= plen {
            assert(k.take(plen + 1)[j] == k[j]);
            assert(k.take(plen + 1)[j] == encode_parts(q).push(KEY_SEPARATOR)[j]);
        } else {
            assert(rhs[j] == suffix[j - plen - 1]);
            assert(suffix[j - plen - 1] == k[j]);
        }
    }
    assert(k =~= rhs);
    lemma_decode_prefix(q, suffix, Seq::empty());
    lemma_decode_from_frame(suffix, Seq::empty(), false, Seq::<Seq<u8>>::empty() + q);
    lemma_decode_len(suffix, Seq::empty(), false, Seq::empty());
    lemma_decode_encode(parts);
    assert(Seq::<Seq<u8>>::empty() + q =~= q);
    assert(parts == q + decode_key(suffix));
    assert(parts.take(q.len() as int) =~= q);
}

/// The converse: the key of parts that extend `q` begins with the encoding
/// of `q` and a separator.
pub proof fn lemma_parts_extend_prefix(parts: Seq<Seq<u8>>, q: Seq<Seq<u8>>)
    requires
        q.len() >= 1,
        parts.len() > q.len(),
        parts.take(q.len() as int) == q,
    ensures
        crate::order::starts_with(encode_parts(parts), encode_parts(q).push(KEY_SEPARATOR)),
{
    lemma_encode_prefix_split(parts, q.len() as int);
    let head = encode_parts(q);
    let k = encode_parts(parts);
    assert(k == head + seq![KEY_SEPARATOR] + encode_parts(parts.skip(q.len() as int)));
    assert(k.take(head.len() as int + 1) =~= head.push(KEY_SEPARATOR));
}

/// The encoding is injective: equal keys come from equal parts.
pub proof fn lemma_encode_injective(p1: Seq<Seq<u8>>, p2: Seq<Seq<u8>>)
    requires
        p1.len() >= 1,
        p2.len() >= 1,
        encode_parts(p1) == encode_parts(p2),
    ensures
        p1 == p2,
{
    lemma_decode_encode(p1);
    lemma_decode_encode(p2);
}

/// Serializes a list of byte parts into one key: parts are joined by `#`,
/// and any `#` or `\` inside a part is prefixed with `\`.
pub fn serialize_key(parts: Vec<&[u8]>) -> (r: Vec<u8>)
    ensures
        r@ == encode_parts(parts.deep_view()),
{
    let ghost dv = parts.deep_view();
    let mut result: Vec<u8> = Vec::new();
    let mut i: usize = 0;
    proof {
        assert(dv.len() == parts@.len());
        assert(encode_parts(dv.take(0)) + Seq::<u8>::empty() =~= Seq::<u8>::empty());
    }
    while i < parts.len()
        invariant
            dv == parts.deep_view(),
            dv.len() == parts@.len(),
            0 <= i <= parts@.len(),
            result@ == encode_parts(dv.take(i as int)) + if 0 < i < dv.len() {
                seq![KEY_SEPARATOR]
            } else {
                Seq::<u8>::empty()
            },
        decreases parts@.len() - i,
    {
        let part: &[u8] = parts[i];
        proof {
            assert(dv[i as int] == part@);
        }
        let ghost base = result@;
        let mut j: usize = 0;
        while j < part.len()
            invariant
                0 <= j <= part@.len(),
                result@ == base + escape_part(part@.take(j as int)),
            decreases part@.len() - j,
        {
            let b = part[j];
            if b == KEY_SEPARATOR || b == KEY_ESCAPE {
                result.push(KEY_ESCAPE);
            }
            result.push(b);
            proof {
                assert(part@.take(j + 1) =~= part@.take(j as int) + seq![b]);
                lemma_escape_append(part@.take(j as int), seq![b]);
                lemma_escape_single(b);
                assert(result@ =~= base + escape_part(part@.take(j + 1)));
            }
            j += 1;
        }
        proof {
            assert(part@.take(part@.len() as int) =~= part@);
            if i == 0 {
                assert(dv.take(1) =~= seq![dv[0]]);
                assert(result@ =~= encode_parts(dv.take(1)));
            } else {
                assert(dv.take(i + 1) =~= dv.take(i as int) + seq![dv[i as int]]);
                lemma_encode_split(dv.take(i as int), seq![dv[i as int]]);
                assert(result@ =~= (encode_parts(dv.take(i as int)) + seq![KEY_SEPARATOR])
                    + escape_part(dv[i as int]));
                assert(result@ =~= encode_parts(dv.take(i + 1)));
            }
        }
        if i + 1 < parts.len() {
            result.push(KEY_SEPARATOR);
        }
        proof {
            if i + 1 == dv.len() {
                assert(result@ =~= encode_parts(dv.take(i + 1)) + Seq::<u8>::empty());
            }
        }
        i += 1;
    }
    proof {
        assert(dv.take(dv.len() as int) =~= dv);
        if dv.len() == 0 {
            assert(result@ =~= encode_parts(dv));
        }
    }
    result
}

/// Deserializes a key into its parts: `\` makes the next byte literal, and an
/// unescaped `#` ends the current part.
pub fn deserialize_key(key: &[u8]) -> (r: Vec<Vec<u8>>)
    ensures
        r.deep_view() == decode_key(key@),
        r@.len() >= 1,
{
    let mut result: Vec<Vec<u8>> = Vec::new();
    let mut part: Vec<u8> = Vec::new();
    let mut escape = false;
    let mut i: usize = 0;
    proof {
        assert(key@.skip(0) =~= key@);
        assert(result.deep_view() =~= Seq::<Seq<u8>>::empty());
    }
    while i < key.len()
        invariant
            0 <= i <= key@.len(),
            decode_from(key@.skip(i as int), part@, escape, result.deep_view()) == decode_key(
                key@,
            ),
        decreases key@.len() - i,
    {
        let b = key[i];
        proof {
            assert(key@.skip(i as int)[0] == key@[i as int]);
            assert(key@.skip(i as int).drop_first() =~= key@.skip(i + 1));
        }
        if escape {
            part.push(b);
            escape = false;
        } else if b == KEY_ESCAPE {
            escape = true;
        } else if b == KEY_SEPARATOR {
            let ghost prev = result;
            let ghost pushed = part;
            result.push(part);
            part = Vec::new();
            proof {
                lemma_deep_view_push(result, prev, pushed);
            }
        } else {
            part.push(b);
        }
        i += 1;
    }
    proof {
        assert(key@.skip(key@.len() as int) =~= Seq::<u8>::empty());
    }
    let ghost prev = result;
    let ghost pushed = part;
    result.push(part);
    proof {
        lemma_deep_view_push(result, prev, pushed);
    }
    result
}

} // verus!
