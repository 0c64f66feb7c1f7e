//! The library's cross-cutting guarantees, each proved from the contracts
//! of the functions it speaks about.

use crate::db::artifact_key;
use crate::db::commit_time_prefix;
use crate::db::scan_entries;
use crate::db::scan_hi;
use crate::db::scan_lo;
use crate::db::apply_writes;
use crate::db::commit_data_matches;
use crate::db::db_inv;
use crate::db::entry_wf;
use crate::db::commit_key;
use crate::db::commit_time_key;
use crate::db::lemma_apply_writes_wf;
use crate::db::lemma_artifact_entry_wf;
use crate::db::lemma_commit_entry_wf;
use crate::db::lemma_commit_time_entry_wf;
use crate::db::lemma_key_tags_differ;
use crate::db::lemma_repo_entry_wf;
use crate::db::lemma_writes_get_none;
use crate::db::repo_key;
use crate::db::tag_artifact;
use crate::db::tag_repo;
use crate::db::writes_get;
use crate::keys::lemma_decode_encode;
use crate::kv::lemma_sorted_kv_get_at;
use crate::db::lemma_scan_entry;
use crate::db::lemma_scan_entry_converse;
use crate::db::tag_commit;
use crate::db::lemma_writes_get_at;
use crate::db::lemma_apply_writes_read;
use crate::db::reads_ok;
use crate::db::tag_commit_time;
use crate::db::CommitData;
use crate::keys::decode_key;
use crate::keys::encode_parts;
use crate::keys::escape_part;
use crate::keys::is_special_byte;
use crate::keys::lemma_encode_prefix_split;
use crate::keys::lemma_escape_id;
use crate::keys::KEY_SEPARATOR;
use crate::kv::kv_contains;
use crate::kv::kv_get;
use crate::kv::kv_sorted;
use crate::kv::lemma_kv_get_some_index;
use crate::nums::be_bytes_of;
use crate::nums::be_value_of;
use crate::nums::lemma_be_bytes_len;
use crate::nums::lemma_u128_be_round_trip;
use crate::nums::lemma_be_lex_order;
use crate::order::lemma_lex_common_prefix;
use crate::order::lex_lt;
use crate::store::upload_writes;
use vstd::prelude::*;
use vstd::utf8::encode_utf8;

verus! {

broadcast use vstd::utf8::encode_utf8_decode_utf8;

/// Law: a timestamp written as a sixteen-byte big-endian part survives the
/// key codec: the decoded part, read back as a big-endian number, is the
/// original timestamp.
pub proof fn lemma_timestamp_key_round_trip(t: u128)
    ensures
        ({
            let part = be_bytes_of(t as nat, 16);
            &&& decode_key(encode_parts(seq![part])) == seq![part]
            &&& be_value_of(decode_key(encode_parts(seq![part]))[0]) == t as nat
        }),
{
    crate::keys::lemma_decode_encode(seq![be_bytes_of(t as nat, 16)]);
    lemma_u128_be_round_trip(t);
}

/// UTF-8 encoding is injective: two strings with the same bytes are the
/// same string.
pub proof fn lemma_utf8_injective(a: Seq<char>, b: Seq<char>)
    requires
        encode_utf8(a) == encode_utf8(b),
    ensures
        a == b,
{
    assert(vstd::utf8::decode_utf8(encode_utf8(a)) == a);
    assert(vstd::utf8::decode_utf8(encode_utf8(b)) == b);
}

/// The time part of a commit-by-time row, free of bytes that the key codec
/// escapes.
pub open spec fn plain_time_part(k: Seq<u8>) -> bool {
    let t = decode_key(k)[4];
    forall|b: int| 0 <= b < t.len() ==> !is_special_byte(#[trigger] t[b])
}

/// Two commit-by-time rows of one repository sit in the index in the order
/// of their timestamps, as long as neither timestamp holds a byte that the
/// codec escapes.
proof fn lemma_commit_time_row_order(
    dbv: Seq<(Seq<u8>, Seq<u8>)>,
    s: Seq<u8>,
    o: Seq<u8>,
    rr: Seq<u8>,
    i: int,
    j: int,
)
    requires
        kv_sorted(dbv),
        db_inv(dbv),
        scan_lo(dbv, commit_time_prefix(s, o, rr)) <= i < j < scan_hi(
            dbv,
            commit_time_prefix(s, o, rr),
        ),
        plain_time_part(dbv[i].0),
        plain_time_part(dbv[j].0),
    ensures
        decode_key(dbv[i].0)[4].len() == 16,
        decode_key(dbv[j].0)[4].len() == 16,
        be_value_of(decode_key(dbv[i].0)[4]) < be_value_of(decode_key(dbv[j].0)[4]),
{
    let q = seq![tag_commit_time(), s, o, rr];
    let p = encode_parts(q);
    lemma_scan_entry(dbv, q, i);
    lemma_scan_entry(dbv, q, j);
    let parts_i = decode_key(dbv[i].0);
    let parts_j = decode_key(dbv[j].0);
    assert(parts_i.take(4)[0] == parts_i[0]);
    assert(parts_j.take(4)[0] == parts_j[0]);
    assert(parts_i[0] == tag_commit_time());
    assert(parts_j[0] == tag_commit_time());
    assert(parts_i.len() == 5 && parts_i[4].len() == 16);
    assert(parts_j.len() == 5 && parts_j[4].len() == 16);
    let ti = parts_i[4];
    let tj = parts_j[4];
    lemma_row_key_shape(dbv[i].0, q);
    lemma_row_key_shape(dbv[j].0, q);
    assert(lex_lt(dbv[i].0, dbv[j].0));
    lemma_lex_common_prefix(p + seq![KEY_SEPARATOR], ti, tj);
    assert(lex_lt(ti, tj));
    lemma_be_lex_order(ti, tj);
}

/// A commit-by-time row's key is the repository prefix, the separator, and
/// the bare sixteen time bytes.
proof fn lemma_row_key_shape(k: Seq<u8>, q: Seq<Seq<u8>>)
    requires
        q.len() == 4,
        decode_key(k).len() == 5,
        decode_key(k).take(4) == q,
        k == encode_parts(decode_key(k)),
        plain_time_part(k),
    ensures
        k == (encode_parts(q) + seq![KEY_SEPARATOR]) + decode_key(k)[4],
{
    let parts = decode_key(k);
    lemma_encode_prefix_split(parts, 4);
    assert(parts.skip(4).len() == 1);
    assert(parts.skip(4)[0] == parts[4]);
    assert(parts.skip(4) =~= seq![parts[4]]);
    assert(encode_parts(seq![parts[4]]) == escape_part(parts[4]));
    lemma_escape_id(parts[4]);
    assert(encode_parts(parts.take(4)) == encode_parts(q));
    assert(encode_parts(parts) =~= (encode_parts(q) + seq![KEY_SEPARATOR]) + parts[4]);
}

/// Law: `list_repo_commits` yields strictly decreasing `time_added`, as long
/// as no listed timestamp holds a byte that the key codec escapes. The
/// requirements mirror the listing's contract: `v` is related row for row,
/// newest first, to the repository's commit-by-time range.
pub proof fn lemma_listing_newest_first(
    dbv: Seq<(Seq<u8>, Seq<u8>)>,
    s: Seq<u8>,
    o: Seq<u8>,
    rr: Seq<u8>,
    v: Seq<CommitData>,
    a: int,
    b: int,
)
    requires
        kv_sorted(dbv),
        db_inv(dbv),
        v.len() == scan_entries(dbv, commit_time_prefix(s, o, rr)).len(),
        forall|j: int|
            0 <= j < v.len() ==> commit_data_matches(
                #[trigger] v[j],
                scan_entries(dbv, commit_time_prefix(s, o, rr))[v.len() - 1 - j],
            ),
        forall|j: int|
            scan_lo(dbv, commit_time_prefix(s, o, rr)) <= j < scan_hi(
                dbv,
                commit_time_prefix(s, o, rr),
            ) ==> plain_time_part(#[trigger] dbv[j].0),
        0 <= a < b < v.len(),
    ensures
        v[a].time_added > v[b].time_added,
{
    let p = commit_time_prefix(s, o, rr);
    let es = scan_entries(dbv, p);
    let lo = scan_lo(dbv, p);
    let i = lo + (v.len() - 1 - b);
    let j = lo + (v.len() - 1 - a);
    crate::db::lemma_scan_bounds(dbv, p);
    assert(es[v.len() - 1 - b] == dbv[i]);
    assert(es[v.len() - 1 - a] == dbv[j]);
    lemma_commit_time_row_order(dbv, s, o, rr, i, j);
    assert(commit_data_matches(v[a], es[v.len() - 1 - a]));
    assert(commit_data_matches(v[b], es[v.len() - 1 - b]));
}

/// Law: for a repository with at least one recorded commit, the commit that
/// `get_latest_commit` returns is the first element of `list_repo_commits`:
/// both contracts read the value of the newest commit-by-time row, and UTF-8
/// is injective.
pub proof fn lemma_latest_is_first_of_listing(
    dbv: Seq<(Seq<u8>, Seq<u8>)>,
    s: Seq<u8>,
    o: Seq<u8>,
    rr: Seq<u8>,
    latest: Seq<char>,
    v: Seq<CommitData>,
)
    requires
        scan_entries(dbv, commit_time_prefix(s, o, rr)).len() > 0,
        encode_utf8(latest) == scan_entries(dbv, commit_time_prefix(s, o, rr)).last().1,
        v.len() == scan_entries(dbv, commit_time_prefix(s, o, rr)).len(),
        forall|j: int|
            0 <= j < v.len() ==> commit_data_matches(
                #[trigger] v[j],
                scan_entries(dbv, commit_time_prefix(s, o, rr))[v.len() - 1 - j],
            ),
    ensures
        v.len() > 0,
        v[0].commit@ == latest,
{
    let es = scan_entries(dbv, commit_time_prefix(s, o, rr));
    assert(commit_data_matches(v[0], es[v.len() - 1]));
    assert(es[v.len() - 1] == es.last());
    lemma_utf8_injective(v[0].commit@, latest);
}

/// Law: the `@latest` alias resolves to the same commit that a
/// `get_latest_commit` against the same store state returns: both contracts
/// pin the commit's UTF-8 form to the value of the newest commit-by-time
/// row, and UTF-8 is injective.
pub proof fn lemma_alias_matches_latest(
    dbv: Seq<(Seq<u8>, Seq<u8>)>,
    s: Seq<u8>,
    o: Seq<u8>,
    rr: Seq<u8>,
    c1: Seq<char>,
    c2: Seq<char>,
)
    requires
        encode_utf8(c1) == scan_entries(dbv, commit_time_prefix(s, o, rr)).last().1,
        encode_utf8(c2) == scan_entries(dbv, commit_time_prefix(s, o, rr)).last().1,
    ensures
        c1 == c2,
{
    lemma_utf8_injective(c1, c2);
}

/// Law: of two uploads of the same `(commit, path)` racing on one store
/// state, exactly one commits. Both transactions observed the artifact row
/// absent; once the winner's writes are applied, the row is present, so the
/// loser's recorded observation no longer holds, and its `commit` reports a
/// conflict instead of touching the store.
pub proof fn lemma_concurrent_artifact_single_winner(
    dbv: Seq<(Seq<u8>, Seq<u8>)>,
    t1: u128,
    s: Seq<u8>,
    o: Seq<u8>,
    rr: Seq<u8>,
    c: Seq<u8>,
    p: Seq<u8>,
)
    requires
        !kv_contains(dbv, artifact_key(c, p)),
    ensures
        ({
            let winner = apply_writes(dbv, upload_writes(dbv, t1, s, o, rr, c, p));
            let observed = seq![(artifact_key(c, p), kv_get(dbv, artifact_key(c, p)))];
            &&& kv_contains(winner, artifact_key(c, p))
            &&& !reads_ok(observed, winner)
        }),
{
    let ak = artifact_key(c, p);
    let w = upload_writes(dbv, t1, s, o, rr, c, p);
    let tv = be_bytes_of(t1 as nat, 16);
    assert(w[w.len() - 1] == (ak, tv));
    lemma_writes_get_at(w, ak, w.len() - 1);
    lemma_apply_writes_read(dbv, w, ak);
    let winner = apply_writes(dbv, w);
    assert(kv_get(winner, ak) == Some(tv));
    let observed = seq![(ak, kv_get(dbv, ak))];
    assert(kv_get(winner, observed[0].0) != observed[0].1);
}


/// Whether a row is a commit-by-time row of some repository.
pub open spec fn is_ct_row(e: (Seq<u8>, Seq<u8>)) -> bool {
    decode_key(e.0).len() == 5 && decode_key(e.0)[0] == tag_commit_time()
}

/// Whether a row is a commit row of some repository.
pub open spec fn is_commit_row(e: (Seq<u8>, Seq<u8>)) -> bool {
    decode_key(e.0).len() == 5 && decode_key(e.0)[0] == tag_commit()
}

/// The pairing invariant between commit rows and the commit-by-time index:
/// every index row names a recorded commit, no repository carries two index
/// rows naming one commit, and every commit row has an index row naming it.
pub open spec fn commit_index_inv(dbv: Seq<(Seq<u8>, Seq<u8>)>) -> bool {
    &&& forall|i: int|
        0 <= i < dbv.len() && is_ct_row(#[trigger] dbv[i]) ==> kv_contains(
            dbv,
            commit_key(
                decode_key(dbv[i].0)[1],
                decode_key(dbv[i].0)[2],
                decode_key(dbv[i].0)[3],
                dbv[i].1,
            ),
        )
    &&& forall|i: int, j: int|
        0 <= i < dbv.len() && 0 <= j < dbv.len() && i != j && is_ct_row(#[trigger] dbv[i])
            && is_ct_row(#[trigger] dbv[j]) && decode_key(dbv[i].0)[1] == decode_key(dbv[j].0)[1]
            && decode_key(dbv[i].0)[2] == decode_key(dbv[j].0)[2] && decode_key(dbv[i].0)[3]
            == decode_key(dbv[j].0)[3] ==> dbv[i].1 != dbv[j].1
    &&& forall|i: int|
        0 <= i < dbv.len() && is_commit_row(#[trigger] dbv[i]) ==> exists|j: int|
            0 <= j < dbv.len() && is_ct_row(#[trigger] dbv[j]) && decode_key(dbv[j].0)[1]
                == decode_key(dbv[i].0)[1] && decode_key(dbv[j].0)[2] == decode_key(dbv[i].0)[2]
                && decode_key(dbv[j].0)[3] == decode_key(dbv[i].0)[3] && dbv[j].1 == decode_key(
                dbv[i].0,
            )[4]
}

/// Law: in a store whose commit rows and commit-by-time index pair up, a
/// repository lists each recorded commit exactly once, no matter how many
/// uploads named it: `list_repo_commits(s, o, r)` has exactly one entry
/// whose commit is `c` whenever the commit row of `(s, o, r, c)` exists.
pub proof fn lemma_one_listing_entry_per_commit(
    dbv: Seq<(Seq<u8>, Seq<u8>)>,
    s: Seq<u8>,
    o: Seq<u8>,
    rr: Seq<u8>,
    c: Seq<u8>,
)
    requires
        kv_sorted(dbv),
        db_inv(dbv),
        commit_index_inv(dbv),
        kv_contains(dbv, commit_key(s, o, rr, c)),
    ensures
        ({
            let es = scan_entries(dbv, commit_time_prefix(s, o, rr));
            exists|j: int|
                0 <= j < es.len() && (#[trigger] es[j]).1 == c && (forall|k: int|
                    0 <= k < es.len() && (#[trigger] es[k]).1 == c ==> k == j)
        }),
{
    let q = seq![tag_commit_time(), s, o, rr];
    let p = commit_time_prefix(s, o, rr);
    let es = scan_entries(dbv, p);
    let lo = scan_lo(dbv, p);
    crate::db::lemma_scan_bounds(dbv, p);
    // the commit row of (s, o, r, c) sits at some index
    lemma_kv_get_some_index(dbv, commit_key(s, o, rr, c));
    let ci = choose|ci: int|
        0 <= ci < dbv.len() && #[trigger] dbv[ci].0 == commit_key(s, o, rr, c) && dbv[ci].1
            == kv_get(dbv, commit_key(s, o, rr, c))->Some_0;
    crate::keys::lemma_decode_encode(seq![tag_commit(), s, o, rr, c]);
    assert(decode_key(dbv[ci].0) == seq![tag_commit(), s, o, rr, c]);
    assert(is_commit_row(dbv[ci]));
    // its commit-by-time twin exists
    let ti = choose|j: int|
        0 <= j < dbv.len() && is_ct_row(#[trigger] dbv[j]) && decode_key(dbv[j].0)[1] == decode_key(
            dbv[ci].0,
        )[1] && decode_key(dbv[j].0)[2] == decode_key(dbv[ci].0)[2] && decode_key(dbv[j].0)[3]
            == decode_key(dbv[ci].0)[3] && dbv[j].1 == decode_key(dbv[ci].0)[4];
    assert(is_ct_row(dbv[ti]) && dbv[ti].1 == c);
    // the twin sits inside the repository's scan range
    let tparts = decode_key(dbv[ti].0);
    assert(entry_wf(dbv[ti].0, dbv[ti].1));
    assert(tparts.take(4) =~= q);
    lemma_scan_entry_converse(dbv, q, ti);
    let j = ti - lo;
    assert(es[j] == dbv[ti]);
    assert(es[j].1 == c);
    // and it is the only range entry naming c
    assert forall|k: int| 0 <= k < es.len() && (#[trigger] es[k]).1 == c implies k == j by {
        lemma_scan_entry(dbv, q, lo + k);
        let kparts = decode_key(dbv[lo + k].0);
        assert(kparts.take(4)[0] == kparts[0]);
        assert(kparts[0] == tag_commit_time());
        assert(kparts.len() == 5);
        assert(is_ct_row(dbv[lo + k]));
        assert(kparts.take(4)[1] == kparts[1] && kparts.take(4)[2] == kparts[2] && kparts.take(4)[3]
            == kparts[3]);
        assert(tparts.take(4)[1] == tparts[1] && tparts.take(4)[2] == tparts[2] && tparts.take(4)[3]
            == tparts[3]);
        if lo + k != ti {
            assert(dbv[lo + k].1 != dbv[ti].1);
            assert(false);
        }
    }
}


/// Every write of one upload is one of its four record rows.
proof fn lemma_upload_writes_elems(
    dbv: Seq<(Seq<u8>, Seq<u8>)>,
    t: u128,
    s: Seq<u8>,
    o: Seq<u8>,
    rr: Seq<u8>,
    c: Seq<u8>,
    p: Seq<u8>,
)
    ensures
        ({
            let w = upload_writes(dbv, t, s, o, rr, c, p);
            let tv = be_bytes_of(t as nat, 16);
            forall|j: int|
                0 <= j < w.len() ==> (#[trigger] w[j]) == (repo_key(s, o, rr), tv) || w[j] == (
                commit_key(s, o, rr, c),
                tv,
            ) || w[j] == (commit_time_key(s, o, rr, t), c) || w[j] == (artifact_key(c, p), tv)
        }),
{
    let w = upload_writes(dbv, t, s, o, rr, c, p);
    let tv = be_bytes_of(t as nat, 16);
    let w_repo: Seq<(Seq<u8>, Seq<u8>)> = if kv_contains(dbv, repo_key(s, o, rr)) {
        Seq::empty()
    } else {
        seq![(repo_key(s, o, rr), tv)]
    };
    let w_commit: Seq<(Seq<u8>, Seq<u8>)> = if kv_contains(dbv, commit_key(s, o, rr, c)) {
        Seq::empty()
    } else {
        seq![(commit_key(s, o, rr, c), tv), (commit_time_key(s, o, rr, t), c)]
    };
    assert(w == w_repo + w_commit + seq![(artifact_key(c, p), tv)]);
    assert forall|j: int| 0 <= j < w.len() implies (#[trigger] w[j]) == (repo_key(s, o, rr), tv)
        || w[j] == (commit_key(s, o, rr, c), tv) || w[j] == (commit_time_key(s, o, rr, t), c)
        || w[j] == (artifact_key(c, p), tv) by {
        if j < w_repo.len() {
            assert(w[j] == w_repo[j]);
        } else if j < w_repo.len() + w_commit.len() {
            assert(w[j] == w_commit[j - w_repo.len()]);
        } else {
            assert(w[j] == (artifact_key(c, p), tv));
        }
    }
}

/// What one upload's buffered writes answer for each key: its four record
/// keys where it writes them, nothing else.
proof fn lemma_upload_writes_lookup(
    dbv: Seq<(Seq<u8>, Seq<u8>)>,
    t: u128,
    s: Seq<u8>,
    o: Seq<u8>,
    rr: Seq<u8>,
    c: Seq<u8>,
    p: Seq<u8>,
    k: Seq<u8>,
)
    ensures
        ({
            let w = upload_writes(dbv, t, s, o, rr, c, p);
            let tv = be_bytes_of(t as nat, 16);
            let rk = repo_key(s, o, rr);
            let ck = commit_key(s, o, rr, c);
            let ctk = commit_time_key(s, o, rr, t);
            let ak = artifact_key(c, p);
            writes_get(w, k) == if k == ak {
                Some(tv)
            } else if k == ctk && !kv_contains(dbv, ck) {
                Some(c)
            } else if k == ck && !kv_contains(dbv, ck) {
                Some(tv)
            } else if k == rk && !kv_contains(dbv, rk) {
                Some(tv)
            } else {
                None
            }
        }),
{
    let w = upload_writes(dbv, t, s, o, rr, c, p);
    let tv = be_bytes_of(t as nat, 16);
    let rk = repo_key(s, o, rr);
    let ck = commit_key(s, o, rr, c);
    let ctk = commit_time_key(s, o, rr, t);
    let ak = artifact_key(c, p);
    let tb = be_bytes_of(t as nat, 16);
    lemma_key_tags_differ(seq![tag_repo(), s, o, rr], seq![tag_commit(), s, o, rr, c]);
    lemma_key_tags_differ(seq![tag_repo(), s, o, rr], seq![tag_commit_time(), s, o, rr, tb]);
    lemma_key_tags_differ(seq![tag_repo(), s, o, rr], seq![tag_artifact(), c, p]);
    lemma_key_tags_differ(seq![tag_commit(), s, o, rr, c], seq![tag_commit_time(), s, o, rr, tb]);
    lemma_key_tags_differ(seq![tag_commit(), s, o, rr, c], seq![tag_artifact(), c, p]);
    lemma_key_tags_differ(seq![tag_commit_time(), s, o, rr, tb], seq![tag_artifact(), c, p]);
    lemma_upload_writes_elems(dbv, t, s, o, rr, c, p);
    let w_repo: Seq<(Seq<u8>, Seq<u8>)> = if kv_contains(dbv, rk) {
        Seq::empty()
    } else {
        seq![(rk, tv)]
    };
    let w_commit: Seq<(Seq<u8>, Seq<u8>)> = if kv_contains(dbv, ck) {
        Seq::empty()
    } else {
        seq![(ck, tv), (ctk, c)]
    };
    assert(w == w_repo + w_commit + seq![(ak, tv)]);
    assert(w[w.len() - 1] == (ak, tv));
    if k == ak {
        lemma_writes_get_at(w, k, w.len() - 1);
    } else if k == ctk && !kv_contains(dbv, ck) {
        let pos = w_repo.len() as int + 1;
        assert(w[pos] == w_commit[1]);
        assert(w[pos] == (ctk, c));
        assert forall|j: int| pos < j < w.len() implies #[trigger] w[j].0 != k by {
            assert(w[j] == (ak, tv));
        }
        lemma_writes_get_at(w, k, pos);
    } else if k == ck && !kv_contains(dbv, ck) {
        let pos = w_repo.len() as int;
        assert(w[pos] == w_commit[0]);
        assert(w[pos] == (ck, tv));
        assert forall|j: int| pos < j < w.len() implies #[trigger] w[j].0 != k by {
            if j < w_repo.len() + w_commit.len() {
                assert(w[j] == (ctk, c));
            } else {
                assert(w[j] == (ak, tv));
            }
        }
        lemma_writes_get_at(w, k, pos);
    } else if k == rk && !kv_contains(dbv, rk) {
        assert(w[0] == (rk, tv));
        assert forall|j: int| 0 < j < w.len() implies #[trigger] w[j].0 != k by {
            if j < w_repo.len() + w_commit.len() {
                assert(w[j] == w_commit[j - w_repo.len()]);
            } else {
                assert(w[j] == (ak, tv));
            }
        }
        lemma_writes_get_at(w, k, 0);
    } else {
        assert forall|j: int| 0 <= j < w.len() implies #[trigger] w[j].0 != k by {
            if w[j] == (rk, tv) {
                assert(!kv_contains(dbv, rk) ==> k != rk);
                assert(kv_contains(dbv, rk) ==> w_repo.len() == 0);
                if kv_contains(dbv, rk) {
                    assert(w[j] == w_commit[j - w_repo.len()] || w[j] == (ak, tv));
                }
            }
        }
        lemma_writes_get_none(w, k);
    }
}


/// The empty store satisfies the pairing invariant.
pub proof fn lemma_empty_store_commit_index()
    ensures
        commit_index_inv(Seq::<(Seq<u8>, Seq<u8>)>::empty()),
{
}

/// Law: one upload keeps the commit rows and the commit-by-time index
/// paired, and records its commit. Together with
/// `lemma_one_listing_entry_per_commit` this shows that once
/// `create_commit_if_not_exists` has succeeded for `(s, o, r, c)`, the
/// repository's listing carries exactly one entry naming `c`, no matter how
/// many further uploads name it. The one restriction: the upload's
/// timestamp must not already sit in the repository's index, since a second
/// commit recorded at the very same nanosecond would overwrite the first's
/// index row.
pub proof fn lemma_upload_preserves_commit_index(
    dbv: Seq<(Seq<u8>, Seq<u8>)>,
    t: u128,
    sv: Seq<char>,
    ov: Seq<char>,
    rv: Seq<char>,
    cv: Seq<char>,
    pv: Seq<char>,
)
    requires
        kv_sorted(dbv),
        db_inv(dbv),
        commit_index_inv(dbv),
        !kv_contains(
            dbv,
            commit_time_key(encode_utf8(sv), encode_utf8(ov), encode_utf8(rv), t),
        ),
    ensures
        ({
            let out = apply_writes(
                dbv,
                upload_writes(
                    dbv,
                    t,
                    encode_utf8(sv),
                    encode_utf8(ov),
                    encode_utf8(rv),
                    encode_utf8(cv),
                    encode_utf8(pv),
                ),
            );
            &&& kv_sorted(out)
            &&& db_inv(out)
            &&& commit_index_inv(out)
            &&& kv_contains(
                out,
                commit_key(encode_utf8(sv), encode_utf8(ov), encode_utf8(rv), encode_utf8(cv)),
            )
        }),
{
    let s = encode_utf8(sv);
    let o = encode_utf8(ov);
    let rr = encode_utf8(rv);
    let c = encode_utf8(cv);
    let p = encode_utf8(pv);
    let tv = be_bytes_of(t as nat, 16);
    let rk = repo_key(s, o, rr);
    let ck = commit_key(s, o, rr, c);
    let ctk = commit_time_key(s, o, rr, t);
    let ak = artifact_key(c, p);
    let w = upload_writes(dbv, t, s, o, rr, c, p);
    let out = apply_writes(dbv, w);
    lemma_be_bytes_len(t as nat, 16);
    lemma_decode_encode(seq![tag_repo(), s, o, rr]);
    lemma_decode_encode(seq![tag_commit(), s, o, rr, c]);
    lemma_decode_encode(seq![tag_commit_time(), s, o, rr, tv]);
    lemma_decode_encode(seq![tag_artifact(), c, p]);
    // the writes are well-formed records, so the result is a well-formed store
    lemma_upload_writes_elems(dbv, t, s, o, rr, c, p);
    assert forall|j: int| 0 <= j < w.len() implies #[trigger] entry_wf(w[j].0, w[j].1) by {
        lemma_repo_entry_wf(sv, ov, rv, t);
        lemma_commit_entry_wf(sv, ov, rv, cv, t);
        lemma_commit_time_entry_wf(sv, ov, rv, cv, t);
        lemma_artifact_entry_wf(cv, pv, t);
    }
    lemma_apply_writes_wf(dbv, w);
    // the commit row is recorded either way
    lemma_apply_writes_read(dbv, w, ck);
    lemma_upload_writes_lookup(dbv, t, s, o, rr, c, p, ck);
    assert(kv_contains(out, ck));
    // every index row of the result names a recorded commit
    assert forall|i: int| 0 <= i < out.len() && is_ct_row(#[trigger] out[i]) implies kv_contains(
        out,
        commit_key(
            decode_key(out[i].0)[1],
            decode_key(out[i].0)[2],
            decode_key(out[i].0)[3],
            out[i].1,
        ),
    ) by {
        let key = out[i].0;
        let val = out[i].1;
        let parts = decode_key(key);
        lemma_sorted_kv_get_at(out, i);
        lemma_apply_writes_read(dbv, w, key);
        lemma_upload_writes_lookup(dbv, t, s, o, rr, c, p, key);
        assert(key != ak && key != ck && key != rk);
        let target = commit_key(parts[1], parts[2], parts[3], val);
        lemma_decode_encode(seq![tag_commit(), parts[1], parts[2], parts[3], val]);
        assert(target != rk && target != ctk && target != ak);
        lemma_apply_writes_read(dbv, w, target);
        lemma_upload_writes_lookup(dbv, t, s, o, rr, c, p, target);
        if key == ctk && !kv_contains(dbv, ck) {
            assert(val == c);
            assert(parts[1] == s && parts[2] == o && parts[3] == rr);
            assert(target == ck);
        } else {
            assert(kv_get(dbv, key) == Some(val));
            crate::kv::lemma_kv_get_some_index(dbv, key);
            let oi = choose|oi: int|
                0 <= oi < dbv.len() && #[trigger] dbv[oi].0 == key && dbv[oi].1 == kv_get(
                    dbv,
                    key,
                )->Some_0;
            assert(is_ct_row(dbv[oi]));
            assert(kv_contains(dbv, target));
            if target == ck {
            } else {
                assert(kv_get(out, target) == kv_get(dbv, target));
            }
        }
    }
    // no repository's index carries two rows naming one commit
    assert forall|i: int, j: int|
        0 <= i < out.len() && 0 <= j < out.len() && i != j && is_ct_row(#[trigger] out[i])
            && is_ct_row(#[trigger] out[j]) && decode_key(out[i].0)[1] == decode_key(out[j].0)[1]
            && decode_key(out[i].0)[2] == decode_key(out[j].0)[2] && decode_key(out[i].0)[3]
            == decode_key(out[j].0)[3] implies out[i].1 != out[j].1 by {
        if out[i].1 == out[j].1 {
            let ki = out[i].0;
            let kj = out[j].0;
            let v = out[i].1;
            assert(ki != kj) by {
                if ki == kj {
                    if i < j {
                        assert(lex_lt(out[i].0, out[j].0));
                    } else {
                        assert(lex_lt(out[j].0, out[i].0));
                    }
                    crate::order::lemma_lex_irrefl(ki);
                }
            }
            lemma_sorted_kv_get_at(out, i);
            lemma_sorted_kv_get_at(out, j);
            lemma_apply_writes_read(dbv, w, ki);
            lemma_apply_writes_read(dbv, w, kj);
            lemma_upload_writes_lookup(dbv, t, s, o, rr, c, p, ki);
            lemma_upload_writes_lookup(dbv, t, s, o, rr, c, p, kj);
            assert(ki != ak && ki != ck && ki != rk);
            assert(kj != ak && kj != ck && kj != rk);
            if ki == ctk && !kv_contains(dbv, ck) {
                assert(v == c);
                assert(kv_get(dbv, kj) == Some(v));
                crate::kv::lemma_kv_get_some_index(dbv, kj);
                let oj = choose|oj: int|
                    0 <= oj < dbv.len() && #[trigger] dbv[oj].0 == kj && dbv[oj].1 == kv_get(
                        dbv,
                        kj,
                    )->Some_0;
                assert(is_ct_row(dbv[oj]));
                assert(decode_key(kj)[1] == s && decode_key(kj)[2] == o && decode_key(kj)[3]
                    == rr);
                assert(kv_contains(
                    dbv,
                    commit_key(decode_key(kj)[1], decode_key(kj)[2], decode_key(kj)[3], c),
                ));
                assert(false);
            } else if kj == ctk && !kv_contains(dbv, ck) {
                assert(v == c);
                assert(kv_get(dbv, ki) == Some(v));
                crate::kv::lemma_kv_get_some_index(dbv, ki);
                let oi = choose|oi: int|
                    0 <= oi < dbv.len() && #[trigger] dbv[oi].0 == ki && dbv[oi].1 == kv_get(
                        dbv,
                        ki,
                    )->Some_0;
                assert(is_ct_row(dbv[oi]));
                assert(decode_key(ki)[1] == s && decode_key(ki)[2] == o && decode_key(ki)[3]
                    == rr);
                assert(kv_contains(
                    dbv,
                    commit_key(decode_key(ki)[1], decode_key(ki)[2], decode_key(ki)[3], c),
                ));
                assert(false);
            } else {
                assert(kv_get(dbv, ki) == Some(v));
                assert(kv_get(dbv, kj) == Some(v));
                crate::kv::lemma_kv_get_some_index(dbv, ki);
                crate::kv::lemma_kv_get_some_index(dbv, kj);
                let oi = choose|oi: int|
                    0 <= oi < dbv.len() && #[trigger] dbv[oi].0 == ki && dbv[oi].1 == kv_get(
                        dbv,
                        ki,
                    )->Some_0;
                let oj = choose|oj: int|
                    0 <= oj < dbv.len() && #[trigger] dbv[oj].0 == kj && dbv[oj].1 == kv_get(
                        dbv,
                        kj,
                    )->Some_0;
                assert(oi != oj);
                assert(is_ct_row(dbv[oi]) && is_ct_row(dbv[oj]));
                assert(dbv[oi].1 != dbv[oj].1);
                assert(false);
            }
        }
    }
    // every commit row of the result has an index row naming it
    assert forall|i: int| 0 <= i < out.len() && is_commit_row(#[trigger] out[i]) implies exists|
        j: int,
    |
        0 <= j < out.len() && is_ct_row(#[trigger] out[j]) && decode_key(out[j].0)[1]
            == decode_key(out[i].0)[1] && decode_key(out[j].0)[2] == decode_key(out[i].0)[2]
            && decode_key(out[j].0)[3] == decode_key(out[i].0)[3] && out[j].1 == decode_key(
            out[i].0,
        )[4] by {
        let key = out[i].0;
        let parts = decode_key(key);
        lemma_sorted_kv_get_at(out, i);
        lemma_apply_writes_read(dbv, w, key);
        lemma_upload_writes_lookup(dbv, t, s, o, rr, c, p, key);
        assert(key != ak && key != ctk && key != rk);
        if key == ck && !kv_contains(dbv, ck) {
            lemma_apply_writes_read(dbv, w, ctk);
            lemma_upload_writes_lookup(dbv, t, s, o, rr, c, p, ctk);
            assert(kv_get(out, ctk) == Some(c));
            crate::kv::lemma_kv_get_some_index(out, ctk);
            let j = choose|j: int|
                0 <= j < out.len() && #[trigger] out[j].0 == ctk && out[j].1 == kv_get(
                    out,
                    ctk,
                )->Some_0;
            assert(is_ct_row(out[j]));
            assert(decode_key(out[j].0)[1] == s && decode_key(out[j].0)[2] == o && decode_key(
                out[j].0,
            )[3] == rr);
            assert(parts[1] == s && parts[2] == o && parts[3] == rr && parts[4] == c);
        } else {
            assert(kv_get(dbv, key) == Some(out[i].1));
            crate::kv::lemma_kv_get_some_index(dbv, key);
            let oi = choose|oi: int|
                0 <= oi < dbv.len() && #[trigger] dbv[oi].0 == key && dbv[oi].1 == kv_get(
                    dbv,
                    key,
                )->Some_0;
            assert(is_commit_row(dbv[oi]));
            let oj = choose|oj: int|
                0 <= oj < dbv.len() && is_ct_row(#[trigger] dbv[oj]) && decode_key(dbv[oj].0)[1]
                    == decode_key(dbv[oi].0)[1] && decode_key(dbv[oj].0)[2] == decode_key(
                    dbv[oi].0,
                )[2] && decode_key(dbv[oj].0)[3] == decode_key(dbv[oi].0)[3] && dbv[oj].1
                    == decode_key(dbv[oi].0)[4];
            let tk = dbv[oj].0;
            lemma_sorted_kv_get_at(dbv, oj);
            lemma_apply_writes_read(dbv, w, tk);
            lemma_upload_writes_lookup(dbv, t, s, o, rr, c, p, tk);
            assert(tk != ak && tk != ck && tk != rk);
            assert(tk != ctk);
            assert(kv_get(out, tk) == Some(dbv[oj].1));
            crate::kv::lemma_kv_get_some_index(out, tk);
            let j = choose|j: int|
                0 <= j < out.len() && #[trigger] out[j].0 == tk && out[j].1 == kv_get(
                    out,
                    tk,
                )->Some_0;
            assert(is_ct_row(out[j]));
        }
    }
}

} // verus!
