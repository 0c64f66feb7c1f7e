//! The metadata store: repositories, commits, a commit-by-time index and
//! artifacts, all kept as rows of one ordered key-value namespace. Keys are
//! built with the reversible codec of `keys`; listing and "latest" queries
//! are range scans over encoded prefixes.

use crate::keys::decode_key;
use crate::keys::deserialize_key;
use crate::keys::encode_parts;
use crate::keys::lemma_decode_encode;
use crate::keys::lemma_encode_prefix_parts;
use crate::keys::lemma_escape_id;
use crate::keys::serialize_key;
use crate::keys::KEY_RANGE_END;
use crate::keys::KEY_SEPARATOR;
use crate::kv::bytes_eq;
use crate::kv::copy_bytes;
use crate::kv::kv_contains;
use crate::kv::kv_put;
use crate::kv::lemma_kv_put_at;
use crate::kv::lemma_kv_put_sorted;
use crate::kv::KvPair;
use crate::kv::kv_get;
use crate::kv::kv_sorted;
use crate::kv::lb_spec;
use crate::kv::lemma_lb_split;
use crate::kv::KvStore;
use crate::nums::be_value_of;
use crate::nums::extract_time;
use crate::order::lemma_lex_between;
use crate::order::lemma_lex_common_prefix;
use crate::order::lemma_lex_irrefl;
use crate::order::lemma_lex_total;
use crate::order::lemma_lex_trans;
use crate::order::lex_le;
use crate::order::lex_lt;
use crate::order::starts_with;
use vstd::prelude::*;
use vstd::string::StrSliceExecFns;
use vstd::string::StringExecFns;
use vstd::utf8::encode_utf8;
use vstd::utf8::valid_utf8;

verus! {

broadcast use vstd::utf8::encode_utf8_valid_utf8;

/// The collection tag of repository rows: the bytes of `repo`.
pub open spec fn tag_repo() -> Seq<u8> {
    seq![0x72u8, 0x65, 0x70, 0x6f]
}

/// The collection tag of commit rows: the bytes of `commit`.
pub open spec fn tag_commit() -> Seq<u8> {
    seq![0x63u8, 0x6f, 0x6d, 0x6d, 0x69, 0x74]
}

/// The collection tag of commit-by-time rows: the bytes of `commit_time`.
pub open spec fn tag_commit_time() -> Seq<u8> {
    seq![0x63u8, 0x6f, 0x6d, 0x6d, 0x69, 0x74, 0x5f, 0x74, 0x69, 0x6d, 0x65]
}

/// The collection tag of artifact rows: the bytes of `artifact`.
pub open spec fn tag_artifact() -> Seq<u8> {
    seq![0x61u8, 0x72, 0x74, 0x69, 0x66, 0x61, 0x63, 0x74]
}

/// The key of the repository row of `(server, owner, repo)`.
pub open spec fn repo_key(s: Seq<u8>, o: Seq<u8>, r: Seq<u8>) -> Seq<u8> {
    encode_parts(seq![tag_repo(), s, o, r])
}

/// The key of the commit row of `(server, owner, repo, commit)`.
pub open spec fn commit_key(s: Seq<u8>, o: Seq<u8>, r: Seq<u8>, c: Seq<u8>) -> Seq<u8> {
    encode_parts(seq![tag_commit(), s, o, r, c])
}

/// The shared key prefix of the commit-by-time rows of `(server, owner,
/// repo)`.
pub open spec fn commit_time_prefix(s: Seq<u8>, o: Seq<u8>, r: Seq<u8>) -> Seq<u8> {
    encode_parts(seq![tag_commit_time(), s, o, r])
}

/// The key of the commit-by-time row of `(server, owner, repo)` at time `t`.
pub open spec fn commit_time_key(s: Seq<u8>, o: Seq<u8>, r: Seq<u8>, t: u128) -> Seq<u8> {
    encode_parts(seq![tag_commit_time(), s, o, r, crate::nums::be_bytes_of(t as nat, 16)])
}

/// The key of the artifact row of `(commit, path)`.
pub open spec fn artifact_key(c: Seq<u8>, p: Seq<u8>) -> Seq<u8> {
    encode_parts(seq![tag_artifact(), c, p])
}

/// The shared key prefix of all repository rows.
pub open spec fn repo_scan_prefix() -> Seq<u8> {
    encode_parts(seq![tag_repo()])
}

/// The shared key prefix of the artifact rows of one commit.
pub open spec fn artifact_scan_prefix(c: Seq<u8>) -> Seq<u8> {
    encode_parts(seq![tag_artifact(), c])
}

/// Where a prefix scan starts: the position of the first key that continues
/// `p` with a separator and at least one further part.
pub open spec fn scan_lo(s: Seq<(Seq<u8>, Seq<u8>)>, p: Seq<u8>) -> int {
    lb_spec(s, p.push(KEY_SEPARATOR))
}

/// Where a prefix scan ends: the position of the first key beyond every key
/// that continues `p`.
pub open spec fn scan_hi(s: Seq<(Seq<u8>, Seq<u8>)>, p: Seq<u8>) -> int {
    lb_spec(s, p.push(KEY_RANGE_END))
}

/// The rows whose keys continue `p` with at least one further part, in key
/// order.
pub open spec fn scan_entries(s: Seq<(Seq<u8>, Seq<u8>)>, p: Seq<u8>) -> Seq<(Seq<u8>, Seq<u8>)> {
    s.subrange(scan_lo(s, p), scan_hi(s, p))
}

/// Every row of the store is a well-formed record of one of the four
/// collections: its key is a canonical encoding with the collection's tag
/// and arity, its value is a 16-byte timestamp (repository, commit and
/// artifact rows) or the commit's UTF-8 name (commit-by-time rows), and the
/// parts read back as strings hold UTF-8.
pub open spec fn entry_wf(k: Seq<u8>, v: Seq<u8>) -> bool {
    let parts = decode_key(k);
    &&& k == encode_parts(parts)
    &&& parts.len() >= 1
    &&& {
        ||| (parts[0] == tag_repo() && parts.len() == 4 && v.len() == 16 && valid_utf8(parts[1])
            && valid_utf8(parts[2]) && valid_utf8(parts[3]))
        ||| (parts[0] == tag_commit() && parts.len() == 5 && v.len() == 16)
        ||| (parts[0] == tag_commit_time() && parts.len() == 5 && parts[4].len() == 16
            && valid_utf8(v))
        ||| (parts[0] == tag_artifact() && parts.len() == 3 && v.len() == 16 && valid_utf8(
            parts[2],
        ))
    }
}

/// The schema invariant of the whole store.
pub open spec fn db_inv(s: Seq<(Seq<u8>, Seq<u8>)>) -> bool {
    forall|i: int| 0 <= i < s.len() ==> #[trigger] entry_wf(s[i].0, s[i].1)
}

/// The error taxonomy of the metadata store.
#[derive(Debug)]
pub enum Error {
    /// An artifact row with the same `(commit, path)` key already exists.
    ArtifactExists(String),
    /// Any other storage failure, with a human-readable message.
    Generic(String),
}

/// One row of a repository listing.
#[derive(Debug)]
pub struct RepoData {
    pub server: String,
    pub owner: String,
    pub repo: String,
    pub time_added: u128,
}

/// One row of a commit listing.
#[derive(Debug)]
pub struct CommitData {
    pub commit: String,
    pub time_added: u128,
}

/// One row of an artifact listing.
#[derive(Debug)]
pub struct ArtifactData {
    pub path: String,
    pub time_added: u128,
}

pub struct ExistsCommitParams<'a> {
    pub server: &'a String,
    pub owner: &'a String,
    pub repo: &'a String,
    pub commit: &'a String,
}

pub struct ListRepoCommitsParams<'a> {
    pub server: &'a String,
    pub owner: &'a String,
    pub repo: &'a String,
}

pub struct GetLatestCommitParams<'a> {
    pub server: &'a String,
    pub owner: &'a String,
    pub repo: &'a String,
}

pub struct ExistsArtifactParams<'a> {
    pub server: &'a String,
    pub owner: &'a String,
    pub repo: &'a String,
    pub commit: &'a String,
    pub path: &'a String,
}

pub struct ListArtifactsParams<'a> {
    pub server: &'a String,
    pub owner: &'a String,
    pub repo: &'a String,
    pub commit: &'a String,
}

pub struct CreateCommitParams<'a> {
    pub commit: &'a String,
    pub server: &'a String,
    pub owner: &'a String,
    pub repo: &'a String,
}

pub struct CreateArtifactParams<'a> {
    pub commit: &'a String,
    pub path: &'a String,
}

pub struct CreateRepositoryParams<'a> {
    pub server: &'a String,
    pub owner: &'a String,
    pub repo: &'a String,
}

/// Relies on `String::from_utf8`: on success the returned string's UTF-8
/// encoding is exactly the input, and any valid UTF-8 input succeeds.
#[verifier::external_body]
fn string_from_utf8(bytes: Vec<u8>) -> (r: Option<String>)
    ensures
        r matches Some(s) ==> encode_utf8(s@) == bytes@,
        valid_utf8(bytes@) ==> r is Some,
{
    String::from_utf8(bytes).ok()
}

/// The bytes of the `repo` tag.
fn tag_repo_vec() -> (v: Vec<u8>)
    ensures
        v@ == tag_repo(),
{
    let mut v: Vec<u8> = Vec::new();
    v.push(0x72);
    v.push(0x65);
    v.push(0x70);
    v.push(0x6f);
    proof {
        assert(v@ =~= tag_repo());
    }
    v
}

/// The bytes of the `commit` tag.
fn tag_commit_vec() -> (v: Vec<u8>)
    ensures
        v@ == tag_commit(),
{
    let mut v: Vec<u8> = Vec::new();
    v.push(0x63);
    v.push(0x6f);
    v.push(0x6d);
    v.push(0x6d);
    v.push(0x69);
    v.push(0x74);
    proof {
        assert(v@ =~= tag_commit());
    }
    v
}

/// The bytes of the `commit_time` tag.
fn tag_commit_time_vec() -> (v: Vec<u8>)
    ensures
        v@ == tag_commit_time(),
{
    let mut v = tag_commit_vec();
    v.push(0x5f);
    v.push(0x74);
    v.push(0x69);
    v.push(0x6d);
    v.push(0x65);
    proof {
        assert(v@ =~= tag_commit_time());
    }
    v
}

/// The bytes of the `artifact` tag.
fn tag_artifact_vec() -> (v: Vec<u8>)
    ensures
        v@ == tag_artifact(),
{
    let mut v: Vec<u8> = Vec::new();
    v.push(0x61);
    v.push(0x72);
    v.push(0x74);
    v.push(0x69);
    v.push(0x66);
    v.push(0x61);
    v.push(0x63);
    v.push(0x74);
    proof {
        assert(v@ =~= tag_artifact());
    }
    v
}

/// A slice's deep view is its view.
proof fn lemma_slice_deep_view(s: &[u8])
    ensures
        s.deep_view() == s@,
{
    assert(s.deep_view() =~= s@);
}

/// Builds the repository-row key of `(server, owner, repo)`.
fn repo_key_bytes(server: &str, owner: &str, repo: &str) -> (k: Vec<u8>)
    ensures
        k@ == repo_key(encode_utf8(server@), encode_utf8(owner@), encode_utf8(repo@)),
{
    let tag = tag_repo_vec();
    let mut parts: Vec<&[u8]> = Vec::new();
    parts.push(tag.as_slice());
    parts.push(server.as_bytes());
    parts.push(owner.as_bytes());
    parts.push(repo.as_bytes());
    proof {
        assert(parts@[0].deep_view() =~= tag_repo());
        assert(parts@[1].deep_view() =~= encode_utf8(server@));
        assert(parts@[2].deep_view() =~= encode_utf8(owner@));
        assert(parts@[3].deep_view() =~= encode_utf8(repo@));
        assert(parts.deep_view() =~= seq![
            tag_repo(),
            encode_utf8(server@),
            encode_utf8(owner@),
            encode_utf8(repo@),
        ]);
    }
    serialize_key(parts)
}

/// Builds the commit-row key of `(server, owner, repo, commit)`.
fn commit_key_bytes(server: &str, owner: &str, repo: &str, commit: &str) -> (k: Vec<u8>)
    ensures
        k@ == commit_key(
            encode_utf8(server@),
            encode_utf8(owner@),
            encode_utf8(repo@),
            encode_utf8(commit@),
        ),
{
    let tag = tag_commit_vec();
    let mut parts: Vec<&[u8]> = Vec::new();
    parts.push(tag.as_slice());
    parts.push(server.as_bytes());
    parts.push(owner.as_bytes());
    parts.push(repo.as_bytes());
    parts.push(commit.as_bytes());
    proof {
        assert(parts@[0].deep_view() =~= tag_commit());
        assert(parts@[1].deep_view() =~= encode_utf8(server@));
        assert(parts@[2].deep_view() =~= encode_utf8(owner@));
        assert(parts@[3].deep_view() =~= encode_utf8(repo@));
        assert(parts@[4].deep_view() =~= encode_utf8(commit@));
        assert(parts.deep_view() =~= seq![
            tag_commit(),
            encode_utf8(server@),
            encode_utf8(owner@),
            encode_utf8(repo@),
            encode_utf8(commit@),
        ]);
    }
    serialize_key(parts)
}

/// Builds the shared key prefix of the commit-by-time rows of `(server,
/// owner, repo)`.
fn commit_time_prefix_bytes(server: &str, owner: &str, repo: &str) -> (k: Vec<u8>)
    ensures
        k@ == commit_time_prefix(encode_utf8(server@), encode_utf8(owner@), encode_utf8(repo@)),
{
    let tag = tag_commit_time_vec();
    let mut parts: Vec<&[u8]> = Vec::new();
    parts.push(tag.as_slice());
    parts.push(server.as_bytes());
    parts.push(owner.as_bytes());
    parts.push(repo.as_bytes());
    proof {
        assert(parts@[0].deep_view() =~= tag_commit_time());
        assert(parts@[1].deep_view() =~= encode_utf8(server@));
        assert(parts@[2].deep_view() =~= encode_utf8(owner@));
        assert(parts@[3].deep_view() =~= encode_utf8(repo@));
        assert(parts.deep_view() =~= seq![
            tag_commit_time(),
            encode_utf8(server@),
            encode_utf8(owner@),
            encode_utf8(repo@),
        ]);
    }
    serialize_key(parts)
}

/// Builds the commit-by-time-row key of `(server, owner, repo)` at `time`.
fn commit_time_key_bytes(server: &str, owner: &str, repo: &str, time: u128) -> (k: Vec<u8>)
    ensures
        k@ == commit_time_key(
            encode_utf8(server@),
            encode_utf8(owner@),
            encode_utf8(repo@),
            time,
        ),
{
    let tag = tag_commit_time_vec();
    let time_bytes = crate::nums::u128_to_be_bytes(time);
    let mut parts: Vec<&[u8]> = Vec::new();
    parts.push(tag.as_slice());
    parts.push(server.as_bytes());
    parts.push(owner.as_bytes());
    parts.push(repo.as_bytes());
    parts.push(time_bytes.as_slice());
    proof {
        assert(parts@[0].deep_view() =~= tag_commit_time());
        assert(parts@[1].deep_view() =~= encode_utf8(server@));
        assert(parts@[2].deep_view() =~= encode_utf8(owner@));
        assert(parts@[3].deep_view() =~= encode_utf8(repo@));
        assert(parts@[4].deep_view() =~= crate::nums::be_bytes_of(time as nat, 16));
        assert(parts.deep_view() =~= seq![
            tag_commit_time(),
            encode_utf8(server@),
            encode_utf8(owner@),
            encode_utf8(repo@),
            crate::nums::be_bytes_of(time as nat, 16),
        ]);
    }
    serialize_key(parts)
}

/// Builds the artifact-row key of `(commit, path)`.
fn artifact_key_bytes(commit: &str, path: &str) -> (k: Vec<u8>)
    ensures
        k@ == artifact_key(encode_utf8(commit@), encode_utf8(path@)),
{
    let tag = tag_artifact_vec();
    let mut parts: Vec<&[u8]> = Vec::new();
    parts.push(tag.as_slice());
    parts.push(commit.as_bytes());
    parts.push(path.as_bytes());
    proof {
        assert(parts@[0].deep_view() =~= tag_artifact());
        assert(parts@[1].deep_view() =~= encode_utf8(commit@));
        assert(parts@[2].deep_view() =~= encode_utf8(path@));
        assert(parts.deep_view() =~= seq![
            tag_artifact(),
            encode_utf8(commit@),
            encode_utf8(path@),
        ]);
    }
    serialize_key(parts)
}

/// Builds the shared key prefix of the artifact rows of one commit.
fn artifact_prefix_bytes(commit: &str) -> (k: Vec<u8>)
    ensures
        k@ == artifact_scan_prefix(encode_utf8(commit@)),
{
    let tag = tag_artifact_vec();
    let mut parts: Vec<&[u8]> = Vec::new();
    parts.push(tag.as_slice());
    parts.push(commit.as_bytes());
    proof {
        assert(parts@[0].deep_view() =~= tag_artifact());
        assert(parts@[1].deep_view() =~= encode_utf8(commit@));
        assert(parts.deep_view() =~= seq![tag_artifact(), encode_utf8(commit@)]);
    }
    serialize_key(parts)
}

/// The repository prefix is the bare tag: no byte of it needs an escape.
proof fn lemma_repo_scan_prefix()
    ensures
        repo_scan_prefix() == tag_repo(),
{
    lemma_escape_id(tag_repo());
    assert(encode_parts(seq![tag_repo()]) == crate::keys::escape_part(tag_repo()));
}

/// A scan's bounds sit in order within the store.
pub proof fn lemma_scan_bounds(s: Seq<(Seq<u8>, Seq<u8>)>, p: Seq<u8>)
    requires
        kv_sorted(s),
    ensures
        0 <= scan_lo(s, p) <= scan_hi(s, p) <= s.len(),
{
    lemma_lb_split(s, p.push(KEY_SEPARATOR));
    lemma_lb_split(s, p.push(KEY_RANGE_END));
    let lo = scan_lo(s, p);
    let hi = scan_hi(s, p);
    if lo > hi {
        let key = s[hi].0;
        assert(lex_lt(key, p.push(KEY_SEPARATOR)));
        assert(!lex_lt(key, p.push(KEY_RANGE_END)));
        assert(p.push(KEY_SEPARATOR) =~= p + seq![KEY_SEPARATOR]);
        assert(p.push(KEY_RANGE_END) =~= p + seq![KEY_RANGE_END]);
        lemma_lex_common_prefix(p, seq![KEY_SEPARATOR], seq![KEY_RANGE_END]);
        assert(lex_lt(p.push(KEY_SEPARATOR), p.push(KEY_RANGE_END)));
        lemma_lex_trans(key, p.push(KEY_SEPARATOR), p.push(KEY_RANGE_END));
        assert(false);
    }
}

/// A row inside the scan range of the prefix of `q` is a well-formed record
/// whose decoded parts extend `q`.
pub proof fn lemma_scan_entry(s: Seq<(Seq<u8>, Seq<u8>)>, q: Seq<Seq<u8>>, i: int)
    requires
        kv_sorted(s),
        db_inv(s),
        q.len() >= 1,
        scan_lo(s, encode_parts(q)) <= i < scan_hi(s, encode_parts(q)),
    ensures
        0 <= i < s.len(),
        entry_wf(s[i].0, s[i].1),
        decode_key(s[i].0).len() > q.len(),
        decode_key(s[i].0).take(q.len() as int) == q,
{
    let p = encode_parts(q);
    lemma_scan_bounds(s, p);
    lemma_lb_split(s, p.push(KEY_SEPARATOR));
    lemma_lb_split(s, p.push(KEY_RANGE_END));
    let key = s[i].0;
    assert(lex_lt(key, p.push(KEY_RANGE_END)));
    assert(!lex_lt(key, p.push(KEY_SEPARATOR)));
    lemma_lex_total(p.push(KEY_SEPARATOR), key);
    assert(lex_le(p.push(KEY_SEPARATOR), key));
    lemma_lex_between(p, key, KEY_SEPARATOR, KEY_RANGE_END);
    assert(key[p.len() as int] == KEY_SEPARATOR);
    assert(starts_with(key, p.push(KEY_SEPARATOR))) by {
        assert forall|j: int| 0 <= j < p.len() + 1 implies key.take(p.len() as int + 1)[j]
            == p.push(KEY_SEPARATOR)[j] by {
            if j < p.len() {
                assert(key.take(p.len() as int)[j] == key[j]);
            }
        }
        assert(key.take(p.len() as int + 1) =~= p.push(KEY_SEPARATOR));
    }
    assert(entry_wf(s[i].0, s[i].1));
    let parts = decode_key(key);
    lemma_encode_prefix_parts(parts, q);
}

/// How a repository listing row reflects a repository record: the three
/// name parts of its key, read back as strings, and its timestamp value.
pub open spec fn repo_data_matches(d: RepoData, e: (Seq<u8>, Seq<u8>)) -> bool {
    let parts = decode_key(e.0);
    &&& encode_utf8(d.server@) == parts[1]
    &&& encode_utf8(d.owner@) == parts[2]
    &&& encode_utf8(d.repo@) == parts[3]
    &&& d.time_added as nat == be_value_of(e.1)
}

/// How a commit listing row reflects a commit-by-time record: the commit
/// name is the record's value, the timestamp is the key's final part.
pub open spec fn commit_data_matches(d: CommitData, e: (Seq<u8>, Seq<u8>)) -> bool {
    &&& encode_utf8(d.commit@) == e.1
    &&& d.time_added as nat == be_value_of(decode_key(e.0)[4])
}

/// How an artifact listing row reflects an artifact record: the path part of
/// its key, read back as a string, and its timestamp value.
pub open spec fn artifact_data_matches(d: ArtifactData, e: (Seq<u8>, Seq<u8>)) -> bool {
    &&& encode_utf8(d.path@) == decode_key(e.0)[2]
    &&& d.time_added as nat == be_value_of(e.1)
}

/// The converse: a well-formed row whose decoded parts extend `q` sits
/// inside the scan range of the prefix of `q`.
pub proof fn lemma_scan_entry_converse(s: Seq<(Seq<u8>, Seq<u8>)>, q: Seq<Seq<u8>>, i: int)
    requires
        kv_sorted(s),
        q.len() >= 1,
        0 <= i < s.len(),
        decode_key(s[i].0).len() > q.len(),
        decode_key(s[i].0).take(q.len() as int) == q,
        s[i].0 == encode_parts(decode_key(s[i].0)),
    ensures
        scan_lo(s, encode_parts(q)) <= i < scan_hi(s, encode_parts(q)),
{
    let parts = decode_key(s[i].0);
    let k = s[i].0;
    let p = encode_parts(q);
    crate::keys::lemma_parts_extend_prefix(parts, q);
    assert(starts_with(k, p.push(KEY_SEPARATOR)));
    assert(k.len() > p.len());
    assert(k.take(p.len() as int) =~= k.take(p.len() as int + 1).take(p.len() as int));
    assert(k.take(p.len() as int + 1).take(p.len() as int) =~= p.push(KEY_SEPARATOR).take(
        p.len() as int,
    ));
    assert(p.push(KEY_SEPARATOR).take(p.len() as int) =~= p);
    assert(k[p.len() as int] == k.take(p.len() as int + 1)[p.len() as int]);
    assert(k[p.len() as int] == KEY_SEPARATOR);
    crate::order::lemma_lex_between_converse(p, k, KEY_SEPARATOR, KEY_RANGE_END);
    lemma_lb_split(s, p.push(KEY_SEPARATOR));
    lemma_lb_split(s, p.push(KEY_RANGE_END));
    if i < scan_lo(s, p) {
        assert(lex_lt(k, p.push(KEY_SEPARATOR)));
        lemma_lex_total(p.push(KEY_SEPARATOR), k);
        crate::order::lemma_lex_irrefl(k);
        assert(false);
    }
    if i >= scan_hi(s, p) {
        assert(!lex_lt(k, p.push(KEY_RANGE_END)));
        assert(false);
    }
}

/// The metadata store, backed by the verified in-memory ordered store.
pub enum Database {
    Memory(KvStore),
}

impl Database {
    /// The rows of the store, in key order.
    pub closed spec fn view(&self) -> Seq<(Seq<u8>, Seq<u8>)> {
        match self {
            Database::Memory(kv) => kv@,
        }
    }

    /// The store is sorted and every row is a well-formed record.
    pub open spec fn wf(&self) -> bool {
        kv_sorted(self@) && db_inv(self@)
    }

    /// An empty in-memory store.
    pub fn new_memory() -> (db: Database)
        ensures
            db@ == Seq::<(Seq<u8>, Seq<u8>)>::empty(),
            db.wf(),
    {
        Database::Memory(KvStore::new())
    }

    /// Opens an optimistic transaction: its reads see a snapshot of the
    /// store as it is now, and its writes are buffered until `commit`.
    pub fn transaction(&self) -> (tx: Transaction)
        requires
            self.wf(),
        ensures
            tx.wf(),
            tx.snap() == self@,
            tx.reads_view() == Seq::<(Seq<u8>, Option<Seq<u8>>)>::empty(),
            tx.writes_view() == Seq::<(Seq<u8>, Seq<u8>)>::empty(),
    {
        let Database::Memory(kv) = self;
        let tx = Transaction { snapshot: kv.duplicate(), reads: Vec::new(), writes: Vec::new() };
        proof {
            assert(tx.reads_view() =~= Seq::<(Seq<u8>, Option<Seq<u8>>)>::empty());
            assert(tx.writes_view() =~= Seq::<(Seq<u8>, Seq<u8>)>::empty());
        }
        tx
    }

    /// Whether the commit row of `(server, owner, repo, commit)` exists.
    pub fn exists_commit(&self, params: ExistsCommitParams) -> (r: Result<bool, Error>)
        ensures
            r matches Ok(b) && b == kv_contains(
                self@,
                commit_key(
                    encode_utf8(params.server@),
                    encode_utf8(params.owner@),
                    encode_utf8(params.repo@),
                    encode_utf8(params.commit@),
                ),
            ),
    {
        let key = commit_key_bytes(
            params.server.as_str(),
            params.owner.as_str(),
            params.repo.as_str(),
            params.commit.as_str(),
        );
        let Database::Memory(store) = self;
        Ok(store.get(key.as_slice()).is_some())
    }

    /// Lists every repository record, in ascending key order.
    #[verifier::loop_isolation(false)]
    pub fn list_repos(&self) -> (r: Result<Vec<RepoData>, Error>)
        requires
            self.wf(),
        ensures
            r matches Ok(v) && {
                let es = scan_entries(self@, repo_scan_prefix());
                &&& v@.len() == es.len()
                &&& forall|j: int| 0 <= j < es.len() ==> repo_data_matches(#[trigger] v@[j], es[j])
            },
    {
        let prefix = tag_repo_vec();
        proof {
            lemma_repo_scan_prefix();
        }
        let mut lo_key = copy_bytes(&prefix);
        lo_key.push(KEY_SEPARATOR);
        let mut hi_key = prefix;
        hi_key.push(KEY_RANGE_END);
        let Database::Memory(store) = self;
        proof {
            assert(store@ == self@);
            assert(lo_key@ =~= repo_scan_prefix().push(KEY_SEPARATOR));
            assert(hi_key@ =~= repo_scan_prefix().push(KEY_RANGE_END));
            lemma_scan_bounds(self@, repo_scan_prefix());
        }
        let lo = store.lower_bound(lo_key.as_slice());
        let hi = store.lower_bound(hi_key.as_slice());
        let mut result: Vec<RepoData> = Vec::new();
        let mut i = lo;
        while i < hi
            invariant
                self.wf(),
                store@ == self@,
                lo == scan_lo(self@, repo_scan_prefix()),
                hi == scan_hi(self@, repo_scan_prefix()),
                0 <= lo <= i <= hi <= self@.len(),
                result@.len() == i - lo,
                forall|j: int|
                    lo <= j < i ==> repo_data_matches(#[trigger] result@[j - lo], self@[j]),
            decreases hi - i,
        {
            let ghost dparts = decode_key(self@[i as int].0);
            proof {
                lemma_scan_entry(self@, seq![tag_repo()], i as int);
                assert(dparts.take(1)[0] == dparts[0]);
                assert(dparts[0] == tag_repo());
                assert(dparts.len() == 4);
            }
            let key = store.key_at(i);
            let mut parts = deserialize_key(key.as_slice());
            proof {
                assert(parts.deep_view() == dparts);
                assert(parts@.len() == parts.deep_view().len());
                assert(parts@[1].deep_view() =~= parts@[1]@);
                assert(parts@[2].deep_view() =~= parts@[2]@);
                assert(parts@[3].deep_view() =~= parts@[3]@);
            }
            let repo_v = parts.remove(3);
            let owner_v = parts.remove(2);
            let server_v = parts.remove(1);
            proof {
                assert(server_v@ == dparts[1]);
                assert(owner_v@ == dparts[2]);
                assert(repo_v@ == dparts[3]);
            }
            let server = string_from_utf8(server_v).unwrap();
            let owner = string_from_utf8(owner_v).unwrap();
            let repo = string_from_utf8(repo_v).unwrap();
            let value = store.value_at(i);
            proof {
                assert(value@.take(16) =~= value@);
            }
            let time = extract_time(value.as_slice());
            result.push(RepoData { server, owner, repo, time_added: time });
            proof {
                assert(repo_data_matches(result@[i - lo], self@[i as int]));
            }
            i += 1;
        }
        proof {
            let es = scan_entries(self@, repo_scan_prefix());
            assert forall|j: int| 0 <= j < es.len() implies repo_data_matches(
                #[trigger] result@[j],
                es[j],
            ) by {
                assert(es[j] == self@[lo + j]);
                assert(repo_data_matches(result@[(lo + j) - lo], self@[lo + j]));
            }
        }
        Ok(result)
    }

    /// Lists the commits recorded for `(server, owner, repo)`, newest first:
    /// the commit-by-time rows of the repository, read backwards.
    #[verifier::loop_isolation(false)]
    pub fn list_repo_commits(&self, params: ListRepoCommitsParams) -> (r: Result<
        Vec<CommitData>,
        Error,
    >)
        requires
            self.wf(),
        ensures
            r matches Ok(v) && {
                let es = scan_entries(
                    self@,
                    commit_time_prefix(
                        encode_utf8(params.server@),
                        encode_utf8(params.owner@),
                        encode_utf8(params.repo@),
                    ),
                );
                &&& v@.len() == es.len()
                &&& forall|j: int|
                    0 <= j < es.len() ==> commit_data_matches(
                        #[trigger] v@[j],
                        es[es.len() - 1 - j],
                    )
            },
    {
        let ghost q = seq![
            tag_commit_time(),
            encode_utf8(params.server@),
            encode_utf8(params.owner@),
            encode_utf8(params.repo@),
        ];
        let prefix = commit_time_prefix_bytes(
            params.server.as_str(),
            params.owner.as_str(),
            params.repo.as_str(),
        );
        let mut lo_key = copy_bytes(&prefix);
        lo_key.push(KEY_SEPARATOR);
        let mut hi_key = prefix;
        hi_key.push(KEY_RANGE_END);
        let Database::Memory(store) = self;
        proof {
            assert(store@ == self@);
            assert(lo_key@ =~= encode_parts(q).push(KEY_SEPARATOR));
            assert(hi_key@ =~= encode_parts(q).push(KEY_RANGE_END));
            lemma_scan_bounds(self@, encode_parts(q));
        }
        let lo = store.lower_bound(lo_key.as_slice());
        let hi = store.lower_bound(hi_key.as_slice());
        let mut result: Vec<CommitData> = Vec::new();
        let mut i = hi;
        while i > lo
            invariant
                self.wf(),
                store@ == self@,
                lo == scan_lo(self@, encode_parts(q)),
                hi == scan_hi(self@, encode_parts(q)),
                0 <= lo <= i <= hi <= self@.len(),
                result@.len() == hi - i,
                forall|j: int|
                    i <= j < hi ==> commit_data_matches(#[trigger] result@[hi - 1 - j], self@[j]),
            decreases i - lo,
        {
            i -= 1;
            let ghost dparts = decode_key(self@[i as int].0);
            proof {
                lemma_scan_entry(self@, q, i as int);
                assert(dparts.take(4)[0] == dparts[0]);
                assert(dparts[0] == tag_commit_time());
                assert(dparts.len() == 5);
            }
            let value = copy_bytes(store.value_at(i));
            let commit = string_from_utf8(value).unwrap();
            let key = store.key_at(i);
            let mut parts = deserialize_key(key.as_slice());
            proof {
                assert(parts.deep_view() == dparts);
                assert(parts@.len() == parts.deep_view().len());
                assert(parts@[4].deep_view() =~= parts@[4]@);
            }
            let time_part = parts.remove(4);
            proof {
                assert(time_part@ == dparts[4]);
                assert(time_part@.take(16) =~= time_part@);
            }
            let time = extract_time(time_part.as_slice());
            result.push(CommitData { commit, time_added: time });
            proof {
                assert(commit_data_matches(result@[hi - 1 - i], self@[i as int]));
            }
        }
        proof {
            let es = scan_entries(self@, encode_parts(q));
            assert forall|j: int| 0 <= j < es.len() implies commit_data_matches(
                #[trigger] result@[j],
                es[es.len() - 1 - j],
            ) by {
                assert(es[es.len() - 1 - j] == self@[lo + (es.len() - 1 - j)]);
                assert(commit_data_matches(
                    result@[hi - 1 - (lo + (es.len() - 1 - j))],
                    self@[lo + (es.len() - 1 - j)],
                ));
            }
        }
        Ok(result)
    }

    /// The most recently recorded commit of `(server, owner, repo)`: the
    /// value of the last commit-by-time row of the repository's range, or
    /// `no commits found` if the range is empty.
    #[verifier::loop_isolation(false)]
    pub fn get_latest_commit(&self, params: GetLatestCommitParams) -> (r: Result<String, Error>)
        requires
            self.wf(),
        ensures
            ({
                let es = scan_entries(
                    self@,
                    commit_time_prefix(
                        encode_utf8(params.server@),
                        encode_utf8(params.owner@),
                        encode_utf8(params.repo@),
                    ),
                );
                &&& r is Ok <==> es.len() > 0
                &&& (r matches Ok(c) ==> encode_utf8(c@) == es.last().1)
                &&& (r matches Err(e) ==> e matches Error::Generic(m) && m@ == "no commits found"@)
            }),
    {
        let ghost q = seq![
            tag_commit_time(),
            encode_utf8(params.server@),
            encode_utf8(params.owner@),
            encode_utf8(params.repo@),
        ];
        let prefix = commit_time_prefix_bytes(
            params.server.as_str(),
            params.owner.as_str(),
            params.repo.as_str(),
        );
        let mut lo_key = copy_bytes(&prefix);
        lo_key.push(KEY_SEPARATOR);
        let mut hi_key = prefix;
        hi_key.push(KEY_RANGE_END);
        let Database::Memory(store) = self;
        proof {
            assert(store@ == self@);
            assert(lo_key@ =~= encode_parts(q).push(KEY_SEPARATOR));
            assert(hi_key@ =~= encode_parts(q).push(KEY_RANGE_END));
            lemma_scan_bounds(self@, encode_parts(q));
        }
        let lo = store.lower_bound(lo_key.as_slice());
        let hi = store.lower_bound(hi_key.as_slice());
        if lo < hi {
            proof {
                lemma_scan_entry(self@, q, hi - 1);
                let es = scan_entries(self@, encode_parts(q));
                assert(es.last() == self@[hi - 1]);
            }
            let value = copy_bytes(store.value_at(hi - 1));
            let commit = string_from_utf8(value).unwrap();
            Ok(commit)
        } else {
            Err(Error::Generic("no commits found".to_owned()))
        }
    }

    /// Lists the artifact records of one commit, in ascending path order.
    #[verifier::loop_isolation(false)]
    pub fn list_artifacts(&self, params: ListArtifactsParams) -> (r: Result<Vec<ArtifactData>, Error>)
        requires
            self.wf(),
        ensures
            r matches Ok(v) && {
                let es = scan_entries(self@, artifact_scan_prefix(encode_utf8(params.commit@)));
                &&& v@.len() == es.len()
                &&& forall|j: int|
                    0 <= j < es.len() ==> artifact_data_matches(#[trigger] v@[j], es[j])
            },
    {
        let ghost q = seq![tag_artifact(), encode_utf8(params.commit@)];
        let prefix = artifact_prefix_bytes(params.commit.as_str());
        let mut lo_key = copy_bytes(&prefix);
        lo_key.push(KEY_SEPARATOR);
        let mut hi_key = prefix;
        hi_key.push(KEY_RANGE_END);
        let Database::Memory(store) = self;
        proof {
            assert(store@ == self@);
            assert(lo_key@ =~= encode_parts(q).push(KEY_SEPARATOR));
            assert(hi_key@ =~= encode_parts(q).push(KEY_RANGE_END));
            lemma_scan_bounds(self@, encode_parts(q));
        }
        let lo = store.lower_bound(lo_key.as_slice());
        let hi = store.lower_bound(hi_key.as_slice());
        let mut result: Vec<ArtifactData> = Vec::new();
        let mut i = lo;
        while i < hi
            invariant
                self.wf(),
                store@ == self@,
                lo == scan_lo(self@, encode_parts(q)),
                hi == scan_hi(self@, encode_parts(q)),
                0 <= lo <= i <= hi <= self@.len(),
                result@.len() == i - lo,
                forall|j: int|
                    lo <= j < i ==> artifact_data_matches(#[trigger] result@[j - lo], self@[j]),
            decreases hi - i,
        {
            let ghost dparts = decode_key(self@[i as int].0);
            proof {
                lemma_scan_entry(self@, q, i as int);
                assert(dparts.take(2)[0] == dparts[0]);
                assert(dparts[0] == tag_artifact());
                assert(dparts.len() == 3);
            }
            let key = store.key_at(i);
            let mut parts = deserialize_key(key.as_slice());
            proof {
                assert(parts.deep_view() == dparts);
                assert(parts@.len() == parts.deep_view().len());
                assert(parts@[2].deep_view() =~= parts@[2]@);
            }
            let path_v = parts.remove(2);
            proof {
                assert(path_v@ == dparts[2]);
            }
            let path = string_from_utf8(path_v).unwrap();
            let value = store.value_at(i);
            proof {
                assert(value@.take(16) =~= value@);
            }
            let time = extract_time(value.as_slice());
            result.push(ArtifactData { path, time_added: time });
            proof {
                assert(artifact_data_matches(result@[i - lo], self@[i as int]));
            }
            i += 1;
        }
        proof {
            let es = scan_entries(self@, encode_parts(q));
            assert forall|j: int| 0 <= j < es.len() implies artifact_data_matches(
                #[trigger] result@[j],
                es[j],
            ) by {
                assert(es[j] == self@[lo + j]);
                assert(artifact_data_matches(result@[(lo + j) - lo], self@[lo + j]));
            }
        }
        Ok(result)
    }

    /// Whether the artifact row of `(commit, path)` exists; the commit row
    /// of the full tuple is checked first, and a missing commit answers
    /// without probing the artifact row.
    pub fn exists_artifact(&self, params: ExistsArtifactParams) -> (r: Result<bool, Error>)
        ensures
            r matches Ok(b) && b == (kv_contains(
                self@,
                commit_key(
                    encode_utf8(params.server@),
                    encode_utf8(params.owner@),
                    encode_utf8(params.repo@),
                    encode_utf8(params.commit@),
                ),
            ) && kv_contains(
                self@,
                artifact_key(encode_utf8(params.commit@), encode_utf8(params.path@)),
            )),
    {
        let commit_exists = match self.exists_commit(
            ExistsCommitParams {
                server: params.server,
                owner: params.owner,
                repo: params.repo,
                commit: params.commit,
            },
        ) {
            Ok(b) => b,
            Err(e) => {
                return Err(e);
            },
        };
        if !commit_exists {
            return Ok(false);
        }
        let key = artifact_key_bytes(params.commit.as_str(), params.path.as_str());
        let Database::Memory(store) = self;
        Ok(store.get(key.as_slice()).is_some())
    }
}


/// The view of an observed optional value.
pub open spec fn opt_bytes_view(o: Option<Vec<u8>>) -> Option<Seq<u8>> {
    match o {
        Some(v) => Some(v@),
        None => None,
    }
}

/// The pair views of a vector of stored pairs.
pub open spec fn pairs_seq(v: Seq<KvPair>) -> Seq<(Seq<u8>, Seq<u8>)> {
    v.map_values(|p: KvPair| (p.key@, p.value@))
}

/// One observation a transaction made against its snapshot: the key and the
/// value it saw there, if any.
struct ReadObs {
    key: Vec<u8>,
    value: Option<Vec<u8>>,
}

/// The observation views of a vector of read observations.
spec fn reads_seq(v: Seq<ReadObs>) -> Seq<(Seq<u8>, Option<Seq<u8>>)> {
    v.map_values(|r: ReadObs| (r.key@, opt_bytes_view(r.value)))
}

/// The value the buffered writes hold for `k`, the last write winning.
pub open spec fn writes_get(w: Seq<(Seq<u8>, Seq<u8>)>, k: Seq<u8>) -> Option<Seq<u8>>
    decreases w.len(),
{
    if w.len() == 0 {
        None
    } else {
        let rest = writes_get(w.drop_first(), k);
        if rest is Some {
            rest
        } else if w[0].0 == k {
            Some(w[0].1)
        } else {
            None
        }
    }
}

/// What a read inside a transaction sees: its own buffered writes first,
/// then the snapshot.
pub open spec fn tx_read(snap: Seq<(Seq<u8>, Seq<u8>)>, w: Seq<(Seq<u8>, Seq<u8>)>, k: Seq<u8>) -> Option<
    Seq<u8>,
> {
    match writes_get(w, k) {
        Some(v) => Some(v),
        None => kv_get(snap, k),
    }
}

/// The store after applying buffered writes in order.
pub open spec fn apply_writes(s: Seq<(Seq<u8>, Seq<u8>)>, w: Seq<(Seq<u8>, Seq<u8>)>) -> Seq<
    (Seq<u8>, Seq<u8>),
>
    decreases w.len(),
{
    if w.len() == 0 {
        s
    } else {
        apply_writes(kv_put(s, w[0].0, w[0].1), w.drop_first())
    }
}

/// All buffered writes are well-formed records.
pub open spec fn writes_wf(w: Seq<(Seq<u8>, Seq<u8>)>) -> bool {
    forall|i: int| 0 <= i < w.len() ==> #[trigger] entry_wf(w[i].0, w[i].1)
}

/// All recorded observations still hold in `s`.
pub open spec fn reads_ok(rds: Seq<(Seq<u8>, Option<Seq<u8>>)>, s: Seq<(Seq<u8>, Seq<u8>)>) -> bool {
    forall|i: int| 0 <= i < rds.len() ==> #[trigger] kv_get(s, rds[i].0) == rds[i].1
}

/// A key written nowhere among the buffered writes reads as absent from
/// them.
pub proof fn lemma_writes_get_none(w: Seq<(Seq<u8>, Seq<u8>)>, k: Seq<u8>)
    requires
        forall|j: int| 0 <= j < w.len() ==> #[trigger] w[j].0 != k,
    ensures
        writes_get(w, k) is None,
    decreases w.len(),
{
    if w.len() > 0 {
        let rest = w.drop_first();
        assert(forall|j: int| 0 <= j < rest.len() ==> #[trigger] rest[j].0 == w[j + 1].0);
        lemma_writes_get_none(rest, k);
    }
}

/// A buffered write with no later write to the same key is what the
/// transaction reads back.
pub proof fn lemma_writes_get_at(w: Seq<(Seq<u8>, Seq<u8>)>, k: Seq<u8>, i: int)
    requires
        0 <= i < w.len(),
        w[i].0 == k,
        forall|j: int| i < j < w.len() ==> #[trigger] w[j].0 != k,
    ensures
        writes_get(w, k) == Some(w[i].1),
    decreases w.len(),
{
    let rest = w.drop_first();
    assert(forall|j: int| 0 <= j < rest.len() ==> #[trigger] rest[j].0 == w[j + 1].0);
    if i == 0 {
        lemma_writes_get_none(rest, k);
    } else {
        lemma_writes_get_at(rest, k, i - 1);
    }
}

/// Reading any key after the buffered writes are applied gives what the
/// transaction itself would read.
pub proof fn lemma_apply_writes_read(
    s: Seq<(Seq<u8>, Seq<u8>)>,
    w: Seq<(Seq<u8>, Seq<u8>)>,
    k: Seq<u8>,
)
    ensures
        kv_get(apply_writes(s, w), k) == tx_read(s, w, k),
    decreases w.len(),
{
    if w.len() > 0 {
        lemma_apply_writes_read(kv_put(s, w[0].0, w[0].1), w.drop_first(), k);
        crate::kv::lemma_kv_get_put(s, w[0].0, w[0].1, k);
    }
}

/// Applying one more write is one more sorted insert.
pub proof fn lemma_apply_writes_snoc(
    s: Seq<(Seq<u8>, Seq<u8>)>,
    w: Seq<(Seq<u8>, Seq<u8>)>,
    k: Seq<u8>,
    v: Seq<u8>,
)
    ensures
        apply_writes(s, w.push((k, v))) == kv_put(apply_writes(s, w), k, v),
    decreases w.len(),
{
    let w2 = w.push((k, v));
    if w.len() == 0 {
        assert(w2.drop_first() =~= Seq::<(Seq<u8>, Seq<u8>)>::empty());
        assert(w2[0] == (k, v));
        assert(apply_writes(s, w2) == apply_writes(kv_put(s, k, v), w2.drop_first()));
        assert(apply_writes(kv_put(s, k, v), w2.drop_first()) == kv_put(s, k, v));
        assert(apply_writes(s, w) == s);
    } else {
        assert(w2[0] == w[0]);
        assert(w2.drop_first() =~= w.drop_first().push((k, v)));
        assert(apply_writes(s, w2) == apply_writes(kv_put(s, w[0].0, w[0].1), w2.drop_first()));
        lemma_apply_writes_snoc(kv_put(s, w[0].0, w[0].1), w.drop_first(), k, v);
        assert(apply_writes(s, w) == apply_writes(kv_put(s, w[0].0, w[0].1), w.drop_first()));
    }
}

/// A sorted, schema-correct store stays so under one write of a well-formed
/// record.
pub proof fn lemma_kv_put_inv(s: Seq<(Seq<u8>, Seq<u8>)>, k: Seq<u8>, v: Seq<u8>)
    requires
        kv_sorted(s),
        db_inv(s),
        entry_wf(k, v),
    ensures
        db_inv(kv_put(s, k, v)),
{
    lemma_lb_split(s, k);
    let i = lb_spec(s, k);
    lemma_kv_put_at(s, k, v, i);
    let out = kv_put(s, k, v);
    if i < s.len() && s[i].0 == k {
        assert(out =~= s.update(i, (k, v)));
        assert forall|j: int| 0 <= j < out.len() implies #[trigger] entry_wf(out[j].0, out[j].1) by {
            if j != i {
                assert(out[j] == s[j]);
                assert(entry_wf(s[j].0, s[j].1));
            }
        }
    } else {
        assert(out =~= s.insert(i, (k, v)));
        assert forall|j: int| 0 <= j < out.len() implies #[trigger] entry_wf(out[j].0, out[j].1) by {
            if j < i {
                assert(out[j] == s[j]);
                assert(entry_wf(s[j].0, s[j].1));
            } else if j > i {
                assert(out[j] == s[j - 1]);
                assert(entry_wf(s[j - 1].0, s[j - 1].1));
            }
        }
    }
}

/// Keys of rows of different collections differ: the first decoded part
/// decides.
pub proof fn lemma_key_tags_differ(a: Seq<Seq<u8>>, b: Seq<Seq<u8>>)
    requires
        a.len() >= 1,
        b.len() >= 1,
        a[0] != b[0],
    ensures
        encode_parts(a) != encode_parts(b),
{
    if encode_parts(a) == encode_parts(b) {
        crate::keys::lemma_encode_injective(a, b);
    }
}

/// A sorted, schema-correct store stays so under a batch of well-formed
/// writes.
pub proof fn lemma_apply_writes_wf(s: Seq<(Seq<u8>, Seq<u8>)>, w: Seq<(Seq<u8>, Seq<u8>)>)
    requires
        kv_sorted(s),
        db_inv(s),
        writes_wf(w),
    ensures
        kv_sorted(apply_writes(s, w)),
        db_inv(apply_writes(s, w)),
    decreases w.len(),
{
    if w.len() > 0 {
        assert(entry_wf(w[0].0, w[0].1));
        lemma_kv_put_sorted(s, w[0].0, w[0].1);
        lemma_kv_put_inv(s, w[0].0, w[0].1);
        let rest = w.drop_first();
        assert(forall|j: int| 0 <= j < rest.len() ==> rest[j] == w[j + 1]);
        assert forall|j: int| 0 <= j < rest.len() implies #[trigger] entry_wf(
            rest[j].0,
            rest[j].1,
        ) by {
            assert(rest[j] == w[j + 1]);
            assert(entry_wf(w[j + 1].0, w[j + 1].1));
        }
        lemma_apply_writes_wf(kv_put(s, w[0].0, w[0].1), rest);
    }
}

/// A repository record is well formed.
pub proof fn lemma_repo_entry_wf(sv: Seq<char>, ov: Seq<char>, rv: Seq<char>, t: u128)
    ensures
        entry_wf(
            repo_key(encode_utf8(sv), encode_utf8(ov), encode_utf8(rv)),
            crate::nums::be_bytes_of(t as nat, 16),
        ),
{
    let parts = seq![tag_repo(), encode_utf8(sv), encode_utf8(ov), encode_utf8(rv)];
    lemma_decode_encode(parts);
    crate::nums::lemma_be_bytes_len(t as nat, 16);
}

/// A commit record is well formed.
pub proof fn lemma_commit_entry_wf(
    sv: Seq<char>,
    ov: Seq<char>,
    rv: Seq<char>,
    cv: Seq<char>,
    t: u128,
)
    ensures
        entry_wf(
            commit_key(encode_utf8(sv), encode_utf8(ov), encode_utf8(rv), encode_utf8(cv)),
            crate::nums::be_bytes_of(t as nat, 16),
        ),
{
    let parts = seq![
        tag_commit(),
        encode_utf8(sv),
        encode_utf8(ov),
        encode_utf8(rv),
        encode_utf8(cv),
    ];
    lemma_decode_encode(parts);
    crate::nums::lemma_be_bytes_len(t as nat, 16);
}

/// A commit-by-time record is well formed.
pub proof fn lemma_commit_time_entry_wf(
    sv: Seq<char>,
    ov: Seq<char>,
    rv: Seq<char>,
    cv: Seq<char>,
    t: u128,
)
    ensures
        entry_wf(
            commit_time_key(encode_utf8(sv), encode_utf8(ov), encode_utf8(rv), t),
            encode_utf8(cv),
        ),
{
    let parts = seq![
        tag_commit_time(),
        encode_utf8(sv),
        encode_utf8(ov),
        encode_utf8(rv),
        crate::nums::be_bytes_of(t as nat, 16),
    ];
    lemma_decode_encode(parts);
    crate::nums::lemma_be_bytes_len(t as nat, 16);
}

/// An artifact record is well formed.
pub proof fn lemma_artifact_entry_wf(cv: Seq<char>, pv: Seq<char>, t: u128)
    ensures
        entry_wf(
            artifact_key(encode_utf8(cv), encode_utf8(pv)),
            crate::nums::be_bytes_of(t as nat, 16),
        ),
{
    let parts = seq![tag_artifact(), encode_utf8(cv), encode_utf8(pv)];
    lemma_decode_encode(parts);
    crate::nums::lemma_be_bytes_len(t as nat, 16);
}

/// An open optimistic transaction: a snapshot of the store at open, the
/// observations made against that snapshot, and the buffered writes. Nothing
/// reaches the store before `commit`.
pub struct Transaction {
    snapshot: KvStore,
    reads: Vec<ReadObs>,
    writes: Vec<KvPair>,
}

impl Transaction {
    /// The rows of the snapshot the transaction reads from.
    pub closed spec fn snap(&self) -> Seq<(Seq<u8>, Seq<u8>)> {
        self.snapshot@
    }

    /// The observations made so far, in order.
    pub closed spec fn reads_view(&self) -> Seq<(Seq<u8>, Option<Seq<u8>>)> {
        reads_seq(self.reads@)
    }

    /// The buffered writes, in order.
    pub closed spec fn writes_view(&self) -> Seq<(Seq<u8>, Seq<u8>)> {
        pairs_seq(self.writes@)
    }

    /// The snapshot is a well-formed store and all buffered writes are
    /// well-formed records.
    pub open spec fn wf(&self) -> bool {
        kv_sorted(self.snap()) && db_inv(self.snap()) && writes_wf(self.writes_view())
    }

    /// Whether a read inside the transaction would find `key`: among the
    /// buffered writes first, then in the snapshot.
    #[verifier::loop_isolation(false)]
    fn sees_key(&self, key: &[u8]) -> (r: bool)
        ensures
            r == (tx_read(self.snap(), self.writes_view(), key@) is Some),
    {
        let ghost wv = self.writes_view();
        let mut i = self.writes.len();
        while i > 0
            invariant
                0 <= i <= self.writes@.len(),
                wv.len() == self.writes@.len(),
                forall|j: int| i <= j < wv.len() ==> #[trigger] wv[j].0 != key@,
            decreases i,
        {
            i -= 1;
            proof {
                assert(wv[i as int] == (self.writes@[i as int].key@, self.writes@[i as int].value@));
            }
            if bytes_eq(self.writes[i].key.as_slice(), key) {
                proof {
                    lemma_writes_get_at(wv, key@, i as int);
                }
                return true;
            }
        }
        proof {
            lemma_writes_get_none(wv, key@);
        }
        self.snapshot.get(key).is_some()
    }

    /// Records an observation of `key` against the snapshot.
    fn observe(&mut self, key: &Vec<u8>)
        ensures
            final(self).snap() == old(self).snap(),
            final(self).writes_view() == old(self).writes_view(),
            final(self).reads_view() == old(self).reads_view().push(
                (key@, kv_get(old(self).snap(), key@)),
            ),
    {
        let observed: Option<Vec<u8>> = match self.snapshot.get(key.as_slice()) {
            Some(v) => Some(copy_bytes(v)),
            None => None,
        };
        proof {
            assert(opt_bytes_view(observed) == kv_get(self.snap(), key@));
        }
        let ghost prev = self.reads@;
        let obs = ReadObs { key: copy_bytes(key), value: observed };
        let ghost obs_view = (obs.key@, opt_bytes_view(obs.value));
        self.reads.push(obs);
        proof {
            assert(reads_seq(self.reads@) =~= reads_seq(prev).push(obs_view));
        }
    }

    /// Buffers one write.
    fn buffer_write(&mut self, key: Vec<u8>, value: Vec<u8>)
        ensures
            final(self).snap() == old(self).snap(),
            final(self).reads_view() == old(self).reads_view(),
            final(self).writes_view() == old(self).writes_view().push((key@, value@)),
    {
        let ghost prev = self.writes@;
        let pair = KvPair { key, value };
        let ghost pair_view = (pair.key@, pair.value@);
        self.writes.push(pair);
        proof {
            assert(pairs_seq(self.writes@) =~= pairs_seq(prev).push(pair_view));
        }
    }

    /// Stores the repository record if no repository row exists yet; a
    /// present row, committed or buffered, makes this a no-op.
    pub fn create_repo_if_not_exists(&mut self, time: u128, params: CreateRepositoryParams) -> (r:
        Result<(), Error>)
        requires
            old(self).wf(),
        ensures
            final(self).wf(),
            r is Ok,
            final(self).snap() == old(self).snap(),
            ({
                let k = repo_key(
                    encode_utf8(params.server@),
                    encode_utf8(params.owner@),
                    encode_utf8(params.repo@),
                );
                &&& final(self).reads_view() == old(self).reads_view().push(
                    (k, kv_get(old(self).snap(), k)),
                )
                &&& final(self).writes_view() == if tx_read(
                    old(self).snap(),
                    old(self).writes_view(),
                    k,
                ) is Some {
                    old(self).writes_view()
                } else {
                    old(self).writes_view().push((k, crate::nums::be_bytes_of(time as nat, 16)))
                }
            }),
    {
        let key = repo_key_bytes(params.server.as_str(), params.owner.as_str(), params.repo.as_str());
        let exists = self.sees_key(key.as_slice());
        self.observe(&key);
        if exists {
            return Ok(());
        }
        let value = crate::nums::u128_to_be_bytes(time);
        proof {
            lemma_repo_entry_wf(params.server@, params.owner@, params.repo@, time);
        }
        self.buffer_write(key, value);
        Ok(())
    }

    /// Stores the commit record and its commit-by-time twin if no commit row
    /// exists yet; a present row, committed or buffered, makes this a no-op.
    pub fn create_commit_if_not_exists(&mut self, time: u128, params: CreateCommitParams) -> (r:
        Result<(), Error>)
        requires
            old(self).wf(),
        ensures
            final(self).wf(),
            r is Ok,
            final(self).snap() == old(self).snap(),
            ({
                let k = commit_key(
                    encode_utf8(params.server@),
                    encode_utf8(params.owner@),
                    encode_utf8(params.repo@),
                    encode_utf8(params.commit@),
                );
                let tk = commit_time_key(
                    encode_utf8(params.server@),
                    encode_utf8(params.owner@),
                    encode_utf8(params.repo@),
                    time,
                );
                &&& final(self).reads_view() == old(self).reads_view().push(
                    (k, kv_get(old(self).snap(), k)),
                )
                &&& final(self).writes_view() == if tx_read(
                    old(self).snap(),
                    old(self).writes_view(),
                    k,
                ) is Some {
                    old(self).writes_view()
                } else {
                    old(self).writes_view().push(
                        (k, crate::nums::be_bytes_of(time as nat, 16)),
                    ).push((tk, encode_utf8(params.commit@)))
                }
            }),
    {
        let key = commit_key_bytes(
            params.server.as_str(),
            params.owner.as_str(),
            params.repo.as_str(),
            params.commit.as_str(),
        );
        let exists = self.sees_key(key.as_slice());
        self.observe(&key);
        if exists {
            return Ok(());
        }
        let value = crate::nums::u128_to_be_bytes(time);
        proof {
            lemma_commit_entry_wf(
                params.server@,
                params.owner@,
                params.repo@,
                params.commit@,
                time,
            );
        }
        self.buffer_write(key, value);
        let time_key = commit_time_key_bytes(
            params.server.as_str(),
            params.owner.as_str(),
            params.repo.as_str(),
            time,
        );
        let commit_value = params.commit.as_str().as_bytes_vec();
        proof {
            lemma_commit_time_entry_wf(
                params.server@,
                params.owner@,
                params.repo@,
                params.commit@,
                time,
            );
        }
        self.buffer_write(time_key, commit_value);
        Ok(())
    }

    /// Stores the artifact record; a row already present, committed or
    /// buffered, fails the upload instead.
    pub fn create_artifact(&mut self, time: u128, params: CreateArtifactParams) -> (r: Result<
        (),
        Error,
    >)
        requires
            old(self).wf(),
        ensures
            final(self).wf(),
            final(self).snap() == old(self).snap(),
            ({
                let k = artifact_key(encode_utf8(params.commit@), encode_utf8(params.path@));
                &&& final(self).reads_view() == old(self).reads_view().push(
                    (k, kv_get(old(self).snap(), k)),
                )
                &&& (r is Ok <==> tx_read(old(self).snap(), old(self).writes_view(), k) is None)
                &&& final(self).writes_view() == if tx_read(
                    old(self).snap(),
                    old(self).writes_view(),
                    k,
                ) is Some {
                    old(self).writes_view()
                } else {
                    old(self).writes_view().push((k, crate::nums::be_bytes_of(time as nat, 16)))
                }
                &&& (r matches Err(e) ==> e matches Error::ArtifactExists(m) && m@
                    == "artifact already exists: "@ + params.path@)
            }),
    {
        let key = artifact_key_bytes(params.commit.as_str(), params.path.as_str());
        let exists = self.sees_key(key.as_slice());
        self.observe(&key);
        if exists {
            let msg = "artifact already exists: ".to_owned().concat(params.path.as_str());
            return Err(Error::ArtifactExists(msg));
        }
        let value = crate::nums::u128_to_be_bytes(time);
        proof {
            lemma_artifact_entry_wf(params.commit@, params.path@, time);
        }
        self.buffer_write(key, value);
        Ok(())
    }

    /// Commits the transaction against the store: if every observation still
    /// holds there, the buffered writes are applied in order; a changed
    /// observation is a conflict with a concurrent transaction, and the
    /// store is left untouched.
    #[verifier::loop_isolation(false)]
    pub fn commit(self, db: &mut Database) -> (r: Result<(), Error>)
        requires
            self.wf(),
            old(db).wf(),
        ensures
            final(db).wf(),
            (r is Ok <==> reads_ok(self.reads_view(), old(db)@)),
            r is Ok ==> final(db)@ == apply_writes(old(db)@, self.writes_view()),
            r matches Err(e) ==> final(db)@ == old(db)@ && (e matches Error::Generic(m) && m@
                == "transaction conflict"@),
    {
        let ghost rv = self.reads_view();
        let ghost wall = self.writes_view();
        {
            let Database::Memory(store) = &*db;
            let mut i: usize = 0;
            while i < self.reads.len()
                invariant
                    0 <= i <= self.reads@.len(),
                    rv.len() == self.reads@.len(),
                    forall|j: int| 0 <= j < i ==> #[trigger] kv_get(store@, rv[j].0) == rv[j].1,
                decreases self.reads@.len() - i,
            {
                let ro = &self.reads[i];
                proof {
                    assert(rv[i as int] == (ro.key@, opt_bytes_view(ro.value)));
                }
                let cur = store.get(ro.key.as_slice());
                let holds = match (cur, &ro.value) {
                    (None, None) => true,
                    (Some(a), Some(b)) => bytes_eq(a.as_slice(), b.as_slice()),
                    _ => false,
                };
                if !holds {
                    proof {
                        assert(kv_get(store@, rv[i as int].0) != rv[i as int].1);
                        assert(!reads_ok(rv, store@));
                    }
                    return Err(Error::Generic("transaction conflict".to_owned()));
                }
                i += 1;
            }
            proof {
                assert(reads_ok(rv, store@));
            }
        }
        let Transaction { snapshot: _, reads: _, writes: mut writes } = self;
        match db {
            Database::Memory(store) => {
                proof {
                    assert(pairs_seq(writes@) =~= wall.skip(0));
                    assert(apply_writes(old(db)@, wall.take(0)) == store@) by {
                        assert(wall.take(0).len() == 0);
                    }
                }
                while writes.len() > 0
                    invariant
                        writes@.len() <= wall.len(),
                        pairs_seq(writes@) == wall.skip(wall.len() - writes@.len()),
                        store@ == apply_writes(old(db)@, wall.take(wall.len() - writes@.len())),
                        kv_sorted(store@),
                        db_inv(store@),
                    decreases writes@.len(),
                {
                    let ghost c = wall.len() - writes@.len();
                    let ghost before = writes@;
                    let p = writes.remove(0);
                    proof {
                        assert(pairs_seq(before)[0] == (p.key@, p.value@));
                        assert(wall.skip(c)[0] == wall[c]);
                        assert((p.key@, p.value@) == wall[c]);
                        assert(pairs_seq(writes@) =~= pairs_seq(before).drop_first());
                        assert(pairs_seq(before).drop_first() =~= wall.skip(c + 1));
                        assert(entry_wf(wall[c].0, wall[c].1));
                        lemma_kv_put_inv(store@, p.key@, p.value@);
                        lemma_apply_writes_snoc(old(db)@, wall.take(c), p.key@, p.value@);
                        assert(wall.take(c).push(wall[c]) =~= wall.take(c + 1));
                    }
                    store.put(p.key, p.value);
                }
                proof {
                    assert(wall.take(wall.len() - writes@.len()) =~= wall);
                }
            },
        }
        Ok(())
    }
}

} // verus!
