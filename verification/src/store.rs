//! The ingest and retrieval pipelines and the listing endpoints' data: what
//! each request decides and returns, over the metadata store. Reading and
//! writing payload bytes is the caller's business; everything that touches
//! the metadata store happens here.

use crate::db::artifact_data_matches;
use crate::db::artifact_key;
use crate::db::artifact_scan_prefix;
use crate::db::commit_data_matches;
use crate::db::commit_key;
use crate::db::commit_time_prefix;
use crate::db::apply_writes;
use crate::db::lemma_key_tags_differ;
use crate::db::lemma_writes_get_none;
use crate::db::reads_ok;
use crate::db::repo_data_matches;
use crate::db::repo_key;
use crate::db::commit_time_key;
use crate::db::tag_artifact;
use crate::db::tag_commit;
use crate::db::tag_commit_time;
use crate::db::tag_repo;
use crate::db::writes_get;
use crate::db::CreateArtifactParams;
use crate::db::CreateCommitParams;
use crate::db::CreateRepositoryParams;
use crate::db::Transaction;
use crate::db::repo_scan_prefix;
use crate::db::scan_entries;
use crate::db::ArtifactData;
use crate::db::CommitData;
use crate::db::Database;
use crate::db::Error;
use crate::db::ExistsArtifactParams;
use crate::db::ExistsCommitParams;
use crate::db::GetLatestCommitParams;
use crate::db::ListRepoCommitsParams;
use crate::db::RepoData;
use crate::kv::kv_contains;
use crate::kv::kv_get;
use crate::nums::be_bytes_of;
use vstd::prelude::*;
use vstd::string::StringExecFns;
use vstd::utf8::encode_utf8;

verus! {

/// The error taxonomy of request handling.
#[derive(Debug)]
pub enum HandleRequestError {
    /// An unknown commit, a missing artifact row, or a file that cannot be
    /// opened: surfaced as a not-found response.
    NotFound(String),
    /// An artifact row with the same `(commit, path)` key already exists.
    ArtifactExists(String),
    /// A filesystem failure, by its display form.
    Io(String),
    /// A wall-clock read failure, by its display form.
    Time(String),
    /// A storage-engine failure, including a transaction conflict at commit.
    Storage(String),
    /// A body-stream transport failure during upload, by its display form.
    Transport(String),
}

/// How a storage error surfaces to request handling.
pub fn storage_error(e: Error) -> (r: HandleRequestError)
    ensures
        (e matches Error::ArtifactExists(m) ==> r matches HandleRequestError::ArtifactExists(m2)
            && m2@ == m@),
        (e matches Error::Generic(m) ==> r matches HandleRequestError::Storage(m2) && m2@ == m@),
{
    match e {
        Error::ArtifactExists(m) => HandleRequestError::ArtifactExists(m),
        Error::Generic(m) => HandleRequestError::Storage(m),
    }
}

/// The repository listing.
#[derive(Debug)]
pub struct ListReposResponse {
    pub repos: Vec<RepoData>,
}

pub struct ListCommitsParams {
    pub server: String,
    pub owner: String,
    pub repo: String,
}

/// The commit listing of one repository, newest first.
#[derive(Debug)]
pub struct ListCommitsResponse {
    pub server: String,
    pub owner: String,
    pub repo: String,
    pub commits: Vec<CommitData>,
}

pub struct ListArtifactsParams {
    pub server: String,
    pub owner: String,
    pub repo: String,
    pub commit: String,
}

/// The artifact listing of one commit, in path order.
#[derive(Debug)]
pub struct ListArtifactsResponse {
    pub server: String,
    pub owner: String,
    pub repo: String,
    pub commit: String,
    pub artifacts: Vec<ArtifactData>,
}

/// The five-tuple an upload names.
pub struct UploadParams {
    pub commit: String,
    pub server: String,
    pub owner: String,
    pub repo: String,
    pub path: String,
}

/// The five-tuple a download names.
pub struct DownloadParams {
    pub server: String,
    pub owner: String,
    pub repo: String,
    pub commit: String,
    pub path: String,
}

pub struct GetOrVerifyCommitParams<'a> {
    pub server: &'a String,
    pub owner: &'a String,
    pub repo: &'a String,
    pub commit: &'a String,
}

/// Lists every repository.
pub fn list_repos(db: &Database) -> (r: Result<ListReposResponse, HandleRequestError>)
    requires
        db.wf(),
    ensures
        r matches Ok(resp) && {
            let es = scan_entries(db@, repo_scan_prefix());
            &&& resp.repos@.len() == es.len()
            &&& forall|j: int|
                0 <= j < es.len() ==> repo_data_matches(#[trigger] resp.repos@[j], es[j])
        },
{
    let repos = match db.list_repos() {
        Ok(v) => v,
        Err(_) => {
            proof {
                assert(false);
            }
            vstd::pervasive::unreached()
        },
    };
    Ok(ListReposResponse { repos })
}

/// Lists the commits of one repository, newest first.
pub fn list_commits(db: &Database, params: ListCommitsParams) -> (r: Result<
    ListCommitsResponse,
    HandleRequestError,
>)
    requires
        db.wf(),
    ensures
        r matches Ok(resp) && {
            let es = scan_entries(
                db@,
                commit_time_prefix(
                    encode_utf8(params.server@),
                    encode_utf8(params.owner@),
                    encode_utf8(params.repo@),
                ),
            );
            &&& resp.server@ == params.server@
            &&& resp.owner@ == params.owner@
            &&& resp.repo@ == params.repo@
            &&& resp.commits@.len() == es.len()
            &&& forall|j: int|
                0 <= j < es.len() ==> commit_data_matches(
                    #[trigger] resp.commits@[j],
                    es[es.len() - 1 - j],
                )
        },
{
    let commits = match db.list_repo_commits(
        ListRepoCommitsParams {
            server: &params.server,
            owner: &params.owner,
            repo: &params.repo,
        },
    ) {
        Ok(v) => v,
        Err(_) => {
            proof {
                assert(false);
            }
            vstd::pervasive::unreached()
        },
    };
    Ok(
        ListCommitsResponse {
            server: params.server,
            owner: params.owner,
            repo: params.repo,
            commits,
        },
    )
}

/// Gets the latest commit if `commit` is the `@latest` alias, otherwise
/// verifies that `commit` exists. Returns the concrete commit either way; an
/// unknown commit or a repository without commits is not found.
pub fn get_or_verify_commit(db: &Database, params: GetOrVerifyCommitParams) -> (r: Result<
    String,
    HandleRequestError,
>)
    requires
        db.wf(),
    ensures
        ({
            let latest_es = scan_entries(
                db@,
                commit_time_prefix(
                    encode_utf8(params.server@),
                    encode_utf8(params.owner@),
                    encode_utf8(params.repo@),
                ),
            );
            let ck = commit_key(
                encode_utf8(params.server@),
                encode_utf8(params.owner@),
                encode_utf8(params.repo@),
                encode_utf8(params.commit@),
            );
            &&& (params.commit@ == "@latest"@ ==> {
                &&& (r is Ok <==> latest_es.len() > 0)
                &&& (r matches Ok(c) ==> encode_utf8(c@) == latest_es.last().1)
                &&& (r matches Err(e) ==> e matches HandleRequestError::NotFound(m) && m@
                    == "no commits found"@)
            })
            &&& (params.commit@ != "@latest"@ ==> {
                &&& (r is Ok <==> kv_contains(db@, ck))
                &&& (r matches Ok(c) ==> c@ == params.commit@)
                &&& (r matches Err(e) ==> e matches HandleRequestError::NotFound(m) && m@
                    == "commit "@ + params.commit@ + " not found"@)
            })
        }),
{
    let alias = "@latest".to_owned();
    let is_latest = *params.commit == alias;
    if is_latest {
        let commit = match db.get_latest_commit(
            GetLatestCommitParams {
                server: params.server,
                owner: params.owner,
                repo: params.repo,
            },
        ) {
            Ok(c) => c,
            Err(e) => {
                match e {
                    Error::Generic(m) => {
                        return Err(HandleRequestError::NotFound(m));
                    },
                    Error::ArtifactExists(_) => {
                        proof {
                            assert(false);
                        }
                        vstd::pervasive::unreached()
                    },
                }
            },
        };
        return Ok(commit);
    }
    let exists = match db.exists_commit(
        ExistsCommitParams {
            server: params.server,
            owner: params.owner,
            repo: params.repo,
            commit: params.commit,
        },
    ) {
        Ok(b) => b,
        Err(_) => {
            proof {
                assert(false);
            }
            vstd::pervasive::unreached()
        },
    };
    if !exists {
        let msg = "commit ".to_owned().concat(params.commit.as_str()).concat(" not found");
        proof {
            assert(msg@ =~= "commit "@ + params.commit@ + " not found"@);
        }
        return Err(HandleRequestError::NotFound(msg));
    }
    Ok(params.commit.clone())
}


/// The metadata rows one upload writes, in order: the repository row if it
/// is new, the commit row and its commit-by-time twin if the commit is new,
/// and the artifact row.
pub open spec fn upload_writes(
    dbv: Seq<(Seq<u8>, Seq<u8>)>,
    t: u128,
    s: Seq<u8>,
    o: Seq<u8>,
    rr: Seq<u8>,
    c: Seq<u8>,
    p: Seq<u8>,
) -> Seq<(Seq<u8>, Seq<u8>)> {
    let tv = be_bytes_of(t as nat, 16);
    let w_repo: Seq<(Seq<u8>, Seq<u8>)> = if kv_contains(dbv, repo_key(s, o, rr)) {
        Seq::empty()
    } else {
        seq![(repo_key(s, o, rr), tv)]
    };
    let w_commit: Seq<(Seq<u8>, Seq<u8>)> = if kv_contains(dbv, commit_key(s, o, rr, c)) {
        Seq::empty()
    } else {
        seq![(commit_key(s, o, rr, c), tv), (commit_time_key(s, o, rr, t), c)]
    };
    w_repo + w_commit + seq![(artifact_key(c, p), tv)]
}

/// Opens the metadata transaction of one upload and registers the
/// repository, the commit and the artifact in it, all stamped `time`. The
/// transaction is handed back for the caller to commit once the payload is
/// safely written; an artifact row already present fails the upload before
/// any write.
pub fn begin_upload(db: &Database, time: u128, params: &UploadParams) -> (r: Result<
    Transaction,
    HandleRequestError,
>)
    requires
        db.wf(),
    ensures
        ({
            let s = encode_utf8(params.server@);
            let o = encode_utf8(params.owner@);
            let rr = encode_utf8(params.repo@);
            let c = encode_utf8(params.commit@);
            let p = encode_utf8(params.path@);
            &&& (r is Ok <==> !kv_contains(db@, artifact_key(c, p)))
            &&& (r matches Ok(tx) ==> {
                &&& tx.wf()
                &&& tx.snap() == db@
                &&& tx.writes_view() == upload_writes(db@, time, s, o, rr, c, p)
                &&& reads_ok(tx.reads_view(), db@)
            })
            &&& (r matches Err(e) ==> e matches HandleRequestError::ArtifactExists(m) && m@
                == "artifact already exists: "@ + params.path@)
        }),
{
    let ghost s = encode_utf8(params.server@);
    let ghost o = encode_utf8(params.owner@);
    let ghost rr = encode_utf8(params.repo@);
    let ghost c = encode_utf8(params.commit@);
    let ghost p = encode_utf8(params.path@);
    let ghost tv = be_bytes_of(time as nat, 16);
    let ghost rk = repo_key(s, o, rr);
    let ghost ck = commit_key(s, o, rr, c);
    let ghost ctk = commit_time_key(s, o, rr, time);
    let ghost ak = artifact_key(c, p);
    proof {
        lemma_key_tags_differ(seq![tag_repo(), s, o, rr], seq![tag_commit(), s, o, rr, c]);
        lemma_key_tags_differ(seq![tag_repo(), s, o, rr], seq![tag_artifact(), c, p]);
        lemma_key_tags_differ(seq![tag_commit(), s, o, rr, c], seq![tag_artifact(), c, p]);
        lemma_key_tags_differ(
            seq![tag_commit_time(), s, o, rr, be_bytes_of(time as nat, 16)],
            seq![tag_artifact(), c, p],
        );
    }
    let mut tx = db.transaction();
    let _ = tx.create_repo_if_not_exists(
        time,
        CreateRepositoryParams {
            server: &params.server,
            owner: &params.owner,
            repo: &params.repo,
        },
    );
    proof {
        assert(writes_get(Seq::<(Seq<u8>, Seq<u8>)>::empty(), rk) is None);
    }
    let ghost w1 = tx.writes_view();
    proof {
        assert(w1 == if kv_contains(db@, rk) {
            Seq::<(Seq<u8>, Seq<u8>)>::empty()
        } else {
            Seq::<(Seq<u8>, Seq<u8>)>::empty().push((rk, tv))
        });
        assert forall|j: int| 0 <= j < w1.len() implies #[trigger] w1[j].0 != ck by {
            assert(w1[j] == (rk, tv));
        }
        lemma_writes_get_none(w1, ck);
    }
    let _ = tx.create_commit_if_not_exists(
        time,
        CreateCommitParams {
            commit: &params.commit,
            server: &params.server,
            owner: &params.owner,
            repo: &params.repo,
        },
    );
    let ghost w2 = tx.writes_view();
    proof {
        assert(w2 == if kv_contains(db@, ck) {
            w1
        } else {
            w1.push((ck, tv)).push((ctk, c))
        });
        assert forall|j: int| 0 <= j < w2.len() implies #[trigger] w2[j].0 != ak by {
            if !kv_contains(db@, ck) && j >= w1.len() {
                assert(w2[j] == (ck, tv) || w2[j] == (ctk, c));
            } else {
                assert(w2[j] == w1[j]);
                assert(w1[j] == (rk, tv));
            }
        }
        lemma_writes_get_none(w2, ak);
    }
    let r3 = tx.create_artifact(
        time,
        CreateArtifactParams { commit: &params.commit, path: &params.path },
    );
    match r3 {
        Err(e) => Err(storage_error(e)),
        Ok(()) => {
            proof {
                let w_repo: Seq<(Seq<u8>, Seq<u8>)> = if kv_contains(db@, rk) {
                    Seq::empty()
                } else {
                    seq![(rk, tv)]
                };
                let w_commit: Seq<(Seq<u8>, Seq<u8>)> = if kv_contains(db@, ck) {
                    Seq::empty()
                } else {
                    seq![(ck, tv), (ctk, c)]
                };
                assert(w1 =~= w_repo);
                assert(w2 =~= w_repo + w_commit);
                assert(tx.writes_view() == w2.push((ak, tv)));
                assert(w2.push((ak, tv)) =~= w_repo + w_commit + seq![(ak, tv)]);
                let rv = tx.reads_view();
                assert(rv =~= Seq::<(Seq<u8>, Option<Seq<u8>>)>::empty().push(
                    (rk, kv_get(db@, rk)),
                ).push((ck, kv_get(db@, ck))).push((ak, kv_get(db@, ak))));
                assert forall|i: int| 0 <= i < rv.len() implies #[trigger] kv_get(db@, rv[i].0)
                    == rv[i].1 by {
                    assert(rv[i] == (rk, kv_get(db@, rk)) || rv[i] == (ck, kv_get(db@, ck)) || rv[i]
                        == (ak, kv_get(db@, ak)));
                }
            }
            Ok(tx)
        },
    }
}

/// The whole metadata side of one upload: the three registrations and the
/// commit of their transaction, against a store nothing else touches in
/// between. Fails exactly when the artifact row already exists, and then
/// changes nothing.
pub fn store_file_metadata(db: &mut Database, time: u128, params: &UploadParams) -> (r: Result<
    (),
    HandleRequestError,
>)
    requires
        old(db).wf(),
    ensures
        final(db).wf(),
        ({
            let s = encode_utf8(params.server@);
            let o = encode_utf8(params.owner@);
            let rr = encode_utf8(params.repo@);
            let c = encode_utf8(params.commit@);
            let p = encode_utf8(params.path@);
            &&& (r is Ok <==> !kv_contains(old(db)@, artifact_key(c, p)))
            &&& (r is Ok ==> final(db)@ == apply_writes(
                old(db)@,
                upload_writes(old(db)@, time, s, o, rr, c, p),
            ))
            &&& (r is Err ==> final(db)@ == old(db)@)
            &&& (r matches Err(e) ==> e matches HandleRequestError::ArtifactExists(m) && m@
                == "artifact already exists: "@ + params.path@)
        }),
{
    let tx = match begin_upload(&*db, time, params) {
        Ok(tx) => tx,
        Err(e) => {
            return Err(e);
        },
    };
    match tx.commit(db) {
        Ok(()) => Ok(()),
        Err(_) => {
            proof {
                assert(false);
            }
            vstd::pervasive::unreached()
        },
    }
}

/// Resolves a download: the possibly-aliased commit is made concrete, and
/// the artifact row is required to exist for the full five-tuple. What comes
/// back is the commit whose directory holds the file.
pub fn resolve_download(db: &Database, params: &DownloadParams) -> (r: Result<
    String,
    HandleRequestError,
>)
    requires
        db.wf(),
    ensures
        ({
            let s = encode_utf8(params.server@);
            let o = encode_utf8(params.owner@);
            let rr = encode_utf8(params.repo@);
            let pth = encode_utf8(params.path@);
            let latest_es = scan_entries(db@, commit_time_prefix(s, o, rr));
            &&& (r matches Ok(cm) ==> {
                &&& kv_contains(db@, commit_key(s, o, rr, encode_utf8(cm@)))
                &&& kv_contains(db@, artifact_key(encode_utf8(cm@), pth))
                &&& (params.commit@ == "@latest"@ ==> latest_es.len() > 0 && encode_utf8(cm@)
                    == latest_es.last().1)
                &&& (params.commit@ != "@latest"@ ==> cm@ == params.commit@)
            })
            &&& (params.commit@ == "@latest"@ ==> (r is Ok <==> latest_es.len() > 0
                && kv_contains(db@, commit_key(s, o, rr, latest_es.last().1)) && kv_contains(
                db@,
                artifact_key(latest_es.last().1, pth),
            )))
            &&& (params.commit@ != "@latest"@ ==> (r is Ok <==> kv_contains(
                db@,
                commit_key(s, o, rr, encode_utf8(params.commit@)),
            ) && kv_contains(db@, artifact_key(encode_utf8(params.commit@), pth))))
            &&& (r matches Err(e) ==> e matches HandleRequestError::NotFound(m) && (m@
                == "no commits found"@ || m@ == "commit "@ + params.commit@ + " not found"@ || m@
                == "file "@ + params.path@ + " not found"@))
        }),
{
    let commit = match get_or_verify_commit(
        db,
        GetOrVerifyCommitParams {
            server: &params.server,
            owner: &params.owner,
            repo: &params.repo,
            commit: &params.commit,
        },
    ) {
        Ok(cm) => cm,
        Err(e) => {
            return Err(e);
        },
    };
    let exists = match db.exists_artifact(
        ExistsArtifactParams {
            server: &params.server,
            owner: &params.owner,
            repo: &params.repo,
            commit: &commit,
            path: &params.path,
        },
    ) {
        Ok(b) => b,
        Err(_) => {
            proof {
                assert(false);
            }
            vstd::pervasive::unreached()
        },
    };
    if !exists {
        let msg = "file ".to_owned().concat(params.path.as_str()).concat(" not found");
        proof {
            assert(msg@ =~= "file "@ + params.path@ + " not found"@);
        }
        return Err(HandleRequestError::NotFound(msg));
    }
    Ok(commit)
}

/// Lists the artifacts of one commit, resolving the `@latest` alias the same
/// way a download does and verifying that the commit exists.
pub fn list_artifacts(db: &Database, params: ListArtifactsParams) -> (r: Result<
    ListArtifactsResponse,
    HandleRequestError,
>)
    requires
        db.wf(),
    ensures
        ({
            let s = encode_utf8(params.server@);
            let o = encode_utf8(params.owner@);
            let rr = encode_utf8(params.repo@);
            let latest_es = scan_entries(db@, commit_time_prefix(s, o, rr));
            &&& (params.commit@ == "@latest"@ ==> (r is Ok <==> latest_es.len() > 0))
            &&& (params.commit@ != "@latest"@ ==> (r is Ok <==> kv_contains(
                db@,
                commit_key(s, o, rr, encode_utf8(params.commit@)),
            )))
            &&& (r matches Ok(resp) ==> {
                let es = scan_entries(db@, artifact_scan_prefix(encode_utf8(resp.commit@)));
                &&& resp.server@ == params.server@
                &&& resp.owner@ == params.owner@
                &&& resp.repo@ == params.repo@
                &&& (params.commit@ == "@latest"@ ==> latest_es.len() > 0 && encode_utf8(
                    resp.commit@,
                ) == latest_es.last().1)
                &&& (params.commit@ != "@latest"@ ==> resp.commit@ == params.commit@)
                &&& resp.artifacts@.len() == es.len()
                &&& forall|j: int|
                    0 <= j < es.len() ==> artifact_data_matches(#[trigger] resp.artifacts@[j], es[j])
            })
            &&& (r matches Err(e) ==> e matches HandleRequestError::NotFound(m) && (m@
                == "no commits found"@ || m@ == "commit "@ + params.commit@ + " not found"@))
        }),
{
    let commit = match get_or_verify_commit(
        db,
        GetOrVerifyCommitParams {
            server: &params.server,
            owner: &params.owner,
            repo: &params.repo,
            commit: &params.commit,
        },
    ) {
        Ok(cm) => cm,
        Err(e) => {
            return Err(e);
        },
    };
    let artifacts = match db.list_artifacts(
        crate::db::ListArtifactsParams {
            server: &params.server,
            owner: &params.owner,
            repo: &params.repo,
            commit: &commit,
        },
    ) {
        Ok(v) => v,
        Err(_) => {
            proof {
                assert(false);
            }
            vstd::pervasive::unreached()
        },
    };
    Ok(
        ListArtifactsResponse {
            server: params.server,
            owner: params.owner,
            repo: params.repo,
            commit,
            artifacts,
        },
    )
}

/// The directory one upload's payload file belongs in.
pub fn artifact_dir_path(base_dir: &String, params: &UploadParams) -> (d: String)
    ensures
        d@ == base_dir@ + "/"@ + params.server@ + "/"@ + params.owner@ + "/"@ + params.repo@ + "/"@
            + params.commit@,
{
    let d = base_dir.clone().concat("/").concat(params.server.as_str()).concat("/").concat(
        params.owner.as_str(),
    ).concat("/").concat(params.repo.as_str()).concat("/").concat(params.commit.as_str());
    proof {
        assert(d@ =~= base_dir@ + "/"@ + params.server@ + "/"@ + params.owner@ + "/"@
            + params.repo@ + "/"@ + params.commit@);
    }
    d
}

/// The file an upload's payload is written to: its directory, then the
/// client's path string, stored verbatim.
pub fn upload_file_path(base_dir: &String, params: &UploadParams) -> (f: String)
    ensures
        f@ == base_dir@ + "/"@ + params.server@ + "/"@ + params.owner@ + "/"@ + params.repo@ + "/"@
            + params.commit@ + "/"@ + params.path@,
{
    let f = artifact_dir_path(base_dir, params).concat("/").concat(params.path.as_str());
    proof {
        assert(f@ =~= base_dir@ + "/"@ + params.server@ + "/"@ + params.owner@ + "/"@
            + params.repo@ + "/"@ + params.commit@ + "/"@ + params.path@);
    }
    f
}

/// The file a download streams back, under the resolved commit.
pub fn download_file_path(data_dir: &String, params: &DownloadParams, commit: &String) -> (f:
    String)
    ensures
        f@ == data_dir@ + "/"@ + params.server@ + "/"@ + params.owner@ + "/"@ + params.repo@ + "/"@
            + commit@ + "/"@ + params.path@,
{
    let f = data_dir.clone().concat("/").concat(params.server.as_str()).concat("/").concat(
        params.owner.as_str(),
    ).concat("/").concat(params.repo.as_str()).concat("/").concat(commit.as_str()).concat(
        "/",
    ).concat(params.path.as_str());
    proof {
        assert(f@ =~= data_dir@ + "/"@ + params.server@ + "/"@ + params.owner@ + "/"@
            + params.repo@ + "/"@ + commit@ + "/"@ + params.path@);
    }
    f
}

/// What every request handler shares: where artifact payloads live, and the
/// metadata store.
pub struct RouterState {
    pub artifact_path: String,
    pub db: Database,
}

} // verus!
