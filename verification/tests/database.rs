use artifact_store::db::CreateArtifactParams;
use artifact_store::db::CreateCommitParams;
use artifact_store::db::CreateRepositoryParams;
use artifact_store::db::Database;
use artifact_store::db::Error;
use artifact_store::db::GetLatestCommitParams;
use artifact_store::db::ListRepoCommitsParams;

const NANOSECONDS_PER_SECOND: u128 = 1_000_000_000;

#[test]
fn test_list_repos() {
    let mut db = Database::new_memory();
    let mut tx = db.transaction();
    let time = 1234567890;
    let params = CreateRepositoryParams {
        server: &"github.com".to_string(),
        owner: &"owner".to_string(),
        repo: &"repo".to_string(),
    };
    tx.create_repo_if_not_exists(time, params).unwrap();
    tx.commit(&mut db).unwrap();

    let repos = db.list_repos().unwrap();
    assert_eq!(repos.len(), 1);
    assert_eq!(repos[0].server, "github.com");
    assert_eq!(repos[0].owner, "owner");
    assert_eq!(repos[0].repo, "repo");
}

#[test]
fn test_list_repos_multiple() {
    let mut db = Database::new_memory();
    let mut tx = db.transaction();
    let time = 1234567890;
    let params = CreateRepositoryParams {
        server: &"github.com".to_string(),
        owner: &"owner".to_string(),
        repo: &"repo".to_string(),
    };
    tx.create_repo_if_not_exists(time, params).unwrap();
    let params = CreateRepositoryParams {
        server: &"gitlab.com".to_string(),
        owner: &"owner".to_string(),
        repo: &"repo".to_string(),
    };
    tx.create_repo_if_not_exists(time, params).unwrap();
    let params = CreateRepositoryParams {
        server: &"gitlab.com".to_string(),
        owner: &"owner".to_string(),
        repo: &"repo-2".to_string(),
    };
    tx.create_repo_if_not_exists(time, params).unwrap();
    tx.commit(&mut db).unwrap();

    let repos = db.list_repos().unwrap();
    assert_eq!(repos.len(), 3);
    assert_eq!(repos[0].server, "github.com");
    assert_eq!(repos[0].repo, "repo");
    assert_eq!(repos[1].server, "gitlab.com");
    assert_eq!(repos[1].repo, "repo");
    assert_eq!(repos[2].server, "gitlab.com");
    assert_eq!(repos[2].repo, "repo-2");
}

#[test]
fn test_list_commits() {
    let mut db = Database::new_memory();
    let mut tx = db.transaction();
    let time_nano = 1234567890 * NANOSECONDS_PER_SECOND;
    let params = CreateCommitParams {
        commit: &"1234567890abcdef".to_string(),
        server: &"github.com".to_string(),
        owner: &"owner".to_string(),
        repo: &"repo".to_string(),
    };
    tx.create_commit_if_not_exists(time_nano, params).unwrap();
    tx.commit(&mut db).unwrap();

    let commits = db
        .list_repo_commits(ListRepoCommitsParams {
            server: &"github.com".to_string(),
            owner: &"owner".to_string(),
            repo: &"repo".to_string(),
        })
        .unwrap();
    assert_eq!(commits.len(), 1);
    assert_eq!(commits[0].commit, "1234567890abcdef");
    assert_eq!(commits[0].time_added, time_nano);
}

#[test]
fn test_list_commits_order() {
    let mut db = Database::new_memory();
    let mut tx = db.transaction();
    let params = CreateCommitParams {
        commit: &"commit-1".to_string(),
        server: &"github.com".to_string(),
        owner: &"owner".to_string(),
        repo: &"repo".to_string(),
    };
    tx.create_commit_if_not_exists(1234567890, params).unwrap();
    let params = CreateCommitParams {
        commit: &"commit-2".to_string(),
        server: &"github.com".to_string(),
        owner: &"owner".to_string(),
        repo: &"repo".to_string(),
    };
    tx.create_commit_if_not_exists(1234567891, params).unwrap();
    tx.commit(&mut db).unwrap();

    let commits = db
        .list_repo_commits(ListRepoCommitsParams {
            server: &"github.com".to_string(),
            owner: &"owner".to_string(),
            repo: &"repo".to_string(),
        })
        .unwrap();
    assert_eq!(commits.len(), 2);
    assert_eq!(commits[0].commit, "commit-2");
    assert_eq!(commits[1].commit, "commit-1");
}

#[test]
fn test_get_latest_commit() {
    let mut db = Database::new_memory();
    let mut tx = db.transaction();
    let params = CreateCommitParams {
        commit: &"commit-1".to_string(),
        server: &"github.com".to_string(),
        owner: &"owner".to_string(),
        repo: &"repo".to_string(),
    };
    tx.create_commit_if_not_exists(1234567890, params).unwrap();
    let params = CreateCommitParams {
        commit: &"commit-2".to_string(),
        server: &"github.com".to_string(),
        owner: &"owner".to_string(),
        repo: &"repo".to_string(),
    };
    tx.create_commit_if_not_exists(1234567891, params).unwrap();
    tx.commit(&mut db).unwrap();

    let commit = db
        .get_latest_commit(GetLatestCommitParams {
            server: &"github.com".to_string(),
            owner: &"owner".to_string(),
            repo: &"repo".to_string(),
        })
        .unwrap();
    assert_eq!(commit, "commit-2");
}

#[test]
fn test_list_artifacts() {
    let mut db = Database::new_memory();
    let mut tx = db.transaction();
    let time_nano = 1234567890 * NANOSECONDS_PER_SECOND;
    let params = CreateArtifactParams {
        commit: &"1234567890abcdef".to_string(),
        path: &"path/to/artifact".to_string(),
    };
    tx.create_artifact(time_nano, params).unwrap();
    tx.commit(&mut db).unwrap();

    let artifacts = db
        .list_artifacts(artifact_store::db::ListArtifactsParams {
            server: &"github.com".to_string(),
            owner: &"owner".to_string(),
            repo: &"repo".to_string(),
            commit: &"1234567890abcdef".to_string(),
        })
        .unwrap();
    assert_eq!(artifacts.len(), 1);
    assert_eq!(artifacts[0].path, "path/to/artifact");
    assert_eq!(artifacts[0].time_added, time_nano);
}

#[test]
fn test_list_artifacts_multiple() {
    let mut db = Database::new_memory();
    let mut tx = db.transaction();
    let time_milliseconds = 1234567890 * 1000;
    let params1 = CreateArtifactParams {
        commit: &"commit-1".to_string(),
        path: &"path/to/artifact-1".to_string(),
    };
    tx.create_artifact(time_milliseconds, params1).unwrap();
    let params2 = CreateArtifactParams {
        commit: &"commit-1".to_string(),
        path: &"path/to/artifact-2".to_string(),
    };
    tx.create_artifact(time_milliseconds, params2).unwrap();
    let params3 = CreateArtifactParams {
        commit: &"commit-2".to_string(),
        path: &"path/to/artifact-3".to_string(),
    };
    tx.create_artifact(time_milliseconds, params3).unwrap();
    tx.commit(&mut db).unwrap();

    let artifacts_commit_1 = db
        .list_artifacts(artifact_store::db::ListArtifactsParams {
            server: &"github.com".to_string(),
            owner: &"owner".to_string(),
            repo: &"repo".to_string(),
            commit: &"commit-1".to_string(),
        })
        .unwrap();
    assert_eq!(artifacts_commit_1.len(), 2);
    assert_eq!(artifacts_commit_1[0].path, "path/to/artifact-1");
    assert_eq!(artifacts_commit_1[1].path, "path/to/artifact-2");

    let artifacts_commit_2 = db
        .list_artifacts(artifact_store::db::ListArtifactsParams {
            server: &"github.com".to_string(),
            owner: &"owner".to_string(),
            repo: &"repo".to_string(),
            commit: &"commit-2".to_string(),
        })
        .unwrap();
    assert_eq!(artifacts_commit_2.len(), 1);
    assert_eq!(artifacts_commit_2[0].path, "path/to/artifact-3");
}

#[test]
fn test_create_commit() {
    let mut db = Database::new_memory();
    let mut tx = db.transaction();
    let time = 1234567890;
    let params = CreateCommitParams {
        commit: &"1234567890abcdef".to_string(),
        server: &"github.com".to_string(),
        owner: &"owner".to_string(),
        repo: &"repo".to_string(),
    };
    tx.create_commit_if_not_exists(time, params).unwrap();
    tx.commit(&mut db).unwrap();
}

#[test]
fn test_create_commit_twice() {
    let mut db = Database::new_memory();
    let mut tx = db.transaction();
    let time = 1234567890;
    let server = "github.com".to_string();
    let owner = "owner".to_string();
    let repo = "repo".to_string();
    let commit = "1234567890abcdef".to_string();
    let params = CreateCommitParams {
        commit: &commit,
        server: &server,
        owner: &owner,
        repo: &repo,
    };
    tx.create_commit_if_not_exists(time, params).unwrap();
    let params = CreateCommitParams {
        commit: &commit,
        server: &server,
        owner: &owner,
        repo: &repo,
    };
    tx.create_commit_if_not_exists(time, params).unwrap();
    let _ = db;
}

#[test]
fn test_create_artifact() {
    let mut db = Database::new_memory();
    let mut tx = db.transaction();
    let time = 1234567890;
    let params = CreateArtifactParams {
        commit: &"1234567890abcdef".to_string(),
        path: &"path/to/artifact".to_string(),
    };
    tx.create_artifact(time, params).unwrap();
    tx.commit(&mut db).unwrap();
}

#[test]
fn test_create_artifact_twice() {
    let mut db = Database::new_memory();
    let mut tx = db.transaction();
    let time = 1234567890;
    let commit = "1234567890abcdef".to_string();
    let path = "path/to/artifact".to_string();
    let params = CreateArtifactParams {
        commit: &commit,
        path: &path,
    };
    tx.create_artifact(time, params).unwrap();
    let params = CreateArtifactParams {
        commit: &commit,
        path: &path,
    };
    let err = tx.create_artifact(time, params).unwrap_err();
    assert!(matches!(err, Error::ArtifactExists(_)));
}

#[test]
fn exists_commit_after_commit() {
    let mut db = Database::new_memory();
    let mut tx = db.transaction();
    let params = CreateCommitParams {
        commit: &"abc".to_string(),
        server: &"github.com".to_string(),
        owner: &"owner".to_string(),
        repo: &"repo".to_string(),
    };
    tx.create_commit_if_not_exists(7, params).unwrap();
    tx.commit(&mut db).unwrap();

    let exists = db
        .exists_commit(artifact_store::db::ExistsCommitParams {
            server: &"github.com".to_string(),
            owner: &"owner".to_string(),
            repo: &"repo".to_string(),
            commit: &"abc".to_string(),
        })
        .unwrap();
    assert!(exists);
    let missing = db
        .exists_commit(artifact_store::db::ExistsCommitParams {
            server: &"github.com".to_string(),
            owner: &"owner".to_string(),
            repo: &"repo".to_string(),
            commit: &"def".to_string(),
        })
        .unwrap();
    assert!(!missing);
}

#[test]
fn conflicting_transactions_single_winner() {
    let mut db = Database::new_memory();
    let commit = "commit-a".to_string();
    let path = "f.txt".to_string();

    let mut tx1 = db.transaction();
    let mut tx2 = db.transaction();
    tx1.create_artifact(
        1,
        CreateArtifactParams {
            commit: &commit,
            path: &path,
        },
    )
    .unwrap();
    tx2.create_artifact(
        2,
        CreateArtifactParams {
            commit: &commit,
            path: &path,
        },
    )
    .unwrap();

    tx1.commit(&mut db).unwrap();
    let err = tx2.commit(&mut db).unwrap_err();
    assert!(matches!(err, Error::Generic(_)));
}

#[test]
fn no_commits_found_error() {
    let db = Database::new_memory();
    let err = db
        .get_latest_commit(GetLatestCommitParams {
            server: &"github.com".to_string(),
            owner: &"owner".to_string(),
            repo: &"repo".to_string(),
        })
        .unwrap_err();
    match err {
        Error::Generic(m) => assert_eq!(m, "no commits found"),
        Error::ArtifactExists(_) => panic!("wrong error variant"),
    }
}

#[test]
fn hash_in_names_partitions_correctly() {
    let mut db = Database::new_memory();
    let mut tx = db.transaction();
    let params = CreateCommitParams {
        commit: &"c#1".to_string(),
        server: &"git#host".to_string(),
        owner: &"own#er".to_string(),
        repo: &"re#po".to_string(),
    };
    tx.create_commit_if_not_exists(10, params).unwrap();
    let params = CreateCommitParams {
        commit: &"other".to_string(),
        server: &"git".to_string(),
        owner: &"host#own".to_string(),
        repo: &"er#re#po".to_string(),
    };
    tx.create_commit_if_not_exists(11, params).unwrap();
    tx.commit(&mut db).unwrap();

    let commits = db
        .list_repo_commits(ListRepoCommitsParams {
            server: &"git#host".to_string(),
            owner: &"own#er".to_string(),
            repo: &"re#po".to_string(),
        })
        .unwrap();
    assert_eq!(commits.len(), 1);
    assert_eq!(commits[0].commit, "c#1");
}
