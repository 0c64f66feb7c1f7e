use artifact_store::db::Database;
use artifact_store::store::get_or_verify_commit;
use artifact_store::store::list_artifacts;
use artifact_store::store::list_commits;
use artifact_store::store::list_repos;
use artifact_store::store::resolve_download;
use artifact_store::store::store_file_metadata;
use artifact_store::store::upload_file_path;
use artifact_store::store::DownloadParams;
use artifact_store::store::GetOrVerifyCommitParams;
use artifact_store::store::HandleRequestError;
use artifact_store::store::ListArtifactsParams;
use artifact_store::store::ListCommitsParams;
use artifact_store::store::UploadParams;

fn upload(server: &str, owner: &str, repo: &str, commit: &str, path: &str) -> UploadParams {
    UploadParams {
        commit: commit.to_string(),
        server: server.to_string(),
        owner: owner.to_string(),
        repo: repo.to_string(),
        path: path.to_string(),
    }
}

fn download(server: &str, owner: &str, repo: &str, commit: &str, path: &str) -> DownloadParams {
    DownloadParams {
        server: server.to_string(),
        owner: owner.to_string(),
        repo: repo.to_string(),
        commit: commit.to_string(),
        path: path.to_string(),
    }
}

#[test]
fn upload_then_resolve() {
    let mut db = Database::new_memory();
    let params = upload("git.example.dev", "owner", "repo", "commit", "dir/f.txt");
    store_file_metadata(&mut db, 1_000, &params).unwrap();

    let resolved = resolve_download(
        &db,
        &download("git.example.dev", "owner", "repo", "commit", "dir/f.txt"),
    )
    .unwrap();
    assert_eq!(resolved, "commit");
}

#[test]
fn latest_alias_resolves_to_newest() {
    let mut db = Database::new_memory();
    store_file_metadata(
        &mut db,
        1_000,
        &upload("git.example.dev", "owner", "repo-x", "commit-a", "f"),
    )
    .unwrap();
    store_file_metadata(
        &mut db,
        2_000,
        &upload("git.example.dev", "owner", "repo-x", "commit-b", "f"),
    )
    .unwrap();

    let resolved = resolve_download(
        &db,
        &download("git.example.dev", "owner", "repo-x", "@latest", "f"),
    )
    .unwrap();
    assert_eq!(resolved, "commit-b");

    // the alias resolves to the same commit a direct query returns
    let server = "git.example.dev".to_string();
    let owner = "owner".to_string();
    let repo = "repo-x".to_string();
    let alias = "@latest".to_string();
    let via_alias = get_or_verify_commit(
        &db,
        GetOrVerifyCommitParams {
            server: &server,
            owner: &owner,
            repo: &repo,
            commit: &alias,
        },
    )
    .unwrap();
    assert_eq!(via_alias, "commit-b");
}

#[test]
fn latest_is_first_of_listing() {
    let mut db = Database::new_memory();
    store_file_metadata(
        &mut db,
        1_000,
        &upload("srv", "owner", "repo", "commit-a", "f"),
    )
    .unwrap();
    store_file_metadata(
        &mut db,
        2_000,
        &upload("srv", "owner", "repo", "commit-b", "g"),
    )
    .unwrap();

    let listing = list_commits(
        &db,
        ListCommitsParams {
            server: "srv".to_string(),
            owner: "owner".to_string(),
            repo: "repo".to_string(),
        },
    )
    .unwrap();
    assert_eq!(listing.commits.len(), 2);
    assert!(listing.commits[0].time_added > listing.commits[1].time_added);

    let server = "srv".to_string();
    let owner = "owner".to_string();
    let repo = "repo".to_string();
    let alias = "@latest".to_string();
    let latest = get_or_verify_commit(
        &db,
        GetOrVerifyCommitParams {
            server: &server,
            owner: &owner,
            repo: &repo,
            commit: &alias,
        },
    )
    .unwrap();
    assert_eq!(latest, listing.commits[0].commit);
}

#[test]
fn missing_artifact_is_not_found() {
    let db = Database::new_memory();
    let err = resolve_download(
        &db,
        &download(
            "git.example.dev",
            "owner",
            "repo",
            "unknown-commit",
            "unknown.txt",
        ),
    )
    .unwrap_err();
    match err {
        HandleRequestError::NotFound(m) => assert_eq!(m, "commit unknown-commit not found"),
        _ => panic!("wrong error variant"),
    }
}

#[test]
fn missing_file_of_known_commit_is_not_found() {
    let mut db = Database::new_memory();
    store_file_metadata(&mut db, 5, &upload("srv", "own", "rep", "c1", "a.txt")).unwrap();
    let err = resolve_download(&db, &download("srv", "own", "rep", "c1", "b.txt")).unwrap_err();
    match err {
        HandleRequestError::NotFound(m) => assert_eq!(m, "file b.txt not found"),
        _ => panic!("wrong error variant"),
    }
}

#[test]
fn listing_after_two_uploads_across_two_repos() {
    let mut db = Database::new_memory();
    store_file_metadata(
        &mut db,
        1,
        &upload("git.example.dev", "owner", "repo", "commit", "f"),
    )
    .unwrap();
    store_file_metadata(
        &mut db,
        2,
        &upload("git.example.dev", "owner", "repo-2", "commit-2", "f"),
    )
    .unwrap();

    let repos = list_repos(&db).unwrap();
    assert_eq!(repos.repos.len(), 2);
}

#[test]
fn reupload_of_same_commit_and_path_fails() {
    let mut db = Database::new_memory();
    let params = upload("srv", "owner", "repo", "commit", "dir/f.txt");
    store_file_metadata(&mut db, 1_000, &params).unwrap();
    let err = store_file_metadata(&mut db, 2_000, &params).unwrap_err();
    match err {
        HandleRequestError::ArtifactExists(m) => {
            assert_eq!(m, "artifact already exists: dir/f.txt")
        },
        _ => panic!("wrong error variant"),
    }

    // no duplicate commit-by-time entry was written
    let listing = list_commits(
        &db,
        ListCommitsParams {
            server: "srv".to_string(),
            owner: "owner".to_string(),
            repo: "repo".to_string(),
        },
    )
    .unwrap();
    assert_eq!(listing.commits.len(), 1);
}

#[test]
fn path_with_slashes_stored_verbatim() {
    let mut db = Database::new_memory();
    let params = upload("srv", "owner", "repo", "c", "nested/dir/inner/f.bin");
    store_file_metadata(&mut db, 9, &params).unwrap();

    let listing = list_artifacts(
        &db,
        ListArtifactsParams {
            server: "srv".to_string(),
            owner: "owner".to_string(),
            repo: "repo".to_string(),
            commit: "c".to_string(),
        },
    )
    .unwrap();
    assert_eq!(listing.artifacts.len(), 1);
    assert_eq!(listing.artifacts[0].path, "nested/dir/inner/f.bin");

    let base = "/data/artifacts".to_string();
    let file = upload_file_path(&base, &params);
    assert_eq!(file, "/data/artifacts/srv/owner/repo/c/nested/dir/inner/f.bin");
}

#[test]
fn hash_in_path_lists_on_correct_boundary() {
    let mut db = Database::new_memory();
    store_file_metadata(&mut db, 1, &upload("s", "o", "r", "c#x", "p#1")).unwrap();
    store_file_metadata(&mut db, 2, &upload("s", "o", "r", "c", "xp")).unwrap();

    let listing = list_artifacts(
        &db,
        ListArtifactsParams {
            server: "s".to_string(),
            owner: "o".to_string(),
            repo: "r".to_string(),
            commit: "c#x".to_string(),
        },
    )
    .unwrap();
    assert_eq!(listing.artifacts.len(), 1);
    assert_eq!(listing.artifacts[0].path, "p#1");
}

#[test]
fn listing_artifacts_of_latest() {
    let mut db = Database::new_memory();
    store_file_metadata(&mut db, 1, &upload("s", "o", "r", "c1", "a")).unwrap();
    store_file_metadata(&mut db, 2, &upload("s", "o", "r", "c2", "b")).unwrap();

    let listing = list_artifacts(
        &db,
        ListArtifactsParams {
            server: "s".to_string(),
            owner: "o".to_string(),
            repo: "r".to_string(),
            commit: "@latest".to_string(),
        },
    )
    .unwrap();
    assert_eq!(listing.commit, "c2");
    assert_eq!(listing.artifacts.len(), 1);
    assert_eq!(listing.artifacts[0].path, "b");
}

#[test]
fn listing_artifacts_of_unknown_repo_is_not_found() {
    let db = Database::new_memory();
    let err = list_artifacts(
        &db,
        ListArtifactsParams {
            server: "s".to_string(),
            owner: "o".to_string(),
            repo: "r".to_string(),
            commit: "@latest".to_string(),
        },
    )
    .unwrap_err();
    match err {
        HandleRequestError::NotFound(m) => assert_eq!(m, "no commits found"),
        _ => panic!("wrong error variant"),
    }
}

#[test]
fn artifact_of_other_repo_does_not_leak() {
    // artifact rows are keyed by (commit, path) alone; retrieval re-verifies
    // the commit against the full (server, owner, repo) tuple
    let mut db = Database::new_memory();
    store_file_metadata(&mut db, 3, &upload("s1", "o1", "r1", "shared-commit", "f.txt")).unwrap();

    let err = resolve_download(&db, &download("s2", "o2", "r2", "shared-commit", "f.txt"))
        .unwrap_err();
    match err {
        HandleRequestError::NotFound(m) => assert_eq!(m, "commit shared-commit not found"),
        _ => panic!("wrong error variant"),
    }
}
