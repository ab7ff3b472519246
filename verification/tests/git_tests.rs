use built::git::{get_repo_description, get_repo_head, merge_description, merge_head, short_hash_prefix};
use std::io::Write;

#[test]
fn parse_git_repo() {
    let repo_root = tempfile::tempdir().unwrap();
    let root_str = repo_root.path().to_str().unwrap();
    assert_eq!(get_repo_description(root_str), Ok(None));

    let repo = git2::Repository::init_opts(
        &repo_root,
        git2::RepositoryInitOptions::new()
            .external_template(false)
            .mkdir(false)
            .no_reinit(true)
            .mkpath(false),
    )
    .unwrap();

    let mut cruft_file = tempfile::NamedTempFile::new_in(repo_root.path()).unwrap();
    cruft_file.write_all(b"Who? Me?").unwrap();
    cruft_file.as_file_mut().sync_all().unwrap();
    let cruft_name = cruft_file.path().file_name().unwrap().to_str().unwrap().to_string();

    // Probe from a subdirectory: discovery must walk upward to the root.
    let project_root = tempfile::Builder::new()
        .prefix("project_root")
        .tempdir_in(repo_root.path())
        .unwrap();
    let project_str = project_root.path().to_str().unwrap();

    let sig = git2::Signature::now("foo", "bar").unwrap();
    let mut idx = repo.index().unwrap();
    idx.add_path(std::path::Path::new(&cruft_name)).unwrap();
    idx.write().unwrap();
    let commit_oid = repo
        .commit(
            Some("HEAD"),
            &sig,
            &sig,
            "Testing testing 1 2 3",
            &repo.find_tree(idx.write_tree().unwrap()).unwrap(),
            &[],
        )
        .unwrap();

    let binding = repo
        .find_commit(commit_oid)
        .unwrap()
        .into_object()
        .short_id()
        .unwrap();
    let commit_oid_short = binding.as_str().unwrap();
    let commit_hash = commit_oid.to_string();
    let commit_hash_short = commit_oid_short.to_string();
    assert!(commit_hash.starts_with(&commit_hash_short));

    // One commit, no tags: the description is something, the tree clean.
    let (tag, dirty) = get_repo_description(project_str).unwrap().unwrap();
    assert!(!tag.is_empty());
    assert!(!dirty);

    // Tag the commit, it should be retrieved.
    repo.tag(
        "foobar",
        &repo
            .find_object(commit_oid, Some(git2::ObjectType::Commit))
            .unwrap(),
        &sig,
        "Tagged foobar",
        false,
    )
    .unwrap();

    let (tag, dirty) = get_repo_description(project_str).unwrap().unwrap();
    assert_eq!(tag, "foobar");
    assert!(!dirty);

    // Make some dirt.
    cruft_file.write_all(b" now dirty").unwrap();
    cruft_file.as_file_mut().sync_all().unwrap();
    let (tag, dirty) = get_repo_description(project_str).unwrap().unwrap();
    assert_eq!(tag, "foobar");
    assert!(dirty);

    let branch_short_name = "baz";
    let branch_name = "refs/heads/baz";
    let commit = repo.find_commit(commit_oid).unwrap();
    repo.branch(branch_short_name, &commit, true).unwrap();
    repo.set_head(branch_name).unwrap();

    assert_eq!(
        get_repo_head(project_str),
        Ok(Some((
            Some(branch_name.to_owned()),
            commit_hash,
            commit_hash_short
        )))
    );
}

#[test]
fn detached_head_repo() {
    let repo_root = tempfile::tempdir().unwrap();
    let repo = git2::Repository::init_opts(
        &repo_root,
        git2::RepositoryInitOptions::new()
            .external_template(false)
            .mkdir(false)
            .no_reinit(true)
            .mkpath(false),
    )
    .unwrap();
    let sig = git2::Signature::now("foo", "bar").unwrap();
    let commit_oid = repo
        .commit(
            Some("HEAD"),
            &sig,
            &sig,
            "Testing",
            &repo
                .find_tree(repo.index().unwrap().write_tree().unwrap())
                .unwrap(),
            &[],
        )
        .unwrap();

    let binding = repo
        .find_commit(commit_oid)
        .unwrap()
        .into_object()
        .short_id()
        .unwrap();
    let commit_oid_short = binding.as_str().unwrap();
    let commit_hash = commit_oid.to_string();
    let commit_hash_short = commit_oid_short.to_string();
    assert!(commit_hash.starts_with(&commit_hash_short));

    repo.set_head_detached(commit_oid).unwrap();
    assert_eq!(
        get_repo_head(repo_root.path().to_str().unwrap()),
        Ok(Some((None, commit_hash, commit_hash_short)))
    );
}

#[test]
fn merge_description_prefers_overrides() {
    assert_eq!(
        merge_description(Some("v1".to_string()), None, Some(("v2".to_string(), true))),
        (Some("v1".to_string()), Some(true))
    );
    assert_eq!(
        merge_description(None, Some(false), Some(("v2".to_string(), true))),
        (Some("v2".to_string()), Some(false))
    );
    assert_eq!(merge_description(None, None, None), (None, None));
}

#[test]
fn merge_head_fills_gaps_and_abbreviates() {
    let probed = Some((
        Some("refs/heads/main".to_string()),
        "0123456789abcdef".to_string(),
        "0123456".to_string(),
    ));
    assert_eq!(
        merge_head(None, None, None, probed),
        (
            Some("refs/heads/main".to_string()),
            Some("0123456789abcdef".to_string()),
            Some("0123456".to_string())
        )
    );
    // A commit override without a short-hash override is abbreviated
    // locally to eight characters.
    assert_eq!(
        merge_head(None, Some("0123456789abcdef".to_string()), None, None),
        (
            None,
            Some("0123456789abcdef".to_string()),
            Some("01234567".to_string())
        )
    );
    assert_eq!(merge_head(None, None, None, None), (None, None, None));
}

#[test]
fn short_hash_prefix_takes_eight_chars() {
    assert_eq!(short_hash_prefix("0123456789abcdef"), "01234567");
    assert_eq!(short_hash_prefix("abc"), "abc");
    assert_eq!(short_hash_prefix(""), "");
}
