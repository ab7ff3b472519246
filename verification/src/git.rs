//! Probing the enclosing git repository: a description of HEAD, the
//! dirty state of the working tree, and HEAD's symbolic reference and
//! commit ids — all degrading to absence when there is no repository.

use vstd::prelude::*;

verus! {

#[verifier::external_type_specification]
#[verifier::external_body]
pub struct ExRepository(git2::Repository);

#[verifier::external_type_specification]
#[verifier::external_body]
pub struct ExReference<'a>(git2::Reference<'a>);

/// A repository-layer fault, reported with the underlying message.
/// Absence of a repository is never an error.
#[derive(Debug, PartialEq, Eq)]
pub struct GitError {
    pub message: String,
}

/// Relies on git2::Repository::discover: walks upward from `root` for an
/// enclosing repository.  The not-found outcome (class `Repository`,
/// code `NotFound`) becomes `Ok(None)`; any other fault carries its
/// message.
#[verifier::external_body]
fn discover_repo(root: &str) -> (r: Result<Option<git2::Repository>, GitError>)
{
    match git2::Repository::discover(root) {
        Ok(repo) => Ok(Some(repo)),
        Err(e) if e.class() == git2::ErrorClass::Repository
            && e.code() == git2::ErrorCode::NotFound => Ok(None),
        Err(e) => Err(GitError { message: e.message().to_owned() }),
    }
}

/// Relies on git2::Repository::describe (preferring tags, with the
/// commit id as fallback) and git2::Describe::format with defaults;
/// a successful format is a tag name or an abbreviated hex id, never
/// empty.
#[verifier::external_body]
fn describe_head(repo: &git2::Repository) -> (r: Result<String, GitError>)
    ensures
        r matches Ok(t) ==> t@.len() > 0,
{
    let mut opts = git2::DescribeOptions::new();
    opts.describe_tags().show_commit_oid_as_fallback(true);
    match repo.describe(&opts).and_then(|d| d.format(None)) {
        Ok(s) => Ok(s),
        Err(e) => Err(GitError { message: e.message().to_owned() }),
    }
}

/// Relies on git2::Repository::statuses with ignored and untracked
/// files excluded; each entry's raw status bits are handed back.
#[verifier::external_body]
fn status_bits(repo: &git2::Repository) -> (r: Result<Vec<u32>, GitError>)
{
    let mut opts = git2::StatusOptions::new();
    opts.include_ignored(false).include_untracked(false);
    match repo.statuses(Some(&mut opts)) {
        Ok(sts) => Ok(sts.iter().map(|s| s.status().bits()).collect()),
        Err(e) => Err(GitError { message: e.message().to_owned() }),
    }
}

/// Relies on git2::Repository::head: the reference HEAD points to.
#[verifier::external_body]
fn repo_head<'a>(repo: &'a git2::Repository) -> (r: Result<git2::Reference<'a>, GitError>)
{
    repo.head().map_err(|e| GitError { message: e.message().to_owned() })
}

/// Relies on git2::Repository::head_detached.
#[verifier::external_body]
fn repo_head_detached(repo: &git2::Repository) -> (r: Result<bool, GitError>)
{
    repo.head_detached().map_err(|e| GitError { message: e.message().to_owned() })
}

/// Relies on git2::Reference::name; a reference name that is not valid
/// text counts as absent.
#[verifier::external_body]
fn reference_name(r: &git2::Reference) -> (res: Option<String>)
{
    match r.name() {
        Ok(s) => Some(s.to_owned()),
        Err(_) => None,
    }
}

/// Relies on git2::Reference::peel_to_commit, git2::Commit::id and
/// git2::Object::short_id: the full and abbreviated commit ids of the
/// reference's commit.  The full id renders as non-empty hex, and the
/// abbreviation is a leading slice of it (empty when not valid text).
#[verifier::external_body]
fn reference_commit_ids(r: git2::Reference) -> (res: Result<(String, String), GitError>)
    ensures
        res matches Ok((full, short)) ==> full@.len() > 0 && short@.is_prefix_of(full@),
{
    let commit = match r.peel_to_commit() {
        Ok(c) => c,
        Err(e) => return Err(GitError { message: e.message().to_owned() }),
    };
    let full = commit.id().to_string();
    match commit.into_object().short_id() {
        Ok(buf) => Ok((full, buf.as_str().unwrap_or_default().to_owned())),
        Err(e) => Err(GitError { message: e.message().to_owned() }),
    }
}

/// A working tree is dirty exactly when some entry's status differs
/// from the unchanged state.
pub fn any_dirty(bits: &Vec<u32>) -> (r: bool)
    ensures
        r == exists|i: int| 0 <= i < bits@.len() && bits@[i] != 0,
{
    let n = bits.len();
    let mut i: usize = 0;
    while i < n
        invariant
            i <= n,
            n == bits@.len(),
            forall|j: int| 0 <= j < i ==> bits@[j] == 0,
        decreases n - i,
    {
        if bits[i] != 0 {
            return true;
        }
        i = i + 1;
    }
    false
}

/// Retrieves HEAD's descriptive tag (or commit id) and whether the
/// working tree has dirty or staged tracked files.  No repository at or
/// above `root` is `Ok(None)`, a valid outcome; any other
/// repository-layer fault propagates.  A found description is never
/// empty.
pub fn get_repo_description(root: &str) -> (r: Result<Option<(String, bool)>, GitError>)
    ensures
        r matches Ok(Some((tag, dirty))) ==> tag@.len() > 0,
{
    match discover_repo(root) {
        Ok(None) => Ok(None),
        Ok(Some(repo)) => {
            let tag = match describe_head(&repo) {
                Ok(t) => t,
                Err(e) => return Err(e),
            };
            let bits = match status_bits(&repo) {
                Ok(b) => b,
                Err(e) => return Err(e),
            };
            let dirty = any_dirty(&bits);
            Ok(Some((tag, dirty)))
        },
        Err(e) => Err(e),
    }
}

/// Retrieves HEAD's symbolic reference name (absent when HEAD is
/// detached or the name is not valid text) and its full and short
/// commit ids.  No repository at or above `root` is `Ok(None)`; a found
/// full id is non-empty and starts with the short one.
pub fn get_repo_head(root: &str) -> (r: Result<Option<(Option<String>, String, String)>, GitError>)
    ensures
        r matches Ok(Some((branch, full, short))) ==> full@.len() > 0 && short@.is_prefix_of(
            full@,
        ),
{
    match discover_repo(root) {
        Ok(None) => Ok(None),
        Ok(Some(repo)) => {
            let head_ref = match repo_head(&repo) {
                Ok(h) => h,
                Err(e) => return Err(e),
            };
            let detached = match repo_head_detached(&repo) {
                Ok(d) => d,
                Err(e) => return Err(e),
            };
            let branch = if detached {
                None
            } else {
                reference_name(&head_ref)
            };
            match reference_commit_ids(head_ref) {
                Ok((commit, commit_short)) => Ok(Some((branch, commit, commit_short))),
                Err(e) => Err(e),
            }
        },
        Err(e) => Err(e),
    }
}

/// The first eight characters of a commit id (all of it when shorter),
/// the local fallback for a missing short hash.
pub fn short_hash_prefix(commit: &str) -> (r: String)
    ensures
        r@ == commit@.take(if commit@.len() < 8 { commit@.len() as int } else { 8 }),
{
    let n = commit.unicode_len();
    let k: usize = if n < 8 {
        n
    } else {
        8
    };
    commit.substring_char(0, k).to_owned()
}

/// Combines the description fields: each override wins over the probe,
/// and the probe fills only what the overrides left open.
pub fn merge_description(
    tag: Option<String>,
    dirty: Option<bool>,
    probed: Option<(String, bool)>,
) -> (r: (Option<String>, Option<bool>))
    ensures
        r.0.deep_view() == (match tag {
            Some(ref t) => Some(t@),
            None => match probed {
                Some((ref pt, _)) => Some(pt@),
                None => None,
            },
        }),
        r.1 == (match dirty {
            Some(d) => Some(d),
            None => match probed {
                Some((_, pd)) => Some(pd),
                None => None,
            },
        }),
{
    let (ptag, pdirty) = match probed {
        Some((t, d)) => (Some(t), Some(d)),
        None => (None, None),
    };
    let out_tag = match tag {
        Some(t) => Some(t),
        None => ptag,
    };
    let out_dirty = match dirty {
        Some(d) => Some(d),
        None => pdirty,
    };
    (out_tag, out_dirty)
}

/// Combines the HEAD fields: overrides win, the probe fills the gaps,
/// and a commit id without a short form is abbreviated locally to its
/// first eight characters.
pub fn merge_head(
    branch: Option<String>,
    commit: Option<String>,
    commit_short: Option<String>,
    probed: Option<(Option<String>, String, String)>,
) -> (r: (Option<String>, Option<String>, Option<String>))
    ensures
        ({
            let pb = match probed {
                Some((ref b, _, _)) => b.deep_view(),
                None => None,
            };
            let pc = match probed {
                Some((_, ref c, _)) => Some(c@),
                None => None,
            };
            let ps = match probed {
                Some((_, _, ref s)) => Some(s@),
                None => None,
            };
            let c1 = match commit {
                Some(ref c) => Some(c@),
                None => pc,
            };
            let s1 = match commit_short {
                Some(ref s) => Some(s@),
                None => ps,
            };
            &&& r.0.deep_view() == (match branch {
                Some(ref b) => Some(b@),
                None => pb,
            })
            &&& r.1.deep_view() == c1
            &&& r.2.deep_view() == (match s1 {
                Some(s) => Some(s),
                None => match c1 {
                    Some(c) => Some(c.take(if c.len() < 8 { c.len() as int } else { 8 })),
                    None => None,
                },
            })
        }),
{
    let (pbranch, pcommit, pshort) = match probed {
        Some((b, c, s)) => (b, Some(c), Some(s)),
        None => (None, None, None),
    };
    let out_branch = match branch {
        Some(b) => Some(b),
        None => pbranch,
    };
    let out_commit = match commit {
        Some(c) => Some(c),
        None => pcommit,
    };
    let out_short = match commit_short {
        Some(s) => Some(s),
        None => pshort,
    };
    let out_short = match out_short {
        Some(s) => Some(s),
        None => match out_commit {
            Some(ref c) => Some(short_hash_prefix(c.as_str())),
            None => None,
        },
    };
    (out_branch, out_commit, out_short)
}

} // verus!
