use git2::Repository as GitRepository;
use ignore_rm::error::{GitError, GitErrorCode, PickerError};
use ignore_rm::path::FilePath;
use ignore_rm::repository::{discover_topmost, DiscoverStep, Repository, RepositoryExt};
use std::path::{Path, PathBuf};
use tempfile::{Builder, TempDir};

fn file_path(p: &Path) -> FilePath {
    FilePath::from_bytes(p.as_os_str().as_encoded_bytes().to_vec())
}

fn std_path(p: &FilePath) -> PathBuf {
    PathBuf::from(p.to_text().expect("path is no text"))
}

fn repository(r: &GitRepository) -> Repository {
    Repository { workdir: r.workdir().map(file_path), path: file_path(r.path()) }
}

fn git_error(e: git2::Error) -> GitError {
    let code = if e.code() == git2::ErrorCode::NotFound {
        GitErrorCode::NotFound
    } else {
        GitErrorCode::Other
    };
    GitError { code, class: e.raw_class(), message: e.to_string() }
}

/// Runs a search against the file system.
fn find_topmost(start: &Path) -> Result<Repository, PickerError> {
    let mut step = discover_topmost(&file_path(start));
    loop {
        step = match step {
            DiscoverStep::Discover(search) => {
                let reply = GitRepository::discover(std_path(search.query()))
                    .map(|r| repository(&r))
                    .map_err(git_error);
                search.discovered(reply)
            }
            DiscoverStep::Done(outcome) => return outcome,
        };
    }
}

/// Assert that two paths are equal after canonicalization.
fn assert_same_path(p1: &Path, p2: &Path) {
    let err_msg = "failed to canonicalize";
    let c1 = p1.canonicalize().expect(err_msg);
    let c2 = p2.canonicalize().expect(err_msg);
    assert_eq!(c1, c2);
}

/// Initialize a repository and assert its working_dir matches the given path
fn init_repo_assert_path_matches(path: &Path) -> Repository {
    let repo = repository(&GitRepository::init(path).expect("failed to init repo"));
    assert_same_path(&std_path(repo.working_dir()), path);
    repo
}

/// Create a temporary Git repository and return the TempDir and Repository handle
fn init_repo_in_tempdir() -> (TempDir, Repository) {
    let temp = tempfile::tempdir().expect("failed to create tempdir");
    let repo = init_repo_assert_path_matches(temp.path());
    (temp, repo)
}

/// Creates the folder `name` inside `dir`.
fn create_dir(dir: &Path, name: &str) -> TempDir {
    let made = Builder::new().prefix(name).rand_bytes(0).tempdir_in(dir).expect("no folder");
    assert_eq!(made.path(), dir.join(name));
    made
}

/// Assert that a search from `path` returns the expected repository.
fn assert_finds_topmost(path: &Path, expected: &Repository) {
    let found = find_topmost(path).expect("discover_topmost failed");

    // Compare working directories
    assert_same_path(&std_path(found.working_dir()), &std_path(expected.working_dir()));

    // Compare repository paths
    assert_same_path(&std_path(&found.path), &std_path(&expected.path));
}

// Discovering from the repo root returns the repo itself
#[test]
fn discover_topmost_from_root_returns_root() {
    let (temp, top_repo) = init_repo_in_tempdir();
    assert_finds_topmost(temp.path(), &top_repo);
}

// Discovering from a repo subdirectory returns the repo itself
#[test]
fn discover_topmost_from_subdirectory_returns_root() {
    let (temp, top_repo) = init_repo_in_tempdir();
    let sub_dir = create_dir(temp.path(), "a");
    assert_finds_topmost(sub_dir.path(), &top_repo);
}

// Discovering from a repo nested subdirectory returns the repo itself
#[test]
fn discover_topmost_from_nested_subdirectory_returns_root() {
    let (temp, top_repo) = init_repo_in_tempdir();
    let sub_dir = create_dir(temp.path(), "a");
    let nested_sub_dir = create_dir(sub_dir.path(), "b");
    assert_finds_topmost(nested_sub_dir.path(), &top_repo);
}

#[test]
fn discover_topmost_from_sub_repo_returns_root() {
    let (temp, top_repo) = init_repo_in_tempdir();
    let sub_dir = create_dir(temp.path(), "a");

    // Init a repo at the subdirectory
    init_repo_assert_path_matches(sub_dir.path());

    assert_finds_topmost(sub_dir.path(), &top_repo);
}

#[test]
fn discover_topmost_from_nested_repo_in_sub_directory_returns_root() {
    let (temp, top_repo) = init_repo_in_tempdir();
    let sub_dir = create_dir(temp.path(), "a");
    let nested_sub_dir = create_dir(sub_dir.path(), "b");

    // Init a repo at the nested subdirectory
    init_repo_assert_path_matches(nested_sub_dir.path());

    assert_finds_topmost(nested_sub_dir.path(), &top_repo);
}

#[test]
fn discover_topmost_from_nested_sub_repo_returns_root() {
    let (temp, top_repo) = init_repo_in_tempdir();
    let sub_dir = create_dir(temp.path(), "a");
    let nested_sub_dir = create_dir(sub_dir.path(), "b");

    // Init a repo at the subdirectory
    init_repo_assert_path_matches(sub_dir.path());
    // Init a repo at the nested subdirectory
    init_repo_assert_path_matches(nested_sub_dir.path());

    assert_finds_topmost(nested_sub_dir.path(), &top_repo);
}

#[test]
fn discover_topmost_error_when_no_repo() {
    let temp = tempfile::tempdir().expect("failed to create tempdir");

    // Call the function and expect a specific Git2 error
    let Err(PickerError::Git2(e)) = find_topmost(temp.path()) else {
        panic!("expected Err(PickerError::Git2) with NotFound");
    };

    // Check that libgit2 correctly identifies the error class and code
    let repository_class =
        git2::Error::new(git2::ErrorCode::NotFound, git2::ErrorClass::Repository, "").raw_class();
    assert_eq!(e.class, repository_class, "expected libgit2 error class Repository");
    assert_eq!(e.code, GitErrorCode::NotFound, "expected libgit2 error code NotFound");
}

fn at(workdir: Option<&str>, path: &str) -> Repository {
    Repository {
        workdir: workdir.map(FilePath::from_text),
        path: FilePath::from_text(path),
    }
}

fn not_found() -> GitError {
    GitError { code: GitErrorCode::NotFound, class: 6, message: "no repository".to_string() }
}

fn query(step: DiscoverStep) -> (String, ignore_rm::repository::Discovery) {
    match step {
        DiscoverStep::Discover(s) => (s.query().to_text().unwrap(), s),
        DiscoverStep::Done(_) => panic!("the search ended"),
    }
}

#[test]
fn working_dir_of_bare_repository_is_its_folder() {
    assert_eq!(at(Some("/r/"), "/r/.git/").working_dir().as_bytes(), b"/r/");
    assert_eq!(at(None, "/bare.git/").working_dir().as_bytes(), b"/bare.git/");
}

#[test]
fn search_climbs_from_repository_to_repository() {
    let (q, s) = query(discover_topmost(&FilePath::from_text("/x/y/z/w")));
    assert_eq!(q, "/x/y/z/w");
    let (q, s) = query(s.discovered(Ok(at(Some("/x/y/z/"), "/x/y/z/.git/"))));
    assert_eq!(q, "/x/y");
    let (q, s) = query(s.discovered(Ok(at(None, "/x/"))));
    assert_eq!(q, "/");
    match s.discovered(Err(not_found())) {
        DiscoverStep::Done(Ok(r)) => assert_eq!(r.working_dir().as_bytes(), b"/x/"),
        other => panic!("{:?}", other),
    }
}

#[test]
fn bare_repository_in_git_folder_ends_the_search() {
    let bare = || at(None, "/p/.git/");
    let (q, s) = query(discover_topmost(&FilePath::from_text("/p")));
    assert_eq!(q, "/p");
    let (q, s) = query(s.discovered(Ok(bare())));
    assert_eq!(q, "/p");
    let (q, s) = query(s.discovered(Ok(bare())));
    assert_eq!(q, "/");
    match s.discovered(Err(not_found())) {
        DiscoverStep::Done(Ok(r)) => assert_eq!(r.path.as_bytes(), b"/p/.git/"),
        other => panic!("{:?}", other),
    }
}

#[test]
fn search_goes_past_a_bare_repository() {
    let (_, s) = query(discover_topmost(&FilePath::from_text("/x/p")));
    let (_, s) = query(s.discovered(Ok(at(None, "/x/p/.git/"))));
    let (q, s) = query(s.discovered(Ok(at(None, "/x/p/.git"))));
    assert_eq!(q, "/x");
    let (q, s) = query(s.discovered(Ok(at(None, "/.git/"))));
    assert_eq!(q, "/");
    // The root is the last folder to look from.
    match s.discovered(Ok(at(None, "/.git/"))) {
        DiscoverStep::Done(Ok(r)) => assert_eq!(r.path.as_bytes(), b"/.git/"),
        other => panic!("{:?}", other),
    }
}

#[test]
fn bare_repository_on_disk_is_found() {
    let temp = tempfile::tempdir().expect("failed to create tempdir");
    let bare = repository(
        &GitRepository::init_bare(temp.path().join(".git")).expect("failed to init repo"),
    );
    assert!(bare.workdir.is_none());
    let sub_dir = create_dir(temp.path(), "a");
    assert_finds_topmost(temp.path(), &bare);
    assert_finds_topmost(sub_dir.path(), &bare);
}

#[test]
fn searching_again_from_the_result_finds_it_again() {
    let (temp, _) = init_repo_in_tempdir();
    let sub_dir = create_dir(temp.path(), "a");
    init_repo_assert_path_matches(sub_dir.path());
    let found = find_topmost(sub_dir.path()).expect("discover_topmost failed");
    let again = find_topmost(&std_path(found.working_dir())).expect("discover_topmost failed");
    assert_eq!(again.path.as_bytes(), found.path.as_bytes());
    assert_eq!(again.working_dir().as_bytes(), found.working_dir().as_bytes());

    let temp = tempfile::tempdir().expect("failed to create tempdir");
    GitRepository::init_bare(temp.path().join(".git")).expect("failed to init repo");
    let found = find_topmost(temp.path()).expect("discover_topmost failed");
    let again = find_topmost(&std_path(found.working_dir())).expect("discover_topmost failed");
    assert_eq!(again.path.as_bytes(), found.path.as_bytes());
}

#[test]
fn bare_repository_inside_another_leads_to_the_other() {
    let (temp, top_repo) = init_repo_in_tempdir();
    let sub_dir = create_dir(temp.path(), "a");
    GitRepository::init_bare(sub_dir.path().join(".git")).expect("failed to init repo");
    assert_finds_topmost(sub_dir.path(), &top_repo);
}

#[test]
fn search_ends_at_the_root() {
    let (_, s) = query(discover_topmost(&FilePath::from_text("/x")));
    match s.discovered(Ok(at(Some("/"), "/.git/"))) {
        DiscoverStep::Done(Ok(r)) => assert_eq!(r.path.as_bytes(), b"/.git/"),
        other => panic!("{:?}", other),
    }
}

#[test]
fn search_fails_where_nothing_is_found() {
    let (_, s) = query(discover_topmost(&FilePath::from_text("/x")));
    match s.discovered(Err(not_found())) {
        DiscoverStep::Done(Err(e)) => {
            assert!(e.is_git_not_found());
            assert_eq!(e.message(), "Git2 error: no repository");
        }
        other => panic!("{:?}", other),
    }
}
