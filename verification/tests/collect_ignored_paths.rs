use git2::Repository as GitRepository;
use ignore_rm::error::{GitError, GitErrorCode, IoError, IoErrorKind, PickerError};
use ignore_rm::ignored::{
    collect_ignored_paths, listed_paths, printed_paths, submodule_paths, CollectStep, GitCommand,
    GitOutput, Listing, Running,
};
use ignore_rm::path::FilePath;
use std::io::Write;
use std::path::{Path, PathBuf};
use tempfile::{Builder, NamedTempFile, TempDir};

fn file_path(p: &Path) -> FilePath {
    FilePath::from_bytes(p.as_os_str().as_encoded_bytes().to_vec())
}

fn std_path(p: &FilePath) -> PathBuf {
    PathBuf::from(p.to_text().expect("path is no text"))
}

fn git_error(e: git2::Error) -> GitError {
    let code = if e.code() == git2::ErrorCode::NotFound {
        GitErrorCode::NotFound
    } else {
        GitErrorCode::Other
    };
    GitError { code, class: e.raw_class(), message: e.to_string() }
}

/// The submodules of the repository at `path`.
fn list_submodules(path: &Path) -> Result<Vec<FilePath>, GitError> {
    let repo = GitRepository::open(path).map_err(git_error)?;
    let subs = repo.submodules().map_err(git_error)?;
    Ok(subs.iter().map(|s| file_path(s.path())).collect())
}

/// What `git ls-files` prints for the command, read from the status of the
/// repository.
fn ls_files(command: &GitCommand) -> GitOutput {
    let n = command.args.len();
    assert_eq!(
        command.args[..n - 1].join(" "),
        "ls-files --others --ignored --exclude-standard --directory --"
    );
    let repo = GitRepository::open(std_path(&command.current_dir)).expect("no repository");
    let mut options = git2::StatusOptions::new();
    options.include_ignored(true).include_untracked(false).recurse_ignored_dirs(false);
    if command.args[n - 1] != "." {
        options.pathspec(&command.args[n - 1]);
    }
    let mut stdout = String::new();
    for entry in repo.statuses(Some(&mut options)).expect("no status").iter() {
        if entry.status().is_ignored() {
            stdout.push_str(entry.path().expect("path is no text"));
            stdout.push('\n');
        }
    }
    GitOutput { success: true, stdout: stdout.into_bytes(), stderr: Vec::new() }
}

/// Runs a collection against the file system.
fn collect(repo: &Path, rel: &Path) -> Result<Vec<PathBuf>, PickerError> {
    let mut step = collect_ignored_paths(&file_path(repo), &file_path(rel));
    loop {
        step = match step {
            CollectStep::ListSubmodules(l) => {
                let reply = list_submodules(&std_path(l.repository()));
                l.listed(reply)
            }
            CollectStep::RunGit(r) => {
                let reply = ls_files(&r.command());
                r.finished(Ok(reply))
            }
            CollectStep::Done(outcome) => {
                return outcome.map(|v| v.iter().map(std_path).collect());
            }
        };
    }
}

fn assert_same_path(p1: &Path, p2: &Path) {
    let err_msg = "failed to canonicalize";
    let c1 = p1.canonicalize().expect(err_msg);
    let c2 = p2.canonicalize().expect(err_msg);
    assert_eq!(c1, c2);
}

fn init_repo_in_tempdir() -> (TempDir, GitRepository) {
    let temp = tempfile::tempdir().expect("failed to create tempdir");
    let repo = GitRepository::init(temp.path()).expect("failed to init repo");
    (temp, repo)
}

// Creates a file named `filename` inside `dir`.
fn create_file(dir: &Path, filename: &str) -> NamedTempFile {
    let file = Builder::new().prefix(filename).rand_bytes(0).tempfile_in(dir).expect("no file");
    assert_eq!(file.path(), dir.join(filename));
    file
}

// Creates an empty `.gitignore` file in `dir`, then asserts that Git does not ignore it.
fn create_gitignore(repo: &GitRepository, dir: &Path) -> NamedTempFile {
    let gitignore = create_file(dir, ".gitignore");
    let is_ignored = repo.is_path_ignored(Path::new(".gitignore")).expect("git error");
    assert!(!is_ignored, ".gitignore should not be ignored by default");
    gitignore
}

// Appends exactly `pattern` (plus a newline) to the given `.gitignore` file.
fn append_to_gitignore(gitignore: &mut NamedTempFile, pattern: &str) {
    gitignore.write_all(pattern.as_bytes()).expect("write failed");
    gitignore.write_all(b"\n").expect("write failed");
    gitignore.flush().expect("flush failed");
}

// Panics if `path` is not ignored by Git.
fn assert_ignored(repo: &GitRepository, path: &Path) {
    let ignored = repo.is_path_ignored(path).expect("git error");
    assert!(ignored, "`{}` should be ignored according to .gitignore", path.display());
}

// Panics if `path` is ignored by Git.
fn assert_not_ignored(repo: &GitRepository, path: &Path) {
    let ignored = repo.is_path_ignored(path).expect("git error");
    assert!(!ignored, "`{}` should NOT be ignored according to .gitignore", path.display());
}

#[test]
fn no_ignored_file_returns_empty() {
    let (temp_dir, repo) = init_repo_in_tempdir();
    let root = temp_dir.path();

    // Create a file "not_ignored.txt" at repo root
    let not_ignored = create_file(root, "not_ignored.txt");
    // Assert Git does not ignore it
    assert_not_ignored(&repo, not_ignored.path());

    // Collect ignored paths from the entire repo ("" = root)
    let ignored_paths = collect(root, Path::new("")).expect("collection failed");

    // We expect zero ignored-paths
    assert!(
        ignored_paths.is_empty(),
        "Expected no ignored paths, but found some: {:?}",
        ignored_paths
    );
}

#[test]
fn single_ignored_file_is_detected() {
    let (temp_dir, repo) = init_repo_in_tempdir();
    let root = temp_dir.path();

    // Create a ".gitignore"
    let mut gitignore = create_gitignore(&repo, root);

    // Create "ignored.txt" and confirm it's not ignored yet
    let ignored_txt = create_file(root, "ignored.txt");
    assert_not_ignored(&repo, ignored_txt.path());

    // Add "ignored.txt" to .gitignore -> now Git should ignore it
    append_to_gitignore(&mut gitignore, "ignored.txt");
    assert_ignored(&repo, ignored_txt.path());

    // Collect over the entire repo
    let ignored_paths = collect(root, Path::new("")).expect("collection failed");

    // We expect exactly 1 ignored path, and it should match `ignored_txt`.
    assert_eq!(
        ignored_paths.len(),
        1,
        "Expected exactly one ignored file, got {}",
        ignored_paths.len()
    );
    assert_same_path(&ignored_paths[0], ignored_txt.path());
}

#[test]
fn only_specified_file_is_checked_for_ignore() {
    let (temp_dir, repo) = init_repo_in_tempdir();
    let root = temp_dir.path();

    // Create a ".gitignore"
    let mut gitignore = create_gitignore(&repo, root);

    // Create two files and add both to .gitignore
    let ignored1 = create_file(root, "ignored.txt");
    let ignored2 = create_file(root, "ignored2.txt");

    // Files should not be ignored yet
    assert_not_ignored(&repo, ignored1.path());
    assert_not_ignored(&repo, ignored2.path());

    append_to_gitignore(&mut gitignore, "ignored.txt");
    append_to_gitignore(&mut gitignore, "ignored2.txt");

    // Both should indeed be ignored
    assert_ignored(&repo, ignored1.path());
    assert_ignored(&repo, ignored2.path());

    // Now collect *only* on "ignored.txt"
    let result = collect(root, Path::new("ignored.txt")).expect("collection failed");

    // It must return exactly one path and that must be ignored1
    assert_eq!(
        result.len(),
        1,
        "Expected only `ignored.txt` to be returned, even though ignored2.txt also exists"
    );
    assert_same_path(&result[0], ignored1.path());
}

#[test]
fn ignored_directory_and_contents_are_collected() {
    let (temp_dir, repo) = init_repo_in_tempdir();
    let root = temp_dir.path();

    // Create a ".gitignore"
    let mut gitignore = create_gitignore(&repo, root);

    // Create an ignored directory "ignored_dir" with a file inside
    let ignored_dir =
        Builder::new().prefix("ignored_dir").rand_bytes(0).tempdir_in(root).expect("no folder");
    assert_eq!(ignored_dir.path(), root.join("ignored_dir"));
    let ignored_file = create_file(ignored_dir.path(), "file.txt");
    assert_not_ignored(&repo, ignored_file.path());
    assert_not_ignored(&repo, ignored_dir.path());

    // Add the directory to .gitignore
    append_to_gitignore(&mut gitignore, "ignored_dir/");
    assert_ignored(&repo, ignored_file.path());
    assert_ignored(&repo, ignored_dir.path());

    // Collect ignored paths from the ignored directory
    let ignored_paths = collect(root, Path::new("ignored_dir")).expect("collection failed");

    // The only collected path should be the directory
    assert_eq!(ignored_paths.len(), 1);
    assert_same_path(&ignored_paths[0], ignored_dir.path());
}

// ---------------------------------------------------------------------------
// Collections with given answers
// ---------------------------------------------------------------------------

fn path(s: &str) -> FilePath {
    FilePath::from_text(s)
}

fn texts(v: &Vec<FilePath>) -> Vec<String> {
    v.iter().map(|p| p.to_text().unwrap()).collect()
}

fn printed(stdout: &[u8]) -> Result<GitOutput, IoError> {
    Ok(GitOutput { success: true, stdout: stdout.to_vec(), stderr: Vec::new() })
}

fn failed(code: GitErrorCode) -> GitError {
    GitError { code, class: 0, message: "broken".to_string() }
}

fn expect_listing(step: CollectStep, repo: &str) -> Listing {
    match step {
        CollectStep::ListSubmodules(l) => {
            assert_eq!(l.repository().to_text().unwrap(), repo);
            l
        }
        other => panic!("{:?}", other),
    }
}

fn expect_run(step: CollectStep, repo: &str, arg: &str) -> Running {
    match step {
        CollectStep::RunGit(r) => {
            let c = r.command();
            assert_eq!(c.current_dir.to_text().unwrap(), repo);
            assert_eq!(
                c.args,
                vec![
                    "ls-files",
                    "--others",
                    "--ignored",
                    "--exclude-standard",
                    "--directory",
                    "--",
                    arg
                ]
            );
            r
        }
        other => panic!("{:?}", other),
    }
}

fn collected(step: CollectStep) -> Vec<String> {
    match step {
        CollectStep::Done(Ok(v)) => texts(&v),
        other => panic!("{:?}", other),
    }
}

#[test]
fn submodules_come_before_their_repository() {
    let l = expect_listing(collect_ignored_paths(&path("/r"), &path(".")), "/r");
    let l = expect_listing(l.listed(Ok(vec![path("a"), path("b")])), "/r/a");
    let l = expect_listing(l.listed(Ok(vec![path("deep")])), "/r/a/deep");
    let r = expect_run(l.listed(Ok(vec![])), "/r/a/deep", ".");
    let r = expect_run(r.finished(printed(b"one\n")), "/r/a", ".");
    let l = expect_listing(r.finished(printed(b"two\nthree/\n")), "/r/b");
    let r = expect_run(l.listed(Ok(vec![])), "/r/b", ".");
    let r = expect_run(r.finished(printed(b"")), "/r", ".");
    assert_eq!(
        collected(r.finished(printed(b"four"))),
        vec!["/r/a/deep/one", "/r/a/two", "/r/a/three/", "/r/four"]
    );
}

#[test]
fn uninitialized_submodule_is_skipped() {
    let l = expect_listing(collect_ignored_paths(&path("/r"), &path(".")), "/r");
    let l = expect_listing(l.listed(Ok(vec![path("sub")])), "/r/sub");
    let r = expect_run(l.listed(Err(failed(GitErrorCode::NotFound))), "/r", ".");
    assert_eq!(collected(r.finished(printed(b"a.log\n"))), vec!["/r/a.log"]);

    // The submodules around it are not affected.
    let l = expect_listing(collect_ignored_paths(&path("/r"), &path("")), "/r");
    let l = expect_listing(l.listed(Ok(vec![path("a"), path("b"), path("c")])), "/r/a");
    let r = expect_run(l.listed(Ok(vec![])), "/r/a", ".");
    let l = expect_listing(r.finished(printed(b"x\n")), "/r/b");
    let l = expect_listing(l.listed(Err(failed(GitErrorCode::NotFound))), "/r/c");
    let r = expect_run(l.listed(Ok(vec![])), "/r/c", ".");
    let r = expect_run(r.finished(printed(b"y\n")), "/r", ".");
    assert_eq!(collected(r.finished(printed(b""))), vec!["/r/a/x", "/r/c/y"]);
}

#[test]
fn folder_without_repository_has_no_submodules() {
    let l = expect_listing(collect_ignored_paths(&path("/r"), &path("")), "/r");
    expect_run(l.listed(Err(failed(GitErrorCode::NotFound))), "/r", ".");
}

#[test]
fn submodules_elsewhere_are_left_alone() {
    let l = expect_listing(collect_ignored_paths(&path("/r"), &path("ignored.txt")), "/r");
    let r = expect_run(l.listed(Ok(vec![path("sub")])), "/r", "ignored.txt");
    assert_eq!(collected(r.finished(printed(b"ignored.txt\n"))), vec!["/r/ignored.txt"]);

    // Names are compared whole: `libs` does not hold `libs2`.
    let subs = vec![path("libs/a"), path("libs2"), path("other"), path("libs/b/")];
    let l = expect_listing(collect_ignored_paths(&path("/r"), &path("libs")), "/r");
    let l = expect_listing(l.listed(Ok(subs)), "/r/libs/a");
    let r = expect_run(l.listed(Ok(vec![])), "/r/libs/a", ".");
    let l = expect_listing(r.finished(printed(b"o/\n")), "/r/libs/b/");
    let r = expect_run(l.listed(Ok(vec![])), "/r/libs/b/", ".");
    let r = expect_run(r.finished(printed(b"p\n")), "/r", "libs");
    assert_eq!(
        collected(r.finished(printed(b"libs/q\n"))),
        vec!["/r/libs/a/o/", "/r/libs/b/p", "/r/libs/q"]
    );
}

#[test]
fn path_into_a_submodule_is_followed_there() {
    let l = expect_listing(collect_ignored_paths(&path("/r"), &path("sub/deep/out")), "/r");
    let l = expect_listing(l.listed(Ok(vec![path("sub"), path("other")])), "/r/sub");
    let l = expect_listing(l.listed(Ok(vec![path("deep"), path("wide")])), "/r/sub/deep");
    let r = expect_run(l.listed(Ok(vec![])), "/r/sub/deep", "out");
    let r = expect_run(r.finished(printed(b"out/x\n")), "/r/sub", "deep/out");
    let r = expect_run(r.finished(printed(b"")), "/r", "sub/deep/out");
    assert_eq!(collected(r.finished(printed(b""))), vec!["/r/sub/deep/out/x"]);

    // The path of the submodule itself means all of it.
    let l = expect_listing(collect_ignored_paths(&path("/r/"), &path("sub/")), "/r/");
    let l = expect_listing(l.listed(Ok(vec![path("sub")])), "/r/sub");
    expect_run(l.listed(Ok(vec![])), "/r/sub", ".");
}

#[test]
fn dots_in_the_listed_path_are_resolved() {
    // A detour does not hide the submodule that the path leads to.
    let l = expect_listing(collect_ignored_paths(&path("/r"), &path("a/../sub")), "/r");
    let l = expect_listing(l.listed(Ok(vec![path("other"), path("sub")])), "/r/sub");
    let r = expect_run(l.listed(Ok(vec![])), "/r/sub", ".");
    let r = expect_run(r.finished(printed(b"build/\n")), "/r", "a/../sub");
    assert_eq!(collected(r.finished(printed(b""))), vec!["/r/sub/build/"]);

    // A path that comes back out of a submodule means the folder around it.
    let l = expect_listing(collect_ignored_paths(&path("/r"), &path("sub/..")), "/r");
    let l = expect_listing(l.listed(Ok(vec![path("sub")])), "/r/sub");
    let r = expect_run(l.listed(Ok(vec![])), "/r/sub", ".");
    expect_run(r.finished(printed(b"")), "/r", "sub/..");

    // The rest of the path is handed on without its detours.
    let l = expect_listing(collect_ignored_paths(&path("/r"), &path("./sub/x/../out")), "/r");
    let l = expect_listing(l.listed(Ok(vec![path("sub")])), "/r/sub");
    expect_run(l.listed(Ok(vec![])), "/r/sub", "out");
}

#[test]
fn path_that_names_no_place_asks_every_submodule() {
    for rel in ["*.o", "s?b", "[ab]", "a\\b", ":(top)sub", "/r/x", "../elsewhere", ".", ""] {
        let step = collect_ignored_paths(&path("/r"), &path(rel));
        let l = expect_listing(step, "/r");
        let l = expect_listing(l.listed(Ok(vec![path("sub"), path("other")])), "/r/sub");
        let r = expect_run(l.listed(Ok(vec![])), "/r/sub", ".");
        let l = expect_listing(r.finished(printed(b"x\n")), "/r/other");
        let r = expect_run(l.listed(Ok(vec![])), "/r/other", ".");
        let arg = if rel.is_empty() { "." } else { rel };
        let r = expect_run(r.finished(printed(b"")), "/r", arg);
        assert_eq!(collected(r.finished(printed(b"y\n"))), vec!["/r/sub/x", "/r/y"]);
    }
}

#[test]
fn missing_submodule_on_disk_is_skipped() {
    let (temp_dir, repo) = init_repo_in_tempdir();
    let root = temp_dir.path();
    let mut modules = create_file(root, ".gitmodules");
    modules
        .write_all(b"[submodule \"sub\"]\n\tpath = sub\n\turl = ./elsewhere\n")
        .expect("write failed");
    modules.flush().expect("flush failed");
    assert_eq!(repo.submodules().expect("git error").len(), 1);
    let mut gitignore = create_gitignore(&repo, root);
    append_to_gitignore(&mut gitignore, "*.log");
    let log = create_file(root, "a.log");

    let found = collect(root, Path::new("")).expect("collection failed");
    assert_eq!(found.len(), 1);
    assert_same_path(&found[0], log.path());
}

#[test]
fn empty_path_means_the_whole_repository() {
    let l = expect_listing(collect_ignored_paths(&path("/r/"), &path("")), "/r/");
    expect_run(l.listed(Ok(vec![])), "/r/", ".");
}

#[test]
fn broken_submodule_ends_the_collection() {
    let l = expect_listing(collect_ignored_paths(&path("/r"), &path("")), "/r");
    let l = expect_listing(l.listed(Ok(vec![path("a"), path("b")])), "/r/a");
    match l.listed(Err(failed(GitErrorCode::Other))) {
        CollectStep::Done(Err(PickerError::Git2(e))) => {
            assert_eq!(e.code, GitErrorCode::Other);
            assert_eq!(e.message, "broken");
        }
        other => panic!("{:?}", other),
    }
}

#[test]
fn path_that_is_no_text_is_refused_after_the_submodules() {
    let rel = FilePath::from_bytes(vec![0x61, 0xff]);
    let sub = FilePath::from_bytes(vec![0x61, 0xff, 0x2f, 0x62]);
    let l = expect_listing(collect_ignored_paths(&path("/r"), &rel), "/r");
    let l = match l.listed(Ok(vec![sub])) {
        CollectStep::ListSubmodules(l) => l,
        other => panic!("{:?}", other),
    };
    assert_eq!(l.repository().as_bytes(), b"/r/a\xff/b");
    let r = match l.listed(Ok(vec![])) {
        CollectStep::RunGit(r) => r,
        other => panic!("{:?}", other),
    };
    match r.finished(printed(b"x\n")) {
        CollectStep::Done(Err(e)) => {
            assert!(matches!(e, PickerError::NonUtf8Path));
            assert_eq!(e.message(), "path is not valid UTF-8");
        }
        other => panic!("{:?}", other),
    }
}

#[test]
fn failed_command_is_an_error() {
    let output = GitOutput {
        success: false,
        stdout: b"ignored\n".to_vec(),
        stderr: b"fatal: \xff no".to_vec(),
    };
    match printed_paths(&path("/r"), Ok(output)) {
        Err(PickerError::Io(e)) => {
            assert_eq!(e.kind, IoErrorKind::Other);
            assert_eq!(e.message, "git command failed: fatal: \u{fffd} no");
        }
        other => panic!("{:?}", other),
    }
    let missing = IoError { kind: IoErrorKind::NotFound, message: "no git".to_string() };
    match printed_paths(&path("/r"), Err(missing)) {
        Err(e) => {
            assert!(!e.is_git_not_found());
            assert_eq!(e.message(), "I/O error: no git");
        }
        other => panic!("{:?}", other),
    }
}

#[test]
fn printed_lines_become_paths() {
    assert_eq!(texts(&listed_paths(&path("/r"), "")), Vec::<String>::new());
    assert_eq!(
        texts(&listed_paths(&path("/r/"), "a\nb c/\r\n\n/abs\nlast\r")),
        vec!["/r/a", "/r/b c/", "/r/", "/abs", "/r/last\r"]
    );
    assert_eq!(texts(&listed_paths(&path(""), "a\n")), vec!["a"]);
    let v = printed_paths(&path("/r"), printed(b"caf\xc3\xa9\nx\xffy\n")).unwrap();
    assert_eq!(texts(&v), vec!["/r/caf\u{e9}", "/r/x\u{fffd}y"]);
}

#[test]
fn submodule_paths_are_relative_to_the_repository() {
    let v = submodule_paths(&path("/r"), Ok(vec![path("libs/a"), path("c")])).unwrap();
    assert_eq!(texts(&v), vec!["libs/a", "c"]);
    match submodule_paths(&path("/r"), Err(failed(GitErrorCode::NotFound))) {
        Err(e) => assert!(e.is_git_not_found()),
        Ok(_) => panic!("the error was lost"),
    }
}
