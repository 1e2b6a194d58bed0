use ignore_rm::delete::{delete_paths, DeleteStep, Deletion, Probe, Removal, Report};
use ignore_rm::error::{DialogError, GitError, GitErrorCode, IoError, IoErrorKind, PickerError};
use ignore_rm::path::FilePath;
use ignore_rm::prompt::{confirm_delete_files, delete_question, exit_question, wait_for_enter};
use ignore_rm::session::{completed_line, review, Decision, Review};

fn path(s: &str) -> FilePath {
    FilePath::from_text(s)
}

fn io_error(kind: IoErrorKind, message: &str) -> IoError {
    IoError { kind, message: message.to_string() }
}

fn expect_probe(step: DeleteStep, full: &str) -> Deletion {
    match step {
        DeleteStep::Probe(d) => {
            assert_eq!(d.path().to_text().unwrap(), full);
            d
        }
        other => panic!("{:?}", other),
    }
}

/// Says that there is a file or a folder, and expects to be asked to remove it.
fn expect_remove(d: Deletion, probe: Probe) -> Deletion {
    let expected = if probe == Probe::Directory { Removal::DirAll } else { Removal::File };
    match d.probed(probe) {
        (None, DeleteStep::Remove(d, how)) => {
            assert_eq!(how, expected);
            d
        }
        other => panic!("{:?}", other),
    }
}

fn notice(r: Report) -> String {
    match r {
        Report::Notice(s) => s,
        Report::Problem(s) => panic!("{}", s),
    }
}

#[test]
fn one_deleted_path_is_enough() {
    let d = expect_probe(delete_paths(&path("/r"), vec![path("a"), path("/b"), path("c")]), "/r/a");
    let d = expect_remove(d, Probe::Other);
    let (report, step) = d.removed(Err(io_error(IoErrorKind::Other, "denied")));
    match report {
        Report::Problem(s) => assert_eq!(s, "Failed to delete /r/a: denied"),
        Report::Notice(s) => panic!("{}", s),
    }
    let d = expect_remove(expect_probe(step, "/b"), Probe::Directory);
    let (report, step) = d.removed(Ok(()));
    assert_eq!(notice(report), "Deleted /b");
    let d = expect_remove(expect_probe(step, "/r/c"), Probe::Other);
    let (_, step) = d.removed(Err(io_error(IoErrorKind::Other, "busy")));
    assert!(matches!(step, DeleteStep::Done(Ok(()))));
}

#[test]
fn last_failure_is_reported_when_nothing_was_deleted() {
    let d = expect_probe(delete_paths(&path("/r/"), vec![path("a"), path("b"), path("c")]), "/r/a");
    let d = expect_remove(d, Probe::Other);
    let (_, step) = d.removed(Err(io_error(IoErrorKind::Other, "denied")));
    let d = expect_remove(expect_probe(step, "/r/b"), Probe::Other);
    let (_, step) = d.removed(Err(io_error(IoErrorKind::Other, "busy")));
    let (report, step) = expect_probe(step, "/r/c").probed(Probe::Missing);
    assert_eq!(notice(report.unwrap()), "Skipping /r/c (not found)");
    match step {
        DeleteStep::Done(Err(e)) => {
            assert_eq!(e.message(), "failed to delete `/r/b`: busy");
            match e {
                PickerError::DeleteError(p, e) => {
                    assert_eq!(p.as_bytes(), b"/r/b");
                    assert_eq!(e.kind, IoErrorKind::Other);
                }
                other => panic!("{:?}", other),
            }
        }
        other => panic!("{:?}", other),
    }
}

#[test]
fn missing_paths_are_no_failure() {
    assert!(matches!(delete_paths(&path("/r"), vec![]), DeleteStep::Done(Ok(()))));
    let d = expect_probe(delete_paths(&path("/r"), vec![path("a")]), "/r/a");
    let d = expect_remove(d, Probe::Directory);
    let (report, step) = d.removed(Err(io_error(IoErrorKind::NotFound, "gone")));
    assert_eq!(notice(report), "Skipping /r/a (already gone)");
    assert!(matches!(step, DeleteStep::Done(Ok(()))));
}

#[test]
fn second_deletion_finds_nothing() {
    let given = || vec![path("a"), path("/b")];
    let d = expect_probe(delete_paths(&path("/r"), given()), "/r/a");
    let (report, step) = expect_remove(d, Probe::Other).removed(Ok(()));
    assert_eq!(notice(report), "Deleted /r/a");
    let d = expect_remove(expect_probe(step, "/b"), Probe::Directory);
    let (report, step) = d.removed(Ok(()));
    assert_eq!(notice(report), "Deleted /b");
    assert!(matches!(step, DeleteStep::Done(Ok(()))));

    let d = expect_probe(delete_paths(&path("/r"), given()), "/r/a");
    let (report, step) = d.probed(Probe::Missing);
    assert_eq!(notice(report.unwrap()), "Skipping /r/a (not found)");
    let (report, step) = expect_probe(step, "/b").probed(Probe::Missing);
    assert_eq!(notice(report.unwrap()), "Skipping /b (not found)");
    assert!(matches!(step, DeleteStep::Done(Ok(()))));
}

#[test]
fn names_that_are_no_text_are_shown_all_the_same() {
    let given = vec![FilePath::from_bytes(vec![0x78, 0xff])];
    let DeleteStep::Probe(d) = delete_paths(&path("/r"), given) else { panic!("nothing to do") };
    assert_eq!(d.path().as_bytes(), b"/r/x\xff");
    let (report, _) = d.probed(Probe::Missing);
    assert_eq!(notice(report.unwrap()), "Skipping /r/x\u{fffd} (not found)");
}

#[test]
fn two_flags_make_a_probe() {
    assert_eq!(Probe::from_flags(false, false), Probe::Missing);
    assert_eq!(Probe::from_flags(false, true), Probe::Missing);
    assert_eq!(Probe::from_flags(true, true), Probe::Directory);
    assert_eq!(Probe::from_flags(true, false), Probe::Other);
}

#[test]
fn only_a_yes_confirms() {
    assert!(confirm_delete_files(Ok(true)));
    assert!(!confirm_delete_files(Ok(false)));
    assert!(!confirm_delete_files(Err(DialogError { message: "no terminal".to_string() })));
    let q = delete_question();
    assert_eq!(q.prompt, "Are you sure you want to delete these files?");
    assert!(!q.default);
}

#[test]
fn any_line_ends_the_wait() {
    assert!(wait_for_enter(Ok(String::new())).is_ok());
    assert!(wait_for_enter(Ok("x".to_string())).is_ok());
    let e = wait_for_enter(Err(DialogError { message: "closed".to_string() })).unwrap_err();
    assert_eq!(e.message(), "Dialoguer error: closed");
    let q = exit_question();
    assert_eq!(q.prompt, "Press Enter to exit");
    assert!(q.allow_empty);
}

#[test]
fn what_is_listed_is_deleted_after_a_yes() {
    let Review::Ask(lines, pending) = review(vec![path("/r/a"), path("/r/b/")]) else {
        panic!("nothing to delete");
    };
    assert_eq!(lines, vec!["Files to be deleted:", "   /r/a", "   /r/b/"]);
    let Decision::Delete(paths) = pending.answered(Ok(true)) else { panic!("kept") };
    assert_eq!(paths.len(), 2);
    assert_eq!(paths[0].as_bytes(), b"/r/a");
    assert_eq!(paths[1].as_bytes(), b"/r/b/");
    // An absolute path is deleted where it is.
    expect_probe(delete_paths(&path("/elsewhere"), paths), "/r/a");
    assert_eq!(completed_line(), "Deletion completed.");
}

#[test]
fn nothing_is_deleted_without_a_yes() {
    let Review::Ask(_, pending) = review(vec![path("/r/a")]) else { panic!("nothing to delete") };
    let Decision::Keep(lines) = pending.answered(Ok(false)) else { panic!("deleted") };
    assert_eq!(lines, vec!["Aborted; no files were deleted."]);
    let Review::Nothing(lines) = review(vec![]) else { panic!("something to delete") };
    assert_eq!(lines, vec!["No files found for deletion."]);
}

#[test]
fn errors_are_made_from_their_causes() {
    let io: PickerError = io_error(IoErrorKind::NotFound, "gone").into();
    assert!(matches!(io, PickerError::Io(_)));
    let git: PickerError =
        GitError { code: GitErrorCode::Other, class: 0, message: "bad".to_string() }.into();
    assert_eq!(git.message(), "Git2 error: bad");
    assert!(!git.is_git_not_found());
    let dialog: PickerError = DialogError { message: "eof".to_string() }.into();
    assert!(matches!(dialog, PickerError::DialoguerError(_)));
}
