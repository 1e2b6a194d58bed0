use ignore_rm::error::{DialogError, IoError, IoErrorKind, PickerError};
use ignore_rm::path::FilePath;
use ignore_rm::picker::{build_menu, pick_folder, subdirectories, Choosing, DirEntry, PickStep, ReadEntry};

fn path(s: &str) -> FilePath {
    FilePath::from_text(s)
}

fn io_error() -> IoError {
    IoError { kind: IoErrorKind::Other, message: "denied".to_string() }
}

fn entry(name: &str, is_dir: bool) -> ReadEntry {
    Ok(DirEntry { file_name: name.as_bytes().to_vec(), is_dir: Ok(is_dir) })
}

/// Reads the folder `expected` with the given folders inside.
fn read(step: PickStep, expected: &str, folders: &[&str]) -> Choosing {
    match step {
        PickStep::ReadDir(r) => {
            assert_eq!(r.folder().to_text().unwrap(), expected);
            let entries = folders.iter().map(|f| entry(f, true)).collect();
            match r.listed(Ok(entries)) {
                PickStep::Select(c) => {
                    assert_eq!(c.prompt(), format!("Current folder: {}", expected));
                    assert_eq!(c.folder().to_text().unwrap(), expected);
                    assert_eq!(c.default_item(), 0);
                    c
                }
                other => panic!("{:?}", other),
            }
        }
        other => panic!("{:?}", other),
    }
}

fn take_label(c: Choosing, label: &str) -> PickStep {
    let i = c.items().iter().position(|l| l == label).expect("no such label");
    c.chosen(Ok(i))
}

fn picked(step: PickStep) -> String {
    match step {
        PickStep::Done(Ok(p)) => p.to_text().unwrap(),
        other => panic!("{:?}", other),
    }
}

#[test]
fn starting_folder_can_be_selected() {
    let c = read(pick_folder(&path("/repo/")), "/repo/", &["src", "docs"]);
    assert_eq!(c.items(), &["[Select this folder]", "docs", "src"]);
    assert_eq!(picked(take_label(c, "[Select this folder]")), "");
}

#[test]
fn nested_folder_is_given_relative_to_the_start() {
    let c = read(pick_folder(&path("/repo/")), "/repo/", &["src", "docs"]);
    let c = read(take_label(c, "src"), "/repo/src", &["b", "a"]);
    assert_eq!(c.items(), &["[Select this folder]", "..", "a", "b"]);
    let c = read(take_label(c, "a"), "/repo/src/a", &[]);
    assert_eq!(c.items(), &["[Select this folder]", ".."]);
    assert_eq!(picked(take_label(c, "[Select this folder]")), "src/a");
}

#[test]
fn going_up_leads_back() {
    let c = read(pick_folder(&path("/repo/")), "/repo/", &["src"]);
    let c = read(take_label(c, "src"), "/repo/src", &["a"]);
    let c = read(take_label(c, "a"), "/repo/src/a", &[]);
    let c = read(take_label(c, ".."), "/repo/src", &["a"]);
    let c = read(take_label(c, ".."), "/repo", &["src"]);
    // The starting folder again, though it is spelled without the slash.
    assert_eq!(c.items(), &["[Select this folder]", "src"]);
    assert_eq!(picked(take_label(c, "[Select this folder]")), "");
}

#[test]
fn folder_names_beyond_ascii_lead_into_the_folder() {
    let c = read(pick_folder(&path("/r")), "/r", &["...", "caf\u{e9}"]);
    assert_eq!(c.items(), &["[Select this folder]", "...", "caf\u{e9}"]);
    let c = read(take_label(c, "caf\u{e9}"), "/r/caf\u{e9}", &["..."]);
    let c = read(take_label(c, "..."), "/r/caf\u{e9}/...", &[]);
    let rel = picked(take_label(c, "[Select this folder]"));
    assert_eq!(rel, "caf\u{e9}/...");
    assert!(!path(&rel).is_absolute());
}

#[test]
fn names_that_are_no_text_stay_below_the_start() {
    let PickStep::ReadDir(r) = pick_folder(&path("/r")) else { panic!("no folder to read") };
    let names: [&[u8]; 3] = [b".\xff", b"..\xff", b"\xff\xfe"];
    let entries = names
        .iter()
        .map(|n| Ok(DirEntry { file_name: n.to_vec(), is_dir: Ok(true) }))
        .collect();
    let PickStep::Select(c) = r.listed(Ok(entries)) else { panic!("no menu") };
    assert_eq!(
        c.items(),
        &["[Select this folder]", "..\u{fffd}", ".\u{fffd}", "\u{fffd}\u{fffd}"]
    );
    let c = read(take_label(c, "..\u{fffd}"), "/r/..\u{fffd}", &[]);
    assert_eq!(c.items(), &["[Select this folder]", ".."]);
    assert_eq!(picked(take_label(c, "[Select this folder]")), "..\u{fffd}");
}

#[test]
fn relative_and_root_starts() {
    let c = read(pick_folder(&path("/")), "/", &["etc"]);
    let c = read(take_label(c, "etc"), "/etc", &[]);
    let c = read(take_label(c, ".."), "/", &["etc"]);
    assert_eq!(c.items().len(), 2);
    let c = read(pick_folder(&path("x")), "x", &["y"]);
    let c = read(take_label(c, "y"), "x/y", &[]);
    assert_eq!(picked(take_label(c, "[Select this folder]")), "y");
}

#[test]
fn folder_named_like_the_first_label_selects_the_current_folder() {
    let c = read(pick_folder(&path("/r")), "/r", &["[Select this folder]"]);
    assert_eq!(c.items().len(), 2);
    assert_eq!(picked(c.chosen(Ok(1))), "");
}

#[test]
fn only_readable_folders_are_listed() {
    let entries = vec![
        entry("b", true),
        entry("file", false),
        Err(io_error()),
        Ok(DirEntry { file_name: b"unknown".to_vec(), is_dir: Err(io_error()) }),
        Ok(DirEntry { file_name: b"x\xff".to_vec(), is_dir: Ok(true) }),
        entry("a", true),
    ];
    let names = subdirectories(&entries);
    assert_eq!(names, vec!["b", "x\u{fffd}", "a"]);
    assert_eq!(build_menu(true, names.clone()), vec!["[Select this folder]", "a", "b", "x\u{fffd}"]);
    assert_eq!(
        build_menu(false, names),
        vec!["[Select this folder]", "..", "a", "b", "x\u{fffd}"]
    );
}

#[test]
fn unreadable_folder_ends_the_picking() {
    let PickStep::ReadDir(r) = pick_folder(&path("/r")) else { panic!("no folder to read") };
    match r.listed(Err(io_error())) {
        PickStep::Done(Err(e)) => assert_eq!(e.message(), "I/O error: denied"),
        other => panic!("{:?}", other),
    }
}

#[test]
fn failed_menu_ends_the_picking() {
    let c = read(pick_folder(&path("/r")), "/r", &[]);
    match c.chosen(Err(DialogError { message: "not a terminal".to_string() })) {
        PickStep::Done(Err(e)) => {
            assert!(matches!(e, PickerError::DialoguerError(_)));
            assert_eq!(e.message(), "Dialoguer error: not a terminal");
        }
        other => panic!("{:?}", other),
    }
}

#[test]
fn folder_outside_the_start_has_no_relative_path() {
    let c = read(pick_folder(&path("/r")), "/r", &["/elsewhere"]);
    let c = read(take_label(c, "/elsewhere"), "/elsewhere", &[]);
    match take_label(c, "[Select this folder]") {
        PickStep::Done(Err(e)) => {
            assert!(matches!(e, PickerError::StripPrefixError));
            assert_eq!(e.message(), "failed to StripPrefixError");
        }
        other => panic!("{:?}", other),
    }
}
