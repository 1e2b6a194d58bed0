//! Collecting the ignored paths of a repository and of its submodules.
//!
//! The collection asks two kinds of questions: which submodules a repository
//! has, and what `git ls-files` prints in it. `collect_ignored_paths` gives the
//! first question; each answer leads to the next question or to the end. The
//! submodules of a repository come before the repository itself, each with its
//! own submodules before it. Only what lies below the given path is asked about:
//! a submodule elsewhere is left alone, and one that the path leads into is
//! asked about the rest of the path. Where the path does not name one place
//! below the repository, as a pattern does not, every submodule is asked about.
//! A submodule that was never initialized is skipped.

use crate::error::{GitError, GitErrorCode, GitErrorView, IoError, IoErrorKind, IoErrorView};
use crate::error::{PickerError, PickerErrorView};
use crate::path::{
    components, descend, inside, is_absolute, join, path_views, resolve, strip_prefix, FilePath, DOT,
};
use crate::text::{byte_views, concat, lines, read_lossy, split_lines, string_views, utf8_lossy};
use vstd::prelude::*;
use vstd::utf8::*;

verus! {

/// What a finished command left behind.
#[derive(Debug)]
pub struct GitOutput {
    pub success: bool,
    pub stdout: Vec<u8>,
    pub stderr: Vec<u8>,
}

/// The model of a `GitOutput`.
pub struct GitOutputView {
    pub success: bool,
    pub stdout: Seq<u8>,
    pub stderr: Seq<u8>,
}

impl View for GitOutput {
    type V = GitOutputView;

    open spec fn view(&self) -> GitOutputView {
        GitOutputView { success: self.success, stdout: self.stdout@, stderr: self.stderr@ }
    }
}

/// A call of `git`: the folder that it runs in, and its arguments.
#[derive(Debug)]
pub struct GitCommand {
    pub current_dir: FilePath,
    pub args: Vec<String>,
}

/// What comes back when the submodules of a repository are asked for.
pub type ListingReply = Result<Seq<Seq<u8>>, GitErrorView>;

/// What comes back from a call of `git`.
pub type RunReply = Result<GitOutputView, IoErrorView>;

/// A list of paths, or an error.
pub type PathsResult = Result<Seq<Seq<u8>>, PickerErrorView>;

/// The model of a list of paths or an error.
pub open spec fn paths_result(r: Result<Vec<FilePath>, PickerError>) -> PathsResult {
    match r {
        Ok(v) => Ok(path_views(v@)),
        Err(e) => Err(e@),
    }
}

/// The model of an answer about submodules.
pub open spec fn listing_reply(r: Result<Vec<FilePath>, GitError>) -> ListingReply {
    match r {
        Ok(v) => Ok(path_views(v@)),
        Err(e) => Err(e@),
    }
}

/// The model of an answer of `git`.
pub open spec fn run_reply(r: Result<GitOutput, IoError>) -> RunReply {
    match r {
        Ok(o) => Ok(o@),
        Err(e) => Err(e@),
    }
}

// ---------------------------------------------------------------------------
// What one answer says
// ---------------------------------------------------------------------------

/// Each of `rels` as seen from `base`.
pub open spec fn joined(base: Seq<u8>, rels: Seq<Seq<u8>>) -> Seq<Seq<u8>> {
    Seq::new(rels.len(), |i: int| join(base, rels[i]))
}

/// The submodules of a repository, by the paths that the repository has them
/// under, where the listing of them worked.
pub open spec fn submodules_at(reply: ListingReply) -> PathsResult {
    match reply {
        Ok(rels) => Ok(rels),
        Err(e) => Err(PickerErrorView::Git2(e)),
    }
}

/// Git says that there is no repository.
pub open spec fn is_missing(reply: ListingReply) -> bool {
    reply matches Err(e) && e.code == GitErrorCode::NotFound
}

/// A repository to ask about, and the path to list in it.
#[derive(Debug)]
struct Visit {
    repo: FilePath,
    rel: FilePath,
}

/// The model of a repository to ask about and the path to list in it.
pub struct VisitView {
    pub repo: Seq<u8>,
    pub rel: Seq<u8>,
}

impl Visit {
    spec fn view(&self) -> VisitView {
        VisitView { repo: self.repo@, rel: self.rel@ }
    }
}

spec fn visit_views(v: Seq<Visit>) -> Seq<VisitView> {
    Seq::new(v.len(), |i: int| v[i].view())
}

/// The byte that opens a path with a special meaning to `git`.
pub const COLON: u8 = 0x3a;

/// A byte that makes a path a pattern: one of `*`, `?`, `[` and the backslash.
pub open spec fn is_pattern_byte(b: u8) -> bool {
    b == 0x2a || b == 0x3f || b == 0x5b || b == 0x5c
}

/// A name that `git` takes as it is spelled, wherever it stands in a path.
pub open spec fn is_literal(name: Seq<u8>) -> bool {
    &&& name.len() > 0 ==> name[0] != COLON
    &&& forall|i: int| 0 <= i < name.len() ==> !is_pattern_byte(#[trigger] name[i])
}

/// All of the names are taken as they are spelled.
pub open spec fn are_literal(names: Seq<Seq<u8>>) -> bool {
    forall|i: int| 0 <= i < names.len() ==> is_literal(#[trigger] names[i])
}

/// The place below `repo` that the listed path names, each `..` in it resolved.
/// There is none where the path means the whole repository, leads above it, is
/// absolute, or is a pattern.
pub open spec fn listed_place(repo: Seq<u8>, rel: Seq<u8>) -> Option<Seq<u8>> {
    if is_absolute(rel) || (rel.len() > 0 && rel[0] == COLON) {
        None
    } else {
        match resolve(components(rel)) {
            Some(names) => if names.len() > 0 && are_literal(names) {
                Some(descend(repo, names))
            } else {
                None
            },
            None => None,
        }
    }
}

/// What to ask the submodule at `sub` about, when the paths below `target` are
/// collected: all of it where it lies below `target`, the rest of the path
/// where `target` lies inside it, and nothing elsewhere. Without a target it is
/// asked about all of it.
pub open spec fn visit_for(target: Option<Seq<u8>>, sub: Seq<u8>) -> Option<VisitView> {
    match target {
        None => Some(VisitView { repo: sub, rel: seq![DOT] }),
        Some(target) => if inside(target, sub) {
            Some(VisitView { repo: sub, rel: seq![DOT] })
        } else if inside(sub, target) {
            Some(VisitView { repo: sub, rel: strip_prefix(target, sub)->0 })
        } else {
            None
        },
    }
}

/// What to ask each of the submodules about.
pub open spec fn visits_for(target: Option<Seq<u8>>, subs: Seq<Seq<u8>>) -> Seq<VisitView>
    decreases subs.len(),
{
    if subs.len() == 0 {
        Seq::empty()
    } else {
        let before = visits_for(target, subs.drop_last());
        match visit_for(target, subs.last()) {
            Some(v) => before.push(v),
            None => before,
        }
    }
}

/// The visits to the submodules of the repository at `repo`, when the paths
/// below `rel` are collected. There are none where there is no repository.
pub open spec fn submodules_to_visit(
    repo: Seq<u8>,
    rel: Seq<u8>,
    reply: ListingReply,
) -> Result<Seq<VisitView>, PickerErrorView> {
    match submodules_at(reply) {
        Ok(subs) => Ok(visits_for(listed_place(repo, rel), joined(repo, subs))),
        Err(e) => if e.is_git_not_found() {
            Ok(Seq::empty())
        } else {
            Err(e)
        },
    }
}

/// The error of a `git` that ended with a failure and printed `stderr`.
pub open spec fn git_failure(stderr: Seq<char>) -> IoErrorView {
    IoErrorView { kind: IoErrorKind::Other, message: "git command failed: "@ + stderr }
}

/// The paths that a printed listing names, one to a line.
pub open spec fn paths_in_listing(repo: Seq<u8>, text: Seq<char>) -> Seq<Seq<u8>> {
    joined(repo, lines(encode_utf8(text)))
}

/// The paths that `git` printed in the folder `repo`.
pub open spec fn paths_printed(repo: Seq<u8>, reply: RunReply) -> PathsResult {
    match reply {
        Err(e) => Err(PickerErrorView::Io(e)),
        Ok(o) => if !o.success {
            Err(PickerErrorView::Io(git_failure(utf8_lossy(o.stderr))))
        } else {
            Ok(paths_in_listing(repo, utf8_lossy(o.stdout)))
        },
    }
}

/// The arguments that make `git` print the ignored files and folders below
/// `arg`.
pub open spec fn ls_files_args(arg: Seq<char>) -> Seq<Seq<char>> {
    seq![
        "ls-files"@,
        "--others"@,
        "--ignored"@,
        "--exclude-standard"@,
        "--directory"@,
        "--"@,
        arg,
    ]
}

/// Each of `rels` as seen from `base`.
fn join_all(base: &FilePath, rels: &Vec<FilePath>) -> (r: Vec<FilePath>)
    ensures
        path_views(r@) == joined(base@, path_views(rels@)),
{
    let mut out: Vec<FilePath> = Vec::new();
    let mut i: usize = 0;
    while i < rels.len()
        invariant
            i <= rels@.len(),
            path_views(out@) == joined(base@, path_views(rels@)).take(i as int),
        decreases rels@.len() - i,
    {
        let ghost before = out@;
        out.push(base.join(&rels[i]));
        i = i + 1;
        assert(path_views(out@) == path_views(before).push(join(base@, rels@[i - 1]@)));
        assert(path_views(out@) == joined(base@, path_views(rels@)).take(i as int));
    }
    assert(path_views(out@) == joined(base@, path_views(rels@)));
    out
}

/// The paths of the submodules of the repository at `repo_path`, relative to
/// it, as the repository has them.
pub fn submodule_paths(_repo_path: &FilePath, listing: Result<Vec<FilePath>, GitError>) -> (r:
    Result<Vec<FilePath>, PickerError>)
    ensures
        paths_result(r) == submodules_at(listing_reply(listing)),
        listing matches Ok(rels) ==> (r matches Ok(v) && path_views(v@) == path_views(rels@)),
        listing matches Err(e) ==> (r matches Err(PickerError::Git2(f)) && f@ == e@),
{
    match listing {
        Ok(rels) => Ok(rels),
        Err(e) => Err(PickerError::Git2(e)),
    }
}

/// Whether all of the names are taken as they are spelled.
fn check_literal(names: &Vec<FilePath>) -> (r: bool)
    ensures
        r == are_literal(path_views(names@)),
{
    let ghost all = path_views(names@);
    let mut i: usize = 0;
    while i < names.len()
        invariant
            all == path_views(names@),
            i <= names@.len(),
            forall|k: int| 0 <= k < i ==> is_literal(#[trigger] all[k]),
        decreases names@.len() - i,
    {
        let name = names[i].as_bytes();
        assert(all[i as int] == name@);
        if name.len() > 0 && name[0] == COLON {
            return false;
        }
        let mut j: usize = 0;
        while j < name.len()
            invariant
                all == path_views(names@),
                i < all.len(),
                all[i as int] == name@,
                j <= name@.len(),
                forall|k: int| 0 <= k < j ==> !is_pattern_byte(#[trigger] name@[k]),
            decreases name@.len() - j,
        {
            let b: u8 = name[j];
            if b == 0x2a || b == 0x3f || b == 0x5b || b == 0x5c {
                assert(is_pattern_byte(all[i as int][j as int]));
                return false;
            }
            j = j + 1;
        }
        i = i + 1;
    }
    true
}

/// The place below `repo` that the listed path names.
fn find_place(repo: &FilePath, rel: &FilePath) -> (r: Option<FilePath>)
    ensures
        match r {
            Some(p) => listed_place(repo@, rel@) == Some(p@),
            None => listed_place(repo@, rel@) is None,
        },
{
    let bytes = rel.as_bytes();
    if rel.is_absolute() || (bytes.len() > 0 && bytes[0] == COLON) {
        return None;
    }
    match rel.resolved() {
        Some(names) => {
            assert(path_views(names@).len() == names@.len());
            if names.len() > 0 && check_literal(&names) {
                Some(repo.descend(&names))
            } else {
                None
            }
        },
        None => None,
    }
}

/// The model of a place.
spec fn place_view(place: Option<FilePath>) -> Option<Seq<u8>> {
    match place {
        Some(p) => Some(p@),
        None => None,
    }
}

/// What to ask a submodule about.
fn plan_visit(target: &Option<FilePath>, sub: &FilePath) -> (r: Option<Visit>)
    ensures
        match r {
            Some(v) => visit_for(place_view(*target), sub@) == Some(v.view()),
            None => visit_for(place_view(*target), sub@) is None,
        },
{
    match target {
        None => Some(Visit { repo: sub.clone(), rel: current_folder() }),
        Some(target) => {
            if sub.is_inside(target) {
                Some(Visit { repo: sub.clone(), rel: current_folder() })
            } else {
                match target.strip_prefix(sub) {
                    Some(rel) => Some(Visit { repo: sub.clone(), rel }),
                    None => None,
                }
            }
        },
    }
}

/// What to ask each of the submodules about.
fn plan_visits(target: &Option<FilePath>, subs: &Vec<FilePath>) -> (r: Vec<Visit>)
    ensures
        visit_views(r@) == visits_for(place_view(*target), path_views(subs@)),
{
    let ghost all = path_views(subs@);
    let ghost place = place_view(*target);
    let mut out: Vec<Visit> = Vec::new();
    let mut i: usize = 0;
    assert(visit_views(out@) == visits_for(place, all.take(0)));
    while i < subs.len()
        invariant
            i <= subs@.len(),
            all == path_views(subs@),
            place == place_view(*target),
            visit_views(out@) == visits_for(place, all.take(i as int)),
        decreases subs@.len() - i,
    {
        let ghost before = out@;
        proof {
            assert(all.take(i + 1).drop_last() == all.take(i as int));
            assert(all.take(i + 1).last() == subs@[i as int]@);
        }
        if let Some(visit) = plan_visit(target, &subs[i]) {
            out.push(visit);
            assert(visit_views(out@) == visit_views(before).push(visit.view()));
        }
        i = i + 1;
    }
    assert(all.take(i as int) == all);
    out
}

/// The path of the current folder.
fn current_folder() -> (r: FilePath)
    ensures
        r@ == seq![DOT],
{
    let mut dot: Vec<u8> = Vec::new();
    dot.push(DOT);
    assert(dot@ == seq![DOT]);
    FilePath::from_bytes(dot)
}

/// The paths that the printed text names, one to a line, as seen from
/// `repo_path`.
pub fn listed_paths(repo_path: &FilePath, text: &str) -> (r: Vec<FilePath>)
    ensures
        path_views(r@) == paths_in_listing(repo_path@, text@),
        r@.len() == lines(encode_utf8(text@)).len(),
        forall|i: int|
            0 <= i < r@.len() ==> #[trigger] r@[i]@ == join(
                repo_path@,
                lines(encode_utf8(text@))[i],
            ),
{
    let found = split_lines(text.as_bytes());
    let ghost all = lines(encode_utf8(text@));
    let mut rels: Vec<FilePath> = Vec::new();
    for line in it: found
        invariant
            it.seq() == found@,
            byte_views(found@) == all,
            path_views(rels@) == all.take(it.index() as int),
    {
        let ghost before = rels@;
        let ghost text = line@;
        assert(all[it.index() as int] == text);
        rels.push(FilePath::from_bytes(line));
        assert(path_views(rels@) == path_views(before).push(text));
        assert(path_views(rels@) == all.take(it.index() + 1));
    }
    assert(all.take(all.len() as int) == all);
    let r = join_all(repo_path, &rels);
    proof {
        let shown = path_views(r@);
        assert(shown.len() == r@.len());
        assert forall|i: int| 0 <= i < r@.len() implies #[trigger] r@[i]@ == join(
            repo_path@,
            all[i],
        ) by {
            assert(shown[i] == r@[i]@);
        }
    }
    r
}

/// The paths that a finished `git` printed, or the error that it stands for.
pub fn printed_paths(repo_path: &FilePath, reply: Result<GitOutput, IoError>) -> (r: Result<
    Vec<FilePath>,
    PickerError,
>)
    ensures
        paths_result(r) == paths_printed(repo_path@, run_reply(reply)),
        r is Ok <==> (reply matches Ok(output) && output.success),
        reply matches Err(e) ==> (r matches Err(PickerError::Io(f)) && f@ == e@),
        reply matches Ok(output) ==> !output.success ==> (r matches Err(PickerError::Io(f))
            && f.kind == IoErrorKind::Other && f.message@ == "git command failed: "@ + utf8_lossy(
            output.stderr@,
        )),
{
    match reply {
        Err(e) => Err(PickerError::Io(e)),
        Ok(output) => {
            if !output.success {
                let text = read_lossy(output.stderr.as_slice());
                let message = concat("git command failed: ", text.as_str());
                Err(PickerError::Io(IoError { kind: IoErrorKind::Other, message }))
            } else {
                let text = read_lossy(output.stdout.as_slice());
                Ok(listed_paths(repo_path, text.as_str()))
            }
        },
    }
}

// ---------------------------------------------------------------------------
// The collection, question by question
// ---------------------------------------------------------------------------

/// A repository whose submodules are being visited.
#[derive(Debug)]
struct Frame {
    repo: FilePath,
    rel: FilePath,
    visits: Vec<Visit>,
    next: usize,
}

/// The model of a repository whose submodules are being visited: its path, the
/// path to list in it, and the visits to submodules that are left.
pub struct FrameView {
    pub repo: Seq<u8>,
    pub rel: Seq<u8>,
    pub rest: Seq<VisitView>,
}

impl Frame {
    spec fn view(&self) -> FrameView {
        FrameView {
            repo: self.repo@,
            rel: self.rel@,
            rest: if self.next <= self.visits@.len() {
                visit_views(self.visits@).skip(self.next as int)
            } else {
                Seq::empty()
            },
        }
    }
}

spec fn frame_views(v: Seq<Frame>) -> Seq<FrameView> {
    Seq::new(v.len(), |i: int| v[i].view())
}

/// A collection that waits for the submodules of a repository.
#[derive(Debug)]
pub struct Listing {
    repo: FilePath,
    rel: FilePath,
    waiting: Vec<Frame>,
    found: Vec<FilePath>,
}

/// The model of a `Listing`: the repository that is asked about, the path to
/// list in it, the repositories that wait for it, and what was found so far.
pub struct ListingView {
    pub repo: Seq<u8>,
    pub rel: Seq<u8>,
    pub waiting: Seq<FrameView>,
    pub found: Seq<Seq<u8>>,
}

impl View for Listing {
    type V = ListingView;

    closed spec fn view(&self) -> ListingView {
        ListingView {
            repo: self.repo@,
            rel: self.rel@,
            waiting: frame_views(self.waiting@),
            found: path_views(self.found@),
        }
    }
}

/// A collection that waits for what `git` prints in a repository.
#[derive(Debug)]
pub struct Running {
    repo: FilePath,
    arg: String,
    waiting: Vec<Frame>,
    found: Vec<FilePath>,
}

/// The model of a `Running`: the repository that `git` runs in, the argument
/// that it gets, the repositories that wait for it, and what was found so far.
pub struct RunningView {
    pub repo: Seq<u8>,
    pub arg: Seq<char>,
    pub waiting: Seq<FrameView>,
    pub found: Seq<Seq<u8>>,
}

impl View for Running {
    type V = RunningView;

    closed spec fn view(&self) -> RunningView {
        RunningView {
            repo: self.repo@,
            arg: self.arg@,
            waiting: frame_views(self.waiting@),
            found: path_views(self.found@),
        }
    }
}

/// The next thing to do in a collection.
#[derive(Debug)]
pub enum CollectStep {
    /// Ask for the submodules of a repository.
    ListSubmodules(Listing),
    /// Run `git` in a repository.
    RunGit(Running),
    /// Nothing: this is the outcome.
    Done(Result<Vec<FilePath>, PickerError>),
}

/// The model of a `CollectStep`.
pub enum CollectStepView {
    ListSubmodules(ListingView),
    RunGit(RunningView),
    Done(PathsResult),
}

impl View for CollectStep {
    type V = CollectStepView;

    open spec fn view(&self) -> CollectStepView {
        match self {
            CollectStep::ListSubmodules(l) => CollectStepView::ListSubmodules(l@),
            CollectStep::RunGit(r) => CollectStepView::RunGit(r@),
            CollectStep::Done(r) => CollectStepView::Done(paths_result(*r)),
        }
    }
}

/// The path to list: the folder itself where none is spelled.
pub open spec fn path_to_list(rel: Seq<u8>) -> Seq<u8> {
    if rel.len() == 0 {
        seq![DOT]
    } else {
        rel
    }
}

/// The first step of a collection.
pub open spec fn first_step(repo: Seq<u8>, rel: Seq<u8>) -> CollectStepView {
    CollectStepView::ListSubmodules(
        ListingView {
            repo,
            rel: path_to_list(rel),
            waiting: Seq::empty(),
            found: Seq::empty(),
        },
    )
}

/// The step after the submodules of `frame` before `frame.rest` were visited:
/// the next submodule, or `git` where none is left.
pub open spec fn advance(
    frame: FrameView,
    waiting: Seq<FrameView>,
    found: Seq<Seq<u8>>,
) -> CollectStepView {
    if frame.rest.len() > 0 {
        let waits = FrameView { rest: frame.rest.drop_first(), ..frame };
        CollectStepView::ListSubmodules(
            ListingView {
                repo: frame.rest[0].repo,
                rel: frame.rest[0].rel,
                waiting: waiting.push(waits),
                found,
            },
        )
    } else if !valid_utf8(frame.rel) {
        CollectStepView::Done(Err(PickerErrorView::NonUtf8Path))
    } else {
        CollectStepView::RunGit(
            RunningView { repo: frame.repo, arg: decode_utf8(frame.rel), waiting, found },
        )
    }
}

/// The step after a repository was finished: back to the one that waits for
/// it, or the end.
pub open spec fn resume(waiting: Seq<FrameView>, found: Seq<Seq<u8>>) -> CollectStepView {
    if waiting.len() == 0 {
        CollectStepView::Done(Ok(found))
    } else {
        advance(waiting.last(), waiting.drop_last(), found)
    }
}

/// The step after an answer about submodules. A submodule that Git does not
/// know as a repository is skipped.
pub open spec fn after_listing(l: ListingView, reply: ListingReply) -> CollectStepView {
    if is_missing(reply) && l.waiting.len() > 0 {
        resume(l.waiting, l.found)
    } else {
        match submodules_to_visit(l.repo, l.rel, reply) {
            Err(e) => CollectStepView::Done(Err(e)),
            Ok(visits) => advance(
                FrameView { repo: l.repo, rel: l.rel, rest: visits },
                l.waiting,
                l.found,
            ),
        }
    }
}

/// The step after an answer of `git`.
pub open spec fn after_run(r: RunningView, reply: RunReply) -> CollectStepView {
    match paths_printed(r.repo, reply) {
        Err(e) => CollectStepView::Done(Err(e)),
        Ok(own) => resume(r.waiting, r.found + own),
    }
}

/// The step after the submodules of `frame` that `frame.next` stands behind.
fn advance_frame(frame: Frame, waiting: Vec<Frame>, found: Vec<FilePath>) -> (r: CollectStep)
    ensures
        r@ == advance(frame.view(), frame_views(waiting@), path_views(found@)),
{
    let Frame { repo, rel, visits, next } = frame;
    if next < visits.len() {
        let sub = visits[next].repo.clone();
        let sub_rel = visits[next].rel.clone();
        let waits = Frame { repo, rel, visits, next: next + 1 };
        let mut waiting = waiting;
        let ghost before = waiting@;
        proof {
            assert(frame.view().rest[0] == VisitView { repo: sub@, rel: sub_rel@ });
            assert(waits.view().rest == frame.view().rest.drop_first());
        }
        waiting.push(waits);
        assert(frame_views(waiting@) == frame_views(before).push(waits.view()));
        CollectStep::ListSubmodules(Listing { repo: sub, rel: sub_rel, waiting, found })
    } else {
        assert(frame.view().rest.len() == 0);
        match rel.to_text() {
            None => CollectStep::Done(Err(PickerError::NonUtf8Path)),
            Some(arg) => CollectStep::RunGit(Running { repo, arg, waiting, found }),
        }
    }
}

/// The step after a repository was finished.
fn resume_waiting(waiting: Vec<Frame>, found: Vec<FilePath>) -> (r: CollectStep)
    ensures
        r@ == resume(frame_views(waiting@), path_views(found@)),
{
    let mut waiting = waiting;
    let ghost frames = waiting@;
    match waiting.pop() {
        None => CollectStep::Done(Ok(found)),
        Some(frame) => {
            assert(frame_views(waiting@) == frame_views(frames).drop_last());
            advance_frame(frame, waiting, found)
        },
    }
}

/// Starts collecting the ignored paths below `rel_path` in the repository at
/// `repo_path` and in its submodules. Where `rel_path` is empty, the
/// whole repository is meant.
pub fn collect_ignored_paths(repo_path: &FilePath, rel_path: &FilePath) -> (r: CollectStep)
    ensures
        r@ == first_step(repo_path@, rel_path@),
        r matches CollectStep::ListSubmodules(l) && {
            &&& l@.repo == repo_path@
            &&& rel_path@.len() > 0 ==> l@.rel == rel_path@
            &&& rel_path@.len() == 0 ==> l@.rel == seq![0x2eu8]
            &&& l@.waiting.len() == 0
            &&& l@.found.len() == 0
        },
{
    let rel = if rel_path.is_empty() {
        current_folder()
    } else {
        rel_path.clone()
    };
    let r = Listing { repo: repo_path.clone(), rel, waiting: Vec::new(), found: Vec::new() };
    proof {
        assert(r@.waiting == Seq::<FrameView>::empty());
        assert(r@.found == Seq::<Seq<u8>>::empty());
    }
    CollectStep::ListSubmodules(r)
}

impl Listing {
    /// The repository whose submodules are asked for.
    pub fn repository(&self) -> (r: &FilePath)
        ensures
            r@ == self@.repo,
    {
        &self.repo
    }

    /// Goes on with the submodules of the repository, by the paths that the
    /// repository has them under. Where there is no repository, as in a
    /// submodule that was never initialized, a submodule is skipped, and the
    /// folder that the collection started in has no submodules.
    pub fn listed(self, listing: Result<Vec<FilePath>, GitError>) -> (r: CollectStep)
        ensures
            r@ == after_listing(self@, listing_reply(listing)),
            listing matches Err(e) ==> e.code != GitErrorCode::NotFound ==> (
            r matches CollectStep::Done(Err(PickerError::Git2(f))) && f@ == e@),
    {
        let visits = match submodule_paths(&self.repo, listing) {
            Ok(rels) => plan_visits(
                &find_place(&self.repo, &self.rel),
                &join_all(&self.repo, &rels),
            ),
            Err(e) => {
                if !e.is_git_not_found() {
                    return CollectStep::Done(Err(e));
                }
                if self.waiting.len() > 0 {
                    return resume_waiting(self.waiting, self.found);
                }
                let none: Vec<Visit> = Vec::new();
                assert(visit_views(none@) == Seq::<VisitView>::empty());
                none
            },
        };
        let frame = Frame { repo: self.repo, rel: self.rel, visits, next: 0 };
        assert(frame.view().rest == visit_views(visits@));
        advance_frame(frame, self.waiting, self.found)
    }
}

impl Running {
    /// The call of `git` to make.
    pub fn command(&self) -> (r: GitCommand)
        ensures
            r.current_dir@ == self@.repo,
            string_views(r.args@) == ls_files_args(self@.arg),
            string_views(r.args@) == seq![
                "ls-files"@,
                "--others"@,
                "--ignored"@,
                "--exclude-standard"@,
                "--directory"@,
                "--"@,
                self@.arg,
            ],
    {
        let mut args: Vec<String> = Vec::new();
        args.push("ls-files".to_owned());
        args.push("--others".to_owned());
        args.push("--ignored".to_owned());
        args.push("--exclude-standard".to_owned());
        args.push("--directory".to_owned());
        args.push("--".to_owned());
        args.push(self.arg.clone());
        assert(string_views(args@) == ls_files_args(self@.arg));
        GitCommand { current_dir: self.repo.clone(), args }
    }

    /// Goes on with what `git` printed.
    pub fn finished(self, reply: Result<GitOutput, IoError>) -> (r: CollectStep)
        ensures
            r@ == after_run(self@, run_reply(reply)),
            reply matches Err(e) ==> (r matches CollectStep::Done(Err(PickerError::Io(f))) && f@
                == e@),
            reply matches Ok(output) ==> !output.success ==> (r matches CollectStep::Done(
                Err(PickerError::Io(f)),
            ) && f.kind == IoErrorKind::Other && f.message@ == "git command failed: "@ + utf8_lossy(
                output.stderr@,
            )),
    {
        match printed_paths(&self.repo, reply) {
            Err(e) => CollectStep::Done(Err(e)),
            Ok(own) => {
                let mut own = own;
                let mut found = self.found;
                let ghost before = found@;
                let ghost more = own@;
                found.append(&mut own);
                assert(path_views(found@) == path_views(before) + path_views(more));
                resume_waiting(self.waiting, found)
            },
        }
    }
}

} // verus!
