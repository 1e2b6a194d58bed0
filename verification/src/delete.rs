//! Deleting a list of paths.
//!
//! `delete_paths` gives the first path to look at; each answer leads to the
//! next thing to do. A path that does not exist is passed over. The deletion
//! as a whole fails only if something could not be deleted and nothing was.

use crate::error::{IoError, IoErrorKind, IoErrorView, PickerError, PickerErrorView};
use crate::path::{
    inside, is_absolute, join, law_absolute_paths_open_with_slash, law_join_stays_inside,
    path_views, FilePath,
};
use crate::text::{concat, utf8_lossy};
use vstd::prelude::*;
use vstd::string::*;

verus! {

/// What is found at a path.
#[derive(Clone, Copy, Debug, PartialEq, Eq, Structural)]
pub enum Probe {
    Missing,
    Directory,
    Other,
}

impl Probe {
    /// What the two questions about a path say: whether it exists, and whether
    /// it is a folder.
    pub fn from_flags(exists: bool, is_dir: bool) -> (r: Probe)
        ensures
            r == (if !exists {
                Probe::Missing
            } else if is_dir {
                Probe::Directory
            } else {
                Probe::Other
            }),
    {
        if !exists {
            Probe::Missing
        } else if is_dir {
            Probe::Directory
        } else {
            Probe::Other
        }
    }
}

/// How something is removed.
#[derive(Clone, Copy, Debug, PartialEq, Eq, Structural)]
pub enum Removal {
    /// A folder, with all that it holds.
    DirAll,
    /// A file.
    File,
}

/// A line for the user.
#[derive(Debug)]
pub enum Report {
    /// A line for the standard output.
    Notice(String),
    /// A line for the standard error.
    Problem(String),
}

/// The model of a `Report`.
pub enum ReportView {
    Notice(Seq<char>),
    Problem(Seq<char>),
}

impl View for Report {
    type V = ReportView;

    open spec fn view(&self) -> ReportView {
        match self {
            Report::Notice(s) => ReportView::Notice(s@),
            Report::Problem(s) => ReportView::Problem(s@),
        }
    }
}

/// What comes back from a removal.
pub type RemoveReply = Result<(), IoErrorView>;

/// The model of an answer.
pub open spec fn remove_reply(r: Result<(), IoError>) -> RemoveReply {
    match r {
        Ok(_) => Ok(()),
        Err(e) => Err(e@),
    }
}

/// A deletion that is under way.
#[derive(Debug)]
pub struct Deletion {
    base: FilePath,
    full: FilePath,
    paths: Vec<FilePath>,
    next: usize,
    any_deleted: bool,
    last_err: Option<(FilePath, IoError)>,
}

/// The model of a `Deletion`: the folder that paths are relative to, the full
/// path at hand, the paths behind it, whether anything was deleted, and the
/// last failure with the full path that it was about.
pub struct DeletionView {
    pub base: Seq<u8>,
    pub full: Seq<u8>,
    pub rest: Seq<Seq<u8>>,
    pub any_deleted: bool,
    pub last_err: Option<(Seq<u8>, IoErrorView)>,
}

/// The model of the last failure.
pub open spec fn failure_view(e: Option<(FilePath, IoError)>) -> Option<(Seq<u8>, IoErrorView)> {
    match e {
        Some((p, e)) => Some((p@, e@)),
        None => None,
    }
}

/// The paths from `next` on.
spec fn paths_from(paths: Seq<FilePath>, next: int) -> Seq<Seq<u8>> {
    if next <= paths.len() {
        path_views(paths).skip(next)
    } else {
        Seq::empty()
    }
}

impl View for Deletion {
    type V = DeletionView;

    closed spec fn view(&self) -> DeletionView {
        DeletionView {
            base: self.base@,
            full: self.full@,
            rest: paths_from(self.paths@, self.next as int),
            any_deleted: self.any_deleted,
            last_err: failure_view(self.last_err),
        }
    }
}

/// The next thing to do in a deletion.
#[derive(Debug)]
pub enum DeleteStep {
    /// Look at what is at the path at hand.
    Probe(Deletion),
    /// Remove what is there.
    Remove(Deletion, Removal),
    /// Nothing: this is the outcome.
    Done(Result<(), PickerError>),
}

/// The model of a `DeleteStep`.
pub enum DeleteStepView {
    Probe(DeletionView),
    Remove(DeletionView, Removal),
    Done(Result<(), PickerErrorView>),
}

impl View for DeleteStep {
    type V = DeleteStepView;

    open spec fn view(&self) -> DeleteStepView {
        match self {
            DeleteStep::Probe(d) => DeleteStepView::Probe(d@),
            DeleteStep::Remove(d, how) => DeleteStepView::Remove(d@, *how),
            DeleteStep::Done(Ok(_)) => DeleteStepView::Done(Ok(())),
            DeleteStep::Done(Err(e)) => DeleteStepView::Done(Err(e@)),
        }
    }
}

/// The full path of `p`: `p` itself where it is absolute, otherwise `p` below
/// `base`.
pub open spec fn full_path(base: Seq<u8>, p: Seq<u8>) -> Seq<u8> {
    if is_absolute(p) {
        p
    } else {
        join(base, p)
    }
}

/// The outcome of a deletion: the last failure, if there was one and nothing
/// was deleted.
pub open spec fn verdict(
    any_deleted: bool,
    last_err: Option<(Seq<u8>, IoErrorView)>,
) -> Result<(), PickerErrorView> {
    if any_deleted {
        Ok(())
    } else {
        match last_err {
            Some((p, e)) => Err(PickerErrorView::DeleteError(p, e)),
            None => Ok(()),
        }
    }
}

/// The step that looks at the first of `rest`, or the end.
pub open spec fn look_at_next(
    base: Seq<u8>,
    rest: Seq<Seq<u8>>,
    any_deleted: bool,
    last_err: Option<(Seq<u8>, IoErrorView)>,
) -> DeleteStepView {
    if rest.len() == 0 {
        DeleteStepView::Done(verdict(any_deleted, last_err))
    } else {
        DeleteStepView::Probe(
            DeletionView {
                base,
                full: full_path(base, rest[0]),
                rest: rest.drop_first(),
                any_deleted,
                last_err,
            },
        )
    }
}

/// The line about the path at hand after a look at it, if there is one.
pub open spec fn probe_report(d: DeletionView, probe: Probe) -> Option<ReportView> {
    if probe == Probe::Missing {
        Some(ReportView::Notice("Skipping "@ + utf8_lossy(d.full) + " (not found)"@))
    } else {
        None
    }
}

/// The step after a look at the path at hand.
pub open spec fn after_probe(d: DeletionView, probe: Probe) -> DeleteStepView {
    match probe {
        Probe::Missing => look_at_next(d.base, d.rest, d.any_deleted, d.last_err),
        Probe::Directory => DeleteStepView::Remove(d, Removal::DirAll),
        Probe::Other => DeleteStepView::Remove(d, Removal::File),
    }
}

/// The line about the path at hand after its removal.
pub open spec fn remove_report(d: DeletionView, reply: RemoveReply) -> ReportView {
    match reply {
        Ok(_) => ReportView::Notice("Deleted "@ + utf8_lossy(d.full)),
        Err(e) => if e.kind == IoErrorKind::NotFound {
            ReportView::Notice("Skipping "@ + utf8_lossy(d.full) + " (already gone)"@)
        } else {
            ReportView::Problem("Failed to delete "@ + utf8_lossy(d.full) + ": "@ + e.message)
        },
    }
}

/// The step after the removal of what is at the path at hand.
pub open spec fn after_removal(d: DeletionView, reply: RemoveReply) -> DeleteStepView {
    match reply {
        Ok(_) => look_at_next(d.base, d.rest, true, d.last_err),
        Err(e) => if e.kind == IoErrorKind::NotFound {
            look_at_next(d.base, d.rest, d.any_deleted, d.last_err)
        } else {
            look_at_next(d.base, d.rest, d.any_deleted, Some((d.full, e)))
        },
    }
}

/// `p` as a full path.
fn resolve(base: &FilePath, p: &FilePath) -> (r: FilePath)
    ensures
        r@ == full_path(base@, p@),
{
    if p.is_absolute() {
        p.clone()
    } else {
        base.join(p)
    }
}

/// The step that looks at the path at `next`, or the end.
fn look(
    base: FilePath,
    paths: Vec<FilePath>,
    next: usize,
    any_deleted: bool,
    last_err: Option<(FilePath, IoError)>,
) -> (r: DeleteStep)
    ensures
        r@ == look_at_next(
            base@,
            paths_from(paths@, next as int),
            any_deleted,
            failure_view(last_err),
        ),
{
    if next < paths.len() {
        let full = resolve(&base, &paths[next]);
        proof {
            let rest = paths_from(paths@, next as int);
            assert(rest[0] == paths@[next as int]@);
            assert(rest.drop_first() == paths_from(paths@, next + 1));
        }
        DeleteStep::Probe(Deletion { base, full, paths, next: next + 1, any_deleted, last_err })
    } else if any_deleted {
        DeleteStep::Done(Ok(()))
    } else {
        match last_err {
            Some((path, e)) => DeleteStep::Done(Err(PickerError::DeleteError(path, e))),
            None => DeleteStep::Done(Ok(())),
        }
    }
}

/// Starts deleting `paths`, each a file or a folder with all that it holds.
/// Relative paths are meant relative to `base`.
pub fn delete_paths(base: &FilePath, paths: Vec<FilePath>) -> (r: DeleteStep)
    ensures
        r@ == look_at_next(base@, path_views(paths@), false, None),
        paths@.len() == 0 ==> r matches DeleteStep::Done(Ok(_)),
        paths@.len() > 0 ==> (r matches DeleteStep::Probe(d) && d@.base == base@ && d@.full
            == full_path(base@, paths@[0]@)),
{
    assert(path_views(paths@).skip(0) == path_views(paths@));
    look(base.clone(), paths, 0, false, None)
}

impl Deletion {
    /// The full path at hand.
    pub fn path(&self) -> (r: &FilePath)
        ensures
            r@ == self@.full,
    {
        &self.full
    }

    /// Goes on with what was found at the path at hand.
    pub fn probed(self, probe: Probe) -> (r: (Option<Report>, DeleteStep))
        ensures
            match r.0 {
                Some(line) => probe_report(self@, probe) == Some(line@),
                None => probe_report(self@, probe) is None,
            },
            r.1@ == after_probe(self@, probe),
            match probe {
                Probe::Missing => r.0 matches Some(Report::Notice(line)) && line@ == "Skipping "@
                    + utf8_lossy(self@.full) + " (not found)"@,
                Probe::Directory => r.0 is None && (r.1 matches DeleteStep::Remove(d, how) && d@
                    == self@ && how == Removal::DirAll),
                Probe::Other => r.0 is None && (r.1 matches DeleteStep::Remove(d, how) && d@
                    == self@ && how == Removal::File),
            },
    {
        match probe {
            Probe::Missing => {
                let mut line = concat("Skipping ", self.full.display().as_str());
                line.append(" (not found)");
                let step = look(
                    self.base,
                    self.paths,
                    self.next,
                    self.any_deleted,
                    self.last_err,
                );
                (Some(Report::Notice(line)), step)
            },
            Probe::Directory => (None, DeleteStep::Remove(self, Removal::DirAll)),
            Probe::Other => (None, DeleteStep::Remove(self, Removal::File)),
        }
    }

    /// Goes on with the outcome of the removal of what is at the path at hand.
    pub fn removed(self, reply: Result<(), IoError>) -> (r: (Report, DeleteStep))
        ensures
            r.0@ == remove_report(self@, remove_reply(reply)),
            r.1@ == after_removal(self@, remove_reply(reply)),
            match reply {
                Ok(_) => r.0 matches Report::Notice(line) && line@ == "Deleted "@ + utf8_lossy(
                    self@.full,
                ),
                Err(e) => if e.kind == IoErrorKind::NotFound {
                    r.0 matches Report::Notice(line) && line@ == "Skipping "@ + utf8_lossy(
                        self@.full,
                    ) + " (already gone)"@
                } else {
                    r.0 matches Report::Problem(line) && line@ == "Failed to delete "@
                        + utf8_lossy(self@.full) + ": "@ + e.message@
                },
            },
    {
        let shown = self.full.display();
        match reply {
            Ok(_) => {
                let line = concat("Deleted ", shown.as_str());
                (
                    Report::Notice(line),
                    look(self.base, self.paths, self.next, true, self.last_err),
                )
            },
            Err(e) => {
                if e.kind == IoErrorKind::NotFound {
                    let mut line = concat("Skipping ", shown.as_str());
                    line.append(" (already gone)");
                    let step = look(
                        self.base,
                        self.paths,
                        self.next,
                        self.any_deleted,
                        self.last_err,
                    );
                    (Report::Notice(line), step)
                } else {
                    let mut line = concat("Failed to delete ", shown.as_str());
                    line.append(": ");
                    line.append(e.message.as_str());
                    let failure = Some((self.full, e));
                    let step = look(self.base, self.paths, self.next, self.any_deleted, failure);
                    (Report::Problem(line), step)
                }
            },
        }
    }
}

// ---------------------------------------------------------------------------
// Laws
// ---------------------------------------------------------------------------

/// What is answered about one path: the look at it, and the removal, which
/// counts only if something was there.
pub struct Answer {
    pub probe: Probe,
    pub removal: RemoveReply,
}

impl Answer {
    /// The path was deleted.
    pub open spec fn deletes(self) -> bool {
        self.probe != Probe::Missing && self.removal is Ok
    }

    /// The path could not be deleted, though it is still there.
    pub open spec fn fails(self) -> bool {
        self.probe != Probe::Missing && (self.removal matches Err(e) && e.kind
            != IoErrorKind::NotFound)
    }
}

/// The step after the answers about the path at hand.
pub open spec fn visit(d: DeletionView, answer: Answer) -> DeleteStepView {
    match after_probe(d, answer.probe) {
        DeleteStepView::Remove(d, _) => after_removal(d, answer.removal),
        step => step,
    }
}

/// The step after the answers about several paths.
pub open spec fn run(step: DeleteStepView, answers: Seq<Answer>) -> DeleteStepView
    decreases answers.len(),
{
    if answers.len() == 0 {
        step
    } else {
        match step {
            DeleteStepView::Probe(d) => run(visit(d, answers[0]), answers.drop_first()),
            _ => step,
        }
    }
}

/// The last failure among the answers, with the full path that it is about.
pub open spec fn last_failure(
    base: Seq<u8>,
    paths: Seq<Seq<u8>>,
    answers: Seq<Answer>,
) -> Option<(Seq<u8>, IoErrorView)>
    decreases answers.len(),
{
    if answers.len() == 0 {
        None
    } else if answers.last().fails() {
        Some((full_path(base, paths[answers.len() - 1]), answers.last().removal->Err_0))
    } else {
        last_failure(base, paths, answers.drop_last())
    }
}

/// Something was deleted.
pub open spec fn deletes_any(answers: Seq<Answer>) -> bool {
    exists|i: int| 0 <= i < answers.len() && (#[trigger] answers[i]).deletes()
}

/// Every path is looked at once, in order: after the answers about the first
/// paths, the one behind them is at hand, and what is remembered is whether
/// anything was deleted and the last failure.
pub proof fn law_deletion_progress(base: Seq<u8>, paths: Seq<Seq<u8>>, answers: Seq<Answer>)
    requires
        answers.len() <= paths.len(),
    ensures
        run(look_at_next(base, paths, false, None), answers) == look_at_next(
            base,
            paths.skip(answers.len() as int),
            deletes_any(answers),
            last_failure(base, paths, answers),
        ),
{
    let n = answers.len() as int;
    lemma_run_prefix(base, paths, answers, n);
    assert(answers.take(n) == answers);
    assert(answers.skip(n) == Seq::<Answer>::empty());
}

/// A deletion is an error exactly if a path could not be deleted and none was;
/// it is then the last failure.
pub proof fn law_deletion_outcome(base: Seq<u8>, paths: Seq<Seq<u8>>, answers: Seq<Answer>)
    requires
        answers.len() == paths.len(),
    ensures
        run(look_at_next(base, paths, false, None), answers) == DeleteStepView::Done(
            verdict(deletes_any(answers), last_failure(base, paths, answers)),
        ),
{
    law_deletion_progress(base, paths, answers);
}

/// A deletion after the answers about its first `n` paths.
proof fn lemma_run_prefix(base: Seq<u8>, paths: Seq<Seq<u8>>, answers: Seq<Answer>, n: int)
    requires
        0 <= n <= answers.len() <= paths.len(),
    ensures
        run(look_at_next(base, paths, false, None), answers) == run(
            look_at_next(
                base,
                paths.skip(n),
                deletes_any(answers.take(n)),
                last_failure(base, paths, answers.take(n)),
            ),
            answers.skip(n),
        ),
    decreases n,
{
    if n == 0 {
        assert(answers.skip(0) == answers);
        assert(paths.skip(0) == paths);
        assert(!deletes_any(answers.take(0)));
    } else {
        lemma_run_prefix(base, paths, answers, n - 1);
        let before = answers.take(n - 1);
        let after = answers.take(n);
        let a = answers[n - 1];
        assert(after.drop_last() == before);
        assert(after.last() == a);
        assert(paths.skip(n - 1)[0] == paths[n - 1]);
        assert(paths.skip(n - 1).drop_first() == paths.skip(n));
        assert(answers.skip(n - 1)[0] == a);
        assert(answers.skip(n - 1).drop_first() == answers.skip(n));
        assert(deletes_any(after) == (deletes_any(before) || a.deletes())) by {
            if deletes_any(before) {
                let i = choose|i: int| 0 <= i < before.len() && (#[trigger] before[i]).deletes();
                assert(after[i].deletes());
            }
            if a.deletes() {
                assert(after[n - 1].deletes());
            }
            if deletes_any(after) {
                let i = choose|i: int| 0 <= i < after.len() && (#[trigger] after[i]).deletes();
                if i < n - 1 {
                    assert(before[i].deletes());
                }
            }
        }
    }
}

/// A deletion that deleted anything succeeds, and so does one in which nothing
/// failed, as one of no paths at all.
pub proof fn law_deletion_succeeds(base: Seq<u8>, paths: Seq<Seq<u8>>, answers: Seq<Answer>)
    requires
        answers.len() == paths.len(),
        deletes_any(answers) || forall|i: int|
            0 <= i < answers.len() ==> !(#[trigger] answers[i]).fails(),
    ensures
        run(look_at_next(base, paths, false, None), answers) == DeleteStepView::Done(Ok(())),
{
    law_deletion_outcome(base, paths, answers);
    if !deletes_any(answers) {
        lemma_no_failure(base, paths, answers);
    }
}

proof fn lemma_no_failure(base: Seq<u8>, paths: Seq<Seq<u8>>, answers: Seq<Answer>)
    requires
        forall|i: int| 0 <= i < answers.len() ==> !(#[trigger] answers[i]).fails(),
    ensures
        last_failure(base, paths, answers) is None,
    decreases answers.len(),
{
    if answers.len() > 0 {
        let before = answers.drop_last();
        assert forall|i: int| 0 <= i < before.len() implies !(#[trigger] before[i]).fails() by {
            assert(!answers[i].fails());
        }
        assert(!answers[answers.len() - 1].fails());
        lemma_no_failure(base, paths, before);
    }
}

/// Only what was found is removed, a folder with all that it holds and
/// anything else as a file; and each path gets one line, after the look at it
/// where nothing was found and after its removal otherwise.
pub proof fn law_only_found_paths_are_removed(d: DeletionView, probe: Probe)
    ensures
        match after_probe(d, probe) {
            DeleteStepView::Remove(e, how) => {
                &&& e == d
                &&& probe != Probe::Missing
                &&& how == Removal::DirAll <==> probe == Probe::Directory
                &&& probe_report(d, probe) is None
            },
            _ => probe == Probe::Missing && probe_report(d, probe) is Some,
        },
{
}

/// A line about a problem is for a path that could not be deleted, and each
/// such path gets one.
pub proof fn law_problem_is_reported_for_failure(d: DeletionView, answer: Answer)
    ensures
        answer.fails() <==> probe_report(d, answer.probe) is None && remove_report(
            d,
            answer.removal,
        ) is Problem,
{
}

/// The answers of a file system in which nothing comes into being meanwhile.
/// `states` says what exists before each path is looked at, and after the last.
/// A path is missing exactly if it does not exist then, and does not exist any
/// more once it was removed or is said to be gone.
pub open spec fn are_true(
    base: Seq<u8>,
    paths: Seq<Seq<u8>>,
    answers: Seq<Answer>,
    states: Seq<Set<Seq<u8>>>,
) -> bool {
    &&& answers.len() == paths.len()
    &&& states.len() == answers.len() + 1
    &&& forall|i: int|
        0 <= i < answers.len() ==> is_true(
            full_path(base, paths[i]),
            #[trigger] answers[i],
            states[i],
            states[i + 1],
        )
}

/// The same for one path, with what exists before it is looked at and after.
pub open spec fn is_true(
    full: Seq<u8>,
    answer: Answer,
    before: Set<Seq<u8>>,
    after: Set<Seq<u8>>,
) -> bool {
    &&& answer.probe == Probe::Missing <==> !before.contains(full)
    &&& after.subset_of(before)
    &&& answer.probe != Probe::Missing && !answer.fails() ==> !after.contains(full)
}

proof fn lemma_states_shrink(
    base: Seq<u8>,
    paths: Seq<Seq<u8>>,
    answers: Seq<Answer>,
    states: Seq<Set<Seq<u8>>>,
    i: int,
    j: int,
)
    requires
        are_true(base, paths, answers, states),
        0 <= i <= j < states.len(),
    ensures
        states[j].subset_of(states[i]),
    decreases j - i,
{
    if i < j {
        lemma_states_shrink(base, paths, answers, states, i, j - 1);
        assert(is_true(full_path(base, paths[j - 1]), answers[j - 1], states[j - 1], states[j]));
    }
}

/// After a deletion in which nothing failed, none of the paths exists.
pub proof fn law_deleted_paths_are_gone(
    base: Seq<u8>,
    paths: Seq<Seq<u8>>,
    answers: Seq<Answer>,
    states: Seq<Set<Seq<u8>>>,
)
    requires
        are_true(base, paths, answers, states),
        forall|i: int| 0 <= i < answers.len() ==> !(#[trigger] answers[i]).fails(),
    ensures
        forall|i: int|
            0 <= i < paths.len() ==> !states.last().contains(full_path(base, #[trigger] paths[i])),
{
    assert forall|i: int| 0 <= i < paths.len() implies !states.last().contains(
        full_path(base, #[trigger] paths[i]),
    ) by {
        assert(is_true(full_path(base, paths[i]), answers[i], states[i], states[i + 1]));
        assert(!answers[i].fails());
        lemma_states_shrink(base, paths, answers, states, i + 1, states.len() - 1);
    }
}

/// Deleting the same paths again, after a deletion in which nothing failed,
/// succeeds and removes nothing: each path is looked at and reported as not
/// found.
pub proof fn law_second_deletion_removes_nothing(
    base: Seq<u8>,
    paths: Seq<Seq<u8>>,
    first: Seq<Answer>,
    states: Seq<Set<Seq<u8>>>,
    second: Seq<Answer>,
    later: Seq<Set<Seq<u8>>>,
)
    requires
        are_true(base, paths, first, states),
        forall|i: int| 0 <= i < first.len() ==> !(#[trigger] first[i]).fails(),
        are_true(base, paths, second, later),
        later.first().subset_of(states.last()),
    ensures
        run(look_at_next(base, paths, false, None), second) == DeleteStepView::Done(Ok(())),
        forall|k: int|
            0 <= k < paths.len() ==> (run(
                look_at_next(base, paths, false, None),
                #[trigger] second.take(k),
            ) matches DeleteStepView::Probe(d) && {
                &&& d.full == full_path(base, paths[k])
                &&& !(after_probe(d, second[k].probe) is Remove)
                &&& probe_report(d, second[k].probe) == Some(
                    ReportView::Notice("Skipping "@ + utf8_lossy(d.full) + " (not found)"@),
                )
            }),
{
    law_deleted_paths_are_gone(base, paths, first, states);
    assert forall|k: int| 0 <= k < second.len() implies (#[trigger] second[k]).probe
        == Probe::Missing by {
        let full = full_path(base, paths[k]);
        lemma_states_shrink(base, paths, second, later, 0, k);
        assert(is_true(full, second[k], later[k], later[k + 1]));
        assert(!states.last().contains(full));
    }
    assert forall|k: int| 0 <= k < second.len() implies !(#[trigger] second[k]).fails() by {
        assert(second[k].probe == Probe::Missing);
    }
    law_deletion_succeeds(base, paths, second);
    assert forall|k: int| 0 <= k < paths.len() implies (run(
        look_at_next(base, paths, false, None),
        #[trigger] second.take(k),
    ) matches DeleteStepView::Probe(d) && {
        &&& d.full == full_path(base, paths[k])
        &&& !(after_probe(d, second[k].probe) is Remove)
        &&& probe_report(d, second[k].probe) == Some(
            ReportView::Notice("Skipping "@ + utf8_lossy(d.full) + " (not found)"@),
        )
    }) by {
        law_deletion_progress(base, paths, second.take(k));
        assert(paths.skip(k)[0] == paths[k]);
        assert(second[k].probe == Probe::Missing);
    }
}

/// The models of a step, of a line and of an answer say what they are.
pub proof fn law_deletion_views(step: DeleteStep, line: Report, reply: Result<(), IoError>)
    ensures
        match step {
            DeleteStep::Probe(d) => step@ == DeleteStepView::Probe(d@),
            DeleteStep::Remove(d, how) => step@ == DeleteStepView::Remove(d@, how),
            DeleteStep::Done(Ok(_)) => step@ matches DeleteStepView::Done(outcome) && outcome is Ok,
            DeleteStep::Done(Err(e)) => step@ matches DeleteStepView::Done(outcome) && outcome
                == Result::<(), PickerErrorView>::Err(e@),
        },
        match line {
            Report::Notice(text) => line@ == ReportView::Notice(text@),
            Report::Problem(text) => line@ == ReportView::Problem(text@),
        },
        reply is Ok <==> remove_reply(reply) is Ok,
        reply matches Err(e) ==> remove_reply(reply) == RemoveReply::Err(e@),
{
}

/// A path that opens with a slash is deleted where it is, wherever the base
/// lies, and any other one below the base.
pub proof fn law_full_path(base: Seq<u8>, p: Seq<u8>)
    ensures
        seq![0x2fu8].is_prefix_of(p) ==> full_path(base, p) == p,
        !seq![0x2fu8].is_prefix_of(p) ==> full_path(base, p) == join(base, p) && inside(
            base,
            full_path(base, p),
        ),
{
    law_absolute_paths_open_with_slash(p);
    if !is_absolute(p) {
        law_join_stays_inside(base, p);
    }
}

/// Every path is looked at, none twice and none left out: after the answers
/// about the paths before it, the path at hand is the next one, and after those
/// about all of them the deletion is done.
pub proof fn law_every_path_is_looked_at(
    base: Seq<u8>,
    paths: Seq<Seq<u8>>,
    answers: Seq<Answer>,
)
    requires
        answers.len() <= paths.len(),
    ensures
        match run(look_at_next(base, paths, false, None), answers) {
            DeleteStepView::Probe(d) => {
                &&& answers.len() < paths.len()
                &&& d.base == base
                &&& d.full == full_path(base, paths[answers.len() as int])
                &&& d.rest == paths.skip(answers.len() as int + 1)
            },
            DeleteStepView::Remove(_, _) => false,
            DeleteStepView::Done(_) => answers.len() == paths.len(),
        },
{
    let n = answers.len() as int;
    law_deletion_progress(base, paths, answers);
    if n < paths.len() {
        assert(paths.skip(n)[0] == paths[n]);
        assert(paths.skip(n).drop_first() == paths.skip(n + 1));
    }
}

/// A path that was found is removed as what it was found to be, and nothing
/// else is; the removal is of the path that was looked at.
pub proof fn law_removal_is_of_what_was_found(d: DeletionView)
    ensures
        after_probe(d, Probe::Directory) == DeleteStepView::Remove(d, Removal::DirAll),
        after_probe(d, Probe::Other) == DeleteStepView::Remove(d, Removal::File),
        !(after_probe(d, Probe::Missing) is Remove),
{
}

/// Where something was found that could not be removed, and nothing was
/// removed, the deletion is an error: the last such failure, with the full path
/// that it is about, whatever kind of failure it is.
pub proof fn law_failed_deletion_tells_last_failure(
    base: Seq<u8>,
    paths: Seq<Seq<u8>>,
    answers: Seq<Answer>,
    k: int,
    e: IoErrorView,
)
    requires
        answers.len() == paths.len(),
        forall|i: int|
            0 <= i < answers.len() ==> (#[trigger] answers[i]).probe == Probe::Missing
                || answers[i].removal is Err,
        0 <= k < answers.len(),
        answers[k].probe != Probe::Missing,
        answers[k].removal == RemoveReply::Err(e),
        e.kind != IoErrorKind::NotFound,
        forall|i: int|
            k < i < answers.len() ==> (#[trigger] answers[i]).probe == Probe::Missing || (
            answers[i].removal matches Err(f) && f.kind == IoErrorKind::NotFound),
    ensures
        run(look_at_next(base, paths, false, None), answers) == DeleteStepView::Done(
            Err(PickerErrorView::DeleteError(full_path(base, paths[k]), e)),
        ),
{
    law_deletion_outcome(base, paths, answers);
    if deletes_any(answers) {
        let i = choose|i: int| 0 <= i < answers.len() && (#[trigger] answers[i]).deletes();
        assert(answers[i].probe == Probe::Missing || answers[i].removal is Err);
    }
    lemma_last_failure(base, paths, answers, k, e);
}

proof fn lemma_last_failure(
    base: Seq<u8>,
    paths: Seq<Seq<u8>>,
    answers: Seq<Answer>,
    k: int,
    e: IoErrorView,
)
    requires
        0 <= k < answers.len(),
        answers[k].probe != Probe::Missing,
        answers[k].removal == RemoveReply::Err(e),
        e.kind != IoErrorKind::NotFound,
        forall|i: int|
            k < i < answers.len() ==> (#[trigger] answers[i]).probe == Probe::Missing || (
            answers[i].removal matches Err(f) && f.kind == IoErrorKind::NotFound),
    ensures
        last_failure(base, paths, answers) == Some((full_path(base, paths[k]), e)),
    decreases answers.len(),
{
    let last = answers.len() - 1;
    if k < last {
        let before = answers.drop_last();
        assert(answers[last].probe == Probe::Missing || (answers[last].removal matches Err(f)
            && f.kind == IoErrorKind::NotFound));
        assert forall|i: int| k < i < before.len() implies (#[trigger] before[i]).probe
            == Probe::Missing || (before[i].removal matches Err(f) && f.kind
            == IoErrorKind::NotFound) by {
            assert(before[i] == answers[i]);
        }
        lemma_last_failure(base, paths, before, k, e);
    }
}

/// One path that was removed is enough for a deletion to succeed, whatever
/// becomes of the others.
pub proof fn law_one_removed_path_is_enough(
    base: Seq<u8>,
    paths: Seq<Seq<u8>>,
    answers: Seq<Answer>,
    k: int,
)
    requires
        answers.len() == paths.len(),
        0 <= k < answers.len(),
        answers[k].probe != Probe::Missing,
        answers[k].removal is Ok,
    ensures
        run(look_at_next(base, paths, false, None), answers) == DeleteStepView::Done(Ok(())),
{
    assert(answers[k].deletes());
    law_deletion_succeeds(base, paths, answers);
}

/// Paths that are not there, or are gone by the time of their removal, do not
/// make a deletion fail.
pub proof fn law_missing_paths_do_not_fail(
    base: Seq<u8>,
    paths: Seq<Seq<u8>>,
    answers: Seq<Answer>,
)
    requires
        answers.len() == paths.len(),
        forall|i: int|
            0 <= i < answers.len() ==> (#[trigger] answers[i]).probe == Probe::Missing || (
            answers[i].removal matches Err(f) ==> f.kind == IoErrorKind::NotFound),
    ensures
        run(look_at_next(base, paths, false, None), answers) == DeleteStepView::Done(Ok(())),
{
    assert forall|i: int| 0 <= i < answers.len() implies !(#[trigger] answers[i]).fails() by {
        assert(answers[i].probe == Probe::Missing || (answers[i].removal matches Err(f) ==> f.kind
            == IoErrorKind::NotFound));
    }
    law_deletion_succeeds(base, paths, answers);
}

/// Each path gets one line, which names it in full: whether it was not found,
/// was deleted, was gone already, or could not be deleted and why. Only the
/// last is a problem.
pub proof fn law_lines_tell_what_happened(d: DeletionView, e: IoErrorView)
    ensures
        probe_report(d, Probe::Missing) == Some(
            ReportView::Notice("Skipping "@ + utf8_lossy(d.full) + " (not found)"@),
        ),
        probe_report(d, Probe::Directory) is None,
        probe_report(d, Probe::Other) is None,
        remove_report(d, Ok(())) == ReportView::Notice("Deleted "@ + utf8_lossy(d.full)),
        e.kind == IoErrorKind::NotFound ==> remove_report(d, Err(e)) == ReportView::Notice(
            "Skipping "@ + utf8_lossy(d.full) + " (already gone)"@,
        ),
        e.kind != IoErrorKind::NotFound ==> remove_report(d, Err(e)) == ReportView::Problem(
            "Failed to delete "@ + utf8_lossy(d.full) + ": "@ + e.message,
        ),
{
}

} // verus!
