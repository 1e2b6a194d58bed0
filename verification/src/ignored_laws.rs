//! What a whole collection amounts to.
//!
//! The answers that a collection gets form a tree: for each repository that it
//! visits, the answer about its submodules, the answers of each of those, and
//! what `git` printed. `collected` says what such a tree of answers comes to,
//! repository by repository; the laws relate it to the steps of the collection.

use crate::error::{
    GitError, GitErrorCode, GitErrorView, IoError, IoErrorKind, PickerError, PickerErrorView,
};
use crate::ignored::{
    advance, after_listing, after_run, first_step, is_literal, is_missing, is_pattern_byte, joined,
    listed_place, listing_reply, ls_files_args, path_to_list, paths_printed, paths_result, resume,
    run_reply, submodules_to_visit, visit_for, visits_for, CollectStep, CollectStepView, FrameView,
    GitOutput, GitOutputView, ListingReply, ListingView, PathsResult, RunReply, RunningView,
    VisitView,
};
use crate::path::{
    components, dot_dot, inside, is_absolute, is_entry_name, join, last_slash,
    law_absolute_paths_open_with_slash, law_descend_adds_names, law_first_component, law_inside_transitive, law_join_adds_names,
    law_join_stays_inside, law_names_resolve_to_themselves, law_resolved_names_lead_down,
    law_strip_then_join, name_spans, names, resolve, same_path, path_views, spans, strip_prefix,
    FilePath, DOT,
};
use crate::text::{
    law_lines_of_listing, law_lossy_keeps_valid, lines, listing, utf8_lossy, NEWLINE, RETURN,
};
use vstd::prelude::*;
use vstd::utf8::*;

verus! {

/// The answers about one repository and everything inside it.
pub struct Scan {
    /// Which submodules it has.
    pub listing: ListingReply,
    /// The answers about each of those that are visited, in order.
    pub inner: Seq<Scan>,
    /// What `git` printed in it.
    pub output: RunReply,
}

/// What the answers about the repository at `repo` come to: the paths of the
/// visited submodules in order, then its own, or the first error.
pub open spec fn collected(repo: Seq<u8>, rel: Seq<u8>, scan: Scan) -> PathsResult
    decreases scan, 1nat, 0nat,
{
    match submodules_to_visit(repo, path_to_list(rel), scan.listing) {
        Err(e) => Err(e),
        Ok(visits) => match collected_inside(visits, scan, visits.len()) {
            Err(e) => Err(e),
            Ok(inside) => if !valid_utf8(path_to_list(rel)) {
                Err(PickerErrorView::NonUtf8Path)
            } else {
                match paths_printed(repo, scan.output) {
                    Err(e) => Err(e),
                    Ok(own) => Ok(inside + own),
                }
            },
        },
    }
}

/// What the first `n` visits to submodules come to. A submodule that does not
/// exist is passed over.
pub open spec fn collected_inside(visits: Seq<VisitView>, scan: Scan, n: nat) -> PathsResult
    decreases scan, 0nat, n,
{
    if n == 0 || n > scan.inner.len() {
        Ok(Seq::empty())
    } else {
        let child = scan.inner[n - 1];
        match collected_inside(visits, scan, (n - 1) as nat) {
            Err(e) => Err(e),
            Ok(before) => if is_missing(child.listing) {
                Ok(before)
            } else {
                match collected(visits[n - 1].repo, visits[n - 1].rel, child) {
                    Ok(more) => Ok(before + more),
                    Err(e) => Err(e),
                }
            },
        }
    }
}

/// The tree holds an answer for each submodule that is visited.
pub open spec fn complete(repo: Seq<u8>, rel: Seq<u8>, scan: Scan) -> bool
    decreases scan,
{
    submodules_to_visit(repo, path_to_list(rel), scan.listing) matches Ok(visits) ==> {
        &&& scan.inner.len() == visits.len()
        &&& forall|i: int|
            0 <= i < scan.inner.len() ==> is_missing((#[trigger] scan.inner[i]).listing)
                || complete(visits[i].repo, visits[i].rel, scan.inner[i])
    }
}

/// An answer to a question of a collection.
pub enum Reply {
    Listed(ListingReply),
    Ran(RunReply),
}

/// The step after an answer.
pub open spec fn respond(step: CollectStepView, reply: Reply) -> CollectStepView {
    match (step, reply) {
        (CollectStepView::ListSubmodules(l), Reply::Listed(r)) => after_listing(l, r),
        (CollectStepView::RunGit(g), Reply::Ran(r)) => after_run(g, r),
        _ => step,
    }
}

/// The step after several answers. A collection that is done stays so.
pub open spec fn run(step: CollectStepView, replies: Seq<Reply>) -> CollectStepView
    decreases replies.len(),
{
    if replies.len() == 0 {
        step
    } else {
        run(respond(step, replies[0]), replies.drop_first())
    }
}

/// The answers of a tree in the order in which they are asked for.
pub open spec fn transcript(scan: Scan) -> Seq<Reply>
    decreases scan, 1nat, 0nat,
{
    seq![Reply::Listed(scan.listing)] + transcript_inside(scan, scan.inner.len()) + seq![
        Reply::Ran(scan.output),
    ]
}

/// The answers of the first `n` visits to submodules. One that does not exist
/// is asked nothing more.
pub open spec fn transcript_inside(scan: Scan, n: nat) -> Seq<Reply>
    decreases scan, 0nat, n,
{
    if n == 0 || n > scan.inner.len() {
        Seq::empty()
    } else {
        let child = scan.inner[n - 1];
        let before = transcript_inside(scan, (n - 1) as nat);
        if is_missing(child.listing) {
            before + seq![Reply::Listed(child.listing)]
        } else {
            before + transcript(child)
        }
    }
}

proof fn lemma_run_concat(step: CollectStepView, a: Seq<Reply>, b: Seq<Reply>)
    ensures
        run(step, a + b) == run(run(step, a), b),
    decreases a.len(),
{
    if a.len() == 0 {
        assert(a + b == b);
    } else {
        assert((a + b).drop_first() == a.drop_first() + b);
        lemma_run_concat(respond(step, a[0]), a.drop_first(), b);
    }
}

proof fn lemma_run_done(r: PathsResult, replies: Seq<Reply>)
    ensures
        run(CollectStepView::Done(r), replies) == CollectStepView::Done(r),
    decreases replies.len(),
{
    if replies.len() > 0 {
        lemma_run_done(r, replies.drop_first());
    }
}

proof fn lemma_run_one(step: CollectStepView, reply: Reply)
    ensures
        run(step, seq![reply]) == respond(step, reply),
{
    assert(seq![reply].drop_first() == Seq::<Reply>::empty());
    assert(run(respond(step, reply), Seq::<Reply>::empty()) == respond(step, reply));
}

/// A visit asks about exactly what a submodule and the listed path have in
/// common: the submodule where it lies below the path, and the path where it
/// leads into the submodule. Where neither holds there is no visit.
pub proof fn law_visit_is_what_they_share(target: Seq<u8>, sub: Seq<u8>)
    requires
        sub.len() > 0,
    ensures
        match visit_for(Some(target), sub) {
            None => !inside(target, sub) && !inside(sub, target),
            Some(v) => {
                &&& v.repo == sub
                &&& inside(target, sub) ==> same_path(join(v.repo, v.rel), sub)
                &&& inside(sub, target) ==> same_path(join(v.repo, v.rel), target)
                &&& inside(target, sub) || inside(sub, target)
            },
        },
{
    if inside(target, sub) {
        let dot = seq![DOT];
        assert(name_spans(dot) == Seq::<(int, int)>::empty()) by {
            reveal_with_fuel(name_spans, 2);
            reveal_with_fuel(last_slash, 2);
            assert(dot.subrange(0, 1) == dot);
        }
        assert(names(dot) == Seq::<Seq<u8>>::empty());
        law_join_adds_names(sub, dot);
        assert(components(sub) + names(dot) == components(sub));
        if inside(sub, target) {
            assert(components(sub) == components(target));
        }
    } else if inside(sub, target) {
        law_strip_then_join(target, sub);
    }
}

/// A visit goes to its submodule, with a path to list.
proof fn lemma_visit_for(target: Option<Seq<u8>>, sub: Seq<u8>)
    ensures
        visit_for(target, sub) matches Some(v) ==> v.repo == sub && v.rel.len() > 0,
{
    if let Some(target) = target {
        if !inside(target, sub) && inside(sub, target) {
            law_strip_then_join(target, sub);
            let rel = strip_prefix(target, sub)->0;
            if rel.len() == 0 {
                assert(spans(rel).len() == 0);
                assert(components(sub) == components(target));
                assert(components(target).is_prefix_of(components(sub)));
            }
        }
    }
}

/// Each visit is one that a submodule calls for.
proof fn lemma_visits_for(target: Option<Seq<u8>>, subs: Seq<Seq<u8>>, i: int)
    requires
        0 <= i < visits_for(target, subs).len(),
    ensures
        subs.contains(visits_for(target, subs)[i].repo),
        visit_for(target, visits_for(target, subs)[i].repo) == Some(visits_for(target, subs)[i]),
        visits_for(target, subs)[i].rel.len() > 0,
    decreases subs.len(),
{
    let before = visits_for(target, subs.drop_last());
    lemma_visit_for(target, subs.last());
    if i < before.len() {
        lemma_visits_for(target, subs.drop_last(), i);
        let k = choose|k: int|
            0 <= k < subs.drop_last().len() && subs.drop_last()[k] == before[i].repo;
        assert(subs[k] == before[i].repo);
    } else {
        assert(subs[subs.len() - 1] == visits_for(target, subs)[i].repo);
    }
}

/// The visits without one of the submodules.
proof fn lemma_visits_without(target: Option<Seq<u8>>, subs: Seq<Seq<u8>>, k: int)
    requires
        0 <= k < subs.len(),
    ensures
        match visit_for(target, subs[k]) {
            None => visits_for(target, subs.remove(k)) == visits_for(target, subs),
            Some(v) => {
                let j = visits_for(target, subs.take(k)).len() as int;
                &&& j < visits_for(target, subs).len()
                &&& visits_for(target, subs)[j] == v
                &&& visits_for(target, subs.remove(k)) == visits_for(target, subs).remove(j)
            },
        },
    decreases subs.len(),
{
    let fewer = subs.drop_last();
    if k == subs.len() - 1 {
        assert(subs.remove(k) == fewer);
        assert(subs.take(k) == fewer);
        if let Some(v) = visit_for(target, subs[k]) {
            let before = visits_for(target, fewer);
            assert(before.push(v).remove(before.len() as int) == before);
        }
    } else {
        lemma_visits_without(target, fewer, k);
        assert(subs.remove(k).drop_last() == fewer.remove(k));
        assert(subs.remove(k).last() == subs.last());
        assert(fewer.take(k) == subs.take(k));
        assert(fewer[k] == subs[k]);
        if let Some(last) = visit_for(target, subs.last()) {
            if visit_for(target, subs[k]) is Some {
                let before = visits_for(target, fewer);
                let j = visits_for(target, subs.take(k)).len() as int;
                assert(before.push(last).remove(j) == before.remove(j).push(last));
            }
        }
    }
}

/// The step that the outcome of a repository leads to.
spec fn landing(
    waiting: Seq<FrameView>,
    found: Seq<Seq<u8>>,
    outcome: PathsResult,
) -> CollectStepView {
    match outcome {
        Err(e) => CollectStepView::Done(Err(e)),
        Ok(more) => resume(waiting, found + more),
    }
}

/// A visit to one repository leads to the step that its outcome stands for.
proof fn lemma_run_scan(
    repo: Seq<u8>,
    rel: Seq<u8>,
    scan: Scan,
    waiting: Seq<FrameView>,
    found: Seq<Seq<u8>>,
)
    requires
        complete(repo, rel, scan),
        rel.len() > 0,
        waiting.len() > 0 ==> !is_missing(scan.listing),
    ensures
        run(
            CollectStepView::ListSubmodules(ListingView { repo, rel, waiting, found }),
            transcript(scan),
        ) == landing(waiting, found, collected(repo, rel, scan)),
    decreases scan, 1nat, 0nat,
{
    let start = CollectStepView::ListSubmodules(ListingView { repo, rel, waiting, found });
    let head = seq![Reply::Listed(scan.listing)];
    let body = transcript_inside(scan, scan.inner.len());
    let tail = seq![Reply::Ran(scan.output)];
    lemma_run_concat(start, head + body, tail);
    lemma_run_concat(start, head, body);
    lemma_run_one(start, head[0]);
    match submodules_to_visit(repo, rel, scan.listing) {
        Err(e) => {
            lemma_run_done(Err(e), body);
            lemma_run_done(Err(e), tail);
        },
        Ok(visits) => {
            assert(visits.skip(0) == visits);
            assert(found + Seq::<Seq<u8>>::empty() == found);
            lemma_run_inside(repo, rel, visits, scan, waiting, found, visits.len());
            match collected_inside(visits, scan, visits.len()) {
                Err(e) => {
                    lemma_run_done(Err(e), tail);
                },
                Ok(inside) => {
                    let last = FrameView { repo, rel, rest: visits.skip(visits.len() as int) };
                    let step = advance(last, waiting, found + inside);
                    assert(last.rest.len() == 0);
                    if valid_utf8(rel) {
                        lemma_run_one(step, tail[0]);
                        if let Ok(own) = paths_printed(repo, scan.output) {
                            assert(found + inside + own == found + (inside + own));
                        }
                    } else {
                        lemma_run_done(Err(PickerErrorView::NonUtf8Path), tail);
                    }
                },
            }
        },
    }
}

/// The same for the first `n` visits to submodules of a repository.
proof fn lemma_run_inside(
    repo: Seq<u8>,
    rel: Seq<u8>,
    visits: Seq<VisitView>,
    scan: Scan,
    waiting: Seq<FrameView>,
    found: Seq<Seq<u8>>,
    n: nat,
)
    requires
        submodules_to_visit(repo, rel, scan.listing) == Result::<
            Seq<VisitView>,
            PickerErrorView,
        >::Ok(visits),
        complete(repo, rel, scan),
        rel.len() > 0,
        n <= visits.len(),
    ensures
        run(
            advance(FrameView { repo, rel, rest: visits }, waiting, found),
            transcript_inside(scan, n),
        ) == match collected_inside(visits, scan, n) {
            Err(e) => CollectStepView::Done(Err(e)),
            Ok(inside) => advance(
                FrameView { repo, rel, rest: visits.skip(n as int) },
                waiting,
                found + inside,
            ),
        },
    decreases scan, 0nat, n,
{
    let start = advance(FrameView { repo, rel, rest: visits }, waiting, found);
    if n == 0 {
        assert(visits.skip(0) == visits);
        assert(found + Seq::<Seq<u8>>::empty() == found);
    } else {
        let m = (n - 1) as nat;
        let child = scan.inner[n - 1];
        let visit = visits[n - 1];
        let replies = if is_missing(child.listing) {
            seq![Reply::Listed(child.listing)]
        } else {
            transcript(child)
        };
        lemma_run_inside(repo, rel, visits, scan, waiting, found, m);
        lemma_run_concat(start, transcript_inside(scan, m), replies);
        match collected_inside(visits, scan, m) {
            Err(e) => {
                lemma_run_done(Err(e), replies);
            },
            Ok(before) => {
                let rest = visits.skip(m as int);
                let waits = FrameView { repo, rel, rest: visits.skip(n as int) };
                assert(rest[0] == visit);
                assert(rest.drop_first() == visits.skip(n as int));
                assert(waiting.push(waits).drop_last() == waiting);
                if is_missing(child.listing) {
                    lemma_run_one(
                        advance(FrameView { repo, rel, rest }, waiting, found + before),
                        replies[0],
                    );
                } else {
                    if let Ok(rels) = scan.listing {
                        lemma_visits_for(listed_place(repo, rel), joined(repo, rels), n - 1);
                    }
                    lemma_run_scan(
                        visit.repo,
                        visit.rel,
                        child,
                        waiting.push(waits),
                        found + before,
                    );
                    if let Ok(more) = collected(visit.repo, visit.rel, child) {
                        assert(found + before + more == found + (before + more));
                    }
                }
            },
        }
    }
}

/// Asked step by step, a collection comes to what its answers come to.
pub proof fn law_collection_outcome(repo: Seq<u8>, rel: Seq<u8>, scan: Scan)
    requires
        complete(repo, rel, scan),
    ensures
        run(first_step(repo, rel), transcript(scan)) == CollectStepView::Done(
            collected(repo, rel, scan),
        ),
{
    lemma_run_scan(repo, path_to_list(rel), scan, Seq::empty(), Seq::empty());
    assert(collected(repo, path_to_list(rel), scan) == collected(repo, rel, scan));
    if let Ok(all) = collected(repo, rel, scan) {
        assert(Seq::<Seq<u8>>::empty() + all == all);
    }
}

/// How many submodules are visited before the one at `k`.
pub open spec fn visits_before(
    repo: Seq<u8>,
    rel: Seq<u8>,
    rels: Seq<Seq<u8>>,
    k: int,
) -> int {
    visits_for(listed_place(repo, path_to_list(rel)), joined(repo, rels.take(k))).len() as int
}

/// A submodule that does not exist, as before it is initialized, changes
/// nothing: what is collected is what is collected without it, and that Git
/// does not know it is no error.
pub proof fn law_missing_submodule_is_skipped(
    repo: Seq<u8>,
    rel: Seq<u8>,
    rels: Seq<Seq<u8>>,
    k: int,
    inner: Seq<Scan>,
    output: RunReply,
)
    requires
        0 <= k < rels.len(),
        visit_for(listed_place(repo, path_to_list(rel)), join(repo, rels[k])) is Some,
        visits_before(repo, rel, rels, k) < inner.len(),
        is_missing(inner[visits_before(repo, rel, rels, k)].listing),
    ensures
        collected(repo, rel, Scan { listing: Ok(rels), inner, output }) == collected(
            repo,
            rel,
            Scan {
                listing: Ok(rels.remove(k)),
                inner: inner.remove(visits_before(repo, rel, rels, k)),
                output,
            },
        ),
{
    let target = listed_place(repo, path_to_list(rel));
    let subs = joined(repo, rels);
    let j = visits_before(repo, rel, rels, k);
    let scan = Scan { listing: Ok(rels), inner, output };
    let without = Scan { listing: Ok(rels.remove(k)), inner: inner.remove(j), output };
    let visits = visits_for(target, subs);
    assert(joined(repo, rels.take(k)) == subs.take(k));
    assert(joined(repo, rels.remove(k)) == subs.remove(k));
    lemma_visits_without(target, subs, k);
    if visits.len() <= inner.len() {
        lemma_skip(visits, scan, without, j, visits.len());
    }
}

/// The first visits come to the same without a later one.
proof fn lemma_same_before(visits: Seq<VisitView>, scan: Scan, without: Scan, j: int, n: nat)
    requires
        n <= j < scan.inner.len(),
        j < visits.len(),
        without.inner == scan.inner.remove(j),
    ensures
        collected_inside(visits, scan, n) == collected_inside(visits.remove(j), without, n),
    decreases n,
{
    if n > 0 {
        lemma_same_before(visits, scan, without, j, (n - 1) as nat);
        assert(without.inner[n - 1] == scan.inner[n - 1]);
        assert(visits.remove(j)[n - 1] == visits[n - 1]);
    }
}

/// The visits come to the same without one to a submodule that is missing.
proof fn lemma_skip(visits: Seq<VisitView>, scan: Scan, without: Scan, j: int, n: nat)
    requires
        0 <= j < n <= scan.inner.len(),
        n <= visits.len(),
        without.inner == scan.inner.remove(j),
        is_missing(scan.inner[j].listing),
    ensures
        collected_inside(visits, scan, n) == collected_inside(
            visits.remove(j),
            without,
            (n - 1) as nat,
        ),
    decreases n,
{
    if n == j + 1 {
        lemma_same_before(visits, scan, without, j, j as nat);
    } else {
        lemma_skip(visits, scan, without, j, (n - 1) as nat);
        assert(without.inner[n - 2] == scan.inner[n - 1]);
        assert(visits.remove(j)[n - 2] == visits[n - 1]);
    }
}

/// A submodule that neither lies below the place that the listed path names,
/// with each `..` resolved, nor holds it changes nothing: it is not asked about.
pub proof fn law_submodule_elsewhere_is_left_alone(
    repo: Seq<u8>,
    rel: Seq<u8>,
    rels: Seq<Seq<u8>>,
    k: int,
    inner: Seq<Scan>,
    output: RunReply,
)
    requires
        0 <= k < rels.len(),
        listed_place(repo, path_to_list(rel)) matches Some(target) && !inside(
            target,
            join(repo, rels[k]),
        ) && !inside(join(repo, rels[k]), target),
    ensures
        collected(repo, rel, Scan { listing: Ok(rels), inner, output }) == collected(
            repo,
            rel,
            Scan { listing: Ok(rels.remove(k)), inner, output },
        ),
{
    let target = listed_place(repo, path_to_list(rel));
    let subs = joined(repo, rels);
    let scan = Scan { listing: Ok(rels), inner, output };
    let without = Scan { listing: Ok(rels.remove(k)), inner, output };
    assert(joined(repo, rels.remove(k)) == subs.remove(k));
    lemma_visits_without(target, subs, k);
    lemma_only_inner_counts(visits_for(target, subs), scan, without, visits_for(target, subs).len());
}

/// What the visits come to depends on the answers inside alone.
proof fn lemma_only_inner_counts(visits: Seq<VisitView>, a: Scan, b: Scan, n: nat)
    requires
        a.inner == b.inner,
    ensures
        collected_inside(visits, a, n) == collected_inside(visits, b, n),
    decreases n,
{
    if n > 0 {
        lemma_only_inner_counts(visits, a, b, (n - 1) as nat);
    }
}

/// Where there is no repository at all, a collection is that in a repository
/// without submodules.
pub proof fn law_missing_repository_has_no_submodules(
    repo: Seq<u8>,
    rel: Seq<u8>,
    listing: ListingReply,
    inner: Seq<Scan>,
    output: RunReply,
)
    requires
        is_missing(listing),
    ensures
        collected(repo, rel, Scan { listing, inner, output }) == collected(
            repo,
            rel,
            Scan { listing: Ok(Seq::empty()), inner, output },
        ),
{
    let none = Seq::<Seq<u8>>::empty();
    assert(joined(repo, none) == none);
    let visits = visits_for(listed_place(repo, path_to_list(rel)), none);
    assert(visits == Seq::<VisitView>::empty());
    lemma_only_inner_counts(
        visits,
        Scan { listing, inner, output },
        Scan { listing: Ok(none), inner, output },
        0,
    );
}

/// No outcome of a collection is Git's word that a repository does not exist.
pub proof fn law_missing_repository_is_no_error(repo: Seq<u8>, rel: Seq<u8>, scan: Scan)
    ensures
        collected(repo, rel, scan) matches Err(e) ==> !e.is_git_not_found(),
    decreases scan, 1nat, 0nat,
{
    if let Ok(visits) = submodules_to_visit(repo, path_to_list(rel), scan.listing) {
        lemma_inside_error(visits, scan, visits.len());
    }
}

proof fn lemma_inside_error(visits: Seq<VisitView>, scan: Scan, n: nat)
    ensures
        collected_inside(visits, scan, n) matches Err(e) ==> !e.is_git_not_found(),
    decreases scan, 0nat, n,
{
    if 0 < n <= scan.inner.len() {
        lemma_inside_error(visits, scan, (n - 1) as nat);
        law_missing_repository_is_no_error(
            visits[n - 1].repo,
            visits[n - 1].rel,
            scan.inner[n - 1],
        );
    }
}

/// No step of a collection, whatever it is answered, fails because Git says
/// that something does not exist.
pub proof fn law_step_never_fails_on_missing(step: CollectStepView, reply: Reply)
    requires
        !(step is Done),
    ensures
        respond(step, reply) matches CollectStepView::Done(Err(e)) ==> !e.is_git_not_found(),
{
}

/// Every path that an answer names is relative.
pub open spec fn names_relative_paths(scan: Scan) -> bool
    decreases scan,
{
    &&& scan.listing matches Ok(rels) ==> forall|i: int|
        0 <= i < rels.len() ==> !is_absolute(#[trigger] rels[i])
    &&& scan.output matches Ok(o) ==> forall|i: int|
        0 <= i < lines(encode_utf8(utf8_lossy(o.stdout))).len() ==> !is_absolute(
            #[trigger] lines(encode_utf8(utf8_lossy(o.stdout)))[i],
        )
    &&& forall|i: int|
        0 <= i < scan.inner.len() ==> names_relative_paths(#[trigger] scan.inner[i])
}

/// As long as Git names relative paths, all that is collected lies inside the
/// repository, and is absolute where the repository is.
pub proof fn law_collected_paths_stay_inside(repo: Seq<u8>, rel: Seq<u8>, scan: Scan)
    requires
        names_relative_paths(scan),
    ensures
        collected(repo, rel, scan) matches Ok(all) ==> all_inside(repo, all),
    decreases scan, 1nat, 0nat,
{
    if let Ok(visits) = submodules_to_visit(repo, path_to_list(rel), scan.listing) {
        assert forall|i: int| 0 <= i < visits.len() implies inside(
            repo,
            (#[trigger] visits[i]).repo,
        ) && (is_absolute(repo) ==> is_absolute(visits[i].repo)) by {
            if let Ok(rels) = scan.listing {
                lemma_joined_inside(repo, rels);
                lemma_visits_for(listed_place(repo, path_to_list(rel)), joined(repo, rels), i);
            }
        }
        lemma_inside_stays_inside(repo, visits, scan, visits.len());
        if let Ok(o) = scan.output {
            lemma_joined_inside(repo, lines(encode_utf8(utf8_lossy(o.stdout))));
        }
    }
}

/// All of `paths` lie inside `repo`, and are absolute where it is.
pub open spec fn all_inside(repo: Seq<u8>, paths: Seq<Seq<u8>>) -> bool {
    forall|i: int|
        0 <= i < paths.len() ==> inside(repo, #[trigger] paths[i]) && (is_absolute(repo)
            ==> is_absolute(paths[i]))
}

proof fn lemma_joined_inside(repo: Seq<u8>, rels: Seq<Seq<u8>>)
    requires
        forall|i: int| 0 <= i < rels.len() ==> !is_absolute(#[trigger] rels[i]),
    ensures
        all_inside(repo, joined(repo, rels)),
{
    let paths = joined(repo, rels);
    assert forall|i: int| 0 <= i < paths.len() implies inside(repo, #[trigger] paths[i]) && (
    is_absolute(repo) ==> is_absolute(paths[i])) by {
        law_join_stays_inside(repo, rels[i]);
    }
}

proof fn lemma_inside_stays_inside(
    repo: Seq<u8>,
    visits: Seq<VisitView>,
    scan: Scan,
    n: nat,
)
    requires
        names_relative_paths(scan),
        n <= visits.len(),
        forall|i: int|
            0 <= i < visits.len() ==> inside(repo, (#[trigger] visits[i]).repo) && (is_absolute(
                repo,
            ) ==> is_absolute(visits[i].repo)),
    ensures
        collected_inside(visits, scan, n) matches Ok(all) ==> all_inside(repo, all),
    decreases scan, 0nat, n,
{
    if 0 < n <= scan.inner.len() {
        let m = (n - 1) as nat;
        let visit = visits[n - 1];
        lemma_inside_stays_inside(repo, visits, scan, m);
        law_collected_paths_stay_inside(visit.repo, visit.rel, scan.inner[n - 1]);
        if let Ok(more) = collected(visit.repo, visit.rel, scan.inner[n - 1]) {
            assert forall|i: int| 0 <= i < more.len() implies inside(repo, #[trigger] more[i]) by {
                law_inside_transitive(repo, visit.repo, more[i]);
            }
        }
    }
}

/// Where no place is named, every submodule is visited, and asked about all of
/// it.
pub proof fn law_every_submodule_is_visited(subs: Seq<Seq<u8>>)
    ensures
        visits_for(None, subs) == Seq::new(
            subs.len(),
            |i: int| VisitView { repo: subs[i], rel: seq![DOT] },
        ),
    decreases subs.len(),
{
    let dot = seq![DOT];
    if subs.len() > 0 {
        law_every_submodule_is_visited(subs.drop_last());
    }
    assert(visits_for(None, subs) == Seq::new(
        subs.len(),
        |i: int| VisitView { repo: subs[i], rel: dot },
    ));
}

/// The folder that all that is listed lies in: the place that the listed path
/// names, or the repository where it names none.
pub open spec fn listed_folder(repo: Seq<u8>, rel: Seq<u8>) -> Seq<u8> {
    match listed_place(repo, path_to_list(rel)) {
        Some(target) => target,
        None => repo,
    }
}

/// In each visited repository, `git` prints only paths at or below the one that
/// it was to list.
pub open spec fn prints_below(repo: Seq<u8>, rel: Seq<u8>, scan: Scan) -> bool
    decreases scan,
{
    &&& paths_printed(repo, scan.output) matches Ok(own) ==> forall|i: int|
        0 <= i < own.len() ==> inside(listed_folder(repo, rel), #[trigger] own[i])
    &&& submodules_to_visit(repo, path_to_list(rel), scan.listing) matches Ok(visits)
        ==> forall|i: int|
        0 <= i < scan.inner.len() && i < visits.len() ==> is_missing(
            (#[trigger] scan.inner[i]).listing,
        ) || prints_below(visits[i].repo, visits[i].rel, scan.inner[i])
}

/// The rest of a named place, seen from a submodule that holds it, names that
/// place again.
proof fn lemma_rest_names_place(repo: Seq<u8>, rel: Seq<u8>, target: Seq<u8>, sub: Seq<u8>)
    requires
        listed_place(repo, rel) == Some(target),
        inside(repo, sub),
        inside(sub, target),
        !inside(target, sub),
    ensures
        strip_prefix(target, sub) matches Some(rest) && (listed_place(sub, rest) matches Some(again)
            && same_path(again, target)) && rest.len() > 0,
{
    let names = resolve(components(rel))->0;
    let rest = strip_prefix(target, sub)->0;
    let own = components(repo);
    let n = components(sub).len() as int;
    let left = components(rest);
    law_resolved_names_lead_down(rel);
    law_descend_adds_names(repo, names);
    law_strip_then_join(target, sub);
    lemma_visit_for(Some(target), sub);
    assert(own.len() <= n);
    assert forall|i: int| 0 <= i < left.len() implies is_entry_name(#[trigger] left[i])
        && left[i] != dot_dot() && is_literal(left[i]) by {
        assert(left[i] == components(target)[n + i]);
        assert(left[i] == names[n + i - own.len()]);
    }
    law_names_resolve_to_themselves(left);
    law_descend_adds_names(sub, left);
    assert(left.len() > 0) by {
        if left.len() == 0 {
            assert(components(sub) == components(target));
            assert(components(target).is_prefix_of(components(sub)));
        }
    }
    law_first_component(rest);
    assert(is_entry_name(left[0]) && is_literal(left[0]));
}

/// As long as `git` names relative paths, and prints only paths below the one
/// that it was to list, all that is collected, in submodules too, lies at or
/// below the place that the listed path names.
pub proof fn law_collected_paths_lie_below_target(repo: Seq<u8>, rel: Seq<u8>, scan: Scan)
    requires
        names_relative_paths(scan),
        prints_below(repo, rel, scan),
    ensures
        collected(repo, rel, scan) matches Ok(all) ==> forall|i: int|
            0 <= i < all.len() ==> inside(listed_folder(repo, rel), #[trigger] all[i]),
    decreases scan, 1nat, 0nat,
{
    if let Some(target) = listed_place(repo, path_to_list(rel)) {
        if let Ok(visits) = submodules_to_visit(repo, path_to_list(rel), scan.listing) {
            lemma_inside_lies_below(repo, rel, target, visits, scan, visits.len());
        }
    } else {
        law_collected_paths_stay_inside(repo, rel, scan);
    }
}

proof fn lemma_inside_lies_below(
    repo: Seq<u8>,
    rel: Seq<u8>,
    target: Seq<u8>,
    visits: Seq<VisitView>,
    scan: Scan,
    n: nat,
)
    requires
        names_relative_paths(scan),
        prints_below(repo, rel, scan),
        listed_place(repo, path_to_list(rel)) == Some(target),
        submodules_to_visit(repo, path_to_list(rel), scan.listing) == Result::<
            Seq<VisitView>,
            PickerErrorView,
        >::Ok(visits),
        n <= visits.len(),
    ensures
        collected_inside(visits, scan, n) matches Ok(all) ==> forall|i: int|
            0 <= i < all.len() ==> inside(target, #[trigger] all[i]),
    decreases scan, 0nat, n,
{
    if 0 < n <= scan.inner.len() {
        let child = scan.inner[n - 1];
        let visit = visits[n - 1];
        lemma_inside_lies_below(repo, rel, target, visits, scan, (n - 1) as nat);
        if !is_missing(child.listing) {
            law_collected_paths_lie_below_target(visit.repo, visit.rel, child);
            if let Ok(rels) = scan.listing {
                lemma_joined_inside(repo, rels);
                lemma_visits_for(Some(target), joined(repo, rels), n - 1);
            }
            if let Ok(more) = collected(visit.repo, visit.rel, child) {
                law_collected_paths_stay_inside(visit.repo, visit.rel, child);
                assert forall|i: int| 0 <= i < more.len() implies inside(
                    target,
                    #[trigger] more[i],
                ) by {
                    if inside(target, visit.repo) {
                        law_inside_transitive(target, visit.repo, more[i]);
                    } else {
                        lemma_rest_names_place(repo, path_to_list(rel), target, visit.repo);
                        assert(inside(listed_folder(visit.repo, visit.rel), more[i]));
                    }
                }
            }
        }
    }
}

/// Paths that `git` prints one to a line are collected as they are, as long as
/// they are texts, none of them holds a newline and none ends in a carriage
/// return.
pub proof fn law_printed_paths_are_read_back(
    repo: Seq<u8>,
    rels: Seq<Seq<u8>>,
    stderr: Seq<u8>,
)
    requires
        valid_utf8(listing(rels)),
        forall|i: int, j: int|
            0 <= i < rels.len() && 0 <= j < rels[i].len() ==> #[trigger] rels[i][j] != NEWLINE,
        forall|i: int|
            0 <= i < rels.len() && rels[i].len() > 0 ==> (#[trigger] rels[i]).last() != RETURN,
    ensures
        paths_printed(
            repo,
            Ok(GitOutputView { success: true, stdout: listing(rels), stderr }),
        ) == PathsResult::Ok(joined(repo, rels)),
{
    law_lossy_keeps_valid(listing(rels));
    law_lines_of_listing(rels);
}

// ---------------------------------------------------------------------------
// What is asked, and what becomes of an answer
// ---------------------------------------------------------------------------

/// The models of the answers, of the steps and of lists of paths say what they
/// are.
pub proof fn law_collection_views(
    listing: Result<Vec<FilePath>, GitError>,
    output: Result<GitOutput, IoError>,
    step: CollectStep,
    paths: Result<Vec<FilePath>, PickerError>,
)
    ensures
        listing matches Ok(v) ==> listing_reply(listing) == ListingReply::Ok(path_views(v@)),
        listing matches Err(e) ==> listing_reply(listing) == ListingReply::Err(e@),
        output matches Ok(o) ==> (run_reply(output) matches Ok(v) && v.success == o.success
            && v.stdout == o.stdout@ && v.stderr == o.stderr@),
        output matches Err(e) ==> run_reply(output) == RunReply::Err(e@),
        match step {
            CollectStep::ListSubmodules(l) => step@ == CollectStepView::ListSubmodules(l@),
            CollectStep::RunGit(g) => step@ == CollectStepView::RunGit(g@),
            CollectStep::Done(Ok(v)) => step@ == CollectStepView::Done(Ok(path_views(v@))),
            CollectStep::Done(Err(e)) => step@ == CollectStepView::Done(Err(e@)),
        },
        paths matches Ok(v) ==> paths_result(paths) == PathsResult::Ok(path_views(v@)),
        paths matches Err(e) ==> paths_result(paths) == PathsResult::Err(e@),
{
}

/// Each of the paths is joined to the base, in order.
pub proof fn law_joined(base: Seq<u8>, rels: Seq<Seq<u8>>)
    ensures
        joined(base, rels).len() == rels.len(),
        forall|i: int| 0 <= i < rels.len() ==> #[trigger] joined(base, rels)[i] == join(base, rels[i]),
{
}

/// A collection starts with the submodules of its repository, with nothing
/// found, and for the path that it was given, or the folder itself where that
/// is empty.
pub proof fn law_collection_starts_with_submodules(repo: Seq<u8>, rel: Seq<u8>)
    ensures
        first_step(repo, rel) matches CollectStepView::ListSubmodules(l) && {
            &&& l.repo == repo
            &&& rel.len() > 0 ==> l.rel == rel
            &&& rel.len() == 0 ==> l.rel == seq![0x2eu8]
            &&& l.waiting == Seq::<FrameView>::empty()
            &&& l.found == Seq::<Seq<u8>>::empty()
        },
{
}

/// Once no visit to a submodule is left, `git` runs in the repository itself,
/// and is asked about exactly the path that is to be listed there; a path that
/// is no text is an error. Nothing that was found is lost.
pub proof fn law_git_is_asked_about_the_listed_path(
    frame: FrameView,
    waiting: Seq<FrameView>,
    found: Seq<Seq<u8>>,
)
    requires
        frame.rest.len() == 0,
    ensures
        valid_utf8(frame.rel) ==> (advance(frame, waiting, found) matches CollectStepView::RunGit(g)
            && g.repo == frame.repo && encode_utf8(g.arg) == frame.rel && g.waiting == waiting
            && g.found == found),
        !valid_utf8(frame.rel) ==> advance(frame, waiting, found) == CollectStepView::Done(
            Err(PickerErrorView::NonUtf8Path),
        ),
{
    if valid_utf8(frame.rel) {
        decode_utf8_encode_utf8(frame.rel);
    }
}

/// As long as visits to submodules are left, the next one is made: the submodule
/// is asked about the path of the visit, and the repository waits for it with
/// one visit less. Nothing that was found is lost.
pub proof fn law_submodules_are_visited_in_turn(
    frame: FrameView,
    waiting: Seq<FrameView>,
    found: Seq<Seq<u8>>,
)
    requires
        frame.rest.len() > 0,
    ensures
        advance(frame, waiting, found) matches CollectStepView::ListSubmodules(l) && {
            &&& l.repo == frame.rest[0].repo
            &&& l.rel == frame.rest[0].rel
            &&& l.found == found
            &&& l.waiting.len() == waiting.len() + 1
            &&& l.waiting.drop_last() == waiting
            &&& l.waiting.last().repo == frame.repo
            &&& l.waiting.last().rel == frame.rel
            &&& l.waiting.last().rest == frame.rest.skip(1)
        },
{
    let l = advance(frame, waiting, found)->ListSubmodules_0;
    assert(l.waiting.drop_last() == waiting);
    assert(l.waiting.last().rest == frame.rest.skip(1));
}

/// A command that could not be run, or that failed, ends the collection with
/// that failure. Otherwise each line that it printed is a path below the
/// repository, found behind those found before, and the repository that waits
/// goes on, or all is done.
pub proof fn law_printed_lines_are_found(g: RunningView, reply: RunReply)
    ensures
        reply matches Err(e) ==> after_run(g, reply) == CollectStepView::Done(
            Err(PickerErrorView::Io(e)),
        ),
        reply matches Ok(o) ==> !o.success ==> (after_run(g, reply) matches CollectStepView::Done(
            Err(PickerErrorView::Io(e)),
        ) && e.kind == IoErrorKind::Other && e.message == "git command failed: "@ + utf8_lossy(
            o.stderr,
        )),
        reply matches Ok(o) ==> o.success ==> {
            let ls = lines(encode_utf8(utf8_lossy(o.stdout)));
            let found = g.found + Seq::new(ls.len(), |i: int| join(g.repo, ls[i]));
            &&& g.waiting.len() == 0 ==> after_run(g, reply) == CollectStepView::Done(Ok(found))
            &&& g.waiting.len() > 0 ==> after_run(g, reply) == advance(
                g.waiting.last(),
                g.waiting.drop_last(),
                found,
            )
        },
{
    if let Ok(o) = reply {
        let ls = lines(encode_utf8(utf8_lossy(o.stdout)));
        assert(joined(g.repo, ls) == Seq::new(ls.len(), |i: int| join(g.repo, ls[i])));
    }
}

/// A repository that Git cannot read ends the collection with that failure.
/// A submodule that does not exist is passed over, and the repository that waits
/// for it goes on with all that was found; where the collection started, a
/// folder without a repository is taken for one without submodules.
pub proof fn law_unlisted_repository(l: ListingView, e: GitErrorView)
    ensures
        e.code != GitErrorCode::NotFound ==> after_listing(l, Err(e)) == CollectStepView::Done(
            Err(PickerErrorView::Git2(e)),
        ),
        e.code == GitErrorCode::NotFound && l.waiting.len() > 0 ==> after_listing(l, Err(e))
            == advance(l.waiting.last(), l.waiting.drop_last(), l.found),
        e.code == GitErrorCode::NotFound && l.waiting.len() == 0 ==> after_listing(l, Err(e))
            == advance(
            FrameView { repo: l.repo, rel: l.rel, rest: Seq::empty() },
            l.waiting,
            l.found,
        ),
{
}

/// The place and the submodule lie one inside the other.
pub open spec fn touches(target: Seq<u8>) -> spec_fn(Seq<u8>) -> bool {
    |sub: Seq<u8>| inside(target, sub) || inside(sub, target)
}

/// Where a submodule is found.
pub open spec fn visited_repo() -> spec_fn(VisitView) -> Seq<u8> {
    |v: VisitView| v.repo
}

proof fn lemma_visited_repos(target: Seq<u8>, subs: Seq<Seq<u8>>)
    ensures
        visits_for(Some(target), subs).map_values(visited_repo()) == subs.filter(touches(target)),
    decreases subs.len(),
{
    reveal(Seq::filter);
    let visits = visits_for(Some(target), subs);
    if subs.len() > 0 {
        let fewer = subs.drop_last();
        let before = visits_for(Some(target), fewer);
        lemma_visited_repos(target, fewer);
        lemma_visit_for(Some(target), subs.last());
        if let Some(v) = visit_for(Some(target), subs.last()) {
            assert(before.push(v).map_values(visited_repo()) == before.map_values(
                visited_repo(),
            ).push(v.repo));
        }
    }
    assert(visits.map_values(visited_repo()) == subs.filter(touches(target)));
}

/// Once its submodules are listed, a repository visits them: all of them, each
/// as a whole, where the listed path names no place; and otherwise exactly those
/// that lie below that place or hold it, in order, each as a whole where it
/// lies below, and with the rest of the path where it holds it.
pub proof fn law_listed_submodules_are_visited(l: ListingView, rels: Seq<Seq<u8>>)
    ensures
        ({
            let subs = Seq::new(rels.len(), |i: int| join(l.repo, rels[i]));
            exists|rest: Seq<VisitView>|
                {
                    &&& after_listing(l, Ok(rels)) == #[trigger] advance(
                        FrameView { repo: l.repo, rel: l.rel, rest },
                        l.waiting,
                        l.found,
                    )
                    &&& match listed_place(l.repo, l.rel) {
                        None => {
                            &&& rest.len() == rels.len()
                            &&& forall|i: int|
                                0 <= i < rest.len() ==> (#[trigger] rest[i]).repo == subs[i]
                                    && rest[i].rel == seq![0x2eu8]
                        },
                        Some(target) => {
                            &&& rest.map_values(visited_repo()) == subs.filter(touches(target))
                            &&& forall|k: int|
                                0 <= k < subs.len() ==> (touches(target)(#[trigger] subs[k]) <==> (
                                inside(target, subs[k]) || inside(subs[k], target)))
                            &&& forall|i: int|
                                0 <= i < rest.len() ==> #[trigger] rest.map_values(
                                    visited_repo(),
                                )[i] == rest[i].repo
                            &&& forall|i: int|
                                0 <= i < rest.len() ==> {
                                    let v = #[trigger] rest[i];
                                    &&& inside(target, v.repo) || inside(v.repo, target)
                                    &&& inside(target, v.repo) ==> v.rel == seq![0x2eu8]
                                    &&& !inside(target, v.repo) ==> components(target)
                                        == components(v.repo) + components(v.rel)
                                        && strip_prefix(target, v.repo) == Some(v.rel)
                                }
                        },
                    }
                }
        }),
{
    let place = listed_place(l.repo, l.rel);
    let subs = Seq::new(rels.len(), |i: int| join(l.repo, rels[i]));
    let rest = visits_for(place, subs);
    assert(joined(l.repo, rels) == subs);
    assert(after_listing(l, Ok(rels)) == advance(
        FrameView { repo: l.repo, rel: l.rel, rest },
        l.waiting,
        l.found,
    ));
    match place {
        None => {
            law_every_submodule_is_visited(subs);
        },
        Some(target) => {
            lemma_visited_repos(target, subs);
            assert forall|i: int| 0 <= i < rest.len() implies {
                let v = #[trigger] rest[i];
                &&& inside(target, v.repo) || inside(v.repo, target)
                &&& inside(target, v.repo) ==> v.rel == seq![0x2eu8]
                &&& !inside(target, v.repo) ==> components(target) == components(v.repo)
                    + components(v.rel) && strip_prefix(target, v.repo) == Some(v.rel)
            } by {
                let v = rest[i];
                lemma_visits_for(Some(target), subs, i);
                if !inside(target, v.repo) {
                    law_strip_then_join(target, v.repo);
                }
            }
        },
    }
}

/// A byte that has a meaning of its own in a path that `git` is given.
pub open spec fn is_special(b: u8) -> bool {
    b == '*' as u8 || b == '?' as u8 || b == '[' as u8 || b == '\\' as u8
}

/// A path names a place exactly if it is relative, does not open with a colon,
/// stays below the repository, comes to at least one name, and has no name that
/// opens with a colon or holds a byte of a pattern. The place is then the
/// repository with those names behind it.
pub proof fn law_listed_place(repo: Seq<u8>, rel: Seq<u8>)
    ensures
        listed_place(repo, rel) is Some <==> {
            &&& !seq![0x2fu8].is_prefix_of(rel)
            &&& !seq![0x3au8].is_prefix_of(rel)
            &&& resolve(components(rel)) matches Some(names) && names.len() > 0 && forall|i: int|
                0 <= i < names.len() ==> (!seq![0x3au8].is_prefix_of(#[trigger] names[i])
                    && forall|j: int| 0 <= j < names[i].len() ==> !is_special(#[trigger] names[i][j]))
        },
        listed_place(repo, rel) matches Some(target) ==> components(target) == components(repo)
            + resolve(components(rel))->0,
{
    let colon = seq![0x3au8];
    law_absolute_paths_open_with_slash(rel);
    lemma_opens_with(rel, 0x3a);
    if !is_absolute(rel) {
        law_resolved_names_lead_down(rel);
        if let Some(names) = resolve(components(rel)) {
            law_descend_adds_names(repo, names);
            assert forall|i: int| 0 <= i < names.len() implies (is_literal(#[trigger] names[i])
                <==> (!colon.is_prefix_of(names[i]) && forall|j: int|
                0 <= j < names[i].len() ==> !is_special(#[trigger] names[i][j]))) by {
                lemma_opens_with(names[i], 0x3a);
                let name = names[i];
                assert forall|j: int| 0 <= j < name.len() implies is_pattern_byte(
                    #[trigger] name[j],
                ) == is_special(name[j]) by {}
            }
        }
    }
}

proof fn lemma_opens_with(p: Seq<u8>, b: u8)
    ensures
        seq![b].is_prefix_of(p) <==> p.len() > 0 && p[0] == b,
{
    if p.len() > 0 && p[0] == b {
        assert(seq![b] == p.subrange(0, 1));
    }
    if seq![b].is_prefix_of(p) {
        assert(seq![b][0] == p[0]);
    }
}

/// The step belongs to a collection that was started in `repo` for `rel`: the
/// repository that is asked about there, or that waits for all the others, is
/// that one, with that path to list.
pub open spec fn is_for(step: CollectStepView, repo: Seq<u8>, rel: Seq<u8>) -> bool {
    match step {
        CollectStepView::ListSubmodules(l) => if l.waiting.len() == 0 {
            l.repo == repo && l.rel == rel
        } else {
            l.waiting[0].repo == repo && l.waiting[0].rel == rel
        },
        CollectStepView::RunGit(g) => if g.waiting.len() == 0 {
            g.repo == repo && encode_utf8(g.arg) == rel
        } else {
            g.waiting[0].repo == repo && g.waiting[0].rel == rel
        },
        CollectStepView::Done(_) => true,
    }
}

proof fn lemma_advance_is_for(
    frame: FrameView,
    waiting: Seq<FrameView>,
    found: Seq<Seq<u8>>,
    repo: Seq<u8>,
    rel: Seq<u8>,
)
    requires
        waiting.len() == 0 ==> frame.repo == repo && frame.rel == rel,
        waiting.len() > 0 ==> waiting[0].repo == repo && waiting[0].rel == rel,
    ensures
        is_for(advance(frame, waiting, found), repo, rel),
{
    if frame.rest.len() == 0 {
        law_git_is_asked_about_the_listed_path(frame, waiting, found);
    }
}

/// Whatever is answered, where `git` runs last, in the repository that a
/// collection was started in, it is asked about exactly the path that the
/// collection was started for.
pub proof fn law_git_is_asked_about_the_given_path(
    repo: Seq<u8>,
    rel: Seq<u8>,
    replies: Seq<Reply>,
)
    ensures
        run(first_step(repo, rel), replies) matches CollectStepView::RunGit(g) ==> g.waiting.len()
            == 0 ==> g.repo == repo && encode_utf8(g.arg) == (if rel.len() == 0 {
            seq![0x2eu8]
        } else {
            rel
        }),
{
    let listed = path_to_list(rel);
    law_collection_starts_with_submodules(repo, rel);
    lemma_run_is_for(first_step(repo, rel), repo, listed, replies);
}

proof fn lemma_run_is_for(
    step: CollectStepView,
    repo: Seq<u8>,
    rel: Seq<u8>,
    replies: Seq<Reply>,
)
    requires
        is_for(step, repo, rel),
    ensures
        is_for(run(step, replies), repo, rel),
    decreases replies.len(),
{
    if replies.len() > 0 {
        let reply = replies[0];
        match (step, reply) {
            (CollectStepView::ListSubmodules(l), Reply::Listed(r)) => {
                if l.waiting.len() > 0 {
                    lemma_advance_is_for(
                        l.waiting.last(),
                        l.waiting.drop_last(),
                        l.found,
                        repo,
                        rel,
                    );
                }
                if let Ok(visits) = submodules_to_visit(l.repo, l.rel, r) {
                    lemma_advance_is_for(
                        FrameView { repo: l.repo, rel: l.rel, rest: visits },
                        l.waiting,
                        l.found,
                        repo,
                        rel,
                    );
                }
            },
            (CollectStepView::RunGit(g), Reply::Ran(r)) => {
                if let Ok(own) = paths_printed(g.repo, r) {
                    if g.waiting.len() > 0 {
                        lemma_advance_is_for(
                            g.waiting.last(),
                            g.waiting.drop_last(),
                            g.found + own,
                            repo,
                            rel,
                        );
                    }
                }
            },
            _ => {},
        }
        lemma_run_is_for(respond(step, reply), repo, rel, replies.drop_first());
    }
}

/// In each repository that is asked about, a submodule or not, `git` runs once
/// its submodules are done, and there it is asked about exactly the path that
/// was to be listed in it.
pub proof fn law_git_runs_where_submodules_were_listed(
    l: ListingView,
    scan: Scan,
    visits: Seq<VisitView>,
    inner: Seq<Seq<u8>>,
)
    requires
        complete(l.repo, l.rel, scan),
        l.rel.len() > 0,
        valid_utf8(l.rel),
        l.waiting.len() > 0 ==> !is_missing(scan.listing),
        submodules_to_visit(l.repo, l.rel, scan.listing) == Result::<
            Seq<VisitView>,
            PickerErrorView,
        >::Ok(visits),
        collected_inside(visits, scan, visits.len()) == PathsResult::Ok(inner),
    ensures
        run(
            CollectStepView::ListSubmodules(l),
            seq![Reply::Listed(scan.listing)] + transcript_inside(scan, scan.inner.len()),
        ) matches CollectStepView::RunGit(g) && {
            &&& g.repo == l.repo
            &&& encode_utf8(g.arg) == l.rel
            &&& g.waiting == l.waiting
            &&& g.found == l.found + inner
        },
{
    let start = CollectStepView::ListSubmodules(l);
    let head = seq![Reply::Listed(scan.listing)];
    let body = transcript_inside(scan, scan.inner.len());
    lemma_run_concat(start, head, body);
    lemma_run_one(start, head[0]);
    lemma_run_inside(l.repo, l.rel, visits, scan, l.waiting, l.found, visits.len());
    let last = FrameView { repo: l.repo, rel: l.rel, rest: visits.skip(visits.len() as int) };
    assert(last.rest.len() == 0);
    law_git_is_asked_about_the_listed_path(last, l.waiting, l.found + inner);
}

/// The command is `ls-files`, and asks for what is not tracked, is ignored by
/// the usual rules, folders as such, at the path given last.
pub proof fn law_command_arguments(arg: Seq<char>)
    ensures
        ls_files_args(arg) == seq![
            "ls-files"@,
            "--others"@,
            "--ignored"@,
            "--exclude-standard"@,
            "--directory"@,
            "--"@,
            arg,
        ],
{
}

} // verus!
