//! Repositories, and the search for the topmost one.
//!
//! `discover_topmost` gives the first folder to look for a repository from.
//! Each answer leads to a folder further up, or to the end. A bare repository
//! that is found again from the folder around it sends the search past that
//! folder.

use crate::error::{GitError, GitErrorView, PickerError, PickerErrorView};
use crate::path::{
    components, inside, law_inside_transitive, law_parent_drops_last, law_parent_exists,
    law_parent_spelling, parent, same_path, spans, FilePath,
};
use vstd::prelude::*;

verus! {

/// Where a repository lies: its working tree, unless it is bare, and its own
/// folder.
#[derive(Debug)]
pub struct Repository {
    pub workdir: Option<FilePath>,
    pub path: FilePath,
}

/// The model of a `Repository`.
pub struct RepositoryView {
    pub workdir: Option<Seq<u8>>,
    pub path: Seq<u8>,
}

impl View for Repository {
    type V = RepositoryView;

    open spec fn view(&self) -> RepositoryView {
        RepositoryView {
            workdir: match self.workdir {
                Some(p) => Some(p@),
                None => None,
            },
            path: self.path@,
        }
    }
}

impl RepositoryView {
    /// The working tree, or the folder of a bare repository.
    pub open spec fn working_dir(self) -> Seq<u8> {
        match self.workdir {
            Some(p) => p,
            None => self.path,
        }
    }
}

/// The folder that a repository is worked on in.
pub trait RepositoryExt {
    /// The model of that folder.
    spec fn working_dir_view(&self) -> Seq<u8>;

    /// The working tree, or the folder of a bare repository.
    fn working_dir(&self) -> (r: &FilePath)
        ensures
            r@ == self.working_dir_view(),
    ;
}

impl RepositoryExt for Repository {
    open spec fn working_dir_view(&self) -> Seq<u8> {
        self@.working_dir()
    }

    fn working_dir(&self) -> (r: &FilePath)
        ensures
            self.workdir matches Some(tree) ==> r@ == tree@,
            self.workdir is None ==> r@ == self.path@,
    {
        match &self.workdir {
            Some(p) => p,
            None => &self.path,
        }
    }
}

/// What comes back when a repository is looked for.
pub type DiscoverReply = Result<RepositoryView, GitErrorView>;

/// The model of an answer.
pub open spec fn discover_reply(r: Result<Repository, GitError>) -> DiscoverReply {
    match r {
        Ok(repo) => Ok(repo@),
        Err(e) => Err(e@),
    }
}

/// A search that waits for an answer.
#[derive(Debug)]
pub struct Discovery {
    found: Option<Repository>,
    query: FilePath,
}

/// The model of a `Discovery`: the repository found last, and the folder to
/// look from.
pub struct DiscoveryView {
    pub found: Option<RepositoryView>,
    pub query: Seq<u8>,
}

impl View for Discovery {
    type V = DiscoveryView;

    closed spec fn view(&self) -> DiscoveryView {
        DiscoveryView {
            found: match self.found {
                Some(r) => Some(r@),
                None => None,
            },
            query: self.query@,
        }
    }
}

/// The next thing to do in a search.
#[derive(Debug)]
pub enum DiscoverStep {
    /// Look for a repository from a folder on upwards.
    Discover(Discovery),
    /// Nothing: this is the outcome.
    Done(Result<Repository, PickerError>),
}

/// The model of a `DiscoverStep`.
pub enum DiscoverStepView {
    Discover(DiscoveryView),
    Done(Result<RepositoryView, PickerErrorView>),
}

impl View for DiscoverStep {
    type V = DiscoverStepView;

    open spec fn view(&self) -> DiscoverStepView {
        match self {
            DiscoverStep::Discover(d) => DiscoverStepView::Discover(d@),
            DiscoverStep::Done(Ok(r)) => DiscoverStepView::Done(Ok(r@)),
            DiscoverStep::Done(Err(e)) => DiscoverStepView::Done(Err(e@)),
        }
    }
}

/// The first step of a search.
pub open spec fn first_discovery(start: Seq<u8>) -> DiscoverStepView {
    DiscoverStepView::Discover(DiscoveryView { found: None, query: start })
}

/// The repository was the one found last: a bare one in a folder `.git`, say,
/// is found from the folder around it again.
pub open spec fn is_repeated(d: DiscoveryView, repo: RepositoryView) -> bool {
    d.found matches Some(last) && same_path(last.path, repo.path)
}

/// The step after an answer. A repository sends the search to the folder above
/// its working directory, or above the folder that was looked from where it is
/// the one found last, and ends it where there is none. A failure ends it with
/// the repository found last, or with the failure where none was.
pub open spec fn after_discovery(d: DiscoveryView, reply: DiscoverReply) -> DiscoverStepView {
    match reply {
        Ok(repo) => {
            let from = if is_repeated(d, repo) {
                d.query
            } else {
                repo.working_dir()
            };
            match parent(from) {
                Some(above) => DiscoverStepView::Discover(
                    DiscoveryView { found: Some(repo), query: above },
                ),
                None => DiscoverStepView::Done(Ok(repo)),
            }
        },
        Err(e) => match d.found {
            Some(repo) => DiscoverStepView::Done(Ok(repo)),
            None => DiscoverStepView::Done(Err(PickerErrorView::Git2(e))),
        },
    }
}

/// Starts looking for the topmost repository around `start`.
pub fn discover_topmost(start: &FilePath) -> (r: DiscoverStep)
    ensures
        r@ == first_discovery(start@),
        r matches DiscoverStep::Discover(d) && d@.found is None && d@.query == start@,
{
    DiscoverStep::Discover(Discovery { found: None, query: start.clone() })
}

impl Discovery {
    /// The folder to look from.
    pub fn query(&self) -> (r: &FilePath)
        ensures
            r@ == self@.query,
    {
        &self.query
    }

    /// Goes on with the repository that was found, or with the failure to find
    /// one.
    pub fn discovered(self, reply: Result<Repository, GitError>) -> (r: DiscoverStep)
        ensures
            r@ == after_discovery(self@, discover_reply(reply)),
            match (reply, self@.found) {
                (Ok(repo), _) => match r {
                    DiscoverStep::Discover(next) => next@.found == Some(repo@),
                    DiscoverStep::Done(Ok(last)) => last@ == repo@,
                    DiscoverStep::Done(Err(_)) => false,
                },
                (Err(_), Some(last)) => r matches DiscoverStep::Done(Ok(repo)) && repo@ == last,
                (Err(e), None) => r matches DiscoverStep::Done(Err(PickerError::Git2(f))) && f@
                    == e@,
            },
    {
        match reply {
            Ok(repo) => {
                let repeated = match &self.found {
                    Some(last) => last.path.same_path(&repo.path),
                    None => false,
                };
                let above = if repeated {
                    self.query.parent()
                } else {
                    repo.working_dir().parent()
                };
                match above {
                    Some(above) => DiscoverStep::Discover(
                        Discovery { found: Some(repo), query: above },
                    ),
                    None => DiscoverStep::Done(Ok(repo)),
                }
            },
            Err(e) => match self.found {
                Some(repo) => DiscoverStep::Done(Ok(repo)),
                None => DiscoverStep::Done(Err(PickerError::Git2(e))),
            },
        }
    }
}

// ---------------------------------------------------------------------------
// Laws
// ---------------------------------------------------------------------------

/// The model of a repository has its working tree and its folder.
pub proof fn law_repository_view(r: Repository)
    ensures
        r@.path == r.path@,
        r.workdir is None <==> r@.workdir is None,
        r.workdir matches Some(tree) ==> r@.workdir == Some(tree@),
{
}

/// The models of a step and of an answer say what they are.
pub proof fn law_discovery_views(step: DiscoverStep, reply: Result<Repository, GitError>)
    ensures
        match step {
            DiscoverStep::Discover(d) => step@ == DiscoverStepView::Discover(d@),
            DiscoverStep::Done(Ok(r)) => step@ matches DiscoverStepView::Done(Ok(q)) && q == r@,
            DiscoverStep::Done(Err(e)) => step@ matches DiscoverStepView::Done(Err(f)) && f == e@,
        },
        reply matches Ok(r) ==> discover_reply(reply) == DiscoverReply::Ok(r@),
        reply matches Err(e) ==> discover_reply(reply) == DiscoverReply::Err(e@),
{
}

/// A repository with a working tree is worked on there, wherever its own folder
/// lies, and only one without is worked on in that folder.
pub proof fn law_working_tree_comes_first(r: RepositoryView, tree: Seq<u8>)
    ensures
        (RepositoryView { workdir: Some(tree), ..r }).working_dir() == tree,
        (RepositoryView { workdir: None, ..r }).working_dir() == r.path,
{
}

/// A search goes on from just above the working tree of the repository that was
/// found, or above its folder where it has none, and from just above the folder
/// that was looked from where the repository was found before. It keeps what it
/// found, and ends with it where there is no folder above.
pub proof fn law_search_goes_up(d: DiscoveryView, repo: RepositoryView)
    ensures
        ({
            let from = if d.found matches Some(last) && same_path(last.path, repo.path) {
                d.query
            } else if repo.workdir is Some {
                repo.workdir->0
            } else {
                repo.path
            };
            match after_discovery(d, Ok(repo)) {
                DiscoverStepView::Discover(next) => {
                    &&& next.found == Some(repo)
                    &&& next.query.is_prefix_of(from)
                    &&& components(from).len() > 0
                    &&& components(next.query) == components(from).drop_last()
                },
                DiscoverStepView::Done(outcome) => {
                    &&& outcome == Result::<RepositoryView, PickerErrorView>::Ok(repo)
                    &&& from.len() == 0 || components(from) == seq![seq![0x2fu8]]
                },
            }
        }),
{
    let from = if d.found matches Some(last) && same_path(last.path, repo.path) {
        d.query
    } else if repo.workdir is Some {
        repo.workdir->0
    } else {
        repo.path
    };
    law_parent_exists(from);
    if parent(from) is Some {
        law_parent_drops_last(from);
        law_parent_spelling(from);
    }
}

/// A failure to find anything ends a search: with the repository found last,
/// and with the failure itself where there is none.
pub proof fn law_failure_ends_search(d: DiscoveryView, e: GitErrorView)
    ensures
        after_discovery(d, Err(e)) matches DiscoverStepView::Done(outcome) && match d.found {
            Some(last) => outcome == Result::<RepositoryView, PickerErrorView>::Ok(last),
            None => outcome == Result::<RepositoryView, PickerErrorView>::Err(
                PickerErrorView::Git2(e),
            ),
        },
{
}

/// The step after at most `n` answers, each given by `world` for the folder
/// that is looked from.
pub open spec fn search(
    world: spec_fn(Seq<u8>) -> DiscoverReply,
    step: DiscoverStepView,
    n: nat,
) -> DiscoverStepView
    decreases n,
{
    match step {
        DiscoverStepView::Done(_) => step,
        DiscoverStepView::Discover(d) => if n == 0 {
            step
        } else {
            search(world, after_discovery(d, world(d.query)), (n - 1) as nat)
        },
    }
}

/// A search fails exactly where nothing is found from its start, and with that
/// failure.
pub proof fn law_search_fails_only_at_start(
    world: spec_fn(Seq<u8>) -> DiscoverReply,
    start: Seq<u8>,
    n: nat,
)
    requires
        n > 0,
    ensures
        match world(start) {
            Err(e) => search(world, first_discovery(start), n) == DiscoverStepView::Done(
                Err(PickerErrorView::Git2(e)),
            ),
            Ok(_) => !(search(world, first_discovery(start), n) matches DiscoverStepView::Done(
                Err(_),
            )),
        },
{
    let d = DiscoveryView { found: None, query: start };
    let next = after_discovery(d, world(start));
    assert(search(world, first_discovery(start), n) == search(world, next, (n - 1) as nat));
    if world(start) is Ok {
        assert(has_found(world, next));
        lemma_search_keeps(world, next, (n - 1) as nat);
    } else {
        assert(search(world, next, (n - 1) as nat) == next);
    }
}

/// There is no folder above `from`, or nothing is found from it.
pub open spec fn is_last(world: spec_fn(Seq<u8>) -> DiscoverReply, from: Seq<u8>) -> bool {
    parent(from) matches Some(above) ==> world(above) is Err
}

/// The repository is found from somewhere, and nothing is found from above its
/// working directory, or from above a folder that it is found from.
pub open spec fn ends_at(
    world: spec_fn(Seq<u8>) -> DiscoverReply,
    r: RepositoryView,
) -> bool {
    exists|q: Seq<u8>| #[trigger]
        world(q) == DiscoverReply::Ok(r) && (is_last(
            world,
            match r.workdir {
                Some(tree) => tree,
                None => r.path,
            },
        ) || is_last(world, q))
}

/// A search that has found a repository.
spec fn has_found(
    world: spec_fn(Seq<u8>) -> DiscoverReply,
    step: DiscoverStepView,
) -> bool {
    match step {
        DiscoverStepView::Done(Err(_)) => false,
        DiscoverStepView::Done(Ok(r)) => ends_at(world, r),
        DiscoverStepView::Discover(d) => d.found matches Some(r) && exists|q: Seq<u8>| #[trigger]
            world(q) == DiscoverReply::Ok(r) && (parent(r.working_dir()) == Some(d.query)
                || parent(q) == Some(d.query)),
    }
}

proof fn lemma_search_keeps(
    world: spec_fn(Seq<u8>) -> DiscoverReply,
    step: DiscoverStepView,
    n: nat,
)
    requires
        has_found(world, step),
    ensures
        has_found(world, search(world, step, n)),
    decreases n,
{
    if let DiscoverStepView::Discover(d) = step {
        if n > 0 {
            let next = after_discovery(d, world(d.query));
            assert(has_found(world, next));
            lemma_search_keeps(world, next, (n - 1) as nat);
        }
    }
}

/// The repository that a search ends with is one that was found, and nothing
/// is found from above its working directory, or from above a folder that it
/// was found from, unless there is no such folder.
pub proof fn law_nothing_above_outcome(
    world: spec_fn(Seq<u8>) -> DiscoverReply,
    start: Seq<u8>,
    n: nat,
)
    ensures
        search(world, first_discovery(start), n) matches DiscoverStepView::Done(Ok(r)) ==> ends_at(
            world,
            r,
        ),
{
    let d = DiscoveryView { found: None, query: start };
    if n > 0 {
        let next = after_discovery(d, world(start));
        assert(search(world, first_discovery(start), n) == search(world, next, (n - 1) as nat));
        if world(start) is Ok {
            assert(has_found(world, next));
            lemma_search_keeps(world, next, (n - 1) as nat);
        } else {
            assert(search(world, next, (n - 1) as nat) == next);
        }
    }
}

/// A repository that is found again does not hold the search up: it goes on one
/// folder further up, or ends with the repository at the top.
pub proof fn law_repeated_answer_moves_up(d: DiscoveryView, repo: RepositoryView)
    requires
        is_repeated(d, repo),
    ensures
        match after_discovery(d, Ok(repo)) {
            DiscoverStepView::Discover(next) => {
                &&& next.found == Some(repo)
                &&& components(next.query) == components(d.query).drop_last()
                &&& components(d.query).len() > 0
            },
            DiscoverStepView::Done(outcome) => {
                &&& outcome == Result::<RepositoryView, PickerErrorView>::Ok(repo)
                &&& parent(d.query) is None
            },
        },
{
    if parent(d.query) is Some {
        law_parent_drops_last(d.query);
    }
}

/// The path and all the folders around it are where their names say.
pub open spec fn is_settled(place: spec_fn(Seq<u8>) -> Seq<Seq<u8>>, p: Seq<u8>) -> bool {
    forall|around: Seq<u8>|
        inside(around, p) ==> #[trigger] place(around) == components(around)
}

/// The repository is worked on in the folder `site`, or is a bare one directly
/// inside it.
pub open spec fn is_at(r: RepositoryView, site: Seq<Seq<u8>>) -> bool {
    let own = components(
        match r.workdir {
            Some(tree) => tree,
            None => r.path,
        },
    );
    own == site || (own.len() > 0 && own.drop_last() == site)
}

/// The repository belongs to one of the sites around the folder.
pub open spec fn is_around(
    r: RepositoryView,
    folder: Seq<Seq<u8>>,
    is_site: spec_fn(Seq<Seq<u8>>) -> bool,
) -> bool {
    exists|c: Seq<Seq<u8>>| #[trigger] is_site(c) && c.is_prefix_of(folder) && is_at(r, c)
}

/// No site lies around the folder.
pub open spec fn is_free(
    folder: Seq<Seq<u8>>,
    is_site: spec_fn(Seq<Seq<u8>>) -> bool,
) -> bool {
    forall|c: Seq<Seq<u8>>| #[trigger] is_site(c) ==> !c.is_prefix_of(folder)
}

/// The answers tell of the folders that hold repositories, the sites. `place`
/// says where in the file system a path leads. What is found from a folder
/// depends on where it lies; a repository that is found belongs to a site
/// around it, and is named by where it lies; where none is found there is no
/// such site.
pub open spec fn tells_of(
    world: spec_fn(Seq<u8>) -> DiscoverReply,
    place: spec_fn(Seq<u8>) -> Seq<Seq<u8>>,
    is_site: spec_fn(Seq<Seq<u8>>) -> bool,
) -> bool {
    &&& forall|c: Seq<Seq<u8>>| #[trigger] is_site(c) ==> c.len() > 0
    &&& forall|p: Seq<u8>, q: Seq<u8>| #[trigger]
        place(p) == #[trigger] place(q) ==> world(p) == world(q)
    &&& forall|q: Seq<u8>|
        match #[trigger] world(q) {
            Ok(r) => {
                &&& r.workdir matches Some(tree) ==> is_settled(place, tree)
                &&& r.workdir is None ==> is_settled(place, r.path)
                &&& is_around(r, place(q), is_site)
            },
            Err(_) => is_free(place(q), is_site),
        }
}

/// The repository belongs to the topmost of the sites around the folder.
pub open spec fn is_topmost(
    r: RepositoryView,
    folder: Seq<Seq<u8>>,
    is_site: spec_fn(Seq<Seq<u8>>) -> bool,
) -> bool {
    exists|c: Seq<Seq<u8>>| #[trigger]
        is_site(c) && c.is_prefix_of(folder) && is_at(r, c) && is_above_all(c, folder, is_site)
}

/// Each site around the folder is this one or lies inside it.
pub open spec fn is_above_all(
    site: Seq<Seq<u8>>,
    folder: Seq<Seq<u8>>,
    is_site: spec_fn(Seq<Seq<u8>>) -> bool,
) -> bool {
    forall|c: Seq<Seq<u8>>| #[trigger]
        is_site(c) && c.is_prefix_of(folder) ==> site.is_prefix_of(c)
}

/// A search ends, bare repositories or not, after no more answers than twice
/// the depth of its start and two, with a repository at the topmost site around
/// the start, or fails where there is none.
pub proof fn law_search_finds_topmost(
    world: spec_fn(Seq<u8>) -> DiscoverReply,
    place: spec_fn(Seq<u8>) -> Seq<Seq<u8>>,
    is_site: spec_fn(Seq<Seq<u8>>) -> bool,
    start: Seq<u8>,
)
    requires
        tells_of(world, place, is_site),
    ensures
        match search(world, first_discovery(start), 2 * place(start).len() + 2) {
            DiscoverStepView::Discover(_) => false,
            DiscoverStepView::Done(Ok(r)) => is_topmost(r, place(start), is_site),
            DiscoverStepView::Done(Err(_)) => is_free(place(start), is_site),
        },
{
    let d = DiscoveryView { found: None, query: start };
    assert(place(start).is_prefix_of(place(start))) by {
        let c = place(start);
        assert(c == c.subrange(0, c.len() as int));
    }
    lemma_search_topmost(world, place, is_site, start, d, 2 * place(start).len() + 2);
}

/// Of two lists that open the same list, the shorter opens the longer.
proof fn lemma_shorter_opens_longer(
    a: Seq<Seq<u8>>,
    b: Seq<Seq<u8>>,
    all: Seq<Seq<u8>>,
)
    requires
        a.is_prefix_of(all),
        b.is_prefix_of(all),
        a.len() <= b.len(),
    ensures
        a.is_prefix_of(b),
{
    assert(a == b.subrange(0, a.len() as int)) by {
        assert forall|i: int| 0 <= i < a.len() implies a[i] == b[i] by {
            assert(a[i] == all[i] && b[i] == all[i]);
        }
    }
}

proof fn lemma_opens_transitive(a: Seq<Seq<u8>>, b: Seq<Seq<u8>>, c: Seq<Seq<u8>>)
    requires
        a.is_prefix_of(b),
        b.is_prefix_of(c),
    ensures
        a.is_prefix_of(c),
{
    assert(a == c.subrange(0, a.len() as int)) by {
        assert forall|i: int| 0 <= i < a.len() implies a[i] == c[i] by {
            assert(a[i] == b[i] && b[i] == c[i]);
        }
    }
}

/// The folder above a settled one is settled, one name shorter.
proof fn lemma_settled_parent(place: spec_fn(Seq<u8>) -> Seq<Seq<u8>>, p: Seq<u8>)
    requires
        is_settled(place, p),
        parent(p) is Some,
    ensures
        is_settled(place, parent(p)->0),
        place(parent(p)->0) == components(p).drop_last(),
        components(p).len() > 0,
        components(p).drop_last().is_prefix_of(components(p)),
{
    let up = parent(p)->0;
    law_parent_drops_last(p);
    law_parent_exists(p);
    assert(components(up) == components(p).subrange(0, components(up).len() as int));
    assert(inside(up, p));
    assert forall|around: Seq<u8>| inside(around, up) implies #[trigger] place(around)
        == components(around) by {
        law_inside_transitive(around, up, p);
    }
    assert(inside(up, up)) by {
        assert(components(up) == components(up).subrange(0, components(up).len() as int));
    }
}

/// A site that opens a list of one name is all of it, and opens every other
/// site around.
proof fn lemma_single_is_above_all(
    c: Seq<Seq<u8>>,
    folder: Seq<Seq<u8>>,
    is_site: spec_fn(Seq<Seq<u8>>) -> bool,
)
    requires
        forall|c: Seq<Seq<u8>>| #[trigger] is_site(c) ==> c.len() > 0,
        c.len() <= 1,
        c.is_prefix_of(folder),
    ensures
        is_above_all(c, folder, is_site),
{
    assert forall|other: Seq<Seq<u8>>| #[trigger]
        is_site(other) && other.is_prefix_of(folder) implies c.is_prefix_of(other) by {
        lemma_shorter_opens_longer(c, other, folder);
    }
}

/// The answer to a search that is under way is the repository found last.
spec fn will_repeat(world: spec_fn(Seq<u8>) -> DiscoverReply, d: DiscoveryView) -> bool {
    world(d.query) matches Ok(r) && is_repeated(d, r)
}

/// The same for a search that is under way.
proof fn lemma_search_topmost(
    world: spec_fn(Seq<u8>) -> DiscoverReply,
    place: spec_fn(Seq<u8>) -> Seq<Seq<u8>>,
    is_site: spec_fn(Seq<Seq<u8>>) -> bool,
    start: Seq<u8>,
    d: DiscoveryView,
    n: nat,
)
    requires
        tells_of(world, place, is_site),
        n > 2 * place(d.query).len() + if will_repeat(world, d) {
            0int
        } else {
            1int
        },
        place(d.query).is_prefix_of(place(start)),
        match d.found {
            None => d.query == start,
            Some(f) => {
                &&& is_settled(place, d.query)
                &&& exists|c: Seq<Seq<u8>>| #[trigger]
                    is_site(c) && c.is_prefix_of(place(start)) && is_at(f, c) && c.len() <= place(
                        d.query,
                    ).len() + 1
            },
        },
    ensures
        match search(world, DiscoverStepView::Discover(d), n) {
            DiscoverStepView::Discover(_) => false,
            DiscoverStepView::Done(Ok(r)) => is_topmost(r, place(start), is_site),
            DiscoverStepView::Done(Err(_)) => is_free(place(start), is_site),
        },
    decreases n,
{
    let all = place(start);
    let here = place(d.query);
    let next = after_discovery(d, world(d.query));
    assert(search(world, DiscoverStepView::Discover(d), n) == search(world, next, (n - 1) as nat));
    assert(next is Done ==> search(world, next, (n - 1) as nat) == next);
    match world(d.query) {
        Err(e) => {
            if let Some(f) = d.found {
                let c = choose|c: Seq<Seq<u8>>| #[trigger]
                    is_site(c) && c.is_prefix_of(all) && is_at(f, c) && c.len() <= here.len() + 1;
                assert forall|other: Seq<Seq<u8>>| #[trigger]
                    is_site(other) && other.is_prefix_of(all) implies c.is_prefix_of(other) by {
                    if other.len() <= here.len() {
                        lemma_shorter_opens_longer(other, here, all);
                    } else {
                        lemma_shorter_opens_longer(c, other, all);
                    }
                }
                assert(is_above_all(c, all, is_site));
            }
        },
        Ok(r) => {
            let c = choose|c: Seq<Seq<u8>>| #[trigger]
                is_site(c) && c.is_prefix_of(here) && is_at(r, c);
            lemma_opens_transitive(c, here, all);
            let from = if is_repeated(d, r) {
                d.query
            } else {
                r.working_dir()
            };
            assert(inside(d.query, d.query)) by {
                let own = components(d.query);
                assert(own == own.subrange(0, own.len() as int));
            }
            match parent(from) {
                None => {
                    law_parent_exists(from);
                    if from.len() == 0 {
                        assert(spans(from).len() == 0);
                    }
                    assert(components(from).len() <= 1);
                    lemma_single_is_above_all(c, all, is_site);
                },
                Some(above) => {
                    lemma_settled_parent(place, from);
                    let further = DiscoveryView { found: Some(r), query: above };
                    if is_repeated(d, r) {
                        lemma_opens_transitive(place(above), here, all);
                    } else {
                        let own = components(r.working_dir());
                        if own == c {
                            lemma_opens_transitive(place(above), c, all);
                        } else if c.len() == here.len() {
                            assert(c == here);
                            assert(world(above) == world(d.query));
                            assert(same_path(r.path, r.path));
                            assert(will_repeat(world, further));
                        }
                    }
                    lemma_search_topmost(world, place, is_site, start, further, (n - 1) as nat);
                },
            }
        },
    }
}

/// One Git folder is one repository: answers with the same folder are equal.
pub open spec fn has_one_repository_per_folder(
    world: spec_fn(Seq<u8>) -> DiscoverReply,
) -> bool {
    forall|p: Seq<u8>, q: Seq<u8>|
        (#[trigger] world(p) matches Ok(a) && (#[trigger] world(q) matches Ok(b) && same_path(
            a.path,
            b.path,
        ))) ==> world(p) == world(q)
}

/// The step after a repository that is not the one found last.
spec fn after_finding(r: RepositoryView) -> DiscoverStepView {
    after_discovery(DiscoveryView { found: None, query: Seq::empty() }, Ok(r))
}

/// A search that has ended stays so.
proof fn lemma_search_stays_done(
    world: spec_fn(Seq<u8>) -> DiscoverReply,
    step: DiscoverStepView,
    m: nat,
    n: nat,
)
    requires
        search(world, step, m) is Done,
        m <= n,
    ensures
        search(world, step, n) == search(world, step, m),
    decreases m,
{
    if let DiscoverStepView::Discover(d) = step {
        let next = after_discovery(d, world(d.query));
        lemma_search_stays_done(world, next, (m - 1) as nat, (n - 1) as nat);
    }
}

/// What a search that is under way ends with is what it found last, or what it
/// ends with just after that was found.
proof fn lemma_end_of_search(
    world: spec_fn(Seq<u8>) -> DiscoverReply,
    d: DiscoveryView,
    r: RepositoryView,
    n: nat,
)
    requires
        has_one_repository_per_folder(world),
        d.found matches Some(f) && exists|q: Seq<u8>| #[trigger] world(q) == DiscoverReply::Ok(f),
        search(world, DiscoverStepView::Discover(d), n) == DiscoverStepView::Done(Ok(r)),
    ensures
        d.found == Some(r) || search(world, after_finding(r), n) == DiscoverStepView::Done(Ok(r)),
    decreases n,
{
    let next = after_discovery(d, world(d.query));
    let m = (n - 1) as nat;
    assert(search(world, DiscoverStepView::Discover(d), n) == search(world, next, m));
    assert(next is Done ==> search(world, next, m) == next);
    if let Ok(found) = world(d.query) {
        let f = d.found->0;
        let q = choose|q: Seq<u8>| #[trigger] world(q) == DiscoverReply::Ok(f);
        if is_repeated(d, found) {
            assert(world(q) == world(d.query));
        } else {
            assert(next == after_finding(found));
        }
        if let DiscoverStepView::Discover(further) = next {
            lemma_end_of_search(world, further, r, m);
        }
        if search(world, after_finding(r), m) == DiscoverStepView::Done(Ok(r)) {
            lemma_search_stays_done(world, after_finding(r), m, n);
        }
    }
}

/// Searching again from the working directory of the repository that a search
/// ended with gives that repository again, as long as it is the one that is
/// found from there.
pub proof fn law_search_again_finds_the_same(
    world: spec_fn(Seq<u8>) -> DiscoverReply,
    start: Seq<u8>,
    r: RepositoryView,
    n: nat,
)
    requires
        has_one_repository_per_folder(world),
        search(world, first_discovery(start), n) == DiscoverStepView::Done(Ok(r)),
        world(r.working_dir()) == DiscoverReply::Ok(r),
    ensures
        search(world, first_discovery(r.working_dir()), n) == DiscoverStepView::Done(Ok(r)),
        r.workdir matches Some(tree) ==> search(world, first_discovery(tree), n)
            == DiscoverStepView::Done(Ok(r)),
{
    let d = DiscoveryView { found: None, query: start };
    let next = after_discovery(d, world(start));
    let m = (n - 1) as nat;
    assert(search(world, first_discovery(start), n) == search(world, next, m));
    assert(next is Done ==> search(world, next, m) == next);
    if let DiscoverStepView::Discover(further) = next {
        lemma_end_of_search(world, further, r, m);
    }
    assert(search(world, after_finding(r), m) == DiscoverStepView::Done(Ok(r)));
    let again = DiscoveryView { found: None, query: r.working_dir() };
    assert(after_discovery(again, world(r.working_dir())) == after_finding(r));
    assert(search(world, first_discovery(r.working_dir()), n) == search(
        world,
        after_finding(r),
        m,
    ));
}

} // verus!
