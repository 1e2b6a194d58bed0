//! A whole session: what is told to the user about the collected paths, and
//! what becomes of them.

use crate::delete::full_path;
use crate::error::DialogError;
use crate::ignored_laws::{
    collected, law_collected_paths_stay_inside, names_relative_paths, Scan,
};
use crate::path::{is_absolute, path_views, FilePath};
use crate::prompt::confirm_delete_files;
use crate::text::{concat, string_views, utf8_lossy};
use vstd::prelude::*;

verus! {

/// What the user is told about the collected paths.
#[derive(Debug)]
pub enum Review {
    /// There are none.
    Nothing(Vec<String>),
    /// They are listed, and wait for a confirmation.
    Ask(Vec<String>, Pending),
}

/// Paths that wait for a confirmation.
#[derive(Debug)]
pub struct Pending {
    paths: Vec<FilePath>,
}

impl View for Pending {
    type V = Seq<Seq<u8>>;

    closed spec fn view(&self) -> Seq<Seq<u8>> {
        path_views(self.paths@)
    }
}

/// What becomes of paths that waited for a confirmation.
#[derive(Debug)]
pub enum Decision {
    /// They are deleted.
    Delete(Vec<FilePath>),
    /// They are kept.
    Keep(Vec<String>),
}

/// The lines about the given paths.
pub open spec fn review_lines(paths: Seq<Seq<u8>>) -> Seq<Seq<char>> {
    if paths.len() == 0 {
        seq!["No files found for deletion."@]
    } else {
        seq!["Files to be deleted:"@] + Seq::new(
            paths.len(),
            |i: int| "   "@ + utf8_lossy(paths[i]),
        )
    }
}

/// Lists the collected paths.
pub fn review(paths: Vec<FilePath>) -> (r: Review)
    ensures
        match r {
            Review::Nothing(lines) => {
                &&& paths@.len() == 0
                &&& string_views(lines@) == review_lines(path_views(paths@))
                &&& lines@.len() == 1
                &&& lines@[0]@ == "No files found for deletion."@
            },
            Review::Ask(lines, pending) => {
                &&& paths@.len() > 0
                &&& string_views(lines@) == review_lines(path_views(paths@))
                &&& pending@ == path_views(paths@)
                &&& pending@.len() == paths@.len()
                &&& lines@.len() == paths@.len() + 1
                &&& lines@[0]@ == "Files to be deleted:"@
                &&& forall|i: int|
                    0 <= i < paths@.len() ==> pending@[i] == #[trigger] paths@[i]@ && lines@[i
                        + 1]@ == "   "@ + utf8_lossy(paths@[i]@)
            },
        },
{
    let mut lines: Vec<String> = Vec::new();
    if paths.len() == 0 {
        lines.push("No files found for deletion.".to_owned());
        assert(string_views(lines@) == review_lines(path_views(paths@)));
        assert(string_views(lines@)[0] == lines@[0]@);
        return Review::Nothing(lines);
    }
    lines.push("Files to be deleted:".to_owned());
    let mut i: usize = 0;
    assert(string_views(lines@) == review_lines(path_views(paths@)).take(1));
    while i < paths.len()
        invariant
            0 < paths@.len(),
            i <= paths@.len(),
            string_views(lines@) == review_lines(path_views(paths@)).take(i + 1),
        decreases paths@.len() - i,
    {
        let ghost before = lines@;
        let line = concat("   ", paths[i].display().as_str());
        lines.push(line);
        proof {
            assert(string_views(lines@) == string_views(before).push(line@));
            assert(review_lines(path_views(paths@))[i + 1] == line@);
            assert(string_views(lines@) == review_lines(path_views(paths@)).take(i + 2));
        }
        i = i + 1;
    }
    proof {
        let shown = string_views(lines@);
        law_review_shows_each_path(path_views(paths@));
        assert(shown == review_lines(path_views(paths@)));
        assert(shown.len() == lines@.len());
        assert(shown[0] == lines@[0]@);
        assert forall|j: int| 0 <= j < paths@.len() implies lines@[j + 1]@ == "   "@ + utf8_lossy(
            #[trigger] paths@[j]@,
        ) by {
            assert(shown[j + 1] == lines@[j + 1]@);
            assert(path_views(paths@)[j] == paths@[j]@);
        }
    }
    Review::Ask(lines, Pending { paths })
}

impl Pending {
    /// Decides by the answer to the question before the deletion. What is
    /// deleted is what was listed, and only after a yes.
    pub fn answered(self, reply: Result<bool, DialogError>) -> (r: Decision)
        ensures
            match r {
                Decision::Delete(paths) => {
                    &&& reply == Result::<bool, DialogError>::Ok(true)
                    &&& path_views(paths@) == self@
                },
                Decision::Keep(lines) => {
                    &&& reply != Result::<bool, DialogError>::Ok(true)
                    &&& string_views(lines@) == seq!["Aborted; no files were deleted."@]
                },
            },
    {
        if confirm_delete_files(reply) {
            Decision::Delete(self.paths)
        } else {
            let mut lines: Vec<String> = Vec::new();
            lines.push("Aborted; no files were deleted.".to_owned());
            assert(string_views(lines@) == seq!["Aborted; no files were deleted."@]);
            Decision::Keep(lines)
        }
    }
}

/// The line after a deletion.
pub fn completed_line() -> (r: String)
    ensures
        r@ == "Deletion completed."@,
{
    "Deletion completed.".to_owned()
}

/// Each path is shown before the question, on a line of its own, in order and
/// indented by three spaces, under a heading; and where there is none, that is
/// what is said.
pub proof fn law_review_shows_each_path(paths: Seq<Seq<u8>>)
    ensures
        paths.len() == 0 ==> review_lines(paths) == seq!["No files found for deletion."@],
        paths.len() > 0 ==> {
            &&& review_lines(paths).len() == paths.len() + 1
            &&& review_lines(paths)[0] == "Files to be deleted:"@
            &&& forall|i: int|
                0 <= i < paths.len() ==> {
                    let line = review_lines(paths)[i + 1];
                    &&& line.len() == 3 + utf8_lossy(#[trigger] paths[i]).len()
                    &&& line.skip(3) == utf8_lossy(paths[i])
                    &&& line.take(3) == seq![' ', ' ', ' ']
                }
        },
{
    reveal_strlit("   ");
    if paths.len() > 0 {
        assert forall|i: int| 0 <= i < paths.len() implies {
            let line = review_lines(paths)[i + 1];
            &&& line.len() == 3 + utf8_lossy(#[trigger] paths[i]).len()
            &&& line.skip(3) == utf8_lossy(paths[i])
            &&& line.take(3) == seq![' ', ' ', ' ']
        } by {
            let line = review_lines(paths)[i + 1];
            assert(line == "   "@ + utf8_lossy(paths[i]));
        }
    }
}

/// In a repository with an absolute path, each collected path is deleted where
/// it was collected, whatever the base of the deletion.
pub proof fn law_collected_is_deleted_in_place(
    repo: Seq<u8>,
    rel: Seq<u8>,
    scan: Scan,
    base: Seq<u8>,
)
    requires
        is_absolute(repo),
        names_relative_paths(scan),
    ensures
        collected(repo, rel, scan) matches Ok(all) ==> forall|i: int|
            0 <= i < all.len() ==> full_path(base, #[trigger] all[i]) == all[i],
{
    law_collected_paths_stay_inside(repo, rel, scan);
}

} // verus!
