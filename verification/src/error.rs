//! What can go wrong, as plain values.

use crate::path::FilePath;
use crate::text::{concat, utf8_lossy};
use vstd::prelude::*;
use vstd::string::*;

verus! {

/// The kinds of I/O error, by the names that the standard library has for
/// them. Only `NotFound` is treated differently from the rest.
#[derive(Clone, Copy, Debug, PartialEq, Eq, Structural)]
pub enum IoErrorKind {
    /// What was asked for does not exist.
    NotFound,
    PermissionDenied,
    ConnectionRefused,
    ConnectionReset,
    HostUnreachable,
    NetworkUnreachable,
    ConnectionAborted,
    NotConnected,
    AddrInUse,
    AddrNotAvailable,
    NetworkDown,
    BrokenPipe,
    AlreadyExists,
    WouldBlock,
    NotADirectory,
    IsADirectory,
    DirectoryNotEmpty,
    ReadOnlyFilesystem,
    StaleNetworkFileHandle,
    InvalidInput,
    InvalidData,
    TimedOut,
    WriteZero,
    StorageFull,
    NotSeekable,
    QuotaExceeded,
    FileTooLarge,
    ResourceBusy,
    ExecutableFileBusy,
    Deadlock,
    CrossesDevices,
    TooManyLinks,
    ArgumentListTooLong,
    Interrupted,
    Unsupported,
    UnexpectedEof,
    OutOfMemory,
    /// Any other kind.
    Other,
}

/// An I/O error: its kind, and the text that describes it.
#[derive(Debug)]
pub struct IoError {
    pub kind: IoErrorKind,
    pub message: String,
}

/// The model of an `IoError`.
pub struct IoErrorView {
    pub kind: IoErrorKind,
    pub message: Seq<char>,
}

impl View for IoError {
    type V = IoErrorView;

    open spec fn view(&self) -> IoErrorView {
        IoErrorView { kind: self.kind, message: self.message@ }
    }
}

/// The codes of Git errors that are told apart.
#[derive(Clone, Copy, Debug, PartialEq, Eq, Structural)]
pub enum GitErrorCode {
    /// There is no such object, file or repository.
    NotFound,
    /// Any other code.
    Other,
}

/// An error of the Git library: its code, the number of its class, and the
/// text that describes it.
#[derive(Debug)]
pub struct GitError {
    pub code: GitErrorCode,
    pub class: u32,
    pub message: String,
}

/// The model of a `GitError`.
pub struct GitErrorView {
    pub code: GitErrorCode,
    pub class: u32,
    pub message: Seq<char>,
}

impl View for GitError {
    type V = GitErrorView;

    open spec fn view(&self) -> GitErrorView {
        GitErrorView { code: self.code, class: self.class, message: self.message@ }
    }
}

/// An error of a prompt, by the text that describes it.
#[derive(Debug)]
pub struct DialogError {
    pub message: String,
}

impl View for DialogError {
    type V = Seq<char>;

    open spec fn view(&self) -> Seq<char> {
        self.message@
    }
}

/// The errors of the library.
#[derive(Debug)]
pub enum PickerError {
    /// Reading a folder or running a command failed.
    Io(IoError),
    /// The Git library failed.
    Git2(GitError),
    /// A prompt failed.
    DialoguerError(DialogError),
    /// Deleting the path failed.
    DeleteError(FilePath, IoError),
    /// A folder does not lie below the folder that it was reached from.
    StripPrefixError,
    /// A path that has to be a text is none.
    NonUtf8Path,
}

/// The model of a `PickerError`.
pub enum PickerErrorView {
    Io(IoErrorView),
    Git2(GitErrorView),
    DialoguerError(Seq<char>),
    DeleteError(Seq<u8>, IoErrorView),
    StripPrefixError,
    NonUtf8Path,
}

impl View for PickerError {
    type V = PickerErrorView;

    open spec fn view(&self) -> PickerErrorView {
        match self {
            PickerError::Io(e) => PickerErrorView::Io(e@),
            PickerError::Git2(e) => PickerErrorView::Git2(e@),
            PickerError::DialoguerError(e) => PickerErrorView::DialoguerError(e@),
            PickerError::DeleteError(p, e) => PickerErrorView::DeleteError(p@, e@),
            PickerError::StripPrefixError => PickerErrorView::StripPrefixError,
            PickerError::NonUtf8Path => PickerErrorView::NonUtf8Path,
        }
    }
}

impl PickerErrorView {
    /// A Git error that says that something does not exist.
    pub open spec fn is_git_not_found(self) -> bool {
        self matches PickerErrorView::Git2(e) && e.code == GitErrorCode::NotFound
    }

    /// The text that describes the error to the user.
    pub open spec fn text(self) -> Seq<char> {
        match self {
            PickerErrorView::Io(e) => "I/O error: "@ + e.message,
            PickerErrorView::Git2(e) => "Git2 error: "@ + e.message,
            PickerErrorView::DialoguerError(m) => "Dialoguer error: "@ + m,
            PickerErrorView::DeleteError(p, e) => "failed to delete `"@ + utf8_lossy(p) + "`: "@
                + e.message,
            PickerErrorView::StripPrefixError => "failed to StripPrefixError"@,
            PickerErrorView::NonUtf8Path => "path is not valid UTF-8"@,
        }
    }
}

impl PickerError {
    /// Whether the Git library said that something does not exist.
    pub fn is_git_not_found(&self) -> (r: bool)
        ensures
            r == self@.is_git_not_found(),
            r <==> (self matches PickerError::Git2(e) && e.code == GitErrorCode::NotFound),
    {
        match self {
            PickerError::Git2(e) => e.code == GitErrorCode::NotFound,
            _ => false,
        }
    }

    /// The text that describes the error to the user.
    pub fn message(&self) -> (r: String)
        ensures
            r@ == self@.text(),
    {
        match self {
            PickerError::Io(e) => concat("I/O error: ", e.message.as_str()),
            PickerError::Git2(e) => concat("Git2 error: ", e.message.as_str()),
            PickerError::DialoguerError(e) => concat("Dialoguer error: ", e.message.as_str()),
            PickerError::DeleteError(p, e) => {
                let mut r: String = concat("failed to delete `", p.display().as_str());
                r.append("`: ");
                r.append(e.message.as_str());
                r
            },
            PickerError::StripPrefixError => "failed to StripPrefixError".to_owned(),
            PickerError::NonUtf8Path => "path is not valid UTF-8".to_owned(),
        }
    }
}

impl From<IoError> for PickerError {
    fn from(e: IoError) -> (r: Self) {
        PickerError::Io(e)
    }
}

impl vstd::std_specs::convert::FromSpecImpl<IoError> for PickerError {
    open spec fn obeys_from_spec() -> bool {
        true
    }

    open spec fn from_spec(e: IoError) -> Self {
        PickerError::Io(e)
    }
}

impl From<GitError> for PickerError {
    fn from(e: GitError) -> (r: Self) {
        PickerError::Git2(e)
    }
}

impl vstd::std_specs::convert::FromSpecImpl<GitError> for PickerError {
    open spec fn obeys_from_spec() -> bool {
        true
    }

    open spec fn from_spec(e: GitError) -> Self {
        PickerError::Git2(e)
    }
}

impl From<DialogError> for PickerError {
    fn from(e: DialogError) -> (r: Self) {
        PickerError::DialoguerError(e)
    }
}

impl vstd::std_specs::convert::FromSpecImpl<DialogError> for PickerError {
    open spec fn obeys_from_spec() -> bool {
        true
    }

    open spec fn from_spec(e: DialogError) -> Self {
        PickerError::DialoguerError(e)
    }
}

// ---------------------------------------------------------------------------
// Laws
// ---------------------------------------------------------------------------

/// The models of errors have all that the errors tell.
pub proof fn law_error_views(io: IoError, git: GitError, dialog: DialogError)
    ensures
        io@.kind == io.kind,
        io@.message == io.message@,
        git@.code == git.code,
        git@.class == git.class,
        git@.message == git.message@,
        dialog@ == dialog.message@,
{
}

/// The model of an error of the library says which one it is, and has all that
/// it tells.
pub proof fn law_picker_error_view(e: PickerError)
    ensures
        match e {
            PickerError::Io(io) => e@ matches PickerErrorView::Io(v) && v.kind == io.kind
                && v.message == io.message@,
            PickerError::Git2(git) => e@ matches PickerErrorView::Git2(v) && v.code == git.code
                && v.class == git.class && v.message == git.message@,
            PickerError::DialoguerError(dialog) => e@ == PickerErrorView::DialoguerError(
                dialog.message@,
            ),
            PickerError::DeleteError(p, io) => e@ matches PickerErrorView::DeleteError(q, v) && q
                == p@ && v.kind == io.kind && v.message == io.message@,
            PickerError::StripPrefixError => e@ is StripPrefixError,
            PickerError::NonUtf8Path => e@ is NonUtf8Path,
        },
{
}

/// `part` stands in `text` from the place `at` on.
pub open spec fn stands_at(text: Seq<char>, at: int, part: Seq<char>) -> bool {
    0 <= at && at + part.len() <= text.len() && text.subrange(at, at + part.len()) == part
}

/// The text of an error says where it comes from, and ends with all that is
/// told of it; that of a deletion names the path between the two.
pub proof fn law_error_text(e: PickerErrorView)
    ensures
        match e {
            PickerErrorView::Io(io) => {
                &&& stands_at(e.text(), 0, "I/O error: "@)
                &&& stands_at(e.text(), "I/O error: "@.len() as int, io.message)
                &&& e.text().len() == "I/O error: "@.len() + io.message.len()
            },
            PickerErrorView::Git2(git) => {
                &&& stands_at(e.text(), 0, "Git2 error: "@)
                &&& stands_at(e.text(), "Git2 error: "@.len() as int, git.message)
                &&& e.text().len() == "Git2 error: "@.len() + git.message.len()
            },
            PickerErrorView::DialoguerError(message) => {
                &&& stands_at(e.text(), 0, "Dialoguer error: "@)
                &&& stands_at(e.text(), "Dialoguer error: "@.len() as int, message)
                &&& e.text().len() == "Dialoguer error: "@.len() + message.len()
            },
            PickerErrorView::DeleteError(p, io) => {
                let at = "failed to delete `"@.len() as int;
                let behind = at + utf8_lossy(p).len();
                &&& stands_at(e.text(), 0, "failed to delete `"@)
                &&& stands_at(e.text(), at, utf8_lossy(p))
                &&& stands_at(e.text(), behind, "`: "@)
                &&& stands_at(e.text(), behind + "`: "@.len(), io.message)
                &&& e.text().len() == behind + "`: "@.len() + io.message.len()
            },
            PickerErrorView::StripPrefixError => e.text() == "failed to StripPrefixError"@,
            PickerErrorView::NonUtf8Path => e.text() == "path is not valid UTF-8"@,
        },
{
    let t = e.text();
    match e {
        PickerErrorView::Io(io) => {
            let n = "I/O error: "@.len() as int;
            assert(t.subrange(0, n) == "I/O error: "@);
            assert(t.subrange(n, n + io.message.len()) == io.message);
        },
        PickerErrorView::Git2(git) => {
            let n = "Git2 error: "@.len() as int;
            assert(t.subrange(0, n) == "Git2 error: "@);
            assert(t.subrange(n, n + git.message.len()) == git.message);
        },
        PickerErrorView::DialoguerError(message) => {
            let n = "Dialoguer error: "@.len() as int;
            assert(t.subrange(0, n) == "Dialoguer error: "@);
            assert(t.subrange(n, n + message.len()) == message);
        },
        PickerErrorView::DeleteError(p, io) => {
            let shown = utf8_lossy(p);
            let at = "failed to delete `"@.len() as int;
            let behind = at + shown.len();
            let last = behind + "`: "@.len();
            assert(t.subrange(0, at) == "failed to delete `"@);
            assert(t.subrange(at, behind) == shown);
            assert(t.subrange(behind, last) == "`: "@);
            assert(t.subrange(last, last + io.message.len()) == io.message);
        },
        _ => {},
    }
}

/// Git says that something does not exist exactly by the code for that,
/// whatever else it tells.
pub proof fn law_not_found_is_a_code(e: PickerErrorView, git: GitErrorView)
    ensures
        git.code == GitErrorCode::NotFound ==> PickerErrorView::Git2(git).is_git_not_found(),
        git.code == GitErrorCode::Other ==> !PickerErrorView::Git2(git).is_git_not_found(),
        !(e is Git2) ==> !e.is_git_not_found(),
{
}

} // verus!
