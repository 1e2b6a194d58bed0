//! Picking a folder below a starting folder.
//!
//! `pick_folder` gives the first folder to read. What is read becomes a menu:
//! the current folder, the way back up, and the folders inside. What is chosen
//! leads to another folder, or ends the picking.

use crate::error::{DialogError, IoError, IoErrorView, PickerError, PickerErrorView};
use crate::path::{
    components, dot_dot, inside, is_absolute, is_entry_name, join, law_join_entry,
    law_parent_drops_last, law_parent_exists, law_parent_spelling, law_strip_spelling,
    law_strip_then_join, lead_spans, parent, same_path, spans, strip_prefix, FilePath, DOT, SLASH,
};
use crate::text::{
    concat, is_repair, law_ascii_byte_is_character, law_lossy_keeps_valid, law_text_order_total,
    read_lossy, sort_names, string_views, text_order, utf8_lossy, REPLACEMENT,
};
use vstd::prelude::*;
use vstd::relations::*;
use vstd::seq_lib::*;
use vstd::utf8::*;

verus! {

/// The label that stands for the current folder.
pub open spec fn here_label() -> Seq<char> {
    "[Select this folder]"@
}

/// The label that stands for the folder above.
pub open spec fn up_label() -> Seq<char> {
    ".."@
}

/// An entry of a folder: its name, and whether it is a folder, as far as that
/// could be found out.
#[derive(Debug)]
pub struct DirEntry {
    pub file_name: Vec<u8>,
    pub is_dir: Result<bool, IoError>,
}

/// An entry of a folder as it is read.
pub type ReadEntry = Result<DirEntry, IoError>;

/// Whether an entry is listed: it could be read, and is a folder for sure.
pub open spec fn is_listed(e: ReadEntry) -> bool {
    e matches Ok(d) && d.is_dir == Result::<bool, IoError>::Ok(true)
}

/// The names of the folders among the entries, in the order of the entries.
pub open spec fn folder_names(entries: Seq<ReadEntry>) -> Seq<Seq<char>>
    decreases entries.len(),
{
    if entries.len() == 0 {
        Seq::empty()
    } else {
        let before = folder_names(entries.drop_last());
        match entries.last() {
            Ok(d) => if is_listed(entries.last()) {
                before.push(utf8_lossy(d.file_name@))
            } else {
                before
            },
            Err(_) => before,
        }
    }
}

/// The labels of listed entries whose names are not valid UTF-8 are repairs of
/// those names. `subdirectories`, which reads them, ensures it of all entries.
pub open spec fn are_read(entries: Seq<ReadEntry>) -> bool {
    forall|i: int|
        0 <= i < entries.len() && is_listed(#[trigger] entries[i]) && !valid_utf8(
            entries[i]->Ok_0.file_name@,
        ) ==> is_repair(
            entries[i]->Ok_0.file_name@,
            utf8_lossy(entries[i]->Ok_0.file_name@),
        )
}

/// The menu for a folder with the given folders inside.
pub open spec fn menu(at_base: bool, names: Seq<Seq<char>>) -> Seq<Seq<char>> {
    (if at_base {
        seq![here_label()]
    } else {
        seq![here_label(), up_label()]
    }) + names.sort_by(text_order())
}

/// The names of the folders among the entries, in the order of the entries.
pub fn subdirectories(entries: &Vec<ReadEntry>) -> (r: Vec<String>)
    ensures
        string_views(r@) == folder_names(entries@),
        are_read(entries@),
        string_views(r@) == entries@.filter(readable_folder()).map_values(label_of()),
{
    let mut out: Vec<String> = Vec::new();
    let mut i: usize = 0;
    assert(string_views(out@) == folder_names(entries@.take(0)));
    while i < entries.len()
        invariant
            i <= entries@.len(),
            string_views(out@) == folder_names(entries@.take(i as int)),
            are_read(entries@.take(i as int)),
        decreases entries@.len() - i,
    {
        let ghost before = out@;
        proof {
            assert(entries@.take(i + 1).drop_last() == entries@.take(i as int));
            assert(entries@.take(i + 1).last() == entries@[i as int]);
        }
        if let Ok(entry) = &entries[i] {
            if let Ok(is_dir) = &entry.is_dir {
                if *is_dir {
                    let name = read_lossy(entry.file_name.as_slice());
                    out.push(name);
                    assert(string_views(out@) == string_views(before).push(name@));
                }
            }
        }
        proof {
            let seen = entries@.take(i + 1);
            assert forall|k: int| 0 <= k < seen.len() && is_listed(#[trigger] seen[k])
                && !valid_utf8(seen[k]->Ok_0.file_name@) implies is_repair(
                seen[k]->Ok_0.file_name@,
                utf8_lossy(seen[k]->Ok_0.file_name@),
            ) by {
                if k < i {
                    assert(seen[k] == entries@.take(i as int)[k]);
                }
            }
        }
        i = i + 1;
    }
    assert(entries@.take(i as int) == entries@);
    proof {
        law_every_folder_is_named(entries@);
    }
    out
}

/// The menu for a folder with the given folders inside.
pub fn build_menu(at_base: bool, names: Vec<String>) -> (r: Vec<String>)
    ensures
        string_views(r@) == menu(at_base, string_views(names@)),
{
    let mut sorted = sort_names(names);
    let ghost tail = string_views(sorted@);
    let mut items: Vec<String> = Vec::new();
    items.push("[Select this folder]".to_owned());
    if !at_base {
        items.push("..".to_owned());
    }
    let ghost head = items@;
    items.append(&mut sorted);
    proof {
        assert(string_views(items@) == string_views(head) + tail);
        if at_base {
            assert(string_views(head) == seq![here_label()]);
        } else {
            assert(string_views(head) == seq![here_label(), up_label()]);
        }
    }
    items
}

/// What comes back when a folder is read.
pub type ReadReply = Result<Seq<ReadEntry>, IoErrorView>;

/// What comes back from the menu.
pub type ChoiceReply = Result<usize, Seq<char>>;

/// The model of an answer about a folder.
pub open spec fn read_reply(r: Result<Vec<ReadEntry>, IoError>) -> ReadReply {
    match r {
        Ok(v) => Ok(v@),
        Err(e) => Err(e@),
    }
}

/// The model of an answer of the menu.
pub open spec fn choice_reply(r: Result<usize, DialogError>) -> ChoiceReply {
    match r {
        Ok(i) => Ok(i),
        Err(e) => Err(e@),
    }
}

/// A picking that waits for the entries of the current folder.
#[derive(Debug)]
pub struct Reading {
    base: FilePath,
    cwd: FilePath,
}

/// The model of a `Reading`: the starting folder and the current one.
pub struct ReadingView {
    pub base: Seq<u8>,
    pub cwd: Seq<u8>,
}

impl View for Reading {
    type V = ReadingView;

    closed spec fn view(&self) -> ReadingView {
        ReadingView { base: self.base@, cwd: self.cwd@ }
    }
}

/// A picking that waits for a choice from the menu.
#[derive(Debug)]
pub struct Choosing {
    base: FilePath,
    cwd: FilePath,
    items: Vec<String>,
}

/// The model of a `Choosing`: the starting folder, the current one, and the
/// menu.
pub struct ChoosingView {
    pub base: Seq<u8>,
    pub cwd: Seq<u8>,
    pub items: Seq<Seq<char>>,
}

impl View for Choosing {
    type V = ChoosingView;

    closed spec fn view(&self) -> ChoosingView {
        ChoosingView { base: self.base@, cwd: self.cwd@, items: string_views(self.items@) }
    }
}

/// The next thing to do in a picking.
#[derive(Debug)]
pub enum PickStep {
    /// Read the current folder.
    ReadDir(Reading),
    /// Let the user choose from the menu.
    Select(Choosing),
    /// Nothing: this is the outcome, relative to the starting folder.
    Done(Result<FilePath, PickerError>),
}

/// The model of a `PickStep`.
pub enum PickStepView {
    ReadDir(ReadingView),
    Select(ChoosingView),
    Done(Result<Seq<u8>, PickerErrorView>),
}

impl View for PickStep {
    type V = PickStepView;

    open spec fn view(&self) -> PickStepView {
        match self {
            PickStep::ReadDir(r) => PickStepView::ReadDir(r@),
            PickStep::Select(c) => PickStepView::Select(c@),
            PickStep::Done(Ok(p)) => PickStepView::Done(Ok(p@)),
            PickStep::Done(Err(e)) => PickStepView::Done(Err(e@)),
        }
    }
}

/// The step after the entries of the current folder were read.
pub open spec fn after_read(r: ReadingView, reply: ReadReply) -> PickStepView {
    match reply {
        Err(e) => PickStepView::Done(Err(PickerErrorView::Io(e))),
        Ok(entries) => PickStepView::Select(
            ChoosingView {
                base: r.base,
                cwd: r.cwd,
                items: menu(same_path(r.cwd, r.base), folder_names(entries)),
            },
        ),
    }
}

/// The step after a label of the menu was chosen.
pub open spec fn after_label(base: Seq<u8>, cwd: Seq<u8>, label: Seq<char>) -> PickStepView {
    if label == here_label() {
        match strip_prefix(cwd, base) {
            Some(rel) => PickStepView::Done(Ok(rel)),
            None => PickStepView::Done(Err(PickerErrorView::StripPrefixError)),
        }
    } else if label == up_label() {
        PickStepView::ReadDir(ReadingView { base, cwd: parent(cwd)->0 })
    } else {
        PickStepView::ReadDir(ReadingView { base, cwd: join(cwd, encode_utf8(label)) })
    }
}

/// The step after an answer of the menu.
pub open spec fn after_choice(c: ChoosingView, reply: ChoiceReply) -> PickStepView {
    match reply {
        Err(e) => PickStepView::Done(Err(PickerErrorView::DialoguerError(e))),
        Ok(i) => after_label(c.base, c.cwd, c.items[i as int]),
    }
}

/// Starts picking a folder below `start`.
pub fn pick_folder(start: &FilePath) -> (r: PickStep)
    ensures
        r@ == PickStepView::ReadDir(ReadingView { base: start@, cwd: start@ }),
        keeps_inside(r@),
{
    proof {
        law_picking_starts_at_base(start@);
    }
    PickStep::ReadDir(Reading { base: start.clone(), cwd: start.clone() })
}

impl Reading {
    /// The folder to read.
    pub fn folder(&self) -> (r: &FilePath)
        ensures
            r@ == self@.cwd,
    {
        &self.cwd
    }

    /// Goes on with the entries of the folder. Those that could not be read,
    /// or that are not known to be folders, are left out. A picking that has
    /// kept inside the starting folder goes on to do so, as long as the entries
    /// have names that entries can have.
    pub fn listed(self, reply: Result<Vec<ReadEntry>, IoError>) -> (r: PickStep)
        ensures
            r@ == after_read(self@, read_reply(reply)),
            reply matches Ok(entries) ==> are_read(entries@),
            reply matches Err(e) ==> (r matches PickStep::Done(Err(PickerError::Io(f))) && f@
                == e@),
            reply is Ok ==> (r matches PickStep::Select(c) && c@.base == self@.base && c@.cwd
                == self@.cwd),
            keeps_inside(PickStepView::ReadDir(self@)) && (reply matches Ok(entries)
                ==> have_folder_names(entries@)) ==> keeps_inside(r@),
    {
        let ghost here = self@;
        match reply {
            Err(e) => PickStep::Done(Err(PickerError::Io(e))),
            Ok(entries) => {
                let at_base = self.cwd.same_path(&self.base);
                let items = build_menu(at_base, subdirectories(&entries));
                proof {
                    if keeps_inside(PickStepView::ReadDir(here)) && have_folder_names(entries@) {
                        law_menu_keeps_inside(here, entries@);
                    }
                }
                PickStep::Select(Choosing { base: self.base, cwd: self.cwd, items })
            },
        }
    }
}

impl Choosing {
    /// The current folder.
    pub fn folder(&self) -> (r: &FilePath)
        ensures
            r@ == self@.cwd,
    {
        &self.cwd
    }

    /// The question to show above the menu.
    pub fn prompt(&self) -> (r: String)
        ensures
            r@ == "Current folder: "@ + utf8_lossy(self@.cwd),
    {
        concat("Current folder: ", self.cwd.display().as_str())
    }

    /// The menu.
    pub fn items(&self) -> (r: &Vec<String>)
        ensures
            string_views(r@) == self@.items,
    {
        &self.items
    }

    /// The place in the menu that is offered first.
    pub fn default_item(&self) -> (r: usize)
        ensures
            r == 0,
    {
        0
    }

    /// Goes on with the place in the menu that was chosen. A picking that has
    /// kept inside the starting folder goes on to do so.
    pub fn chosen(self, reply: Result<usize, DialogError>) -> (r: PickStep)
        requires
            reply matches Ok(i) ==> {
                &&& i < self@.items.len()
                &&& self@.items[i as int] == up_label() ==> parent(self@.cwd) is Some
            },
        ensures
            r@ == after_choice(self@, choice_reply(reply)),
            keeps_inside(PickStepView::Select(self@)) ==> keeps_inside(r@),
            reply matches Err(e) ==> (r matches PickStep::Done(Err(PickerError::DialoguerError(f)))
                && f@ == e@),
            reply is Ok ==> !(r is Select),
    {
        proof {
            if keeps_inside(PickStepView::Select(self@)) {
                law_choice_keeps_inside(self@, choice_reply(reply));
            }
        }
        match reply {
            Err(e) => PickStep::Done(Err(PickerError::DialoguerError(e))),
            Ok(i) => {
                let label = self.items[i].clone();
                assert(label@ == self@.items[i as int]);
                follow(self.base, self.cwd, label)
            },
        }
    }
}

/// Goes on with the chosen label.
fn follow(base: FilePath, cwd: FilePath, label: String) -> (r: PickStep)
    requires
        label@ == up_label() ==> parent(cwd@) is Some,
    ensures
        r@ == after_label(base@, cwd@, label@),
{
    if label == "[Select this folder]".to_owned() {
        return match cwd.strip_prefix(&base) {
            Some(rel) => PickStep::Done(Ok(rel)),
            None => PickStep::Done(Err(PickerError::StripPrefixError)),
        };
    }
    if label == "..".to_owned() {
        let above = cwd.parent().unwrap();
        return PickStep::ReadDir(Reading { base, cwd: above });
    }
    let entered = cwd.join(&FilePath::from_text(label.as_str()));
    PickStep::ReadDir(Reading { base, cwd: entered })
}

// ---------------------------------------------------------------------------
// Laws
// ---------------------------------------------------------------------------

/// The two fixed labels differ.
proof fn lemma_labels_differ()
    ensures
        here_label() != up_label(),
{
    reveal_strlit("[Select this folder]");
    reveal_strlit("..");
    assert(here_label().len() != up_label().len());
}

/// A name that a folder inside another can have: one of an entry, and not the
/// one for the folder above.
pub open spec fn is_folder_name(name: Seq<u8>) -> bool {
    is_entry_name(name) && name != dot_dot()
}

/// The label of a folder inside another.
pub open spec fn is_folder_label(label: Seq<char>) -> bool {
    is_folder_name(encode_utf8(label))
}

/// The label for the folder above is spelt as two dots, and no folder's.
proof fn lemma_up_label()
    ensures
        is_ascii_chars(up_label()),
        encode_utf8(up_label()) == dot_dot(),
        !is_folder_label(up_label()),
{
    reveal_strlit("..");
    assert(is_ascii_chars(up_label()));
    is_ascii_chars_encode_utf8(up_label());
    assert(encode_utf8(up_label()) == dot_dot());
}

/// A listed folder with a name in valid UTF-8 has its own name for a label,
/// which leads into it.
pub proof fn law_folder_gets_folder_label(name: Seq<u8>)
    requires
        is_folder_name(name),
        valid_utf8(name),
    ensures
        is_folder_label(utf8_lossy(name)),
        encode_utf8(utf8_lossy(name)) == name,
{
    law_lossy_keeps_valid(name);
}

/// A folder whose name is not valid UTF-8 has a label that a folder can have:
/// the repair adds no slash, and does not make a dot name of it.
pub proof fn law_repaired_name_is_folder_label(name: Seq<u8>, label: Seq<char>)
    requires
        is_folder_name(name),
        is_repair(name, label),
    ensures
        is_folder_label(label),
{
    let bytes = encode_utf8(label);
    encode_utf8_decode_utf8(label);
    let k = choose|k: int| 0 <= k < label.len() && label[k] == REPLACEMENT;
    assert forall|j: int| 0 <= j < bytes.len() implies bytes[j] != SLASH by {
        if bytes[j] == SLASH {
            law_ascii_byte_is_character(label, j);
            let i = choose|i: int|
                0 <= i < label.len() && #[trigger] label[i] as u32 == bytes[j] as u32;
            let at = choose|at: int|
                0 <= at < name.len() && #[trigger] name[at] as u32 == label[i] as u32;
            assert(name[at] == SLASH);
        }
    }
    assert(bytes.len() > 0) by {
        if bytes.len() == 0 {
            assert(decode_utf8(bytes) == Seq::<char>::empty());
        }
    }
    assert(bytes != seq![DOT]) by {
        lemma_not_spelled(label, seq!['.']);
        assert(encode_utf8(seq!['.']) == seq![DOT]) by {
            is_ascii_chars_encode_utf8(seq!['.']);
        }
    }
    assert(bytes != dot_dot()) by {
        lemma_up_label();
        lemma_not_spelled(label, up_label());
    }
}

/// Texts that differ in the replacement character are spelled differently.
proof fn lemma_not_spelled(label: Seq<char>, other: Seq<char>)
    requires
        label.contains(REPLACEMENT),
        is_ascii_chars(other),
    ensures
        encode_utf8(label) != encode_utf8(other),
{
    encode_utf8_decode_utf8(label);
    encode_utf8_decode_utf8(other);
    if label == other {
        let k = choose|k: int| 0 <= k < label.len() && label[k] == REPLACEMENT;
        assert(other[k] == REPLACEMENT);
    }
}

/// The listed entries have names that folders can have.
pub open spec fn have_folder_names(entries: Seq<ReadEntry>) -> bool {
    forall|i: int|
        0 <= i < entries.len() && is_listed(#[trigger] entries[i]) ==> is_folder_name(
            entries[i]->Ok_0.file_name@,
        )
}

/// Where the listed entries have names that folders can have, valid UTF-8 or
/// not, each of the listed names is the label of a folder.
pub proof fn law_listed_names_are_folder_labels(entries: Seq<ReadEntry>)
    requires
        have_folder_names(entries),
        are_read(entries),
    ensures
        forall|j: int|
            0 <= j < folder_names(entries).len() ==> is_folder_label(
                #[trigger] folder_names(entries)[j],
            ),
    decreases entries.len(),
{
    if entries.len() > 0 {
        let before = entries.drop_last();
        assert(have_folder_names(before) && are_read(before)) by {
            assert forall|i: int| 0 <= i < before.len() implies #[trigger] before[i]
                == entries[i] by {}
        }
        law_listed_names_are_folder_labels(before);
        if is_listed(entries[entries.len() - 1]) {
            let name = entries.last()->Ok_0.file_name@;
            if valid_utf8(name) {
                law_folder_gets_folder_label(name);
            } else {
                law_repaired_name_is_folder_label(name, utf8_lossy(name));
            }
        }
        let names = folder_names(before);
        assert forall|j: int| 0 <= j < folder_names(entries).len() implies is_folder_label(
            #[trigger] folder_names(entries)[j],
        ) by {
            if j < names.len() {
                assert(folder_names(entries)[j] == names[j]);
            } else {
                assert(is_listed(entries.last()));
            }
        }
    }
}

/// The folder is the starting one, or was reached from it by entering folders.
pub open spec fn is_below(base: Seq<u8>, cwd: Seq<u8>) -> bool {
    inside(base, cwd) && exists|stack: Seq<Seq<u8>>| reached(base, cwd, stack)
}

/// The menu offers the way up exactly away from the starting folder, behind the
/// current folder, and all that it offers leads to folders below the start.
pub open spec fn offers_only_below(c: ChoosingView) -> bool {
    &&& c.items.len() > 0
    &&& c.items[0] == here_label()
    &&& c.items.contains(up_label()) <==> !same_path(c.cwd, c.base)
    &&& !same_path(c.cwd, c.base) ==> c.items.len() > 1 && c.items[1] == up_label()
    &&& forall|i: int|
        0 <= i < c.items.len() ==> is_offered(c.base, c.cwd, #[trigger] c.items[i])
}

/// A picking that keeps inside the starting folder: the folder that it reads or
/// shows is that one or lies below it, the outcome leads down only, and a
/// failure is not that the current folder lies elsewhere.
pub open spec fn keeps_inside(step: PickStepView) -> bool {
    match step {
        PickStepView::ReadDir(r) => is_below(r.base, r.cwd),
        PickStepView::Select(c) => is_below(c.base, c.cwd) && offers_only_below(c),
        PickStepView::Done(Ok(rel)) => stays_below(rel),
        PickStepView::Done(Err(e)) => e is Io || e is DialoguerError,
    }
}

/// The menu for a folder below the starting one keeps inside it.
pub proof fn law_menu_keeps_inside(r: ReadingView, entries: Seq<ReadEntry>)
    requires
        keeps_inside(PickStepView::ReadDir(r)),
        have_folder_names(entries),
        are_read(entries),
    ensures
        keeps_inside(after_read(r, Ok(entries))),
{
    let names = folder_names(entries);
    let at_base = same_path(r.cwd, r.base);
    let items = menu(at_base, names);
    law_listed_names_are_folder_labels(entries);
    law_menu_contents(at_base, names);
    lemma_labels_differ();
    lemma_up_label();
    assert forall|i: int| 0 <= i < items.len() implies is_offered(
        r.base,
        r.cwd,
        #[trigger] items[i],
    ) by {
        law_menu_items_are_offered(r.base, r.cwd, names, i);
    }
    if !at_base {
        assert(items[1] == up_label());
        assert(items.contains(up_label()));
    } else if items.contains(up_label()) {
        let i = choose|i: int| 0 <= i < items.len() && items[i] == up_label();
        assert(is_offered(r.base, r.cwd, items[i]));
    }
}

/// Whatever is chosen from a menu that keeps inside the starting folder, the
/// picking goes on to do so; and the way up, where it is offered, exists.
pub proof fn law_choice_keeps_inside(c: ChoosingView, reply: ChoiceReply)
    requires
        keeps_inside(PickStepView::Select(c)),
        reply matches Ok(i) ==> i < c.items.len(),
    ensures
        reply matches Ok(i) && c.items[i as int] == up_label() ==> parent(c.cwd) is Some,
        keeps_inside(after_choice(c, reply)),
{
    if let Ok(i) = reply {
        let stack = choose|stack: Seq<Seq<u8>>| reached(c.base, c.cwd, stack);
        let label = c.items[i as int];
        assert(is_offered(c.base, c.cwd, label));
        law_choice(c.base, c.cwd, stack, label);
    }
}

/// An answer to a picking.
pub enum PickReply {
    Read(ReadReply),
    Chose(ChoiceReply),
}

/// The step after an answer.
pub open spec fn respond(step: PickStepView, reply: PickReply) -> PickStepView {
    match (step, reply) {
        (PickStepView::ReadDir(r), PickReply::Read(reply)) => after_read(r, reply),
        (PickStepView::Select(c), PickReply::Chose(reply)) => after_choice(c, reply),
        _ => step,
    }
}

/// The answer is one that can come: entries with names that entries can have,
/// or a place in the menu.
pub open spec fn can_come(step: PickStepView, reply: PickReply) -> bool {
    match (step, reply) {
        (PickStepView::ReadDir(_), PickReply::Read(Ok(entries))) => have_folder_names(entries)
            && are_read(entries),
        (PickStepView::Select(c), PickReply::Chose(Ok(i))) => i < c.items.len(),
        _ => true,
    }
}

/// The step after several answers.
pub open spec fn run(step: PickStepView, replies: Seq<PickReply>) -> PickStepView
    decreases replies.len(),
{
    if replies.len() == 0 {
        step
    } else {
        respond(run(step, replies.drop_last()), replies.last())
    }
}

/// Each of the answers is one that can come where it does.
pub open spec fn all_can_come(step: PickStepView, replies: Seq<PickReply>) -> bool
    decreases replies.len(),
{
    replies.len() > 0 ==> {
        &&& all_can_come(step, replies.drop_last())
        &&& can_come(run(step, replies.drop_last()), replies.last())
    }
}

/// Whatever the folders hold and whatever is chosen, a picking never leaves the
/// starting folder: each folder that it reads or shows is that one or lies
/// below it, going up always finds a folder, and the outcome is a relative path
/// that leads down only, or a failure to read a folder or to show a menu.
pub proof fn law_picking_never_leaves_start(start: Seq<u8>, replies: Seq<PickReply>)
    requires
        all_can_come(
            PickStepView::ReadDir(ReadingView { base: start, cwd: start }),
            replies,
        ),
    ensures
        keeps_inside(
            run(PickStepView::ReadDir(ReadingView { base: start, cwd: start }), replies),
        ),
    decreases replies.len(),
{
    let first = PickStepView::ReadDir(ReadingView { base: start, cwd: start });
    if replies.len() == 0 {
        law_picking_starts_at_base(start);
    } else {
        law_picking_never_leaves_start(start, replies.drop_last());
        match (run(first, replies.drop_last()), replies.last()) {
            (PickStepView::ReadDir(r), PickReply::Read(Ok(entries))) => {
                law_menu_keeps_inside(r, entries);
            },
            (PickStepView::Select(c), PickReply::Chose(reply)) => {
                law_choice_keeps_inside(c, reply);
            },
            _ => {},
        }
    }
}

/// The items of a menu behind the fixed labels.
pub open spec fn listed_folders(at_base: bool, items: Seq<Seq<char>>) -> Seq<Seq<char>> {
    if at_base {
        items.skip(1)
    } else {
        items.skip(2)
    }
}

/// The menu starts with the current folder, offers the way up exactly away
/// from the starting folder, and holds each name as often as it was given, in
/// order.
pub proof fn law_menu_contents(at_base: bool, names: Seq<Seq<char>>)
    ensures
        menu(at_base, names)[0] == here_label(),
        !at_base ==> menu(at_base, names)[1] == up_label(),
        listed_folders(at_base, menu(at_base, names)).to_multiset() == names.to_multiset(),
        listed_folders(at_base, menu(at_base, names)).len() == names.len(),
        sorted_by(listed_folders(at_base, menu(at_base, names)), text_order()),
{
    law_text_order_total();
    names.lemma_sort_by_ensures(text_order());
    let sorted = names.sort_by(text_order());
    assert(listed_folders(at_base, menu(at_base, names)) == sorted);
    to_multiset_len(sorted);
    to_multiset_len(names);
}

/// The current folder was reached from the starting folder by entering the
/// folders of `stack`, one inside the other.
pub open spec fn reached(base: Seq<u8>, cwd: Seq<u8>, stack: Seq<Seq<u8>>) -> bool {
    &&& components(cwd) == components(base) + stack
    &&& forall|i: int| 0 <= i < stack.len() ==> is_folder_name(#[trigger] stack[i])
}

/// A choice that a menu offers: the current folder, the way up unless the
/// current folder is the starting one, or the name of an entry.
pub open spec fn is_offered(base: Seq<u8>, cwd: Seq<u8>, label: Seq<char>) -> bool {
    ||| label == here_label()
    ||| label == up_label() && !same_path(cwd, base)
    ||| is_folder_label(label)
}

/// A path that leads down only: it is relative, and no component leads up.
pub open spec fn stays_below(rel: Seq<u8>) -> bool {
    !is_absolute(rel) && !components(rel).contains(dot_dot())
}

/// A path whose components are all names of folders leads down only.
proof fn lemma_stays_below(rel: Seq<u8>)
    requires
        forall|i: int|
            0 <= i < components(rel).len() ==> is_folder_name(#[trigger] components(rel)[i]),
    ensures
        stays_below(rel),
{
    if is_absolute(rel) {
        assert(lead_spans(rel)[0] == (0int, 1int));
        assert(spans(rel)[0] == (0int, 1int));
        let first = components(rel)[0];
        assert(first == rel.subrange(0, 1));
        assert(first[0] == SLASH);
    }
    if components(rel).contains(dot_dot()) {
        let i = choose|i: int|
            0 <= i < components(rel).len() && components(rel)[i] == dot_dot();
        assert(is_folder_name(components(rel)[i]));
    }
}

/// Whatever is chosen from a menu, the picking stays inside the starting
/// folder and cannot fail. Choosing the current folder gives the folders that
/// were entered and not left, as a relative path that leads down only; going up
/// leaves the last of them; a name enters one more.
pub proof fn law_choice(base: Seq<u8>, cwd: Seq<u8>, stack: Seq<Seq<u8>>, label: Seq<char>)
    requires
        reached(base, cwd, stack),
        is_offered(base, cwd, label),
    ensures
        label == up_label() ==> parent(cwd) is Some,
        match after_label(base, cwd, label) {
            PickStepView::Done(r) => {
                &&& label == here_label()
                &&& r matches Ok(rel) && components(rel) == stack && same_path(join(base, rel), cwd)
                    && stays_below(rel)
            },
            PickStepView::Select(_) => false,
            PickStepView::ReadDir(next) => {
                &&& next.base == base
                &&& inside(base, next.cwd)
                &&& if label == up_label() {
                    stack.len() > 0 && reached(base, next.cwd, stack.drop_last())
                } else {
                    reached(base, next.cwd, stack.push(encode_utf8(label)))
                }
            },
        },
{
    lemma_labels_differ();
    lemma_up_label();
    let n = components(base).len() as int;
    let all = components(cwd);
    if label == here_label() {
        assert(inside(base, cwd)) by {
            assert(components(base) == all.subrange(0, n));
        }
        law_strip_then_join(cwd, base);
        let rel = strip_prefix(cwd, base)->0;
        assert(components(rel) == (components(base) + components(rel)).skip(n));
        assert(stack == (components(base) + stack).skip(n));
        assert(components(rel) == stack);
        lemma_stays_below(rel);
    } else if label == up_label() {
        assert(stack.len() > 0) by {
            if stack.len() == 0 {
                assert(components(base) + stack == components(base));
            }
        }
        law_parent_exists(cwd);
        assert(parent(cwd) is Some) by {
            if cwd.len() == 0 {
                assert(spans(cwd).len() == 0);
            }
            let root = seq![SLASH];
            if all == seq![root] {
                assert(all.last() == stack.last());
                assert(stack[stack.len() - 1] == root);
                assert(root[0] == SLASH);
                assert(is_folder_name(stack[stack.len() - 1]));
            }
        }
        law_parent_drops_last(cwd);
        let next = parent(cwd)->0;
        let left = stack.drop_last();
        assert(components(next) == components(base) + left);
        assert forall|i: int| 0 <= i < left.len() implies is_folder_name(#[trigger] left[i]) by {
            assert(left[i] == stack[i]);
        }
        assert(components(base) == components(next).subrange(0, n));
    } else {
        let name = encode_utf8(label);
        law_join_entry(cwd, name);
        let next = join(cwd, name);
        let more = stack.push(name);
        assert(components(next) == components(base) + more);
        assert forall|i: int| 0 <= i < more.len() implies is_folder_name(#[trigger] more[i]) by {
            if i < stack.len() {
                assert(more[i] == stack[i]);
            }
        }
        assert(components(base) == components(next).subrange(0, n));
    }
}

/// Every item of a menu is a choice that is offered, as long as the folders
/// inside have names that entries can have.
pub proof fn law_menu_items_are_offered(
    base: Seq<u8>,
    cwd: Seq<u8>,
    names: Seq<Seq<char>>,
    i: int,
)
    requires
        forall|j: int| 0 <= j < names.len() ==> is_folder_label(#[trigger] names[j]),
        0 <= i < menu(same_path(cwd, base), names).len(),
    ensures
        is_offered(base, cwd, menu(same_path(cwd, base), names)[i]),
{
    let at_base = same_path(cwd, base);
    let sorted = names.sort_by(text_order());
    let fixed: int = if at_base {
        1
    } else {
        2
    };
    if i >= fixed {
        law_text_order_total();
        names.lemma_sort_by_ensures(text_order());
        let label = menu(at_base, names)[i];
        assert(label == sorted[i - fixed]);
        assert(sorted.contains(label));
        assert(names.contains(label));
        let j = choose|j: int| 0 <= j < names.len() && names[j] == label;
        assert(is_folder_label(names[j]));
    }
}

/// A folder that was reached by choices from menus has a menu; whatever is
/// chosen from it is accepted, does not fail, and leads to the outcome or to
/// another folder that was reached so.
pub proof fn law_round(
    r: ReadingView,
    stack: Seq<Seq<u8>>,
    entries: Seq<ReadEntry>,
    i: usize,
)
    requires
        reached(r.base, r.cwd, stack),
        forall|j: int|
            0 <= j < folder_names(entries).len() ==> is_folder_label(
                #[trigger] folder_names(entries)[j],
            ),
    ensures
        after_read(r, Ok(entries)) matches PickStepView::Select(c) && (i < c.items.len() ==> {
            let label = c.items[i as int];
            &&& label == up_label() ==> parent(c.cwd) is Some
            &&& match after_choice(c, Ok(i)) {
                PickStepView::Done(outcome) => {
                    outcome matches Ok(rel) && components(rel) == stack && stays_below(rel)
                },
                PickStepView::Select(_) => false,
                PickStepView::ReadDir(next) => next.base == r.base && exists|more: Seq<Seq<u8>>|
                    reached(r.base, next.cwd, more),
            }
        }),
{
    let c = after_read(r, Ok(entries))->Select_0;
    if i < c.items.len() {
        let label = c.items[i as int];
        law_menu_items_are_offered(r.base, r.cwd, folder_names(entries), i as int);
        law_choice(r.base, r.cwd, stack, label);
    }
}

/// A picking starts in the starting folder.
pub proof fn law_picking_starts_at_base(base: Seq<u8>)
    ensures
        reached(base, base, Seq::empty()),
        same_path(base, base),
        is_below(base, base),
{
    let none = Seq::<Seq<u8>>::empty();
    assert(components(base) == components(base).subrange(0, components(base).len() as int));
    assert(components(base) + none == components(base));
    assert(reached(base, base, none));
}

/// Going up from a folder leads back to where it was entered from.
pub proof fn law_up_undoes_enter(cwd: Seq<u8>, name: Seq<u8>)
    requires
        is_entry_name(name),
    ensures
        parent(join(cwd, name)) is Some,
        same_path(parent(join(cwd, name))->0, cwd),
{
    let p = join(cwd, name);
    law_join_entry(cwd, name);
    law_parent_exists(p);
    assert(parent(p) is Some) by {
        if p.len() == 0 {
            assert(spans(p).len() == 0);
        }
        let root = seq![SLASH];
        if components(p) == seq![root] {
            assert(components(p).last() == name);
            assert(root[0] == SLASH);
        }
    }
    law_parent_drops_last(p);
    assert(components(cwd).push(name).drop_last() == components(cwd));
}

/// The folders that are entered and not left after the given choices.
pub open spec fn stack_after(labels: Seq<Seq<char>>) -> Seq<Seq<u8>>
    decreases labels.len(),
{
    if labels.len() == 0 {
        Seq::empty()
    } else {
        let before = stack_after(labels.drop_last());
        if labels.last() == up_label() {
            before.drop_last()
        } else {
            before.push(encode_utf8(labels.last()))
        }
    }
}

/// The current folder after the given choices.
pub open spec fn folder_after(base: Seq<u8>, labels: Seq<Seq<char>>) -> Seq<u8>
    decreases labels.len(),
{
    if labels.len() == 0 {
        base
    } else {
        let before = folder_after(base, labels.drop_last());
        match after_label(base, before, labels.last()) {
            PickStepView::ReadDir(r) => r.cwd,
            _ => before,
        }
    }
}

/// Each of the choices was offered when it was made, and none ends the
/// picking.
pub open spec fn are_offered(base: Seq<u8>, labels: Seq<Seq<char>>) -> bool
    decreases labels.len(),
{
    labels.len() > 0 ==> {
        let before = labels.drop_last();
        &&& are_offered(base, before)
        &&& is_offered(base, folder_after(base, before), labels.last())
        &&& labels.last() != here_label()
    }
}

/// After any choices that the menus offered, choosing the current folder gives
/// the folders that were entered and not left, in order, as a relative path
/// that leads down only.
pub proof fn law_picking_outcome(base: Seq<u8>, labels: Seq<Seq<char>>)
    requires
        are_offered(base, labels),
    ensures
        reached(base, folder_after(base, labels), stack_after(labels)),
        after_label(base, folder_after(base, labels), here_label()) matches PickStepView::Done(
            Ok(rel),
        ) && components(rel) == stack_after(labels) && stays_below(rel),
    decreases labels.len(),
{
    if labels.len() == 0 {
        law_picking_starts_at_base(base);
    } else {
        let before = labels.drop_last();
        law_picking_outcome(base, before);
        law_choice(base, folder_after(base, before), stack_after(before), labels.last());
    }
    law_choice(base, folder_after(base, labels), stack_after(labels), here_label());
}

// ---------------------------------------------------------------------------
// Menus and choices
// ---------------------------------------------------------------------------

/// An entry that could be read, and is a folder for sure.
pub open spec fn readable_folder() -> spec_fn(ReadEntry) -> bool {
    |e: ReadEntry| e matches Ok(d) && d.is_dir == Result::<bool, IoError>::Ok(true)
}

/// The name of an entry as it is shown.
pub open spec fn label_of() -> spec_fn(ReadEntry) -> Seq<char> {
    |e: ReadEntry| utf8_lossy(e->Ok_0.file_name@)
}

/// The names are those of the readable folders, all of them and no others, in
/// the order of the entries.
pub proof fn law_every_folder_is_named(entries: Seq<ReadEntry>)
    ensures
        folder_names(entries) == entries.filter(readable_folder()).map_values(label_of()),
        folder_names(entries).len() == entries.filter(readable_folder()).len(),
        forall|i: int|
            0 <= i < entries.len() && readable_folder()(#[trigger] entries[i])
                ==> folder_names(entries).contains(label_of()(entries[i])),
        forall|i: int|
            0 <= i < entries.len() ==> {
                &&& readable_folder()(#[trigger] entries[i]) <==> (entries[i] matches Ok(d)
                    && d.is_dir == Result::<bool, IoError>::Ok(true))
                &&& entries[i] matches Ok(d) ==> label_of()(entries[i]) == utf8_lossy(d.file_name@)
            },
    decreases entries.len(),
{
    let pred = readable_folder();
    let label = label_of();
    reveal(Seq::filter);
    let names = folder_names(entries);
    if entries.len() == 0 {
        assert(names == entries.filter(pred).map_values(label));
    } else {
        let before = entries.drop_last();
        let last = entries.last();
        law_every_folder_is_named(before);
        assert(pred(last) == is_listed(last));
        if pred(last) {
            assert(entries.filter(pred) == before.filter(pred).push(last));
            assert(before.filter(pred).push(last).map_values(label) == before.filter(
                pred,
            ).map_values(label).push(label(last)));
        } else {
            assert(entries.filter(pred) == before.filter(pred));
        }
        assert forall|i: int| 0 <= i < entries.len() && pred(#[trigger] entries[i]) implies
            names.contains(label(entries[i])) by {
            if i < before.len() {
                assert(before[i] == entries[i]);
                let old = folder_names(before);
                let k = choose|k: int| 0 <= k < old.len() && old[k] == label(entries[i]);
                assert(names[k] == old[k]);
            } else {
                assert(names[names.len() - 1] == label(last));
            }
        }
    }
}

/// The menu for a folder that was read shows that folder, offers it first, and
/// behind it and the way up each readable folder inside, as often as there is
/// one of its name, and nothing else, in the order of the bytes.
pub proof fn law_menu_offers_every_folder(r: ReadingView, entries: Seq<ReadEntry>)
    ensures
        after_read(r, Ok(entries)) matches PickStepView::Select(c) && {
            let fixed: int = if same_path(r.cwd, r.base) {
                1
            } else {
                2
            };
            let folders = c.items.skip(fixed);
            let names = entries.filter(readable_folder()).map_values(label_of());
            &&& c.base == r.base
            &&& c.cwd == r.cwd
            &&& c.items.len() == fixed + entries.filter(readable_folder()).len()
            &&& c.items[0] == "[Select this folder]"@
            &&& fixed == 2 ==> c.items[1] == ".."@
            &&& folders.to_multiset() == names.to_multiset()
            &&& sorted_by(folders, text_order())
            &&& forall|i: int|
                0 <= i < entries.len() && readable_folder()(#[trigger] entries[i])
                    ==> folders.contains(utf8_lossy(entries[i]->Ok_0.file_name@))
        },
{
    let at_base = same_path(r.cwd, r.base);
    let names = folder_names(entries);
    let c = after_read(r, Ok(entries))->Select_0;
    let fixed: int = if at_base {
        1
    } else {
        2
    };
    let folders = c.items.skip(fixed);
    law_every_folder_is_named(entries);
    law_menu_contents(at_base, names);
    assert(folders == listed_folders(at_base, c.items));
    assert(c.items.len() == fixed + names.len());
    assert forall|i: int| 0 <= i < entries.len() && readable_folder()(
        #[trigger] entries[i],
    ) implies folders.contains(utf8_lossy(entries[i]->Ok_0.file_name@)) by {
        let label = label_of()(entries[i]);
        assert(names.contains(label));
        to_multiset_contains(names, label);
        to_multiset_contains(folders, label);
    }
}

/// What is chosen is the item at the given place. The first label ends the
/// picking with the rest of the current folder behind the starting one, two
/// dots lead to the folder above, and any other label into the folder that it
/// names; the starting folder stays.
pub proof fn law_choice_follows_item(c: ChoosingView, i: usize)
    requires
        i < c.items.len(),
    ensures
        ({
            let label = c.items[i as int];
            let own = components(c.cwd);
            &&& label == "[Select this folder]"@ && inside(c.base, c.cwd) ==> (after_choice(
                c,
                Ok(i),
            ) matches PickStepView::Done(Ok(rel)) && components(rel) == own.skip(
                components(c.base).len() as int,
            ) && same_path(join(c.base, rel), c.cwd))
            &&& label == "[Select this folder]"@ && !inside(c.base, c.cwd) ==> (after_choice(
                c,
                Ok(i),
            ) matches PickStepView::Done(Err(e)) && e is StripPrefixError)
            &&& label == ".."@ && parent(c.cwd) is Some ==> (after_choice(
                c,
                Ok(i),
            ) matches PickStepView::ReadDir(next) && next.base == c.base && next.cwd.is_prefix_of(
                c.cwd,
            ) && own.len() > 0 && components(next.cwd) == own.drop_last())
            &&& label != "[Select this folder]"@ && label != ".."@ ==> (after_choice(
                c,
                Ok(i),
            ) matches PickStepView::ReadDir(next) && next.base == c.base && next.cwd == join(
                c.cwd,
                encode_utf8(label),
            ))
        }),
{
    lemma_labels_differ();
    law_strip_spelling(c.cwd, c.base);
    if inside(c.base, c.cwd) {
        law_strip_then_join(c.cwd, c.base);
    }
    if parent(c.cwd) is Some {
        law_parent_drops_last(c.cwd);
        law_parent_spelling(c.cwd);
        assert(spans(c.cwd).len() > 0);
    }
}

/// A folder that cannot be read, and a menu that cannot be shown, end the
/// picking with that failure, whatever it is.
pub proof fn law_failed_answer_ends_picking(
    r: ReadingView,
    io: IoErrorView,
    c: ChoosingView,
    dialog: Seq<char>,
)
    ensures
        after_read(r, Err(io)) matches PickStepView::Done(outcome) && outcome == Result::<
            Seq<u8>,
            PickerErrorView,
        >::Err(PickerErrorView::Io(io)),
        after_choice(c, Err(dialog)) matches PickStepView::Done(outcome) && outcome == Result::<
            Seq<u8>,
            PickerErrorView,
        >::Err(PickerErrorView::DialoguerError(dialog)),
{
}

/// The models of a step and of the answers say what they are.
pub proof fn law_picking_views(
    step: PickStep,
    read: Result<Vec<ReadEntry>, IoError>,
    choice: Result<usize, DialogError>,
)
    ensures
        match step {
            PickStep::ReadDir(r) => step@ == PickStepView::ReadDir(r@),
            PickStep::Select(c) => step@ == PickStepView::Select(c@),
            PickStep::Done(Ok(p)) => step@ matches PickStepView::Done(Ok(q)) && q == p@,
            PickStep::Done(Err(e)) => step@ matches PickStepView::Done(Err(f)) && f == e@,
        },
        read matches Ok(entries) ==> read_reply(read) == ReadReply::Ok(entries@),
        read matches Err(e) ==> read_reply(read) == ReadReply::Err(e@),
        choice matches Ok(i) ==> choice_reply(choice) == ChoiceReply::Ok(i),
        choice matches Err(e) ==> choice_reply(choice) == ChoiceReply::Err(e@),
{
}

} // verus!
