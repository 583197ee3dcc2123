//! The operations of the notes API, as plans.
//!
//! An operation reads what it needs from the index and from the disk, and
//! then changes both. The functions here are the part in between: given what
//! was read, they say whether the operation may go ahead, and list the steps
//! that carry it out, in order. Steps on the file system always come before
//! steps on the index. Whoever runs a plan performs the steps one by one and
//! stops at the first that fails.

use crate::digest::{compute_hash, content_hash};
use crate::filesystem::{FSNoteMetadata, FsNoteView};
use crate::frecency::{calculate_frecency_score, frecency_micros};
use crate::index::{has_note, row_at, NoteIndex};
use crate::notes::{modified_of, Error, ErrorView, Note, NoteRow, NoteRowView, NoteView};
use crate::paths::{
    ancestor_chain, archive_path, archive_target, get_parent_path, lemma_ancestor_chain,
    parent_chars, parent_of, rebase, rebased, temp_target, unarchive_path, unarchive_target,
};
use crate::text::{
    chars_of, concat, decimal, lowercase, push_decimal, same_chars, string_of, to_lowercase,
};
use vstd::prelude::*;

verus! {

/// What a move in the index does to a row's archive flag.
#[derive(Debug, Clone, Copy, PartialEq, Eq, Structural)]
pub enum ArchiveMark {
    /// Nothing.
    Keep,
    /// The row is archived as of `at`, in seconds since the Unix epoch.
    Archived { at: i64 },
    /// The row is no longer archived.
    Restored,
}

/// One step of a plan.
#[derive(Debug)]
pub enum Step {
    /// On disk: create the note at `path` with empty content. Fails where
    /// its file exists.
    CreateNote { path: String },
    /// On disk: write `content` as the note at `path`, with the directories
    /// above it; what was there is overwritten.
    WriteNote { path: String, content: String },
    /// On disk: remove the directory of the note at `path` with all in it.
    DeleteNote { path: String },
    /// On disk: the same, where a failure does not count.
    DiscardNote { path: String },
    /// On disk: move the directory of the note at `path` to the system's
    /// trash.
    TrashNote { path: String },
    /// In the index: add a row for the note at `path`, not archived and
    /// never visited, and its entry in the full-text shadow.
    InsertRow {
        path: String,
        parent_path: Option<String>,
        mtime: i64,
        content_hash: String,
        content: String,
    },
    /// In the index: bring the row `id` of the note at `path` up to date,
    /// and replace its entry in the full-text shadow.
    RefreshRow {
        id: i64,
        path: String,
        parent_path: Option<String>,
        mtime: i64,
        content_hash: String,
        content: String,
    },
    /// In the index: the row at `from` moves to `to`, below `parent_path`.
    MoveRow { from: String, to: String, parent_path: Option<String>, mark: ArchiveMark },
    /// In the index: remove the row at `path` and every row below it.
    DeleteSubtree { path: String },
    /// In the index: remove the row at `path`.
    DeleteRow { path: String },
    /// In the index: record a visit in the row at `path`, which from now on
    /// holds these counts, this moment and this score.
    RecordAccess {
        path: String,
        access_count: i64,
        direct_access_count: i64,
        last_accessed_at: i64,
        frecency_score: i128,
    },
    /// Tell the embedder that frecency scores changed.
    AnnounceFrecency,
}

/// A [`Step`] as contracts see it.
pub enum StepView {
    CreateNote { path: Seq<char> },
    WriteNote { path: Seq<char>, content: Seq<char> },
    DeleteNote { path: Seq<char> },
    DiscardNote { path: Seq<char> },
    TrashNote { path: Seq<char> },
    InsertRow {
        path: Seq<char>,
        parent_path: Option<Seq<char>>,
        mtime: i64,
        content_hash: Seq<char>,
        content: Seq<char>,
    },
    RefreshRow {
        id: i64,
        path: Seq<char>,
        parent_path: Option<Seq<char>>,
        mtime: i64,
        content_hash: Seq<char>,
        content: Seq<char>,
    },
    MoveRow { from: Seq<char>, to: Seq<char>, parent_path: Option<Seq<char>>, mark: ArchiveMark },
    DeleteSubtree { path: Seq<char> },
    DeleteRow { path: Seq<char> },
    RecordAccess {
        path: Seq<char>,
        access_count: i64,
        direct_access_count: i64,
        last_accessed_at: i64,
        frecency_score: i128,
    },
    AnnounceFrecency,
}

/// An optional string as contracts see it.
pub open spec fn opt_view(s: Option<String>) -> Option<Seq<char>> {
    match s {
        Some(text) => Some(text@),
        None => None,
    }
}

impl View for Step {
    type V = StepView;

    open spec fn view(&self) -> StepView {
        match self {
            Step::CreateNote { path } => StepView::CreateNote { path: path@ },
            Step::WriteNote { path, content } => StepView::WriteNote {
                path: path@,
                content: content@,
            },
            Step::DeleteNote { path } => StepView::DeleteNote { path: path@ },
            Step::DiscardNote { path } => StepView::DiscardNote { path: path@ },
            Step::TrashNote { path } => StepView::TrashNote { path: path@ },
            Step::InsertRow { path, parent_path, mtime, content_hash, content } => {
                StepView::InsertRow {
                    path: path@,
                    parent_path: opt_view(*parent_path),
                    mtime: *mtime,
                    content_hash: content_hash@,
                    content: content@,
                }
            },
            Step::RefreshRow { id, path, parent_path, mtime, content_hash, content } => {
                StepView::RefreshRow {
                    id: *id,
                    path: path@,
                    parent_path: opt_view(*parent_path),
                    mtime: *mtime,
                    content_hash: content_hash@,
                    content: content@,
                }
            },
            Step::MoveRow { from, to, parent_path, mark } => StepView::MoveRow {
                from: from@,
                to: to@,
                parent_path: opt_view(*parent_path),
                mark: *mark,
            },
            Step::DeleteSubtree { path } => StepView::DeleteSubtree { path: path@ },
            Step::DeleteRow { path } => StepView::DeleteRow { path: path@ },
            Step::RecordAccess {
                path,
                access_count,
                direct_access_count,
                last_accessed_at,
                frecency_score,
            } => StepView::RecordAccess {
                path: path@,
                access_count: *access_count,
                direct_access_count: *direct_access_count,
                last_accessed_at: *last_accessed_at,
                frecency_score: *frecency_score,
            },
            Step::AnnounceFrecency => StepView::AnnounceFrecency,
        }
    }
}

impl DeepView for Step {
    type V = StepView;

    open spec fn deep_view(&self) -> StepView {
        self@
    }
}

/// The step works on the file system.
pub open spec fn on_disk(step: StepView) -> bool {
    step is CreateNote || step is WriteNote || step is DeleteNote || step is DiscardNote
        || step is TrashNote
}

/// No step on the file system follows a step on something else.
pub open spec fn disk_first(steps: Seq<StepView>) -> bool {
    forall|i: int, j: int|
        0 <= i < j < steps.len() && on_disk(#[trigger] steps[j]) ==> on_disk(#[trigger] steps[i])
}

/// A note below the one that an operation moves, with its content as it was
/// read.
#[derive(Debug, Clone)]
pub struct Descendant {
    pub path: String,
    pub content: String,
}

/// A [`Descendant`] as contracts see it.
pub struct DescendantView {
    pub path: Seq<char>,
    pub content: Seq<char>,
}

impl View for Descendant {
    type V = DescendantView;

    open spec fn view(&self) -> DescendantView {
        DescendantView { path: self.path@, content: self.content@ }
    }
}

impl DeepView for Descendant {
    type V = DescendantView;

    open spec fn deep_view(&self) -> DescendantView {
        self@
    }
}

/// How a rename goes about its work on disk.
#[derive(Debug, Clone, Copy, PartialEq, Eq, Structural)]
pub enum RenameKind {
    /// The new path differs from the old by more than letter case.
    Regular,
    /// Only the case of letters changes. On a file system that takes no
    /// account of case both paths name the same directory, so the note goes
    /// through a scratch path.
    CaseOnly,
}

/// The operation in which a step on the file system failed.
#[derive(Debug, Clone, Copy, PartialEq, Eq, Structural)]
pub enum Operation {
    Create,
    Get,
    Save,
    Delete,
    Trash,
    Rename,
    Archive,
    Unarchive,
    Sync,
    Rescan,
}

/// The two paths differ, but the two forms given for them do not.
pub open spec fn differ_in_form_only(
    old_path: Seq<char>,
    new_path: Seq<char>,
    old_form: Seq<char>,
    new_form: Seq<char>,
) -> bool {
    old_form == new_form && old_path != new_path
}

/// The two paths differ, and only in the case of letters: in lower case
/// they are the same.
pub open spec fn is_case_only(old_path: Seq<char>, new_path: Seq<char>) -> bool {
    differ_in_form_only(old_path, new_path, lowercase(old_path), lowercase(new_path))
}

/// Whether a note may be created at `path`: none stands there yet, and its
/// parent, if the path has one, is known.
pub open spec fn create_check(rows: Seq<NoteRowView>, path: Seq<char>) -> Result<(), ErrorView> {
    if has_note(rows, path) {
        Err(ErrorView::AlreadyExists(path))
    } else {
        match parent_of(path) {
            Some(parent) => if has_note(rows, parent) {
                Ok(())
            } else {
                Err(ErrorView::ParentNotFound(parent))
            },
            None => Ok(()),
        }
    }
}

/// Whether the note at `old_path` may be renamed to `new_path`, and how: it
/// must be known; and unless only letter case changes, no note may stand at
/// the new path.
pub open spec fn rename_check(rows: Seq<NoteRowView>, old_path: Seq<char>, new_path: Seq<char>)
    -> Result<RenameKind, ErrorView> {
    if !has_note(rows, old_path) {
        Err(ErrorView::NotFound(old_path))
    } else if is_case_only(old_path, new_path) {
        Ok(RenameKind::CaseOnly)
    } else if has_note(rows, new_path) {
        Err(ErrorView::AlreadyExists(new_path))
    } else {
        Ok(RenameKind::Regular)
    }
}

/// Each descendant written where it stands once the subtree has moved.
pub open spec fn writes_to(
    descendants: Seq<DescendantView>,
    old_root: Seq<char>,
    new_root: Seq<char>,
) -> Seq<StepView> {
    descendants.map_values(
        |d: DescendantView|
            StepView::WriteNote { path: rebased(d.path, old_root, new_root), content: d.content },
    )
}

/// The move of one row with its subtree.
pub open spec fn row_move(
    path: Seq<char>,
    old_root: Seq<char>,
    new_root: Seq<char>,
    mark: ArchiveMark,
) -> StepView {
    StepView::MoveRow {
        from: path,
        to: rebased(path, old_root, new_root),
        parent_path: parent_of(rebased(path, old_root, new_root)),
        mark,
    }
}

/// The moves in the index: the row at the root of the subtree first, then
/// each descendant's.
pub open spec fn index_moves(
    descendants: Seq<DescendantView>,
    old_root: Seq<char>,
    new_root: Seq<char>,
    mark: ArchiveMark,
) -> Seq<StepView> {
    seq![
        StepView::MoveRow {
            from: old_root,
            to: new_root,
            parent_path: parent_of(new_root),
            mark,
        },
    ] + descendants.map_values(|d: DescendantView| row_move(d.path, old_root, new_root, mark))
}

/// The steps of a rename. A regular rename writes the subtree at the new
/// path and then removes the old one. A rename that changes only letter case
/// writes the subtree at a scratch path first, removes the old one, writes
/// the new one and discards the scratch copy. Then the index follows.
pub open spec fn rename_plan(
    kind: RenameKind,
    old_path: Seq<char>,
    new_path: Seq<char>,
    content: Seq<char>,
    descendants: Seq<DescendantView>,
    stamp: u128,
) -> Seq<StepView> {
    match kind {
        RenameKind::Regular => seq![StepView::WriteNote { path: new_path, content }] + writes_to(
            descendants,
            old_path,
            new_path,
        ) + seq![StepView::DeleteNote { path: old_path }] + index_moves(
            descendants,
            old_path,
            new_path,
            ArchiveMark::Keep,
        ),
        RenameKind::CaseOnly => {
            let scratch = temp_target(old_path, decimal(stamp as nat));
            seq![StepView::WriteNote { path: scratch, content }] + writes_to(
                descendants,
                old_path,
                scratch,
            ) + seq![
                StepView::DeleteNote { path: old_path },
                StepView::WriteNote { path: new_path, content },
            ] + writes_to(descendants, old_path, new_path) + seq![
                StepView::DiscardNote { path: scratch },
            ] + index_moves(descendants, old_path, new_path, ArchiveMark::Keep)
        },
    }
}

/// The steps that move the subtree at `path` to `target`: the descendants
/// are written at their new places, then the note itself; the old directory
/// is removed; the index follows.
pub open spec fn relocation_plan(
    path: Seq<char>,
    target: Seq<char>,
    content: Seq<char>,
    descendants: Seq<DescendantView>,
    mark: ArchiveMark,
) -> Seq<StepView> {
    writes_to(descendants, path, target) + seq![
        StepView::WriteNote { path: target, content },
        StepView::DeleteNote { path },
    ] + index_moves(descendants, path, target, mark)
}

/// The steps that archive the note at `path` as of `now`.
pub open spec fn archive_plan(
    path: Seq<char>,
    content: Seq<char>,
    descendants: Seq<DescendantView>,
    now: i64,
) -> Seq<StepView> {
    relocation_plan(path, archive_target(path), content, descendants, ArchiveMark::Archived { at: now })
}

/// The steps that bring the note at `path` back from the archive; an error
/// where the path names no archived note.
pub open spec fn unarchive_plan(
    path: Seq<char>,
    content: Seq<char>,
    descendants: Seq<DescendantView>,
) -> Result<Seq<StepView>, ErrorView> {
    match unarchive_target(path) {
        Some(target) => Ok(
            relocation_plan(path, target, content, descendants, ArchiveMark::Restored),
        ),
        None => Err(ErrorView::NotFound(path)),
    }
}

/// The seconds of a file's modification time as the index keeps them.
pub open spec fn mtime_column(mtime: u64) -> i64 {
    mtime as i64
}

/// What a sync does to the index for a note found on disk with this content:
/// nothing where the index has the note with the digest of this content; a
/// refresh where it has the note with another digest; a new row where it
/// does not have the note.
pub open spec fn sync_plan(
    path: Seq<char>,
    mtime: u64,
    content: Seq<char>,
    existing: Option<NoteRowView>,
) -> Option<StepView> {
    match existing {
        Some(row) => if row.content_hash == content_hash(content) {
            None
        } else {
            Some(
                StepView::RefreshRow {
                    id: row.id,
                    path,
                    parent_path: parent_of(path),
                    mtime: mtime_column(mtime),
                    content_hash: content_hash(content),
                    content,
                },
            )
        },
        None => Some(
            StepView::InsertRow {
                path,
                parent_path: parent_of(path),
                mtime: mtime_column(mtime),
                content_hash: content_hash(content),
                content,
            },
        ),
    }
}

/// When the first of the scanned notes with this path was modified.
pub open spec fn scanned_mtime(scanned: Seq<FsNoteView>, path: Seq<char>) -> Option<u64>
    decreases scanned.len(),
{
    if scanned.len() == 0 {
        None
    } else {
        match scanned_mtime(scanned.drop_last(), path) {
            Some(mtime) => Some(mtime),
            None => if scanned.last().path == path {
                Some(scanned.last().mtime)
            } else {
                None
            },
        }
    }
}

/// The rows to remove after a scan: those whose note the scan did not find,
/// in the order of the index.
pub open spec fn stale_rows(rows: Seq<NoteRowView>, scanned: Seq<FsNoteView>) -> Seq<StepView>
    decreases rows.len(),
{
    if rows.len() == 0 {
        Seq::empty()
    } else {
        let before = stale_rows(rows.drop_last(), scanned);
        if scanned_mtime(scanned, rows.last().path) is None {
            before.push(StepView::DeleteRow { path: rows.last().path })
        } else {
            before
        }
    }
}

/// The paths of the scanned notes, in the order of the scan.
pub open spec fn scanned_paths(scanned: Seq<FsNoteView>) -> Seq<Seq<char>> {
    scanned.map_values(|note: FsNoteView| note.path)
}

/// The counts of the row leave room for one more visit.
pub open spec fn countable(row: NoteRowView) -> bool {
    0 <= row.access_count < i64::MAX && row.direct_access_count < i64::MAX
}

/// The counts leave room for one more visit in every row in which a visit
/// to the note at `path` is recorded: the row of the note and the rows of
/// its ancestors.
pub open spec fn room_for_visit(rows: Seq<NoteRowView>, path: Seq<char>) -> bool {
    forall|i: int|
        0 <= i < rows.len() && ancestor_chain(path).contains((#[trigger] rows[i]).path)
            ==> countable(rows[i])
}

/// The record of one visit at `now` in `row`: one more access, the score of
/// that moment, and one more direct access where the visit was to the note
/// itself and not to one below it.
pub open spec fn visit(row: NoteRowView, now: i64, direct: bool) -> StepView {
    StepView::RecordAccess {
        path: row.path,
        access_count: (row.access_count + 1) as i64,
        direct_access_count: if direct {
            (row.direct_access_count + 1) as i64
        } else {
            row.direct_access_count
        },
        last_accessed_at: now,
        frecency_score: frecency_micros((row.access_count + 1) as i64, Some(now), now) as i128,
    }
}

/// The visits recorded in the ancestors of `path` that the index knows,
/// the nearest first.
pub open spec fn upward_visits(rows: Seq<NoteRowView>, path: Seq<char>, now: i64) -> Seq<StepView>
    decreases path.len(),
{
    match parent_of(path) {
        Some(parent) => if parent.len() < path.len() {
            let here = match row_at(rows, parent) {
                Some(row) => seq![visit(row, now, false)],
                None => Seq::empty(),
            };
            here + upward_visits(rows, parent, now)
        } else {
            Seq::empty()
        },
        None => Seq::empty(),
    }
}

/// The steps that record a visit to the note at `path`: a direct visit in
/// its own row, an indirect one in the row of each ancestor that the index
/// knows, and word to the embedder. None where the index lacks the note.
pub open spec fn access_plan(rows: Seq<NoteRowView>, path: Seq<char>, now: i64) -> Option<
    Seq<StepView>,
> {
    match row_at(rows, path) {
        Some(row) => Some(
            seq![visit(row, now, true)] + upward_visits(rows, path, now) + seq![
                StepView::AnnounceFrecency,
            ],
        ),
        None => None,
    }
}

/// How the failure of a step on the file system is reported: as a missing
/// note where a note was to be read, deleted or trashed; with the file
/// system's own words otherwise.
pub open spec fn disk_failure(during: Operation, path: Seq<char>, detail: Seq<char>) -> ErrorView {
    match during {
        Operation::Get | Operation::Delete | Operation::Trash => ErrorView::NotFound(path),
        _ => ErrorView::Io(detail),
    }
}

/// The operation changes notes; while it runs, the watcher does not react
/// to what changes on disk.
pub open spec fn changes_notes(operation: Operation) -> bool {
    !(operation is Get || operation is Sync || operation is Rescan)
}

/// The note that `get_note` hands out, from the content as read and the row
/// as found; an error where either is missing.
pub open spec fn note_of(path: Seq<char>, content: Option<Seq<char>>, row: Option<NoteRowView>)
    -> Result<NoteView, ErrorView> {
    match (content, row) {
        (Some(text), Some(found)) => Ok(
            NoteView { id: found.id, path, content: text, modified: modified_of(found.mtime) },
        ),
        _ => Err(ErrorView::NotFound(path)),
    }
}

fn text_of(s: &str) -> (r: String)
    ensures
        r@ == s@,
{
    string_of(&chars_of(s))
}

fn same_text(a: &str, b: &str) -> (r: bool)
    ensures
        r == (a@ == b@),
{
    same_chars(&chars_of(a), &chars_of(b))
}

/// Whether the two paths differ while the two forms given for them, such as
/// their lower case, do not.
pub fn differs_in_form_only(old_path: &str, new_path: &str, old_form: &str, new_form: &str) -> (r:
    bool)
    ensures
        r == differ_in_form_only(old_path@, new_path@, old_form@, new_form@),
{
    same_text(old_form, new_form) && !same_text(old_path, new_path)
}

/// Whether the two paths differ only in the case of letters.
pub fn is_case_only_rename(old_path: &str, new_path: &str) -> (r: bool)
    ensures
        r == is_case_only(old_path@, new_path@),
{
    let a = to_lowercase(old_path);
    let b = to_lowercase(new_path);
    differs_in_form_only(old_path, new_path, a.as_str(), b.as_str())
}

/// Whether the watcher is to be suppressed while the operation runs: it is
/// for every operation that changes notes.
pub fn suppresses_watcher(operation: Operation) -> (r: bool)
    ensures
        r == changes_notes(operation),
{
    match operation {
        Operation::Get | Operation::Sync | Operation::Rescan => false,
        _ => true,
    }
}

/// How the failure of a step on the file system is reported. `detail` is
/// what the file system said.
pub fn file_error(during: Operation, path: &str, detail: &str) -> (error: Error)
    ensures
        error@ == disk_failure(during, path@, detail@),
{
    match during {
        Operation::Get | Operation::Delete | Operation::Trash => Error::NotFound(text_of(path)),
        _ => Error::Io(text_of(detail)),
    }
}

/// The plan to create an empty note at `path`: its file is created; the sync
/// that follows puts it into the index. Refused where the index has a note
/// at `path`, or lacks the parent that the path names.
pub fn create_steps(index: &NoteIndex, path: &str) -> (plan: Result<Vec<Step>, Error>)
    ensures
        match create_check(index@, path@) {
            Ok(_) => plan is Ok && plan->Ok_0.deep_view() == seq![
                StepView::CreateNote { path: path@ },
            ],
            Err(e) => plan is Err && plan->Err_0@ == e,
        },
{
    if index.note_exists(path) {
        return Err(Error::AlreadyExists(text_of(path)));
    }
    match get_parent_path(path) {
        Some(parent) => {
            if !index.note_exists(parent.as_str()) {
                return Err(Error::ParentNotFound(parent));
            }
        },
        None => {},
    }
    let mut steps: Vec<Step> = Vec::new();
    steps.push(Step::CreateNote { path: text_of(path) });
    assert(steps.deep_view() =~= seq![StepView::CreateNote { path: path@ }]);
    Ok(steps)
}

/// The note that `get_note` hands out. `content` is the note's content where
/// it could be read, `row` its row where the index has one. Where either is
/// missing, no note stands at `path`.
pub fn assemble_note(path: &str, content: Option<&str>, row: Option<&NoteRow>) -> (note: Result<
    Note,
    Error,
>)
    ensures
        match note_of(
            path@,
            match content {
                Some(text) => Some(text@),
                None => None,
            },
            match row {
                Some(found) => Some(found@),
                None => None,
            },
        ) {
            Ok(n) => note is Ok && note->Ok_0@ == n,
            Err(e) => note is Err && note->Err_0@ == e,
        },
{
    match (content, row) {
        (Some(text), Some(found)) => Ok(
            Note {
                id: found.id,
                path: text_of(path),
                content: text_of(text),
                modified: #[verifier::truncate]
                (found.mtime as u64),
            },
        ),
        _ => Err(Error::NotFound(text_of(path))),
    }
}

/// The first step of saving `content` as the note at `path`: the write to
/// disk. The sync and the record of the visit follow it.
pub fn save_steps(path: &str, content: &str) -> (plan: Vec<Step>)
    ensures
        plan.deep_view() == seq![StepView::WriteNote { path: path@, content: content@ }],
{
    let mut steps: Vec<Step> = Vec::new();
    steps.push(Step::WriteNote { path: text_of(path), content: text_of(content) });
    assert(steps.deep_view() =~= seq![StepView::WriteNote { path: path@, content: content@ }]);
    steps
}

/// The plan to delete the note at `path` with all below it: from disk, then
/// from the index.
pub fn delete_steps(path: &str) -> (plan: Vec<Step>)
    ensures
        plan.deep_view() == seq![
            StepView::DeleteNote { path: path@ },
            StepView::DeleteSubtree { path: path@ },
        ],
{
    let mut steps: Vec<Step> = Vec::new();
    steps.push(Step::DeleteNote { path: text_of(path) });
    steps.push(Step::DeleteSubtree { path: text_of(path) });
    assert(steps.deep_view() =~= seq![
        StepView::DeleteNote { path: path@ },
        StepView::DeleteSubtree { path: path@ },
    ]);
    steps
}

/// The plan to move the note at `path` with all below it to the system's
/// trash, and to remove it from the index.
pub fn trash_steps(path: &str) -> (plan: Vec<Step>)
    ensures
        plan.deep_view() == seq![
            StepView::TrashNote { path: path@ },
            StepView::DeleteSubtree { path: path@ },
        ],
{
    let mut steps: Vec<Step> = Vec::new();
    steps.push(Step::TrashNote { path: text_of(path) });
    steps.push(Step::DeleteSubtree { path: text_of(path) });
    assert(steps.deep_view() =~= seq![
        StepView::TrashNote { path: path@ },
        StepView::DeleteSubtree { path: path@ },
    ]);
    steps
}

/// Whether the note at `old_path` may be renamed to `new_path`, and how.
pub fn check_rename(index: &NoteIndex, old_path: &str, new_path: &str) -> (kind: Result<
    RenameKind,
    Error,
>)
    ensures
        match rename_check(index@, old_path@, new_path@) {
            Ok(k) => kind == Ok::<RenameKind, Error>(k),
            Err(e) => kind is Err && kind->Err_0@ == e,
        },
{
    if !index.note_exists(old_path) {
        return Err(Error::NotFound(text_of(old_path)));
    }
    if is_case_only_rename(old_path, new_path) {
        return Ok(RenameKind::CaseOnly);
    }
    if index.note_exists(new_path) {
        return Err(Error::AlreadyExists(text_of(new_path)));
    }
    Ok(RenameKind::Regular)
}

/// Appends the write of each descendant at its place below `new_root`.
fn push_writes(
    steps: &mut Vec<Step>,
    descendants: &Vec<Descendant>,
    old_root: &Vec<char>,
    new_root: &Vec<char>,
)
    ensures
        final(steps).deep_view() == old(steps).deep_view() + writes_to(
            descendants.deep_view(),
            old_root@,
            new_root@,
        ),
{
    let ghost start = steps.deep_view();
    let ghost all = descendants.deep_view();
    let mut i: usize = 0;
    assert(start + writes_to(all.take(0), old_root@, new_root@) =~= start);
    while i < descendants.len()
        invariant
            i <= descendants.len(),
            all == descendants.deep_view(),
            steps.deep_view() == start + writes_to(all.take(i as int), old_root@, new_root@),
        decreases descendants.len() - i,
    {
        let d = &descendants[i];
        let moved = rebase(&chars_of(d.path.as_str()), old_root, new_root);
        let ghost before = steps.deep_view();
        let step = Step::WriteNote { path: string_of(&moved), content: d.content.clone() };
        steps.push(step);
        proof {
            assert(all[i as int] == d@);
            assert(steps.deep_view() =~= before.push(step@));
            assert(writes_to(all.take(i + 1), old_root@, new_root@) =~= writes_to(
                all.take(i as int),
                old_root@,
                new_root@,
            ).push(step@));
        }
        i += 1;
    }
    assert(all.take(descendants.len() as int) =~= all);
}

/// Appends the moves in the index: the root's, then each descendant's.
fn push_moves(
    steps: &mut Vec<Step>,
    descendants: &Vec<Descendant>,
    old_root: &Vec<char>,
    new_root: &Vec<char>,
    mark: ArchiveMark,
)
    ensures
        final(steps).deep_view() == old(steps).deep_view() + index_moves(
            descendants.deep_view(),
            old_root@,
            new_root@,
            mark,
        ),
{
    let ghost start = steps.deep_view();
    let ghost all = descendants.deep_view();
    let ghost first = StepView::MoveRow {
        from: old_root@,
        to: new_root@,
        parent_path: parent_of(new_root@),
        mark,
    };
    let ghost each = |d: DescendantView| row_move(d.path, old_root@, new_root@, mark);
    let parent = match parent_chars(new_root) {
        Some(p) => Some(string_of(&p)),
        None => None,
    };
    steps.push(
        Step::MoveRow { from: string_of(old_root), to: string_of(new_root), parent_path: parent, mark },
    );
    assert(steps.deep_view() =~= start + seq![first] + all.take(0).map_values(each));
    let mut i: usize = 0;
    while i < descendants.len()
        invariant
            i <= descendants.len(),
            all == descendants.deep_view(),
            each == |d: DescendantView| row_move(d.path, old_root@, new_root@, mark),
            steps.deep_view() == start + seq![first] + all.take(i as int).map_values(each),
        decreases descendants.len() - i,
    {
        let d = &descendants[i];
        let moved = rebase(&chars_of(d.path.as_str()), old_root, new_root);
        let parent = match parent_chars(&moved) {
            Some(p) => Some(string_of(&p)),
            None => None,
        };
        let ghost before = steps.deep_view();
        let step = Step::MoveRow {
            from: d.path.clone(),
            to: string_of(&moved),
            parent_path: parent,
            mark,
        };
        steps.push(step);
        proof {
            assert(all[i as int] == d@);
            assert(step@ == each(d@));
            assert(steps.deep_view() =~= before.push(step@));
            assert(all.take(i + 1).map_values(each) =~= all.take(i as int).map_values(each).push(
                step@,
            ));
        }
        i += 1;
    }
    proof {
        assert(all.take(descendants.len() as int) =~= all);
        assert(start + seq![first] + all.map_values(each) =~= start + index_moves(
            all,
            old_root@,
            new_root@,
            mark,
        ));
    }
}

/// The plan of a rename that [`check_rename`] has let pass. `content` is the
/// content of the note at `old_path`; `descendants` are the notes that the
/// index lists below it, each with its content (empty where it could not be
/// read); `stamp` is the time in nanoseconds, which names the scratch path
/// of a rename that changes only letter case.
pub fn rename_steps(
    kind: RenameKind,
    old_path: &str,
    new_path: &str,
    content: &str,
    descendants: &Vec<Descendant>,
    stamp: u128,
) -> (plan: Vec<Step>)
    ensures
        plan.deep_view() == rename_plan(
            kind,
            old_path@,
            new_path@,
            content@,
            descendants.deep_view(),
            stamp,
        ),
{
    let old_root = chars_of(old_path);
    let new_root = chars_of(new_path);
    let mut steps: Vec<Step> = Vec::new();
    match kind {
        RenameKind::Regular => {
            steps.push(Step::WriteNote { path: text_of(new_path), content: text_of(content) });
            let ghost s1 = steps.deep_view();
            assert(s1 =~= seq![StepView::WriteNote { path: new_path@, content: content@ }]);
            push_writes(&mut steps, descendants, &old_root, &new_root);
            let ghost s2 = steps.deep_view();
            steps.push(Step::DeleteNote { path: text_of(old_path) });
            let ghost s3 = steps.deep_view();
            assert(s3 =~= s2 + seq![StepView::DeleteNote { path: old_path@ }]);
            push_moves(&mut steps, descendants, &old_root, &new_root, ArchiveMark::Keep);
        },
        RenameKind::CaseOnly => {
            let mut scratch = concat(&old_root, &chars_of("_temp_"));
            push_decimal(&mut scratch, stamp);
            assert(scratch@ == temp_target(old_path@, decimal(stamp as nat)));
            steps.push(Step::WriteNote { path: string_of(&scratch), content: text_of(content) });
            let ghost s1 = steps.deep_view();
            assert(s1 =~= seq![StepView::WriteNote { path: scratch@, content: content@ }]);
            push_writes(&mut steps, descendants, &old_root, &scratch);
            let ghost s2 = steps.deep_view();
            steps.push(Step::DeleteNote { path: text_of(old_path) });
            steps.push(Step::WriteNote { path: text_of(new_path), content: text_of(content) });
            let ghost s3 = steps.deep_view();
            assert(s3 =~= s2 + seq![
                StepView::DeleteNote { path: old_path@ },
                StepView::WriteNote { path: new_path@, content: content@ },
            ]);
            push_writes(&mut steps, descendants, &old_root, &new_root);
            let ghost s4 = steps.deep_view();
            steps.push(Step::DiscardNote { path: string_of(&scratch) });
            let ghost s5 = steps.deep_view();
            assert(s5 =~= s4 + seq![StepView::DiscardNote { path: scratch@ }]);
            push_moves(&mut steps, descendants, &old_root, &new_root, ArchiveMark::Keep);
        },
    }
    steps
}

/// The steps that move the subtree at `path` to `target`.
fn relocation_steps(
    path: &str,
    target: &str,
    content: &str,
    descendants: &Vec<Descendant>,
    mark: ArchiveMark,
) -> (plan: Vec<Step>)
    ensures
        plan.deep_view() == relocation_plan(
            path@,
            target@,
            content@,
            descendants.deep_view(),
            mark,
        ),
{
    let old_root = chars_of(path);
    let new_root = chars_of(target);
    let mut steps: Vec<Step> = Vec::new();
    push_writes(&mut steps, descendants, &old_root, &new_root);
    let ghost s1 = steps.deep_view();
    assert(s1 =~= writes_to(descendants.deep_view(), path@, target@));
    steps.push(Step::WriteNote { path: text_of(target), content: text_of(content) });
    steps.push(Step::DeleteNote { path: text_of(path) });
    let ghost s2 = steps.deep_view();
    assert(s2 =~= s1 + seq![
        StepView::WriteNote { path: target@, content: content@ },
        StepView::DeleteNote { path: path@ },
    ]);
    push_moves(&mut steps, descendants, &old_root, &new_root, mark);
    steps
}

/// The plan to archive the note at `path` as of `now`: the note and all
/// below it move into the `_archive` folder beside the note, on disk and in
/// the index, where every row moved is marked as archived. `content` is the
/// note's content; `descendants` are the notes that the index lists below
/// it, each with its content.
pub fn archive_steps(path: &str, content: &str, descendants: &Vec<Descendant>, now: i64) -> (plan:
    Vec<Step>)
    ensures
        plan.deep_view() == archive_plan(path@, content@, descendants.deep_view(), now),
{
    let target = archive_path(path);
    relocation_steps(
        path,
        target.as_str(),
        content,
        descendants,
        ArchiveMark::Archived { at: now },
    )
}

/// The plan to bring the note at `path` back from the archive, with all
/// below it; every row moved is marked as no longer archived. Refused where
/// the path does not hold `/_archive/`.
pub fn unarchive_steps(path: &str, content: &str, descendants: &Vec<Descendant>) -> (plan: Result<
    Vec<Step>,
    Error,
>)
    ensures
        match unarchive_plan(path@, content@, descendants.deep_view()) {
            Ok(steps) => plan is Ok && plan->Ok_0.deep_view() == steps,
            Err(e) => plan is Err && plan->Err_0@ == e,
        },
{
    match unarchive_path(path) {
        Some(target) => Ok(
            relocation_steps(path, target.as_str(), content, descendants, ArchiveMark::Restored),
        ),
        None => Err(Error::NotFound(text_of(path))),
    }
}

/// When the scan found the note at `path` modified; an error where the scan
/// did not find it.
pub fn locate(scanned: &Vec<FSNoteMetadata>, path: &str) -> (mtime: Result<u64, Error>)
    ensures
        match scanned_mtime(scanned.deep_view(), path@) {
            Some(m) => mtime == Ok::<u64, Error>(m),
            None => mtime is Err && mtime->Err_0@ == ErrorView::NotFound(path@),
        },
{
    let wanted = chars_of(path);
    let ghost all = scanned.deep_view();
    let mut i: usize = 0;
    assert(all.take(0) =~= Seq::<FsNoteView>::empty());
    while i < scanned.len()
        invariant
            i <= scanned.len(),
            all == scanned.deep_view(),
            wanted@ == path@,
            scanned_mtime(all.take(i as int), path@) is None,
        decreases scanned.len() - i,
    {
        proof {
            assert(all.take(i + 1).drop_last() =~= all.take(i as int));
            assert(all.take(i + 1).last() == scanned@[i as int]@);
        }
        if same_chars(&chars_of(scanned[i].path.as_str()), &wanted) {
            proof {
                lemma_scanned_prefix(all, path@, i + 1);
            }
            return Ok(scanned[i].mtime);
        }
        i += 1;
    }
    assert(all.take(scanned.len() as int) =~= all);
    Err(Error::NotFound(text_of(path)))
}

/// What is found among the first notes of a scan is found in the whole scan.
pub proof fn lemma_scanned_prefix(scanned: Seq<FsNoteView>, path: Seq<char>, n: int)
    requires
        0 <= n <= scanned.len(),
        scanned_mtime(scanned.take(n), path) is Some,
    ensures
        scanned_mtime(scanned, path) == scanned_mtime(scanned.take(n), path),
    decreases scanned.len() - n,
{
    if n == scanned.len() {
        assert(scanned.take(n) =~= scanned);
    } else {
        assert(scanned.take(n + 1).drop_last() =~= scanned.take(n));
        lemma_scanned_prefix(scanned, path, n + 1);
    }
}

/// What a sync does to the index for the note at `path`, found on disk with
/// modification time `mtime` and content `content`. `existing` is the row
/// that the index has for the note, if any. `None` means that the index is
/// up to date; then nothing changes.
pub fn sync_step(path: &str, mtime: u64, content: &str, existing: Option<&NoteRow>) -> (step: Option<
    Step,
>)
    ensures
        match sync_plan(
            path@,
            mtime,
            content@,
            match existing {
                Some(row) => Some(row@),
                None => None,
            },
        ) {
            Some(s) => step is Some && step->0@ == s,
            None => step is None,
        },
{
    let hash = compute_hash(content);
    let column: i64 = #[verifier::truncate]
    (mtime as i64);
    match existing {
        Some(row) => {
            if same_text(row.content_hash.as_str(), hash.as_str()) {
                None
            } else {
                Some(
                    Step::RefreshRow {
                        id: row.id,
                        path: text_of(path),
                        parent_path: get_parent_path(path),
                        mtime: column,
                        content_hash: hash,
                        content: text_of(content),
                    },
                )
            }
        },
        None => Some(
            Step::InsertRow {
                path: text_of(path),
                parent_path: get_parent_path(path),
                mtime: column,
                content_hash: hash,
                content: text_of(content),
            },
        ),
    }
}

/// What a rescan does besides syncing: the notes to sync, and the rows to
/// remove afterwards.
#[derive(Debug)]
pub struct RescanPlan {
    /// The notes to sync, in this order: every note that the scan found.
    pub sync: Vec<String>,
    /// The steps that remove the rows whose note the scan did not find.
    pub remove: Vec<Step>,
}

/// The plan of a rescan, from the notes found on disk and the index as it
/// stood before.
pub fn rescan_steps(index: &NoteIndex, scanned: &Vec<FSNoteMetadata>) -> (plan: RescanPlan)
    ensures
        plan.sync.deep_view() == scanned_paths(scanned.deep_view()),
        plan.remove.deep_view() == stale_rows(index@, scanned.deep_view()),
{
    let ghost found = scanned.deep_view();
    let mut sync: Vec<String> = Vec::new();
    let mut i: usize = 0;
    while i < scanned.len()
        invariant
            i <= scanned.len(),
            found == scanned.deep_view(),
            sync.deep_view() == scanned_paths(found.take(i as int)),
        decreases scanned.len() - i,
    {
        let ghost before = sync.deep_view();
        sync.push(scanned[i].path.clone());
        proof {
            assert(sync.deep_view() =~= before.push(scanned@[i as int]@.path));
            assert(scanned_paths(found.take(i + 1)) =~= scanned_paths(found.take(i as int)).push(
                found[i as int].path,
            ));
        }
        i += 1;
    }
    assert(found.take(scanned.len() as int) =~= found);
    let mut remove: Vec<Step> = Vec::new();
    let mut k: usize = 0;
    assert(index@.take(0) =~= Seq::<NoteRowView>::empty());
    while k < index.rows.len()
        invariant
            k <= index.rows.len(),
            found == scanned.deep_view(),
            remove.deep_view() == stale_rows(index@.take(k as int), found),
        decreases index.rows.len() - k,
    {
        proof {
            assert(index@.take(k + 1).drop_last() =~= index@.take(k as int));
            assert(index@.take(k + 1).last() == index@[k as int]);
        }
        let row = &index.rows[k];
        if locate(scanned, row.path.as_str()).is_err() {
            let ghost before = remove.deep_view();
            let step = Step::DeleteRow { path: row.path.clone() };
            remove.push(step);
            assert(remove.deep_view() =~= before.push(step@));
        }
        k += 1;
    }
    assert(index@.take(index.rows.len() as int) =~= index@);
    RescanPlan { sync, remove }
}

/// Whether the counts leave room for one more visit in every row in which
/// a visit to the note at `path` is recorded.
pub fn has_room_for_visit(index: &NoteIndex, path: &str) -> (r: bool)
    ensures
        r == room_for_visit(index@, path@),
{
    let chain = crate::paths::ancestor_paths(path);
    let ghost names = ancestor_chain(path@);
    let mut i: usize = 0;
    while i < index.rows.len()
        invariant
            i <= index.rows.len(),
            chain.deep_view() == names,
            names == ancestor_chain(path@),
            forall|j: int|
                0 <= j < i && names.contains((#[trigger] index@[j]).path) ==> countable(index@[j]),
        decreases index.rows.len() - i,
    {
        let row = &index.rows[i];
        let fits = 0 <= row.access_count && row.access_count < i64::MAX && row.direct_access_count
            < i64::MAX;
        if !fits {
            let mut k: usize = 0;
            while k < chain.len()
                invariant
                    k <= chain.len(),
                    chain.deep_view() == names,
                    names == ancestor_chain(path@),
                    row@ == index@[i as int],
                    i < index.rows.len(),
                    !countable(row@),
                    forall|m: int| 0 <= m < k ==> names[m] != row@.path,
                decreases chain.len() - k,
            {
                assert(chain.deep_view()[k as int] == chain@[k as int]@);
                if same_text(chain[k].as_str(), row.path.as_str()) {
                    assert(names[k as int] == index@[i as int].path);
                    assert(names.contains(index@[i as int].path));
                    assert(!countable(index@[i as int]));
                    return false;
                }
                k += 1;
            }
            assert(!names.contains(row@.path));
        }
        i += 1;
    }
    true
}

/// The record of one visit at `now` in `row`.
fn visit_step(row: &NoteRow, now: i64, direct: bool) -> (step: Step)
    requires
        countable(row@),
    ensures
        step@ == visit(row@, now, direct),
{
    let count: i64 = row.access_count + 1;
    Step::RecordAccess {
        path: row.path.clone(),
        access_count: count,
        direct_access_count: if direct {
            row.direct_access_count + 1
        } else {
            row.direct_access_count
        },
        last_accessed_at: now,
        frecency_score: calculate_frecency_score(count, Some(now), now),
    }
}

/// The plan to record a visit at `now` to the note at `path`: one more
/// access in its row and in the row of each of its ancestors that the index
/// knows, the nearest first; one more direct access in its own row only;
/// and word to the embedder. Where the index lacks the note, the answer is
/// the error that a query without rows gives.
pub fn access_steps(index: &NoteIndex, path: &str, now: i64) -> (plan: Result<Vec<Step>, Error>)
    requires
        room_for_visit(index@, path@),
    ensures
        match access_plan(index@, path@, now) {
            Some(steps) => plan is Ok && plan->Ok_0.deep_view() == steps,
            None => plan is Err && plan->Err_0@ == ErrorView::Database("Query returned no rows"@),
        },
{
    let mut steps: Vec<Step> = Vec::new();
    match index.position(path) {
        Some(i) => {
            proof {
                crate::index::lemma_position_of(index@, path@);
                lemma_ancestor_chain(path@);
                assert(ancestor_chain(path@)[ancestor_chain(path@).len() - 1] == index@[i as int].path);
            }
            steps.push(visit_step(&index.rows[i], now, true));
        },
        None => {
            return Err(Error::Database("Query returned no rows".to_string()));
        },
    }
    let ghost first = steps.deep_view();
    assert(row_at(index@, path@) is Some && first =~= seq![
        visit(row_at(index@, path@)->0, now, true),
    ]);
    let mut current = chars_of(path);
    assert(first + upward_visits(index@, path@, now) =~= first + Seq::<StepView>::empty()
        + upward_visits(index@, current@, now));
    let ghost mut done: Seq<StepView> = Seq::empty();
    loop
        invariant
            room_for_visit(index@, path@),
            forall|a: Seq<char>| #[trigger]
                ancestor_chain(current@).contains(a) ==> ancestor_chain(path@).contains(a),
            row_at(index@, path@) is Some,
            first == seq![visit(row_at(index@, path@)->0, now, true)],
            steps.deep_view() == first + done,
            upward_visits(index@, path@, now) == done + upward_visits(index@, current@, now),
        decreases current.len(),
    {
        proof {
            crate::paths::lemma_parent_is_prefix(current@);
            lemma_ancestor_chain(current@);
        }
        match parent_chars(&current) {
            Some(parent) => {
                proof {
                    lemma_ancestor_chain(parent@);
                    let upper = ancestor_chain(parent@);
                    let whole = ancestor_chain(current@);
                    assert forall|a: Seq<char>| #[trigger] upper.contains(a) implies ancestor_chain(
                        path@,
                    ).contains(a) by {
                        let k = choose|k: int| 0 <= k < upper.len() && upper[k] == a;
                        assert(whole[k] == a);
                        assert(whole.contains(a));
                    }
                    assert(upper[upper.len() - 1] == parent@);
                    assert(upper.contains(parent@));
                }
                let name = string_of(&parent);
                let ghost before = steps.deep_view();
                let ghost here: Seq<StepView>;
                match index.position(name.as_str()) {
                    Some(i) => {
                        proof {
                            crate::index::lemma_position_of(index@, parent@);
                        }
                        let step = visit_step(&index.rows[i], now, false);
                        proof {
                            here = seq![step@];
                        }
                        steps.push(step);
                        assert(steps.deep_view() =~= before + here);
                    },
                    None => {
                        proof {
                            here = Seq::empty();
                        }
                        assert(steps.deep_view() =~= before + here);
                    },
                }
                proof {
                    assert(upward_visits(index@, current@, now) == here + upward_visits(
                        index@,
                        parent@,
                        now,
                    ));
                    assert(done + (here + upward_visits(index@, parent@, now)) =~= (done + here)
                        + upward_visits(index@, parent@, now));
                    assert(first + (done + here) =~= (first + done) + here);
                    done = done + here;
                }
                current = parent;
            },
            None => {
                let ghost before = steps.deep_view();
                steps.push(Step::AnnounceFrecency);
                proof {
                    assert(upward_visits(index@, current@, now) =~= Seq::<StepView>::empty());
                    assert(done + Seq::<StepView>::empty() =~= done);
                    assert(steps.deep_view() =~= before.push(StepView::AnnounceFrecency));
                    assert(steps.deep_view() =~= first + upward_visits(index@, path@, now) + seq![
                        StepView::AnnounceFrecency,
                    ]);
                }
                return Ok(steps);
            },
        }
    }
}

} // verus!
