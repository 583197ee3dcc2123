//! What the watcher decides when the file system reports a change.
//!
//! The one who listens to the file system hands each report to
//! [`classify_event`], does what the answer says (a rescan, or a sync of the
//! notes named) and asks [`notification_for`] what to tell the embedder.

use crate::paths::{is_descendant, last_segment, last_segment_chars, lies_below};
use crate::text::{chars_of, ends_with, same_chars, slice_of, starts_with, string_of};
use vstd::prelude::*;

verus! {

/// What the watcher tells the embedder.
#[derive(Debug, Clone)]
pub enum WatcherEvent {
    /// Notes were created, changed or removed.
    NotesChanged,
    /// Notes were renamed or moved.
    NotesRenamed,
    /// Frecency scores changed.
    FrecencyUpdated,
}

/// The kind of change that the file system reports.
#[derive(Debug, Clone, Copy, PartialEq, Eq, Structural)]
pub enum ChangeKind {
    /// Something was created.
    Create,
    /// Content or metadata changed.
    Modify,
    /// Something was renamed or moved.
    Rename,
    /// Something was removed.
    Remove,
    /// Anything else.
    Other,
}

/// One path that a report names, with what the disk says of it now.
#[derive(Debug, Clone)]
pub struct ChangedPath {
    /// The path as reported.
    pub path: String,
    /// It is a directory.
    pub is_dir: bool,
    /// It is a directory that holds an `_index.md`.
    pub holds_index: bool,
}

/// A [`ChangedPath`] as contracts see it.
pub struct ChangedPathView {
    pub path: Seq<char>,
    pub is_dir: bool,
    pub holds_index: bool,
}

impl View for ChangedPath {
    type V = ChangedPathView;

    open spec fn view(&self) -> ChangedPathView {
        ChangedPathView { path: self.path@, is_dir: self.is_dir, holds_index: self.holds_index }
    }
}

impl DeepView for ChangedPath {
    type V = ChangedPathView;

    open spec fn deep_view(&self) -> ChangedPathView {
        self@
    }
}

/// What to do about a report.
#[derive(Debug)]
pub enum WatcherAction {
    /// Nothing.
    Ignore,
    /// Reconcile the whole index with the disk.
    Rescan,
    /// Sync these notes, in this order.
    Sync(Vec<String>),
}

/// A [`WatcherAction`] as contracts see it.
pub enum WatcherActionView {
    Ignore,
    Rescan,
    Sync(Seq<Seq<char>>),
}

impl View for WatcherAction {
    type V = WatcherActionView;

    open spec fn view(&self) -> WatcherActionView {
        match self {
            WatcherAction::Ignore => WatcherActionView::Ignore,
            WatcherAction::Rescan => WatcherActionView::Rescan,
            WatcherAction::Sync(notes) => WatcherActionView::Sync(notes.deep_view()),
        }
    }
}

/// How the work that a report asked for ended.
#[derive(Debug, Clone, Copy, PartialEq, Eq, Structural)]
pub enum Completed {
    /// The rescan went through.
    Rescanned,
    /// The sync of one note went through; `changed` says whether the index
    /// had to change.
    Synced { changed: bool },
    /// The work failed.
    Failed,
}

/// The name belongs to the index store: its file or one of its journals.
pub open spec fn is_store_file(name: Seq<char>) -> bool {
    name == ".notes.db"@ || ".notes.db-"@.is_prefix_of(name)
}

/// One of the paths is a file of the index store.
pub open spec fn touches_store(paths: Seq<ChangedPathView>) -> bool {
    exists|i: int| 0 <= i < paths.len() && is_store_file(#[trigger] last_segment(paths[i].path))
}

/// The path is a note's `_index.md`, or a directory that holds one.
pub open spec fn is_note_related(changed: ChangedPathView) -> bool {
    last_segment(changed.path) == "_index.md"@ || (changed.is_dir && changed.holds_index)
}

/// One of the paths concerns a note.
pub open spec fn any_note_related(paths: Seq<ChangedPathView>) -> bool {
    exists|i: int| 0 <= i < paths.len() && is_note_related(#[trigger] paths[i])
}

/// What is left of `path` once `root` and the slash after it are taken off.
pub open spec fn below_root(root: Seq<char>, path: Seq<char>) -> Option<Seq<char>> {
    if path == root {
        Some(Seq::empty())
    } else if is_descendant(path, root) {
        Some(path.skip(root.len() as int + 1))
    } else {
        None
    }
}

/// The note that a changed path stands for, if any.
pub open spec fn note_path_for(root: Seq<char>, changed: ChangedPathView) -> Option<Seq<char>> {
    match below_root(root, changed.path) {
        None => None,
        Some(rest) => {
            if "/_index.md"@.is_suffix_of(rest) {
                Some(rest.take(rest.len() - "/_index.md"@.len()))
            } else if rest == "_index.md"@ {
                Some(Seq::empty())
            } else if changed.is_dir {
                Some(rest)
            } else {
                None
            }
        },
    }
}

/// The notes that the paths stand for, in the order of the paths.
pub open spec fn notes_to_sync(root: Seq<char>, paths: Seq<ChangedPathView>) -> Seq<Seq<char>>
    decreases paths.len(),
{
    if paths.len() == 0 {
        Seq::empty()
    } else {
        let before = notes_to_sync(root, paths.drop_last());
        match note_path_for(root, paths.last()) {
            Some(note) => before.push(note),
            None => before,
        }
    }
}

/// What the watcher does about a report. Reports on the index store's own
/// files, and reports that concern no note, are dropped. A rename calls for
/// a rescan. A creation, change or removal calls for a sync of the notes
/// concerned, unless the API is in the middle of an operation of its own.
pub open spec fn reaction(
    root: Seq<char>,
    kind: ChangeKind,
    paths: Seq<ChangedPathView>,
    suppressed: bool,
) -> WatcherActionView {
    if touches_store(paths) || !any_note_related(paths) {
        WatcherActionView::Ignore
    } else {
        match kind {
            ChangeKind::Rename => WatcherActionView::Rescan,
            ChangeKind::Create | ChangeKind::Modify | ChangeKind::Remove => {
                if suppressed {
                    WatcherActionView::Ignore
                } else {
                    WatcherActionView::Sync(notes_to_sync(root, paths))
                }
            },
            ChangeKind::Other => WatcherActionView::Ignore,
        }
    }
}

/// What the embedder hears once the work is done.
pub open spec fn notification(done: Completed) -> Option<WatcherEvent> {
    match done {
        Completed::Rescanned => Some(WatcherEvent::NotesRenamed),
        Completed::Synced { changed } => if changed {
            Some(WatcherEvent::NotesChanged)
        } else {
            None
        },
        Completed::Failed => None,
    }
}

/// Whether the name belongs to the index store.
pub fn names_store_file(name: &Vec<char>) -> (r: bool)
    ensures
        r == is_store_file(name@),
{
    let store = chars_of(".notes.db");
    let journal = chars_of(".notes.db-");
    same_chars(name, &store) || starts_with(name, &journal)
}

/// Whether the changed path concerns a note.
pub fn concerns_note(changed: &ChangedPath) -> (r: bool)
    ensures
        r == is_note_related(changed@),
{
    let path = chars_of(changed.path.as_str());
    let name = last_segment_chars(&path);
    let index = chars_of("_index.md");
    same_chars(&name, &index) || (changed.is_dir && changed.holds_index)
}

/// The note that a changed path stands for, if any.
pub fn note_path_of(root: &str, changed: &ChangedPath) -> (note: Option<String>)
    ensures
        match note {
            Some(n) => note_path_for(root@, changed@) == Some(n@),
            None => note_path_for(root@, changed@) is None,
        },
{
    let root_chars = chars_of(root);
    let path = chars_of(changed.path.as_str());
    let rest = if same_chars(&path, &root_chars) {
        Vec::new()
    } else if lies_below(&path, &root_chars) {
        let end = path.len();
        assert(root_chars@.len() + 1 <= end) by {
            assert((root_chars@ + seq!['/']).len() == root_chars@.len() + 1);
        }
        let r = slice_of(&path, root_chars.len() + 1, end);
        assert(path@.skip(root_chars@.len() as int + 1) =~= path@.subrange(
            root_chars@.len() as int + 1,
            path@.len() as int,
        ));
        r
    } else {
        return None;
    };
    assert(below_root(root@, changed@.path) == Some(rest@));
    let index_in_dir = chars_of("/_index.md");
    let index = chars_of("_index.md");
    if ends_with(&rest, &index_in_dir) {
        let note = slice_of(&rest, 0, rest.len() - index_in_dir.len());
        assert(rest@.take(rest@.len() - index_in_dir@.len()) =~= rest@.subrange(
            0,
            rest@.len() - index_in_dir@.len(),
        ));
        Some(string_of(&note))
    } else if same_chars(&rest, &index) {
        Some(String::new())
    } else if changed.is_dir {
        Some(string_of(&rest))
    } else {
        None
    }
}

/// What the watcher does about a report of `kind` that names `paths`, below
/// the notes directory `root`. `suppressed` says whether the API is in the
/// middle of an operation of its own.
pub fn classify_event(
    root: &str,
    kind: ChangeKind,
    paths: &Vec<ChangedPath>,
    suppressed: bool,
) -> (action: WatcherAction)
    ensures
        action@ == reaction(root@, kind, paths.deep_view(), suppressed),
        suppressed ==> !(action is Sync),
{
    let ghost views = paths.deep_view();
    let mut store = false;
    let mut related = false;
    let mut notes: Vec<String> = Vec::new();
    let mut i: usize = 0;
    assert(views.take(0) =~= Seq::<ChangedPathView>::empty());
    while i < paths.len()
        invariant
            i <= paths.len(),
            views == paths.deep_view(),
            store == touches_store(views.take(i as int)),
            related == any_note_related(views.take(i as int)),
            notes.deep_view() == notes_to_sync(root@, views.take(i as int)),
        decreases paths.len() - i,
    {
        let ghost before = views.take(i as int);
        let ghost after = views.take(i + 1);
        let changed = &paths[i];
        proof {
            assert(after.drop_last() =~= before);
            assert(after.last() == changed@);
        }
        let path = chars_of(changed.path.as_str());
        let name = last_segment_chars(&path);
        let is_store = names_store_file(&name);
        let is_related = concerns_note(changed);
        proof {
            if touches_store(before) {
                let k = choose|k: int|
                    0 <= k < before.len() && is_store_file(#[trigger] last_segment(before[k].path));
                assert(after[k] == before[k]);
            }
            if touches_store(after) && !is_store {
                let k = choose|k: int|
                    0 <= k < after.len() && is_store_file(#[trigger] last_segment(after[k].path));
                assert(before[k] == after[k]);
            }
            if is_store {
                assert(is_store_file(last_segment(after[i as int].path)));
            }
            if any_note_related(before) {
                let k = choose|k: int| 0 <= k < before.len() && is_note_related(#[trigger] before[k]);
                assert(after[k] == before[k]);
            }
            if any_note_related(after) && !is_related {
                let k = choose|k: int| 0 <= k < after.len() && is_note_related(#[trigger] after[k]);
                assert(before[k] == after[k]);
            }
            if is_related {
                assert(is_note_related(after[i as int]));
            }
        }
        store = store || is_store;
        related = related || is_related;
        let ghost listed = notes.deep_view();
        match note_path_of(root, changed) {
            Some(note) => {
                notes.push(note);
                assert(notes.deep_view() =~= listed.push(note@));
            },
            None => {},
        }
        i += 1;
    }
    assert(views.take(paths.len() as int) =~= views);
    if store || !related {
        return WatcherAction::Ignore;
    }
    match kind {
        ChangeKind::Rename => WatcherAction::Rescan,
        ChangeKind::Create | ChangeKind::Modify | ChangeKind::Remove => {
            if suppressed {
                WatcherAction::Ignore
            } else {
                WatcherAction::Sync(notes)
            }
        },
        ChangeKind::Other => WatcherAction::Ignore,
    }
}

/// What the embedder hears once the work that a report asked for is done: of
/// a rescan that went through, that notes were renamed; of a sync that
/// changed the index, that notes changed; of anything else, nothing.
pub fn notification_for(done: Completed) -> (event: Option<WatcherEvent>)
    ensures
        event == notification(done),
{
    match done {
        Completed::Rescanned => Some(WatcherEvent::NotesRenamed),
        Completed::Synced { changed } => if changed {
            Some(WatcherEvent::NotesChanged)
        } else {
            None
        },
        Completed::Failed => None,
    }
}

} // verus!
