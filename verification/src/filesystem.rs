//! The notes directory as a value: where a note's file lies, and which notes
//! a directory tree holds.

use crate::notes::{Error, ErrorView};
use crate::paths::{ancestor_chain, ancestor_paths, note_dir, note_file};
use crate::text::{chars_of, push_all, same_chars, string_of};
use vstd::prelude::*;

verus! {

/// A note found on disk: its path, and when its file was last modified, in
/// seconds since the Unix epoch.
#[derive(Debug, Clone)]
pub struct FSNoteMetadata {
    pub path: String,
    pub mtime: u64,
}

/// An [`FSNoteMetadata`] as contracts see it.
pub struct FsNoteView {
    pub path: Seq<char>,
    pub mtime: u64,
}

impl View for FSNoteMetadata {
    type V = FsNoteView;

    open spec fn view(&self) -> FsNoteView {
        FsNoteView { path: self.path@, mtime: self.mtime }
    }
}

impl DeepView for FSNoteMetadata {
    type V = FsNoteView;

    open spec fn deep_view(&self) -> FsNoteView {
        self@
    }
}

/// A directory as it was read from disk: its name, when the `_index.md` in
/// it was last modified (if it holds one), and the directories in it.
#[derive(Debug)]
pub struct DirEntry {
    pub name: String,
    pub index_mtime: Option<u64>,
    pub children: Vec<DirEntry>,
}

/// The path of the note in a directory called `name` inside the directory of
/// the note `prefix`.
pub open spec fn child_prefix(prefix: Seq<char>, name: Seq<char>) -> Seq<char> {
    if prefix.len() == 0 {
        name
    } else {
        prefix + seq!['/'] + name
    }
}

/// The notes in `dir` and below, `dir` being the directory of the note
/// `prefix`: the note of `dir` itself where it holds an `_index.md`, then
/// those of its directories in turn. A directory called `_backups` is passed
/// over with all that is in it.
pub open spec fn scan_of(dir: DirEntry, prefix: Seq<char>) -> Seq<FsNoteView>
    decreases dir, dir.children.len() + 1,
{
    let own = match dir.index_mtime {
        Some(mtime) => seq![FsNoteView { path: prefix, mtime }],
        None => Seq::empty(),
    };
    own + scan_children(dir, prefix, dir.children.len() as int)
}

/// The notes in the first `n` directories of `dir` and below them.
pub open spec fn scan_children(dir: DirEntry, prefix: Seq<char>, n: int) -> Seq<FsNoteView>
    decreases dir, n,
{
    if n <= 0 || n > dir.children.len() {
        Seq::empty()
    } else {
        let child = dir.children[n - 1];
        let below = if child.name@ == "_backups"@ {
            Seq::empty()
        } else {
            scan_of(child, child_prefix(prefix, child.name@))
        };
        scan_children(dir, prefix, n - 1) + below
    }
}

/// The directories that a move of the note at `old_path` to `new_path`
/// renames, the first into the second; an error where either path is that of
/// the root note, which cannot move.
pub open spec fn move_of(root: Seq<char>, old_path: Seq<char>, new_path: Seq<char>) -> Result<
    (Seq<char>, Seq<char>),
    ErrorView,
> {
    if old_path.len() == 0 {
        Err(ErrorView::Io("Cannot rename root note"@))
    } else if new_path.len() == 0 {
        Err(ErrorView::Io("Cannot rename to root note"@))
    } else {
        Ok((note_dir(root, old_path), note_dir(root, new_path)))
    }
}

/// The notes directory: the one place below which every note lies.
#[derive(Debug)]
pub struct NoteFilesystem {
    root_path: String,
}

impl NoteFilesystem {
    /// The notes directory at `root_path`.
    pub fn new(root_path: &str) -> (fs: Self)
        ensures
            fs.root() == root_path@,
    {
        NoteFilesystem { root_path: string_of(&chars_of(root_path)) }
    }

    /// The path of the notes directory, as contracts see it.
    pub closed spec fn root(&self) -> Seq<char> {
        self.root_path@
    }

    /// The path of the notes directory.
    pub fn root_path(&self) -> (root: &str)
        ensures
            root@ == self.root(),
    {
        self.root_path.as_str()
    }

    /// The notes from the topmost ancestor of `path` down to `path` itself.
    pub fn get_ancestors(&self, path: &str) -> (chain: Vec<String>)
        ensures
            chain.deep_view() == ancestor_chain(path@),
    {
        ancestor_paths(path)
    }

    /// The file that holds the content of the note at `path`.
    pub fn note_to_fs_path(&self, path: &str) -> (file: String)
        ensures
            file@ == note_file(self.root(), path@),
    {
        let mut out = chars_of(self.root_path.as_str());
        let note = chars_of(path);
        if note.len() > 0 {
            push_all(&mut out, &chars_of("/"));
            push_all(&mut out, &note);
        }
        push_all(&mut out, &chars_of("/_index.md"));
        string_of(&out)
    }

    /// The directory of the note at `path`.
    pub fn note_to_dir_path(&self, path: &str) -> (dir: String)
        ensures
            dir@ == note_dir(self.root(), path@),
    {
        let mut out = chars_of(self.root_path.as_str());
        let note = chars_of(path);
        if note.len() > 0 {
            push_all(&mut out, &chars_of("/"));
            push_all(&mut out, &note);
        }
        string_of(&out)
    }

    /// The move on disk that renames the note at `old_path` to `new_path`
    /// with all that lies in its directory: the directory to rename, and
    /// what to rename it to. The root note cannot move, nor can a note take
    /// its place.
    pub fn rename_note(&self, old_path: &str, new_path: &str) -> (dirs: Result<
        (String, String),
        Error,
    >)
        ensures
            match move_of(self.root(), old_path@, new_path@) {
                Ok(pair) => dirs is Ok && dirs->Ok_0.0@ == pair.0 && dirs->Ok_0.1@ == pair.1,
                Err(e) => dirs is Err && dirs->Err_0@ == e,
            },
    {
        if old_path.unicode_len() == 0 {
            return Err(Error::Io("Cannot rename root note".to_string()));
        }
        if new_path.unicode_len() == 0 {
            return Err(Error::Io("Cannot rename to root note".to_string()));
        }
        Ok((self.note_to_dir_path(old_path), self.note_to_dir_path(new_path)))
    }

    /// The notes that the notes directory holds, `tree` being that directory
    /// as it was read from disk: every directory in it that holds an
    /// `_index.md`, each before those inside it, with its path below the
    /// notes directory. A directory called `_backups` is passed over with all
    /// that is in it.
    pub fn scan_all(&self, tree: &DirEntry) -> (notes: Vec<FSNoteMetadata>)
        ensures
            notes.deep_view() == scan_of(*tree, Seq::empty()),
    {
        let mut notes: Vec<FSNoteMetadata> = Vec::new();
        let prefix: Vec<char> = Vec::new();
        scan_dir(tree, &prefix, &mut notes);
        assert(Seq::<FsNoteView>::empty() + scan_of(*tree, Seq::empty()) =~= scan_of(
            *tree,
            Seq::empty(),
        ));
        notes
    }
}

/// Whether a scan goes into a directory of this name.
pub fn descends_into(name: &str) -> (r: bool)
    ensures
        r == (name@ != "_backups"@),
{
    !same_chars(&chars_of(name), &chars_of("_backups"))
}

/// Appends to `notes` the notes in `dir` and below, `dir` being the
/// directory of the note `prefix`.
fn scan_dir(dir: &DirEntry, prefix: &Vec<char>, notes: &mut Vec<FSNoteMetadata>)
    ensures
        final(notes).deep_view() == old(notes).deep_view() + scan_of(*dir, prefix@),
    decreases dir,
{
    let ghost start = notes.deep_view();
    let ghost own = match dir.index_mtime {
        Some(mtime) => seq![FsNoteView { path: prefix@, mtime }],
        None => Seq::empty(),
    };
    match dir.index_mtime {
        Some(mtime) => {
            notes.push(FSNoteMetadata { path: string_of(prefix), mtime });
        },
        None => {},
    }
    assert(notes.deep_view() =~= start + own + scan_children(*dir, prefix@, 0));
    let mut i: usize = 0;
    while i < dir.children.len()
        invariant
            i <= dir.children.len(),
            notes.deep_view() == start + own + scan_children(*dir, prefix@, i as int),
        decreases dir.children.len() - i,
    {
        let ghost before = notes.deep_view();
        let child = &dir.children[i];
        if descends_into(child.name.as_str()) {
            let mut inner = prefix.clone();
            if prefix.len() > 0 {
                inner.push('/');
            }
            push_all(&mut inner, &chars_of(child.name.as_str()));
            proof {
                assert(inner@ =~= child_prefix(prefix@, child.name@));
            }
            scan_dir(child, &inner, notes);
        }
        proof {
            let below = if child.name@ == "_backups"@ {
                Seq::<FsNoteView>::empty()
            } else {
                scan_of(*child, child_prefix(prefix@, child.name@))
            };
            assert(notes.deep_view() =~= before + below);
            assert(scan_children(*dir, prefix@, i + 1) == scan_children(*dir, prefix@, i as int)
                + below);
            assert(start + own + (scan_children(*dir, prefix@, i as int) + below) =~= (start + own
                + scan_children(*dir, prefix@, i as int)) + below);
        }
        i += 1;
    }
    assert(start + own + scan_children(*dir, prefix@, dir.children.len() as int) =~= start + (own
        + scan_children(*dir, prefix@, dir.children.len() as int)));
}

} // verus!
