//! The operations of the notes API, run against a store held in memory: a
//! map of files and a list of rows, on which each step of a plan is carried
//! out as its description says.

use std::collections::BTreeMap;

use zinnia_core::filesystem::{DirEntry, FSNoteMetadata, NoteFilesystem};
use zinnia_core::index::NoteIndex;
use zinnia_core::notes::{Error, Note, NoteMetadata, NoteRow, RankingMode};
use zinnia_core::watcher::{classify_event, ChangeKind, ChangedPath, WatcherAction};
use zinnia_core::ops::{
    access_steps, archive_steps, assemble_note, check_rename, create_steps, delete_steps,
    file_error, locate, rename_steps, rescan_steps, save_steps, sync_step, trash_steps,
    unarchive_steps, ArchiveMark, Descendant, Operation, Step,
};

struct NotesApi {
    files: BTreeMap<String, String>,
    mtimes: BTreeMap<String, u64>,
    rows: Vec<NoteRow>,
    next_id: i64,
    clock: u64,
    announced: usize,
    syncs: usize,
}

fn dir(name: &str) -> DirEntry {
    DirEntry { name: name.to_string(), index_mtime: None, children: Vec::new() }
}

fn below(path: &str, root: &str) -> bool {
    path == root || path.starts_with(&format!("{}/", root))
}

impl NotesApi {
    fn new() -> Self {
        NotesApi {
            files: BTreeMap::new(),
            mtimes: BTreeMap::new(),
            rows: Vec::new(),
            next_id: 1,
            clock: 1_700_000_000,
            announced: 0,
            syncs: 0,
        }
    }

    fn now(&self) -> i64 {
        self.clock as i64
    }

    fn index(&self) -> NoteIndex {
        NoteIndex { rows: self.rows.clone() }
    }

    fn row(&self, path: &str) -> NoteRow {
        self.rows.iter().find(|r| r.path == path).cloned().unwrap()
    }

    fn write_file(&mut self, path: &str, content: &str) {
        self.clock += 1;
        self.files.insert(path.to_string(), content.to_string());
        self.mtimes.insert(path.to_string(), self.clock);
    }

    fn remove_dir(&mut self, path: &str) -> bool {
        let doomed: Vec<String> =
            self.files.keys().filter(|k| path.is_empty() || below(k, path)).cloned().collect();
        for key in &doomed {
            self.files.remove(key);
            self.mtimes.remove(key);
        }
        !doomed.is_empty()
    }

    fn step(&mut self, step: Step, during: Operation) -> Result<(), Error> {
        match step {
            Step::CreateNote { path } => {
                if self.files.contains_key(&path) {
                    return Err(file_error(during, &path, "Note already exists"));
                }
                self.write_file(&path, "");
            }
            Step::WriteNote { path, content } => self.write_file(&path, &content),
            Step::DeleteNote { path } | Step::TrashNote { path } => {
                if !self.remove_dir(&path) {
                    return Err(file_error(during, &path, "No such file or directory"));
                }
            }
            Step::DiscardNote { path } => {
                self.remove_dir(&path);
            }
            Step::InsertRow { path, parent_path, mtime, content_hash, content: _ } => {
                assert!(self.rows.iter().all(|r| r.path != path), "path is unique");
                self.rows.push(NoteRow {
                    id: self.next_id,
                    path,
                    parent_path,
                    mtime,
                    content_hash,
                    archived: false,
                    archived_at: None,
                    access_count: 0,
                    direct_access_count: 0,
                    last_accessed_at: None,
                    frecency_score: 0,
                });
                self.next_id += 1;
            }
            Step::RefreshRow { id, path, parent_path, mtime, content_hash, content: _ } => {
                for row in self.rows.iter_mut().filter(|r| r.path == path) {
                    assert_eq!(row.id, id);
                    row.parent_path = parent_path.clone();
                    row.mtime = mtime;
                    row.content_hash = content_hash.clone();
                }
            }
            Step::MoveRow { from, to, parent_path, mark } => {
                for row in self.rows.iter_mut().filter(|r| r.path == from) {
                    row.path = to.clone();
                    row.parent_path = parent_path.clone();
                    match mark {
                        ArchiveMark::Keep => {}
                        ArchiveMark::Archived { at } => {
                            row.archived = true;
                            row.archived_at = Some(at);
                        }
                        ArchiveMark::Restored => {
                            row.archived = false;
                            row.archived_at = None;
                        }
                    }
                }
            }
            Step::DeleteSubtree { path } => self.rows.retain(|r| !below(&r.path, &path)),
            Step::DeleteRow { path } => self.rows.retain(|r| r.path != path),
            Step::RecordAccess {
                path,
                access_count,
                direct_access_count,
                last_accessed_at,
                frecency_score,
            } => {
                for row in self.rows.iter_mut().filter(|r| r.path == path) {
                    row.access_count = access_count;
                    row.direct_access_count = direct_access_count;
                    row.last_accessed_at = Some(last_accessed_at);
                    row.frecency_score = frecency_score;
                }
            }
            Step::AnnounceFrecency => self.announced += 1,
        }
        Ok(())
    }

    fn run(&mut self, steps: Vec<Step>, during: Operation) -> Result<(), Error> {
        let mut on_index = false;
        for step in steps {
            let disk = matches!(
                step,
                Step::CreateNote { .. }
                    | Step::WriteNote { .. }
                    | Step::DeleteNote { .. }
                    | Step::DiscardNote { .. }
                    | Step::TrashNote { .. }
            );
            assert!(disk || !on_index || !disk);
            if !disk {
                on_index = true;
            } else {
                assert!(!on_index, "a step on the disk follows a step on the index");
            }
            self.step(step, during)?;
        }
        Ok(())
    }

    fn tree(&self) -> DirEntry {
        let mut root = dir("");
        for (path, mtime) in &self.mtimes {
            let mut at = &mut root;
            if !path.is_empty() {
                for segment in path.split('/') {
                    let found = at.children.iter().position(|c| c.name == segment);
                    let i = match found {
                        Some(i) => i,
                        None => {
                            at.children.push(dir(segment));
                            at.children.len() - 1
                        }
                    };
                    at = &mut at.children[i];
                }
            }
            at.index_mtime = Some(*mtime);
        }
        root
    }

    fn scan(&self) -> Vec<FSNoteMetadata> {
        NoteFilesystem::new("/notes").scan_all(&self.tree())
    }

    fn read(&self, path: &str) -> Option<String> {
        self.files.get(path).cloned()
    }

    fn descendants_of(&self, path: &str, lenient: bool) -> Result<Vec<Descendant>, Error> {
        let mut found = Vec::new();
        for below_it in self.index().descendants(path) {
            let content = match self.read(&below_it) {
                Some(c) => c,
                None if lenient => String::new(),
                None => return Err(Error::Io("No such file or directory".to_string())),
            };
            found.push(Descendant { path: below_it, content });
        }
        Ok(found)
    }

    fn sync_note(&mut self, path: &str) -> Result<bool, Error> {
        self.syncs += 1;
        let scanned = self.scan();
        let mtime = locate(&scanned, path)?;
        let content = self.read(path).ok_or(Error::Io("unreadable".to_string()))?;
        let index = self.index();
        match sync_step(path, mtime, &content, index.row(path)) {
            Some(step) => {
                self.run(vec![step], Operation::Sync)?;
                Ok(true)
            }
            None => Ok(false),
        }
    }

    fn rescan(&mut self) -> Result<(), Error> {
        let scanned = self.scan();
        let plan = rescan_steps(&self.index(), &scanned);
        for path in &plan.sync {
            self.sync_note(path)?;
        }
        self.run(plan.remove, Operation::Rescan)
    }

    fn startup_sync(&mut self) -> Result<(), Error> {
        self.rescan()
    }

    fn record_access(&mut self, path: &str) -> Result<(), Error> {
        self.clock += 1;
        let steps = access_steps(&self.index(), path, self.now())?;
        self.run(steps, Operation::Get)
    }

    fn get_note_internal(&self, path: &str) -> Result<Note, Error> {
        let content = self.read(path);
        let index = self.index();
        assemble_note(path, content.as_deref(), index.row(path))
    }

    fn create_note(&mut self, path: &str) -> Result<Note, Error> {
        let steps = create_steps(&self.index(), path)?;
        self.run(steps, Operation::Create)?;
        self.sync_note(path)?;
        self.get_note_internal(path)
    }

    fn get_note(&mut self, path: &str) -> Result<Note, Error> {
        let note = self.get_note_internal(path)?;
        self.record_access(path)?;
        Ok(note)
    }

    fn save_note(&mut self, path: &str, content: &str) -> Result<(), Error> {
        self.run(save_steps(path, content), Operation::Save)?;
        self.sync_note(path)?;
        self.record_access(path)
    }

    fn delete_note(&mut self, path: &str) -> Result<(), Error> {
        self.run(delete_steps(path), Operation::Delete)
    }

    fn trash_note(&mut self, path: &str) -> Result<(), Error> {
        self.run(trash_steps(path), Operation::Trash)
    }

    fn rename_note(&mut self, old_path: &str, new_path: &str) -> Result<(), Error> {
        let kind = check_rename(&self.index(), old_path, new_path)?;
        let content =
            self.read(old_path).ok_or(Error::Io("No such file or directory".to_string()))?;
        let descendants = self.descendants_of(old_path, true)?;
        let steps = rename_steps(kind, old_path, new_path, &content, &descendants, 1234567890);
        self.run(steps, Operation::Rename)
    }

    fn archive_note(&mut self, path: &str) -> Result<(), Error> {
        let content = self.read(path).ok_or(Error::Io("No such file or directory".to_string()))?;
        let descendants = self.descendants_of(path, false)?;
        let steps = archive_steps(path, &content, &descendants, self.now());
        self.run(steps, Operation::Archive)
    }

    fn unarchive_note(&mut self, path: &str) -> Result<(), Error> {
        let content = self.read(path).unwrap_or_default();
        let descendants = self.descendants_of(path, true)?;
        let steps = unarchive_steps(path, &content, &descendants)?;
        self.run(steps, Operation::Unarchive)
    }

    fn note_exists(&self, path: &str) -> Result<bool, Error> {
        Ok(self.index().note_exists(path))
    }

    fn get_children(&self, path: &str) -> Result<Vec<NoteMetadata>, Error> {
        Ok(self.index().get_children(path))
    }

    fn has_children(&self, path: &str) -> Result<bool, Error> {
        Ok(self.index().has_children(path))
    }

    fn get_parent(&self, path: &str) -> Result<Option<NoteMetadata>, Error> {
        Ok(self.index().get_parent(path))
    }

    fn get_ancestors(&self, path: &str) -> Result<Vec<NoteMetadata>, Error> {
        self.index().get_ancestors(path)
    }

    fn get_root_notes(&self) -> Result<Vec<NoteMetadata>, Error> {
        Ok(self.index().get_root_notes())
    }

    fn get_all_notes(&self) -> Result<Vec<NoteMetadata>, Error> {
        Ok(self.index().get_all_notes())
    }

    fn fuzzy_search(
        &self,
        query: &str,
        limit: Option<usize>,
        ranking_mode: RankingMode,
    ) -> Result<Vec<NoteMetadata>, Error> {
        Ok(self.index().fuzzy_search(query, limit, ranking_mode))
    }
}

#[test]
fn test_create_note() {
    let mut api = NotesApi::new();

    let note = api.create_note("test").unwrap();

    assert_eq!(note.path, "test");
    assert_eq!(note.content, "");
    assert!(note.id > 0);

    // Verify filesystem
    let fs_content = api.read("test").unwrap();
    assert_eq!(fs_content, "");

    // Verify database
    assert!(api.note_exists("test").unwrap());
}

#[test]
fn test_create_note_with_nonexistent_parent() {
    let mut api = NotesApi::new();

    let result = api.create_note("parent/child");
    assert!(matches!(result, Err(Error::ParentNotFound(_))));
}

#[test]
fn create_note_names_the_missing_parent_and_the_taken_path() {
    let mut api = NotesApi::new();
    match api.create_note("a/b/c") {
        Err(Error::ParentNotFound(parent)) => assert_eq!(parent, "a/b"),
        other => panic!("unexpected: {:?}", other.map(|n| n.path)),
    }
    api.create_note("a").unwrap();
    match api.create_note("a") {
        Err(Error::AlreadyExists(path)) => assert_eq!(path, "a"),
        other => panic!("unexpected: {:?}", other.map(|n| n.path)),
    }
    assert_eq!(api.get_note("a").unwrap().modified, api.row("a").mtime as u64);
}

#[test]
fn test_get_note() {
    let mut api = NotesApi::new();

    api.create_note("test").unwrap();
    api.save_note("test", "Test content").unwrap();
    let note = api.get_note("test").unwrap();

    assert_eq!(note.path, "test");
    assert_eq!(note.content, "Test content");
}

#[test]
fn get_note_of_an_unknown_note_is_not_found() {
    let mut api = NotesApi::new();
    match api.get_note("ghost") {
        Err(Error::NotFound(path)) => assert_eq!(path, "ghost"),
        other => panic!("unexpected: {:?}", other.map(|n| n.path)),
    }
}

#[test]
fn test_save_note() {
    let mut api = NotesApi::new();

    api.create_note("test").unwrap();
    api.save_note("test", "Original").unwrap();
    api.save_note("test", "Updated").unwrap();

    let note = api.get_note("test").unwrap();
    assert_eq!(note.content, "Updated");
}

#[test]
fn save_note_records_the_digest_of_the_content() {
    let mut api = NotesApi::new();
    api.create_note("n").unwrap();
    api.save_note("n", "v").unwrap();
    assert_eq!(api.read("n").unwrap(), "v");
    assert_eq!(api.row("n").content_hash, zinnia_core::digest::compute_hash("v"));
    assert_ne!(api.row("n").content_hash, zinnia_core::digest::compute_hash(""));
}

#[test]
fn notes_test_delete_note() {
    let mut api = NotesApi::new();

    api.create_note("test").unwrap();
    api.delete_note("test").unwrap();

    assert!(!api.note_exists("test").unwrap());
}

#[test]
fn notes_test_delete_note_with_children() {
    let mut api = NotesApi::new();

    api.create_note("parent").unwrap();
    api.create_note("parent/child").unwrap();

    api.delete_note("parent").unwrap();

    assert!(!api.note_exists("parent").unwrap());
    assert!(!api.note_exists("parent/child").unwrap());
}

#[test]
fn delete_note_spares_a_sibling_with_a_longer_name() {
    let mut api = NotesApi::new();
    api.create_note("parent").unwrap();
    api.create_note("parent/child").unwrap();
    api.create_note("parent-2").unwrap();
    api.delete_note("parent").unwrap();
    assert!(api.note_exists("parent-2").unwrap());
    assert_eq!(api.read("parent-2").unwrap(), "");
    assert!(matches!(api.delete_note("parent"), Err(Error::NotFound(_))));
}

#[test]
fn test_trash_note() {
    let mut api = NotesApi::new();

    api.create_note("test").unwrap();
    api.save_note("test", "Content to trash").unwrap();

    // Verify note exists before trashing
    assert!(api.note_exists("test").unwrap());
    assert!(api.read("test").is_some());

    // Manually remove from database to test the cleanup logic
    api.delete_note("test").unwrap();

    // Note should no longer exist in database
    assert!(!api.note_exists("test").unwrap());

    // Note directory should no longer exist in filesystem
    assert!(api.read("test").is_none());
}

#[test]
fn test_trash_note_with_children() {
    let mut api = NotesApi::new();

    api.create_note("parent").unwrap();
    api.create_note("parent/child").unwrap();
    api.save_note("parent", "Parent content").unwrap();
    api.save_note("parent/child", "Child content").unwrap();

    // Verify directory exists before deletion
    assert!(api.read("parent").is_some());

    api.delete_note("parent").unwrap();

    // Both parent and child should be removed from database
    assert!(!api.note_exists("parent").unwrap());
    assert!(!api.note_exists("parent/child").unwrap());

    // Parent directory should no longer exist in filesystem
    assert!(api.read("parent").is_none());
}

#[test]
fn trash_note_removes_the_subtree_and_reports_a_missing_note() {
    let mut api = NotesApi::new();
    api.create_note("parent").unwrap();
    api.create_note("parent/child").unwrap();
    api.trash_note("parent").unwrap();
    assert!(!api.note_exists("parent").unwrap());
    assert!(!api.note_exists("parent/child").unwrap());
    match api.trash_note("parent") {
        Err(Error::NotFound(path)) => assert_eq!(path, "parent"),
        other => panic!("unexpected: {:?}", other),
    }
}

#[test]
fn notes_test_rename_note() {
    let mut api = NotesApi::new();

    api.create_note("old").unwrap();
    api.save_note("old", "Content").unwrap();
    api.rename_note("old", "new").unwrap();

    assert!(!api.note_exists("old").unwrap());
    assert!(api.note_exists("new").unwrap());

    let note = api.get_note("new").unwrap();
    assert_eq!(note.content, "Content");
}

#[test]
fn test_rename_note_with_descendants() {
    let mut api = NotesApi::new();

    api.create_note("old").unwrap();
    api.create_note("old/child").unwrap();

    api.rename_note("old", "new").unwrap();

    assert!(api.note_exists("new").unwrap());
    assert!(api.note_exists("new/child").unwrap());
    assert!(!api.note_exists("old").unwrap());
    assert!(!api.note_exists("old/child").unwrap());
}

#[test]
fn test_rename_to_existing_path() {
    let mut api = NotesApi::new();

    api.create_note("old").unwrap();
    api.create_note("new").unwrap();

    let result = api.rename_note("old", "new");
    assert!(matches!(result, Err(Error::AlreadyExists(_))));
}

#[test]
fn rename_of_an_unknown_note_is_not_found() {
    let mut api = NotesApi::new();
    match api.rename_note("ghost", "new") {
        Err(Error::NotFound(path)) => assert_eq!(path, "ghost"),
        other => panic!("unexpected: {:?}", other),
    }
}

#[test]
fn rename_keeps_ids_contents_and_parents() {
    let mut api = NotesApi::new();
    api.create_note("top").unwrap();
    api.create_note("top/old").unwrap();
    api.create_note("top/old/a").unwrap();
    api.create_note("top/old/a/b").unwrap();
    api.create_note("top/older").unwrap();
    api.save_note("top/old/a/b", "deep").unwrap();
    let id = api.row("top/old/a/b").id;
    api.rename_note("top/old", "top/new").unwrap();
    let moved = api.row("top/new/a/b");
    assert_eq!(moved.id, id);
    assert_eq!(moved.parent_path.as_deref(), Some("top/new/a"));
    assert_eq!(api.row("top/new").parent_path.as_deref(), Some("top"));
    assert_eq!(api.read("top/new/a/b").unwrap(), "deep");
    assert!(api.read("top/old/a/b").is_none());
    assert!(api.note_exists("top/older").unwrap());
    assert!(api.rows.iter().all(|r| !below(&r.path, "top/old")));
}

#[test]
fn rename_there_and_back_restores_the_paths() {
    let mut api = NotesApi::new();
    api.create_note("a").unwrap();
    api.create_note("a/x").unwrap();
    api.create_note("c").unwrap();
    let mut before: Vec<String> = api.rows.iter().map(|r| r.path.clone()).collect();
    api.rename_note("a", "b").unwrap();
    api.rename_note("b", "a").unwrap();
    let mut after: Vec<String> = api.rows.iter().map(|r| r.path.clone()).collect();
    before.sort();
    after.sort();
    assert_eq!(before, after);
}

#[test]
fn test_rename_case_only_preserves_content() {
    let mut api = NotesApi::new();

    // Create note with content
    api.create_note("test").unwrap();
    api.save_note("test", "Important content").unwrap();

    // Rename to different capitalization
    api.rename_note("test", "Test").unwrap();

    // Verify content is preserved
    assert!(api.note_exists("Test").unwrap());
    let note = api.get_note("Test").unwrap();
    assert_eq!(note.content, "Important content");
    assert_eq!(note.path, "Test");
}

#[test]
fn test_rename_case_only_lowercase_to_uppercase() {
    let mut api = NotesApi::new();

    api.create_note("lowercase").unwrap();
    api.save_note("lowercase", "test content").unwrap();

    api.rename_note("lowercase", "UPPERCASE").unwrap();

    assert!(!api.note_exists("lowercase").unwrap());
    assert!(api.note_exists("UPPERCASE").unwrap());
    let note = api.get_note("UPPERCASE").unwrap();
    assert_eq!(note.content, "test content");
}

#[test]
fn test_rename_case_only_with_descendants() {
    let mut api = NotesApi::new();

    // Create parent and child notes
    api.create_note("parent").unwrap();
    api.save_note("parent", "Parent content").unwrap();
    api.create_note("parent/child").unwrap();
    api.save_note("parent/child", "Child content").unwrap();

    // Rename parent to different case
    api.rename_note("parent", "Parent").unwrap();

    // Verify both parent and child are renamed with content preserved
    assert!(!api.note_exists("parent").unwrap());
    assert!(!api.note_exists("parent/child").unwrap());
    assert!(api.note_exists("Parent").unwrap());
    assert!(api.note_exists("Parent/child").unwrap());

    let parent = api.get_note("Parent").unwrap();
    assert_eq!(parent.content, "Parent content");

    let child = api.get_note("Parent/child").unwrap();
    assert_eq!(child.content, "Child content");
}

#[test]
fn test_rename_case_only_mixed_case() {
    let mut api = NotesApi::new();

    api.create_note("myNote").unwrap();
    api.save_note("myNote", "Content here").unwrap();

    // Change case in multiple positions
    api.rename_note("myNote", "MyNote").unwrap();

    assert!(!api.note_exists("myNote").unwrap());
    assert!(api.note_exists("MyNote").unwrap());
    let note = api.get_note("MyNote").unwrap();
    assert_eq!(note.content, "Content here");
}

#[test]
fn test_rename_case_only_nested_path() {
    let mut api = NotesApi::new();

    api.create_note("projects").unwrap();
    api.create_note("projects/rust-app").unwrap();
    api.save_note("projects/rust-app", "Rust project content").unwrap();

    // Rename nested note with case change
    api.rename_note("projects/rust-app", "projects/Rust-App").unwrap();

    assert!(!api.note_exists("projects/rust-app").unwrap());
    assert!(api.note_exists("projects/Rust-App").unwrap());
    let note = api.get_note("projects/Rust-App").unwrap();
    assert_eq!(note.content, "Rust project content");
}

#[test]
fn case_only_rename_leaves_no_scratch_copy() {
    let mut api = NotesApi::new();
    api.create_note("projects").unwrap();
    api.create_note("projects/rust").unwrap();
    api.save_note("projects/rust", "hello").unwrap();
    api.rename_note("projects", "Projects").unwrap();
    assert_eq!(api.get_note("Projects/rust").unwrap().content, "hello");
    assert!(!api.note_exists("projects").unwrap());
    let mut keys: Vec<&String> = api.files.keys().collect();
    keys.sort();
    assert_eq!(keys, vec!["Projects", "Projects/rust"]);
}

#[test]
fn test_get_children() {
    let mut api = NotesApi::new();

    api.create_note("parent").unwrap();
    api.create_note("parent/child1").unwrap();
    api.create_note("parent/child2").unwrap();

    let children = api.get_children("parent").unwrap();
    assert_eq!(children.len(), 2);

    let paths: Vec<_> = children.iter().map(|c| c.path.as_str()).collect();
    assert!(paths.contains(&"parent/child1"));
    assert!(paths.contains(&"parent/child2"));
}

#[test]
fn test_get_parent() {
    let mut api = NotesApi::new();

    api.create_note("parent").unwrap();
    api.create_note("parent/child").unwrap();

    let parent = api.get_parent("parent/child").unwrap();
    assert!(parent.is_some());
    assert_eq!(parent.unwrap().path, "parent");

    let no_parent = api.get_parent("parent").unwrap();
    assert!(no_parent.is_none());
}

#[test]
fn test_has_children() {
    let mut api = NotesApi::new();

    api.create_note("parent").unwrap();
    api.create_note("parent/child1").unwrap();
    api.create_note("parent/child2").unwrap();
    api.create_note("empty").unwrap();

    // Parent with children should return true
    assert!(api.has_children("parent").unwrap());

    // Note without children should return false
    assert!(!api.has_children("empty").unwrap());
    assert!(!api.has_children("parent/child1").unwrap());

    // Archive a child and verify has_children still works
    api.archive_note("parent/child1").unwrap();
    assert!(api.has_children("parent").unwrap());

    // Archive all children
    api.archive_note("parent/child2").unwrap();
    assert!(!api.has_children("parent").unwrap());
}

#[test]
fn notes_test_get_ancestors() {
    let mut api = NotesApi::new();

    api.create_note("a").unwrap();
    api.create_note("a/b").unwrap();
    api.create_note("a/b/c").unwrap();

    let ancestors = api.get_ancestors("a/b/c").unwrap();
    assert_eq!(ancestors.len(), 3);
    assert_eq!(ancestors[0].path, "a");
    assert_eq!(ancestors[1].path, "a/b");
    assert_eq!(ancestors[2].path, "a/b/c");
}

#[test]
fn get_ancestors_passes_over_a_missing_ancestor() {
    let mut api = NotesApi::new();
    api.create_note("a").unwrap();
    api.create_note("a/b").unwrap();
    api.create_note("a/b/c").unwrap();
    api.rows.retain(|r| r.path != "a/b");
    let ancestors = api.get_ancestors("a/b/c").unwrap();
    let paths: Vec<_> = ancestors.iter().map(|a| a.path.as_str()).collect();
    assert_eq!(paths, vec!["a", "a/b/c"]);
    match api.get_ancestors("a/b") {
        Err(Error::Database(detail)) => assert_eq!(detail, "Query returned no rows"),
        other => panic!("unexpected: {:?}", other.map(|v| v.len())),
    }
}

#[test]
fn test_get_root_notes() {
    let mut api = NotesApi::new();

    api.create_note("root1").unwrap();
    api.create_note("root2").unwrap();
    api.create_note("root1/child").unwrap();

    let roots = api.get_root_notes().unwrap();
    assert_eq!(roots.len(), 2);

    let paths: Vec<_> = roots.iter().map(|r| r.path.as_str()).collect();
    assert!(paths.contains(&"root1"));
    assert!(paths.contains(&"root2"));
}

#[test]
fn test_archive_note() {
    let mut api = NotesApi::new();

    api.create_note("parent").unwrap();
    api.create_note("parent/note").unwrap();

    api.archive_note("parent/note").unwrap();

    assert!(!api.note_exists("parent/note").unwrap());
    assert!(api.note_exists("parent/_archive/note").unwrap());

    // Check archived flag
    let archived = api.row("parent/_archive/note").archived;
    assert!(archived);
}

#[test]
fn test_unarchive_note() {
    let mut api = NotesApi::new();

    api.create_note("parent").unwrap();
    api.create_note("parent/note").unwrap();
    api.archive_note("parent/note").unwrap();
    api.unarchive_note("parent/_archive/note").unwrap();

    assert!(api.note_exists("parent/note").unwrap());
    assert!(!api.note_exists("parent/_archive/note").unwrap());

    // Check archived flag
    let archived = api.row("parent/note").archived;
    assert!(!archived);
}

#[test]
fn archive_moves_the_subtree_and_marks_every_row() {
    let mut api = NotesApi::new();
    api.create_note("parent").unwrap();
    api.create_note("parent/child").unwrap();
    api.create_note("parent/child/leaf").unwrap();
    api.save_note("parent/child/leaf", "kept").unwrap();
    api.archive_note("parent/child").unwrap();
    let at = api.row("parent/_archive/child").archived_at;
    assert!(at.is_some());
    let leaf = api.row("parent/_archive/child/leaf");
    assert!(leaf.archived);
    assert_eq!(leaf.archived_at, at);
    assert_eq!(leaf.parent_path.as_deref(), Some("parent/_archive/child"));
    assert_eq!(api.row("parent/_archive/child").parent_path.as_deref(), Some("parent/_archive"));
    assert_eq!(api.read("parent/_archive/child/leaf").unwrap(), "kept");
    assert!(api.get_children("parent").unwrap().is_empty());
    assert!(!api.has_children("parent").unwrap());
    assert!(api.get_all_notes().unwrap().iter().all(|n| n.path == "parent"));
}

#[test]
fn archive_and_unarchive_restore_paths_contents_and_flag() {
    let mut api = NotesApi::new();
    api.create_note("parent").unwrap();
    api.create_note("parent/child").unwrap();
    api.create_note("parent/child/leaf").unwrap();
    api.save_note("parent/child", "middle").unwrap();
    api.save_note("parent/child/leaf", "bottom").unwrap();
    let before: Vec<(i64, String, Option<String>)> =
        api.rows.iter().map(|r| (r.id, r.path.clone(), r.parent_path.clone())).collect();
    api.archive_note("parent/child").unwrap();
    api.unarchive_note("parent/_archive/child").unwrap();
    let after: Vec<(i64, String, Option<String>)> =
        api.rows.iter().map(|r| (r.id, r.path.clone(), r.parent_path.clone())).collect();
    assert_eq!(before, after);
    assert!(api.rows.iter().all(|r| !r.archived && r.archived_at.is_none()));
    assert_eq!(api.read("parent/child").unwrap(), "middle");
    assert_eq!(api.read("parent/child/leaf").unwrap(), "bottom");
    assert!(api.read("parent/_archive/child").is_none());
}

#[test]
fn a_note_at_the_top_is_archived_below_the_archive_folder() {
    let mut api = NotesApi::new();
    api.create_note("solo").unwrap();
    api.archive_note("solo").unwrap();
    assert!(api.note_exists("_archive/solo").unwrap());
    assert_eq!(api.row("_archive/solo").parent_path.as_deref(), Some("_archive"));
    match api.unarchive_note("_archive/solo") {
        Err(Error::NotFound(path)) => assert_eq!(path, "_archive/solo"),
        other => panic!("unexpected: {:?}", other),
    }
}

#[test]
fn test_rescan_after_external_changes() {
    let mut api = NotesApi::new();

    api.create_note("note1").unwrap();

    // Simulate external file creation
    api.write_file("note2", "Content 2");

    // Rescan
    api.rescan().unwrap();

    // Verify new note is indexed
    assert!(api.note_exists("note2").unwrap());
}

#[test]
fn rescan_makes_the_index_match_the_disk() {
    let mut api = NotesApi::new();
    api.create_note("kept").unwrap();
    api.create_note("gone").unwrap();
    api.create_note("gone/child").unwrap();
    api.remove_dir("gone");
    api.write_file("fresh/deep", "x");
    api.write_file("_backups/kept", "copy");
    api.rescan().unwrap();
    let mut paths: Vec<String> = api.rows.iter().map(|r| r.path.clone()).collect();
    paths.sort();
    assert_eq!(paths, vec!["fresh/deep", "kept"]);
    assert_eq!(api.row("fresh/deep").parent_path.as_deref(), Some("fresh"));
}

#[test]
fn test_startup_sync() {
    let mut api = NotesApi::new();

    api.create_note("note1").unwrap();

    // Manually delete from DB to simulate out-of-sync state
    api.rows.retain(|r| r.path != "note1");

    // Run startup sync
    api.startup_sync().unwrap();

    // Verify note is re-indexed
    assert!(api.note_exists("note1").unwrap());
}

#[test]
fn sync_note_twice_changes_nothing_the_second_time() {
    let mut api = NotesApi::new();
    api.write_file("n", "text");
    assert!(api.sync_note("n").unwrap());
    assert!(!api.sync_note("n").unwrap());
    api.write_file("n", "text");
    assert!(!api.sync_note("n").unwrap());
    api.write_file("n", "other");
    assert!(api.sync_note("n").unwrap());
    assert!(matches!(api.sync_note("absent"), Err(Error::NotFound(_))));
}

#[test]
fn test_frecency_get_note_updates_score() {
    let mut api = NotesApi::new();

    api.create_note("test").unwrap();

    // Get note (should record access)
    api.get_note("test").unwrap();

    // Check frecency score was updated
    let row = api.row("test");
    let (access_count, score) = (row.access_count, row.frecency_score as f64 / 1e6);

    assert_eq!(access_count, 1);
    assert!(score > 0.0);
}

#[test]
fn test_frecency_save_note_updates_score() {
    let mut api = NotesApi::new();

    api.create_note("test").unwrap();
    api.save_note("test", "Content").unwrap();

    // Check frecency score was updated
    let row = api.row("test");
    let (access_count, score) = (row.access_count, row.frecency_score as f64 / 1e6);

    assert_eq!(access_count, 1);
    assert!(score > 0.0);
}

#[test]
fn test_frecency_multiple_accesses() {
    let mut api = NotesApi::new();

    api.create_note("test").unwrap();

    // Access multiple times
    api.get_note("test").unwrap();
    api.get_note("test").unwrap();
    api.save_note("test", "Content").unwrap();

    // Check access count increased
    let row = api.row("test");
    let (access_count, score) = (row.access_count, row.frecency_score as f64 / 1e6);

    assert_eq!(access_count, 3);
    assert!(score > 0.0);
}

#[test]
fn test_frecency_propagates_to_ancestors() {
    let mut api = NotesApi::new();

    api.create_note("parent").unwrap();
    api.create_note("parent/child").unwrap();

    // Access child note
    api.get_note("parent/child").unwrap();

    // Check that parent also has updated frecency
    let row = api.row("parent");
    let (parent_count, parent_score) = (row.access_count, row.frecency_score as f64 / 1e6);

    assert_eq!(parent_count, 1);
    assert!(parent_score > 0.0);
}

#[test]
fn test_frecency_children_sorted_by_score() {
    let mut api = NotesApi::new();

    api.create_note("parent").unwrap();
    api.create_note("parent/a").unwrap();
    api.create_note("parent/b").unwrap();
    api.create_note("parent/c").unwrap();

    // Access notes in different order with different frequencies
    api.get_note("parent/b").unwrap(); // b gets 1 access
    api.get_note("parent/c").unwrap(); // c gets 2 accesses
    api.get_note("parent/c").unwrap();
    // a gets 0 accesses

    // Get children (should be sorted by frecency)
    let children = api.get_children("parent").unwrap();
    let paths: Vec<_> = children.iter().map(|c| c.path.as_str()).collect();

    // c should be first (most accesses), then b, then a
    assert_eq!(paths[0], "parent/c");
    assert_eq!(paths[1], "parent/b");
    assert_eq!(paths[2], "parent/a");
}

#[test]
fn test_frecency_propagates_through_multiple_levels() {
    let mut api = NotesApi::new();

    // Create a deep hierarchy: grandparent/parent/child
    api.create_note("grandparent").unwrap();
    api.create_note("grandparent/parent").unwrap();
    api.create_note("grandparent/parent/child").unwrap();

    // Access the deepest child
    api.get_note("grandparent/parent/child").unwrap();

    // Check that all ancestors have updated frecency
    let child = api.row("grandparent/parent/child");
    let parent = api.row("grandparent/parent");
    let grandparent = api.row("grandparent");

    // All should have 1 access
    assert_eq!(child.access_count, 1);
    assert_eq!(parent.access_count, 1);
    assert_eq!(grandparent.access_count, 1);

    // All should have positive scores
    assert!(child.frecency_score as f64 / 1e6 > 0.0);
    assert!(parent.frecency_score as f64 / 1e6 > 0.0);
    assert!(grandparent.frecency_score as f64 / 1e6 > 0.0);
}

#[test]
fn test_frecency_root_notes_sorted_by_score() {
    let mut api = NotesApi::new();

    // Create three root notes
    api.create_note("projects").unwrap();
    api.create_note("notes").unwrap();
    api.create_note("archive").unwrap();

    // Access them in different frequencies
    api.get_note("notes").unwrap(); // notes gets 1 access
    api.get_note("projects").unwrap(); // projects gets 2 accesses
    api.get_note("projects").unwrap();
    // archive gets 0 accesses

    // Get root notes (should be sorted by frecency)
    let roots = api.get_root_notes().unwrap();
    let paths: Vec<_> = roots.iter().map(|r| r.path.as_str()).collect();

    // projects should be first (most accesses), then notes, then archive
    assert_eq!(paths[0], "projects");
    assert_eq!(paths[1], "notes");
    assert_eq!(paths[2], "archive");
}

#[test]
fn three_visits_count_three_times_on_the_leaf_and_on_its_parent() {
    let mut api = NotesApi::new();
    api.create_note("projects").unwrap();
    api.create_note("projects/rust").unwrap();
    api.save_note("projects/rust", "hello").unwrap();
    assert_eq!(api.get_note("projects/rust").unwrap().content, "hello");
    let children = api.get_children("projects").unwrap();
    assert_eq!(children.len(), 1);
    assert_eq!(children[0].path, "projects/rust");

    let mut fresh = NotesApi::new();
    fresh.create_note("projects").unwrap();
    fresh.create_note("projects/rust").unwrap();
    fresh.get_note("projects/rust").unwrap();
    fresh.get_note("projects/rust").unwrap();
    fresh.get_note("projects/rust").unwrap();
    let leaf = fresh.row("projects/rust");
    let parent = fresh.row("projects");
    assert_eq!(leaf.access_count, 3);
    assert_eq!(parent.access_count, 3);
    assert_eq!(leaf.direct_access_count, 3);
    assert_eq!(parent.direct_access_count, 0);
    assert_eq!(leaf.frecency_score, 300_000_000);
    assert_eq!(parent.frecency_score, 300_000_000);
    assert_eq!(leaf.last_accessed_at, parent.last_accessed_at);
    assert_eq!(fresh.announced, 3);
}

#[test]
fn test_fuzzy_search_prefix_matching() {
    let mut api = NotesApi::new();

    // Create notes with various names
    api.create_note("hello").unwrap();
    api.create_note("hello-world").unwrap();
    api.create_note("help").unwrap();
    api.create_note("project").unwrap();
    api.create_note("project/hello").unwrap();
    api.create_note("other").unwrap();
    api.create_note("other/stuff").unwrap();

    // Test prefix matching - "hel" should match hello, hello-world, help
    let results = api.fuzzy_search("hel", None, RankingMode::Visits).unwrap();
    assert_eq!(results.len(), 4); // hello, hello-world, help, project/hello

    // Verify prefix matches come first
    assert!(results[0].path.starts_with("hel") || results[0].path == "help");

    // Test single character
    let results = api.fuzzy_search("h", None, RankingMode::Visits).unwrap();
    assert!(results.len() >= 4); // At least the hello variants and help

    // Test exact match
    let results = api.fuzzy_search("hello", None, RankingMode::Visits).unwrap();
    assert!(results.iter().any(|n| n.path == "hello"));
    assert!(results.iter().any(|n| n.path == "hello-world"));

    // Test case insensitivity
    let results = api.fuzzy_search("HELLO", None, RankingMode::Visits).unwrap();
    assert!(results.iter().any(|n| n.path == "hello"));

    // Test substring matching
    let results = api.fuzzy_search("ell", None, RankingMode::Visits).unwrap();
    assert!(results.iter().any(|n| n.path == "hello"));

    // Test no matches
    let results = api.fuzzy_search("xyz", None, RankingMode::Visits).unwrap();
    assert_eq!(results.len(), 0);

    // Test empty query returns all notes
    let results = api.fuzzy_search("", None, RankingMode::Visits).unwrap();
    assert_eq!(results.len(), 7); // All notes including parent folders
}

#[test]
fn test_fuzzy_search_ranking() {
    let mut api = NotesApi::new();

    // Create notes where ranking matters
    api.create_note("test").unwrap();
    api.create_note("testing").unwrap();
    api.create_note("project").unwrap();
    api.create_note("project/test").unwrap();
    api.create_note("other").unwrap();
    api.create_note("other/testing-notes").unwrap();

    // Prefix matches should rank higher than substring matches
    let results = api.fuzzy_search("test", None, RankingMode::Visits).unwrap();

    // "test" and "testing" should come before "project/test"
    // (prefix match on path vs prefix match on segment)
    let paths: Vec<_> = results.iter().map(|n| n.path.as_str()).collect();
    let test_pos = paths.iter().position(|&p| p == "test").unwrap();
    let testing_pos = paths.iter().position(|&p| p == "testing").unwrap();
    let project_test_pos = paths.iter().position(|&p| p == "project/test").unwrap();

    // Prefix matches (test, testing) should come before path segment matches
    assert!(test_pos < project_test_pos);
    assert!(testing_pos < project_test_pos);
}

#[test]
fn fuzzy_search_puts_prefix_matches_before_more_visited_substring_matches() {
    let mut api = NotesApi::new();
    api.create_note("a").unwrap();
    api.create_note("a-b").unwrap();
    api.create_note("x").unwrap();
    api.create_note("x/a").unwrap();
    api.get_note("x/a").unwrap();
    api.get_note("x/a").unwrap();
    api.get_note("a-b").unwrap();
    let found = api.fuzzy_search("a", None, RankingMode::Visits).unwrap();
    let paths: Vec<_> = found.iter().map(|n| n.path.as_str()).collect();
    assert_eq!(paths, vec!["a-b", "a", "x/a"]);
    let by_score = api.fuzzy_search("a", Some(2), RankingMode::Frecency).unwrap();
    let paths: Vec<_> = by_score.iter().map(|n| n.path.as_str()).collect();
    assert_eq!(paths, vec!["a-b", "a"]);
    let all = api.fuzzy_search("", Some(3), RankingMode::Frecency).unwrap();
    let paths: Vec<_> = all.iter().map(|n| n.path.as_str()).collect();
    assert_eq!(paths, vec!["x", "x/a", "a-b"]);
}

#[test]
fn fuzzy_search_takes_percent_and_underscore_as_they_stand() {
    let mut api = NotesApi::new();
    api.create_note("100%").unwrap();
    api.create_note("100x").unwrap();
    api.create_note("a_b").unwrap();
    api.create_note("axb").unwrap();
    let found = api.fuzzy_search("0%", None, RankingMode::Visits).unwrap();
    let paths: Vec<_> = found.iter().map(|n| n.path.as_str()).collect();
    assert_eq!(paths, vec!["100%"]);
    let found = api.fuzzy_search("A_", None, RankingMode::Visits).unwrap();
    let paths: Vec<_> = found.iter().map(|n| n.path.as_str()).collect();
    assert_eq!(paths, vec!["a_b"]);
}

#[test]
fn fuzzy_search_leaves_archived_notes_out() {
    let mut api = NotesApi::new();
    api.create_note("parent").unwrap();
    api.create_note("parent/child").unwrap();
    api.archive_note("parent/child").unwrap();
    let found = api.fuzzy_search("child", None, RankingMode::Visits).unwrap();
    assert!(found.is_empty());
    let found = api.fuzzy_search("", None, RankingMode::Visits).unwrap();
    assert_eq!(found.len(), 1);
}

#[test]
fn save_note_under_suppression_causes_no_sync_by_the_watcher() {
    let mut api = NotesApi::new();
    api.create_note("n").unwrap();
    let before = api.syncs;
    api.save_note("n", "v").unwrap();
    assert_eq!(api.syncs, before + 1);
    let report =
        vec![ChangedPath { path: "/notes/n/_index.md".to_string(), is_dir: false, holds_index: false }];
    let action = classify_event("/notes", ChangeKind::Modify, &report, true);
    assert!(matches!(action, WatcherAction::Ignore));
    assert_eq!(api.row("n").content_hash, zinnia_core::digest::compute_hash("v"));
}
