use zinnia_core::filesystem::FSNoteMetadata;
use zinnia_core::index::NoteIndex;
use zinnia_core::notes::{Error, NoteRow};
use zinnia_core::ops::{
    access_steps, archive_steps, check_rename, create_steps, delete_steps,
    differs_in_form_only, file_error, has_room_for_visit, is_case_only_rename, locate, rename_steps, rescan_steps, suppresses_watcher, sync_step,
    trash_steps, unarchive_steps, ArchiveMark, Descendant, Operation, RenameKind, Step,
};

fn row(id: i64, path: &str) -> NoteRow {
    NoteRow {
        id,
        path: path.to_string(),
        parent_path: zinnia_core::paths::get_parent_path(path),
        mtime: 100,
        content_hash: zinnia_core::digest::compute_hash(""),
        archived: false,
        archived_at: None,
        access_count: 0,
        direct_access_count: 0,
        last_accessed_at: None,
        frecency_score: 0,
    }
}

fn index(paths: &[&str]) -> NoteIndex {
    NoteIndex { rows: paths.iter().enumerate().map(|(i, p)| row(i as i64 + 1, p)).collect() }
}

fn below(path: &str, content: &str) -> Descendant {
    Descendant { path: path.to_string(), content: content.to_string() }
}

fn show(steps: &[Step]) -> Vec<String> {
    steps
        .iter()
        .map(|step| match step {
            Step::CreateNote { path } => format!("create {}", path),
            Step::WriteNote { path, content } => format!("write {} [{}]", path, content),
            Step::DeleteNote { path } => format!("delete {}", path),
            Step::DiscardNote { path } => format!("discard {}", path),
            Step::TrashNote { path } => format!("trash {}", path),
            Step::InsertRow { path, parent_path, mtime, .. } => {
                format!("insert {} under {:?} at {}", path, parent_path, mtime)
            }
            Step::RefreshRow { id, path, parent_path, mtime, .. } => {
                format!("refresh {} {} under {:?} at {}", id, path, parent_path, mtime)
            }
            Step::MoveRow { from, to, parent_path, mark } => {
                format!("move {} to {} under {:?} {:?}", from, to, parent_path, mark)
            }
            Step::DeleteSubtree { path } => format!("forget all of {}", path),
            Step::DeleteRow { path } => format!("forget {}", path),
            Step::RecordAccess {
                path,
                access_count,
                direct_access_count,
                last_accessed_at,
                frecency_score,
            } => format!(
                "visit {} {} {} {} {}",
                path, access_count, direct_access_count, last_accessed_at, frecency_score
            ),
            Step::AnnounceFrecency => "announce".to_string(),
        })
        .collect()
}

#[test]
fn a_regular_rename_writes_the_new_tree_before_it_removes_the_old() {
    let descendants = vec![below("old/a", "A"), below("old/a/b", "B")];
    let steps = rename_steps(RenameKind::Regular, "old", "top/new", "root", &descendants, 42);
    assert_eq!(
        show(&steps),
        vec![
            "write top/new [root]",
            "write top/new/a [A]",
            "write top/new/a/b [B]",
            "delete old",
            "move old to top/new under Some(\"top\") Keep",
            "move old/a to top/new/a under Some(\"top/new\") Keep",
            "move old/a/b to top/new/a/b under Some(\"top/new/a\") Keep",
        ]
    );
}

#[test]
fn a_rename_of_letter_case_goes_through_a_scratch_path() {
    let descendants = vec![below("note/a", "A")];
    let steps = rename_steps(RenameKind::CaseOnly, "note", "Note", "root", &descendants, 1700000000123);
    assert_eq!(
        show(&steps),
        vec![
            "write note_temp_1700000000123 [root]",
            "write note_temp_1700000000123/a [A]",
            "delete note",
            "write Note [root]",
            "write Note/a [A]",
            "discard note_temp_1700000000123",
            "move note to Note under None Keep",
            "move note/a to Note/a under Some(\"Note\") Keep",
        ]
    );
}

#[test]
fn only_the_first_occurrence_of_the_old_path_gives_way() {
    let descendants = vec![below("a/a/a", "x")];
    let steps = rename_steps(RenameKind::Regular, "a", "b", "", &descendants, 0);
    assert_eq!(
        show(&steps),
        vec![
            "write b []",
            "write b/a/a [x]",
            "delete a",
            "move a to b under None Keep",
            "move a/a/a to b/a/a under Some(\"b/a\") Keep",
        ]
    );
}

#[test]
fn a_rename_is_checked_against_the_index() {
    let idx = index(&["old", "new", "Other"]);
    assert!(matches!(check_rename(&idx, "old", "fresh"), Ok(RenameKind::Regular)));
    assert!(matches!(check_rename(&idx, "old", "OLD"), Ok(RenameKind::CaseOnly)));
    assert!(matches!(check_rename(&idx, "Other", "other"), Ok(RenameKind::CaseOnly)));
    match check_rename(&idx, "old", "new") {
        Err(Error::AlreadyExists(path)) => assert_eq!(path, "new"),
        other => panic!("unexpected: {:?}", other),
    }
    match check_rename(&idx, "old", "old") {
        Err(Error::AlreadyExists(path)) => assert_eq!(path, "old"),
        other => panic!("unexpected: {:?}", other),
    }
    match check_rename(&idx, "missing", "new") {
        Err(Error::NotFound(path)) => assert_eq!(path, "missing"),
        other => panic!("unexpected: {:?}", other),
    }
    assert!(is_case_only_rename("Straße", "STRASSE") == ("Straße".to_lowercase() == "STRASSE".to_lowercase()));
    assert!(is_case_only_rename("ÄB", "äb"));
    assert!(!is_case_only_rename("ab", "ab"));
    assert!(!is_case_only_rename("ab", "abc"));
}

#[test]
fn archiving_writes_the_descendants_first() {
    let descendants = vec![below("p/n/x", "X")];
    let steps = archive_steps("p/n", "N", &descendants, 1234);
    assert_eq!(
        show(&steps),
        vec![
            "write p/_archive/n/x [X]",
            "write p/_archive/n [N]",
            "delete p/n",
            "move p/n to p/_archive/n under Some(\"p/_archive\") Archived { at: 1234 }",
            "move p/n/x to p/_archive/n/x under Some(\"p/_archive/n\") Archived { at: 1234 }",
        ]
    );
}

#[test]
fn a_return_from_the_archive_undoes_the_moves() {
    let descendants = vec![below("p/_archive/n/x", "X")];
    let steps = unarchive_steps("p/_archive/n", "N", &descendants).unwrap();
    assert_eq!(
        show(&steps),
        vec![
            "write p/n/x [X]",
            "write p/n [N]",
            "delete p/_archive/n",
            "move p/_archive/n to p/n under Some(\"p\") Restored",
            "move p/_archive/n/x to p/n/x under Some(\"p/n\") Restored",
        ]
    );
    match unarchive_steps("p/n", "N", &Vec::new()) {
        Err(Error::NotFound(path)) => assert_eq!(path, "p/n"),
        other => panic!("unexpected: {:?}", other.map(|s| show(&s))),
    }
}

#[test]
fn creating_asks_for_a_free_path_and_a_known_parent() {
    let idx = index(&["a", "a/b"]);
    assert_eq!(show(&create_steps(&idx, "a/c").unwrap()), vec!["create a/c"]);
    assert_eq!(show(&create_steps(&idx, "z").unwrap()), vec!["create z"]);
    assert_eq!(show(&create_steps(&idx, "").unwrap()), vec!["create "]);
    assert!(matches!(create_steps(&idx, "a/b"), Err(Error::AlreadyExists(_))));
    match create_steps(&idx, "x/y") {
        Err(Error::ParentNotFound(parent)) => assert_eq!(parent, "x"),
        other => panic!("unexpected: {:?}", other.map(|s| show(&s))),
    }
}

#[test]
fn deleting_and_trashing_remove_the_note_from_disk_and_then_from_the_index() {
    assert_eq!(show(&delete_steps("a/b")), vec!["delete a/b", "forget all of a/b"]);
    assert_eq!(show(&trash_steps("a/b")), vec!["trash a/b", "forget all of a/b"]);
}

#[test]
fn a_sync_inserts_refreshes_or_leaves_alone() {
    let known = NoteRow { content_hash: zinnia_core::digest::compute_hash("same"), ..row(9, "a/b") };
    assert!(sync_step("a/b", 500, "same", Some(&known)).is_none());
    let step = sync_step("a/b", 500, "changed", Some(&known)).unwrap();
    assert_eq!(show(&[step]), vec!["refresh 9 a/b under Some(\"a\") at 500"]);
    let step = sync_step("a/b", 500, "new", None).unwrap();
    match &step {
        Step::InsertRow { content_hash, content, .. } => {
            assert_eq!(content_hash, &zinnia_core::digest::compute_hash("new"));
            assert_eq!(content, "new");
        }
        other => panic!("unexpected: {:?}", other),
    }
    assert_eq!(show(&[step]), vec!["insert a/b under Some(\"a\") at 500"]);
    let step = sync_step("top", u64::MAX, "", None).unwrap();
    assert_eq!(show(&[step]), vec!["insert top under None at -1"]);
}

#[test]
fn the_scan_says_when_a_note_was_modified() {
    let scanned = vec![
        FSNoteMetadata { path: "a".to_string(), mtime: 1 },
        FSNoteMetadata { path: "b".to_string(), mtime: 2 },
        FSNoteMetadata { path: "a".to_string(), mtime: 3 },
    ];
    assert!(matches!(locate(&scanned, "a"), Ok(1)));
    assert!(matches!(locate(&scanned, "b"), Ok(2)));
    match locate(&scanned, "c") {
        Err(Error::NotFound(path)) => assert_eq!(path, "c"),
        other => panic!("unexpected: {:?}", other),
    }
}

#[test]
fn a_rescan_syncs_what_is_on_disk_and_forgets_the_rest() {
    let idx = index(&["kept", "gone", "gone/child", "also-kept"]);
    let scanned = vec![
        FSNoteMetadata { path: "also-kept".to_string(), mtime: 1 },
        FSNoteMetadata { path: "new".to_string(), mtime: 2 },
        FSNoteMetadata { path: "kept".to_string(), mtime: 3 },
    ];
    let plan = rescan_steps(&idx, &scanned);
    assert_eq!(plan.sync, vec!["also-kept", "new", "kept"]);
    assert_eq!(show(&plan.remove), vec!["forget gone", "forget gone/child"]);
}

#[test]
fn a_visit_is_recorded_in_the_note_and_in_its_known_ancestors() {
    let mut idx = index(&["a", "a/b/c", "a/b/c/d", "other"]);
    idx.rows[0].access_count = 4;
    idx.rows[0].direct_access_count = 2;
    idx.rows[2].access_count = 1;
    idx.rows[2].direct_access_count = 1;
    let steps = access_steps(&idx, "a/b/c/d", 777).unwrap();
    assert_eq!(
        show(&steps),
        vec![
            "visit a/b/c/d 2 2 777 200000000",
            "visit a/b/c 1 0 777 100000000",
            "visit a 5 2 777 500000000",
            "announce",
        ]
    );
    match access_steps(&idx, "a/b", 777) {
        Err(Error::Database(detail)) => assert_eq!(detail, "Query returned no rows"),
        other => panic!("unexpected: {:?}", other.map(|s| show(&s))),
    }
}

#[test]
fn failures_on_disk_are_reported_by_operation() {
    for op in [Operation::Get, Operation::Delete, Operation::Trash] {
        match file_error(op, "a/b", "denied") {
            Error::NotFound(path) => assert_eq!(path, "a/b"),
            other => panic!("unexpected: {:?}", other),
        }
    }
    for op in [
        Operation::Create,
        Operation::Save,
        Operation::Rename,
        Operation::Archive,
        Operation::Unarchive,
        Operation::Sync,
        Operation::Rescan,
    ] {
        match file_error(op, "a/b", "denied") {
            Error::Io(detail) => assert_eq!(detail, "denied"),
            other => panic!("unexpected: {:?}", other),
        }
    }
}

#[test]
fn operations_that_change_notes_suppress_the_watcher() {
    for op in [
        Operation::Create,
        Operation::Save,
        Operation::Delete,
        Operation::Trash,
        Operation::Rename,
        Operation::Archive,
        Operation::Unarchive,
    ] {
        assert!(suppresses_watcher(op));
    }
    for op in [Operation::Get, Operation::Sync, Operation::Rescan] {
        assert!(!suppresses_watcher(op));
    }
    assert!(matches!(ArchiveMark::Keep, ArchiveMark::Keep));
}

#[test]
fn counts_at_their_limit_leave_no_room_for_a_visit() {
    let mut idx = index(&["a", "a/b", "c"]);
    assert!(has_room_for_visit(&idx, "a/b"));
    idx.rows[2].access_count = i64::MAX;
    assert!(has_room_for_visit(&idx, "a/b"));
    assert!(!has_room_for_visit(&idx, "c"));
    idx.rows[0].direct_access_count = i64::MAX;
    assert!(!has_room_for_visit(&idx, "a/b"));
    assert!(!has_room_for_visit(&idx, "a"));
    idx.rows[0].direct_access_count = 0;
    idx.rows[0].access_count = -1;
    assert!(!has_room_for_visit(&idx, "a/b/x/y"));
    assert!(has_room_for_visit(&idx, "other"));
}

#[test]
fn paths_differ_in_form_only_where_their_forms_agree() {
    assert!(differs_in_form_only("Ab", "aB", "ab", "ab"));
    assert!(!differs_in_form_only("ab", "ab", "ab", "ab"));
    assert!(!differs_in_form_only("ab", "cd", "ab", "cd"));
    assert!(differs_in_form_only("ab", "cd", "x", "x"));
}
