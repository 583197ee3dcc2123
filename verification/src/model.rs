//! What the steps of a plan do, and what therefore holds after an operation.
//!
//! The disk is taken as a map from note paths to contents, the index as its
//! rows. [`files_after`] and [`rows_after`] say what a plan makes of them.
//! The theorems below are stated over these two functions and the plans of
//! [`crate::ops`].

use crate::frecency::frecency_micros;
use crate::index::{
    below, descendant_paths, has_note, kept, lemma_kept, lemma_position_is, lemma_position_of,
    paths_unique, position_of, row_at,
};
use crate::notes::NoteRowView;
use crate::ops::{
    access_plan, archive_plan, countable, room_for_visit, index_moves, on_disk, relocation_plan,
    rename_plan, row_move, unarchive_plan, upward_visits, visit, writes_to, ArchiveMark,
    DescendantView, RenameKind, StepView,
};
use crate::paths::{
    ancestor_chain, archive_target, in_subtree, is_descendant, lemma_ancestor_chain,
    lemma_parent_is_prefix, lemma_rebased_descendant, parent_of, rebased, temp_target,
    unarchive_target,
};
use crate::digest::content_hash;
use crate::filesystem::FsNoteView;
use crate::ops::{scanned_mtime, stale_rows, sync_plan};
use crate::text::decimal;
use vstd::prelude::*;

verus! {

/// A row after a move to `to`, below `parent_path`.
pub open spec fn moved_row(
    row: NoteRowView,
    to: Seq<char>,
    parent_path: Option<Seq<char>>,
    mark: ArchiveMark,
) -> NoteRowView {
    NoteRowView {
        path: to,
        parent_path,
        archived: match mark {
            ArchiveMark::Keep => row.archived,
            ArchiveMark::Archived { at } => true,
            ArchiveMark::Restored => false,
        },
        archived_at: match mark {
            ArchiveMark::Keep => row.archived_at,
            ArchiveMark::Archived { at } => Some(at),
            ArchiveMark::Restored => None,
        },
        ..row
    }
}

/// A row carries this identity.
pub open spec fn id_in_use(rows: Seq<NoteRowView>, id: i64) -> bool {
    exists|i: int| 0 <= i < rows.len() && (#[trigger] rows[i]).id == id
}

/// An identity that no row carries.
pub open spec fn unused_id(rows: Seq<NoteRowView>) -> i64 {
    choose|id: i64| !id_in_use(rows, id)
}

/// The rows of the index after one step.
pub open spec fn rows_after_step(rows: Seq<NoteRowView>, step: StepView) -> Seq<NoteRowView> {
    match step {
        StepView::InsertRow { path, parent_path, mtime, content_hash, content } => rows.push(
            NoteRowView {
                id: unused_id(rows),
                path,
                parent_path,
                mtime,
                content_hash,
                archived: false,
                archived_at: None,
                access_count: 0,
                direct_access_count: 0,
                last_accessed_at: None,
                frecency_score: 0,
            },
        ),
        StepView::RefreshRow { id, path, parent_path, mtime, content_hash, content } => {
            rows.map_values(
                |row: NoteRowView|
                    if row.path == path {
                        NoteRowView { parent_path, mtime, content_hash, ..row }
                    } else {
                        row
                    },
            )
        },
        StepView::MoveRow { from, to, parent_path, mark } => rows.map_values(
            |row: NoteRowView|
                if row.path == from {
                    moved_row(row, to, parent_path, mark)
                } else {
                    row
                },
        ),
        StepView::DeleteSubtree { path } => kept(rows, |row: NoteRowView| !in_subtree(row.path, path)),
        StepView::DeleteRow { path } => kept(rows, |row: NoteRowView| row.path != path),
        StepView::RecordAccess {
            path,
            access_count,
            direct_access_count,
            last_accessed_at,
            frecency_score,
        } => rows.map_values(
            |row: NoteRowView|
                if row.path == path {
                    NoteRowView {
                        access_count,
                        direct_access_count,
                        last_accessed_at: Some(last_accessed_at),
                        frecency_score,
                        ..row
                    }
                } else {
                    row
                },
        ),
        _ => rows,
    }
}

/// The note at `p` lies in the directory of the note at `path`: at or below
/// it. In the directory of the root note lies every note.
pub open spec fn in_directory(p: Seq<char>, path: Seq<char>) -> bool {
    path.len() == 0 || in_subtree(p, path)
}

/// The notes on disk with the directory of the note at `path` removed.
pub open spec fn without_directory(files: Map<Seq<char>, Seq<char>>, path: Seq<char>) -> Map<
    Seq<char>,
    Seq<char>,
> {
    files.remove_keys(Set::new(|p: Seq<char>| in_directory(p, path)))
}

/// The notes on disk after one step.
pub open spec fn files_after_step(files: Map<Seq<char>, Seq<char>>, step: StepView) -> Map<
    Seq<char>,
    Seq<char>,
> {
    match step {
        StepView::CreateNote { path } => files.insert(path, Seq::empty()),
        StepView::WriteNote { path, content } => files.insert(path, content),
        StepView::DeleteNote { path } => without_directory(files, path),
        StepView::DiscardNote { path } => without_directory(files, path),
        StepView::TrashNote { path } => without_directory(files, path),
        _ => files,
    }
}

/// The rows of the index after the steps of a plan, in order.
pub open spec fn rows_after(rows: Seq<NoteRowView>, steps: Seq<StepView>) -> Seq<NoteRowView>
    decreases steps.len(),
{
    if steps.len() == 0 {
        rows
    } else {
        rows_after_step(rows_after(rows, steps.drop_last()), steps.last())
    }
}

/// The notes on disk after the steps of a plan, in order.
pub open spec fn files_after(files: Map<Seq<char>, Seq<char>>, steps: Seq<StepView>) -> Map<
    Seq<char>,
    Seq<char>,
>
    decreases steps.len(),
{
    if steps.len() == 0 {
        files
    } else {
        files_after_step(files_after(files, steps.drop_last()), steps.last())
    }
}

/// Neither path lies at or below the other.
pub open spec fn apart(a: Seq<char>, b: Seq<char>) -> bool {
    !in_subtree(a, b) && !in_subtree(b, a)
}

/// The rows after the subtree at `old_root` has moved to `new_root`: every
/// row of the subtree has its new path, the parent that this path names,
/// and the archive flag that `mark` sets; every other row is as before.
pub open spec fn relocated(
    rows: Seq<NoteRowView>,
    old_root: Seq<char>,
    new_root: Seq<char>,
    mark: ArchiveMark,
) -> Seq<NoteRowView> {
    rows.map_values(
        |row: NoteRowView|
            if in_subtree(row.path, old_root) {
                moved_row(
                    row,
                    rebased(row.path, old_root, new_root),
                    parent_of(rebased(row.path, old_root, new_root)),
                    mark,
                )
            } else {
                row
            },
    )
}

/// Doing one plan after another.
pub proof fn lemma_rows_after_concat(rows: Seq<NoteRowView>, a: Seq<StepView>, b: Seq<StepView>)
    ensures
        rows_after(rows, a + b) == rows_after(rows_after(rows, a), b),
    decreases b.len(),
{
    if b.len() == 0 {
        assert(a + b =~= a);
    } else {
        lemma_rows_after_concat(rows, a, b.drop_last());
        assert((a + b).drop_last() =~= a + b.drop_last());
        assert((a + b).last() == b.last());
    }
}

/// Doing one plan after another.
pub proof fn lemma_files_after_concat(
    files: Map<Seq<char>, Seq<char>>,
    a: Seq<StepView>,
    b: Seq<StepView>,
)
    ensures
        files_after(files, a + b) == files_after(files_after(files, a), b),
    decreases b.len(),
{
    if b.len() == 0 {
        assert(a + b =~= a);
    } else {
        lemma_files_after_concat(files, a, b.drop_last());
        assert((a + b).drop_last() =~= a + b.drop_last());
        assert((a + b).last() == b.last());
    }
}

/// Steps on the disk leave the index alone, and steps on the index leave
/// the disk alone.
pub proof fn lemma_each_to_its_own(
    rows: Seq<NoteRowView>,
    files: Map<Seq<char>, Seq<char>>,
    steps: Seq<StepView>,
)
    ensures
        (forall|i: int| 0 <= i < steps.len() ==> on_disk(#[trigger] steps[i])) ==> rows_after(
            rows,
            steps,
        ) == rows,
        (forall|i: int| 0 <= i < steps.len() ==> !on_disk(#[trigger] steps[i])) ==> files_after(
            files,
            steps,
        ) == files,
    decreases steps.len(),
{
    if steps.len() > 0 {
        lemma_each_to_its_own(rows, files, steps.drop_last());
        assert(forall|i: int|
            0 <= i < steps.len() - 1 ==> steps.drop_last()[i] == #[trigger] steps[i]);
        if forall|i: int| 0 <= i < steps.len() ==> on_disk(#[trigger] steps[i]) {
            assert(on_disk(steps[steps.len() - 1]));
            assert forall|i: int| 0 <= i < steps.drop_last().len() implies on_disk(
                #[trigger] steps.drop_last()[i],
            ) by {
                assert(on_disk(steps[i]));
            }
        }
        if forall|i: int| 0 <= i < steps.len() ==> !on_disk(#[trigger] steps[i]) {
            assert(!on_disk(steps[steps.len() - 1]));
            assert forall|i: int| 0 <= i < steps.drop_last().len() implies !on_disk(
                #[trigger] steps.drop_last()[i],
            ) by {
                assert(!on_disk(steps[i]));
            }
        }
    }
}

/// A path that lies in two subtrees: one of the two lies in the other.
pub proof fn lemma_subtrees_nest(x: Seq<char>, a: Seq<char>, b: Seq<char>)
    requires
        in_subtree(x, a),
        in_subtree(x, b),
    ensures
        in_subtree(a, b) || in_subtree(b, a),
{
    let am = a + seq!['/'];
    let bm = b + seq!['/'];
    if a.len() <= b.len() {
        lemma_prefixes_nest(x, a, b);
    } else {
        lemma_prefixes_nest(x, b, a);
    }
}

proof fn lemma_prefixes_nest(x: Seq<char>, a: Seq<char>, b: Seq<char>)
    requires
        in_subtree(x, a),
        in_subtree(x, b),
        a.len() <= b.len(),
    ensures
        in_subtree(b, a),
{
    let am = a + seq!['/'];
    let bm = b + seq!['/'];
    assert(x.subrange(0, a.len() as int) == a) by {
        if x != a {
            assert(x.subrange(0, am.len() as int) == am);
            assert(x.subrange(0, a.len() as int) =~= am.subrange(0, a.len() as int));
            assert(am.subrange(0, a.len() as int) =~= a);
        } else {
            assert(x.subrange(0, a.len() as int) =~= a);
        }
    }
    assert(x.subrange(0, b.len() as int) == b) by {
        if x != b {
            assert(x.subrange(0, bm.len() as int) == bm);
            assert(x.subrange(0, b.len() as int) =~= bm.subrange(0, b.len() as int));
            assert(bm.subrange(0, b.len() as int) =~= b);
        } else {
            assert(x.subrange(0, b.len() as int) =~= b);
        }
    }
    if a.len() == b.len() {
        assert(a == b);
    } else {
        assert(x.len() >= b.len());
        assert(x != a);
        assert(x.subrange(0, am.len() as int) == am);
        assert(x[a.len() as int] == am[a.len() as int]);
        assert forall|k: int| 0 <= k < am.len() implies b[k] == am[k] by {
            assert(x.subrange(0, b.len() as int)[k] == x[k]);
            assert(x.subrange(0, am.len() as int)[k] == x[k]);
        }
        assert(b.subrange(0, am.len() as int) =~= am);
    }
}

/// The paths of these descendants are those that the index lists below
/// `root`, in the same order.
pub open spec fn lists_descendants(
    descendants: Seq<DescendantView>,
    rows: Seq<NoteRowView>,
    root: Seq<char>,
) -> bool {
    descendants.map_values(|d: DescendantView| d.path) == descendant_paths(rows, root)
}

/// The moves of a plan relocate the subtree: where the descendants are those
/// that the index lists, and neither root lies at or below the other, the
/// moves leave the index as [`relocated`] says.
pub proof fn lemma_moves_relocate(
    rows: Seq<NoteRowView>,
    descendants: Seq<DescendantView>,
    old_root: Seq<char>,
    new_root: Seq<char>,
    mark: ArchiveMark,
)
    requires
        lists_descendants(descendants, rows, old_root),
        apart(old_root, new_root),
    ensures
        rows_after(rows, index_moves(descendants, old_root, new_root, mark)) == relocated(
            rows,
            old_root,
            new_root,
            mark,
        ),
{
    let steps = index_moves(descendants, old_root, new_root, mark);
    lemma_moves_partly(rows, descendants, old_root, new_root, mark, descendants.len() as int);
    assert(steps.take(descendants.len() as int + 1) =~= steps);
    let done = rows_after(rows, steps);
    let goal = relocated(rows, old_root, new_root, mark);
    assert(done.len() == goal.len());
    lemma_listed_lie_below(rows, descendants, old_root);
    assert forall|i: int| 0 <= i < done.len() implies done[i] == goal[i] by {
        let row = rows[i];
        if is_descendant(row.path, old_root) {
            let k = choose|k: int| 0 <= k < descendants.len() && descendants[k].path == row.path;
            assert(0 <= k < descendants.len() && descendants[k].path == rows[i].path);
        } else if row.path != old_root {
            if exists|k: int| 0 <= k < descendants.len() && descendants[k].path == row.path {
                let k = choose|k: int| 0 <= k < descendants.len() && descendants[k].path == row.path;
                assert(is_descendant(descendants[k].path, old_root));
            }
        }
    }
    assert(done =~= goal);
}

/// Descendants that the index lists below a root lie below it.
pub proof fn lemma_listed_lie_below(
    rows: Seq<NoteRowView>,
    descendants: Seq<DescendantView>,
    root: Seq<char>,
)
    requires
        lists_descendants(descendants, rows, root),
    ensures
        forall|k: int|
            0 <= k < descendants.len() ==> is_descendant(#[trigger] descendants[k].path, root),
        forall|i: int|
            0 <= i < rows.len() && is_descendant(rows[i].path, root) ==> exists|k: int|
                0 <= k < descendants.len() && descendants[k].path == (#[trigger] rows[i]).path,
{
    let paths = descendants.map_values(|d: DescendantView| d.path);
    let listed = kept(rows, below(root));
    lemma_kept(rows, below(root));
    assert(paths.len() == descendants.len());
    assert(descendant_paths(rows, root).len() == listed.len());
    assert forall|k: int| 0 <= k < descendants.len() implies is_descendant(
        #[trigger] descendants[k].path,
        root,
    ) by {
        assert(paths[k] == descendants[k].path);
        assert(descendant_paths(rows, root)[k] == listed[k].path);
        assert(listed.contains(listed[k]));
    }
    assert forall|i: int| 0 <= i < rows.len() && is_descendant(rows[i].path, root) implies exists|
        k: int,
    | 0 <= k < descendants.len() && descendants[k].path == (#[trigger] rows[i]).path by {
        let row = rows[i];
        assert(rows.contains(row));
        assert(below(root)(row));
        assert(listed.contains(row));
        let k = choose|k: int| 0 <= k < listed.len() && listed[k] == row;
        assert(descendant_paths(rows, root)[k] == row.path);
        assert(paths[k] == row.path);
        assert(descendants[k].path == row.path);
    }
}

/// The rows after the move of the root and of the first `n` descendants.
proof fn lemma_moves_partly(
    rows: Seq<NoteRowView>,
    descendants: Seq<DescendantView>,
    old_root: Seq<char>,
    new_root: Seq<char>,
    mark: ArchiveMark,
    n: int,
)
    requires
        lists_descendants(descendants, rows, old_root),
        apart(old_root, new_root),
        0 <= n <= descendants.len(),
    ensures
        ({
            let done = rows_after(
                rows,
                index_moves(descendants, old_root, new_root, mark).take(n + 1),
            );
            &&& done.len() == rows.len()
            &&& forall|i: int|
                0 <= i < rows.len() ==> #[trigger] done[i] == if rows[i].path == old_root || exists|
                    k: int,
                | 0 <= k < n && descendants[k].path == rows[i].path {
                    moved_row(
                        rows[i],
                        rebased(rows[i].path, old_root, new_root),
                        parent_of(rebased(rows[i].path, old_root, new_root)),
                        mark,
                    )
                } else {
                    rows[i]
                }
        }),
    decreases n,
{
    let steps = index_moves(descendants, old_root, new_root, mark);
    let paths = descendants.map_values(|d: DescendantView| d.path);
    lemma_kept(rows, below(old_root));
    lemma_listed_lie_below(rows, descendants, old_root);
    lemma_rebased_descendant(old_root, old_root, new_root);
    if n == 0 {
        assert(steps.take(1).drop_last() =~= Seq::<StepView>::empty());
        assert(steps.take(1).last() == steps[0]);
        let done = rows_after(rows, steps.take(1));
        assert(rows_after(rows, steps.take(1).drop_last()) == rows);
        assert(done == rows_after_step(rows, steps[0]));
    } else {
        lemma_moves_partly(rows, descendants, old_root, new_root, mark, n - 1);
        let before = rows_after(rows, steps.take(n));
        assert(steps.take(n + 1).drop_last() =~= steps.take(n));
        assert(steps.take(n + 1).last() == steps[n]);
        let d = descendants[n - 1];
        assert(steps[n] == row_move(d.path, old_root, new_root, mark));
        let done = rows_after(rows, steps.take(n + 1));
        assert(done == rows_after_step(before, steps[n]));
        assert forall|i: int| 0 <= i < rows.len() implies #[trigger] done[i] == if rows[i].path
            == old_root || exists|k: int| 0 <= k < n && descendants[k].path == rows[i].path {
            moved_row(
                rows[i],
                rebased(rows[i].path, old_root, new_root),
                parent_of(rebased(rows[i].path, old_root, new_root)),
                mark,
            )
        } else {
            rows[i]
        } by {
            let row = rows[i];
            let was_moved = row.path == old_root || exists|k: int|
                0 <= k < n - 1 && descendants[k].path == row.path;
            if was_moved {
                // A row that has moved lies below the new root: no later move finds it.
                assert(in_subtree(row.path, old_root));
                lemma_rebased_descendant(row.path, old_root, new_root);
                let now_at = rebased(row.path, old_root, new_root);
                assert(before[i].path == now_at);
                if now_at == d.path {
                    lemma_subtrees_nest(now_at, old_root, new_root);
                }
                if row.path != old_root {
                    let k = choose|k: int| 0 <= k < n - 1 && descendants[k].path == row.path;
                    assert(0 <= k < n && descendants[k].path == row.path);
                }
            } else {
                assert(before[i] == row);
                if row.path == d.path {
                    assert(0 <= n - 1 < n && descendants[n - 1].path == row.path);
                } else {
                    if exists|k: int| 0 <= k < n && descendants[k].path == row.path {
                        let k = choose|k: int| 0 <= k < n && descendants[k].path == row.path;
                        assert(k < n - 1);
                    }
                }
            }
        }
    }
}

/// A note that has moved with its subtree and moves back stands where it
/// stood.
pub proof fn lemma_rebased_back(path: Seq<char>, a: Seq<char>, b: Seq<char>)
    requires
        in_subtree(path, a),
    ensures
        rebased(rebased(path, a, b), b, a) == path,
{
    lemma_rebased_descendant(path, a, b);
    let there = rebased(path, a, b);
    lemma_rebased_descendant(there, b, a);
    assert(there.skip(b.len() as int) =~= path.skip(a.len() as int));
    if path == a {
        assert(a + path.skip(a.len() as int) =~= path);
    } else {
        let marked = a + seq!['/'];
        assert(path.subrange(0, marked.len() as int) == marked);
        assert(path.subrange(0, a.len() as int) =~= marked.subrange(0, a.len() as int));
        assert(marked.subrange(0, a.len() as int) =~= a);
        assert(a + path.skip(a.len() as int) =~= path);
    }
}

/// The writes of a plan are steps on the disk.
pub proof fn lemma_writes_on_disk(
    descendants: Seq<DescendantView>,
    old_root: Seq<char>,
    new_root: Seq<char>,
)
    ensures
        forall|i: int|
            0 <= i < writes_to(descendants, old_root, new_root).len() ==> on_disk(
                #[trigger] writes_to(descendants, old_root, new_root)[i],
            ),
        writes_to(descendants, old_root, new_root).len() == descendants.len(),
{
}

/// The index after a plan that ends in the moves of a subtree, and holds
/// only steps on the disk before them.
proof fn lemma_rows_after_relocation(
    rows: Seq<NoteRowView>,
    disk: Seq<StepView>,
    descendants: Seq<DescendantView>,
    old_root: Seq<char>,
    new_root: Seq<char>,
    mark: ArchiveMark,
)
    requires
        forall|i: int| 0 <= i < disk.len() ==> on_disk(#[trigger] disk[i]),
        lists_descendants(descendants, rows, old_root),
        apart(old_root, new_root),
    ensures
        rows_after(rows, disk + index_moves(descendants, old_root, new_root, mark)) == relocated(
            rows,
            old_root,
            new_root,
            mark,
        ),
{
    lemma_rows_after_concat(rows, disk, index_moves(descendants, old_root, new_root, mark));
    lemma_each_to_its_own(rows, Map::empty(), disk);
    lemma_moves_relocate(rows, descendants, old_root, new_root, mark);
}

/// The steps of a rename that come before the moves in the index.
pub open spec fn rename_on_disk(
    kind: RenameKind,
    old_path: Seq<char>,
    new_path: Seq<char>,
    content: Seq<char>,
    descendants: Seq<DescendantView>,
    stamp: u128,
) -> Seq<StepView> {
    match kind {
        RenameKind::Regular => seq![StepView::WriteNote { path: new_path, content }] + writes_to(
            descendants,
            old_path,
            new_path,
        ) + seq![StepView::DeleteNote { path: old_path }],
        RenameKind::CaseOnly => {
            let scratch = temp_target(old_path, decimal(stamp as nat));
            seq![StepView::WriteNote { path: scratch, content }] + writes_to(
                descendants,
                old_path,
                scratch,
            ) + seq![
                StepView::DeleteNote { path: old_path },
                StepView::WriteNote { path: new_path, content },
            ] + writes_to(descendants, old_path, new_path) + seq![
                StepView::DiscardNote { path: scratch },
            ]
        },
    }
}

/// A rename is its steps on the disk, then its moves in the index.
pub proof fn lemma_rename_in_two_parts(
    kind: RenameKind,
    old_path: Seq<char>,
    new_path: Seq<char>,
    content: Seq<char>,
    descendants: Seq<DescendantView>,
    stamp: u128,
)
    ensures
        rename_plan(kind, old_path, new_path, content, descendants, stamp) == rename_on_disk(
            kind,
            old_path,
            new_path,
            content,
            descendants,
            stamp,
        ) + index_moves(descendants, old_path, new_path, ArchiveMark::Keep),
        forall|i: int|
            0 <= i < rename_on_disk(kind, old_path, new_path, content, descendants, stamp).len()
                ==> on_disk(
                #[trigger] rename_on_disk(kind, old_path, new_path, content, descendants, stamp)[i],
            ),
{
    let scratch = temp_target(old_path, decimal(stamp as nat));
    lemma_writes_on_disk(descendants, old_path, new_path);
    lemma_writes_on_disk(descendants, old_path, scratch);
}

/// After a rename the subtree stands at the new path. Where the plan is
/// made from the descendants that the index lists, and neither path lies at
/// or below the other:
/// no row is left at or below the old path; every row that stood there
/// stands at the same place below the new path, with the parent that its
/// new path names and nothing else changed; and every other row is as it
/// was.
pub proof fn theorem_rename_moves_subtree(
    rows: Seq<NoteRowView>,
    kind: RenameKind,
    old_path: Seq<char>,
    new_path: Seq<char>,
    content: Seq<char>,
    descendants: Seq<DescendantView>,
    stamp: u128,
)
    requires
        lists_descendants(descendants, rows, old_path),
        apart(old_path, new_path),
    ensures
        ({
            let after = rows_after(
                rows,
                rename_plan(kind, old_path, new_path, content, descendants, stamp),
            );
            &&& after == relocated(rows, old_path, new_path, ArchiveMark::Keep)
            &&& forall|i: int| 0 <= i < after.len() ==> !in_subtree(#[trigger] after[i].path, old_path)
            &&& forall|i: int|
                0 <= i < rows.len() && in_subtree(#[trigger] rows[i].path, old_path) ==> has_note(
                    after,
                    rebased(rows[i].path, old_path, new_path),
                )
        }),
{
    lemma_rename_in_two_parts(kind, old_path, new_path, content, descendants, stamp);
    lemma_rows_after_relocation(
        rows,
        rename_on_disk(kind, old_path, new_path, content, descendants, stamp),
        descendants,
        old_path,
        new_path,
        ArchiveMark::Keep,
    );
    lemma_relocated(rows, old_path, new_path, ArchiveMark::Keep);
}

/// What stands where after a subtree has moved to a root apart from its
/// own.
pub proof fn lemma_relocated(
    rows: Seq<NoteRowView>,
    old_root: Seq<char>,
    new_root: Seq<char>,
    mark: ArchiveMark,
)
    requires
        apart(old_root, new_root),
    ensures
        ({
            let after = relocated(rows, old_root, new_root, mark);
            &&& after.len() == rows.len()
            &&& forall|i: int| 0 <= i < after.len() ==> !in_subtree(#[trigger] after[i].path, old_root)
            &&& forall|i: int|
                0 <= i < rows.len() ==> (in_subtree(#[trigger] after[i].path, new_root) <==> in_subtree(
                    rows[i].path,
                    old_root,
                ) || in_subtree(rows[i].path, new_root))
            &&& forall|i: int|
                0 <= i < rows.len() && in_subtree(#[trigger] rows[i].path, old_root) ==> has_note(
                    after,
                    rebased(rows[i].path, old_root, new_root),
                )
        }),
{
    let after = relocated(rows, old_root, new_root, mark);
    assert forall|i: int| 0 <= i < after.len() implies !in_subtree(
        #[trigger] after[i].path,
        old_root,
    ) && (in_subtree(after[i].path, new_root) <==> in_subtree(rows[i].path, old_root)
        || in_subtree(rows[i].path, new_root)) by {
        if in_subtree(rows[i].path, old_root) {
            lemma_rebased_descendant(rows[i].path, old_root, new_root);
            if in_subtree(after[i].path, old_root) {
                lemma_subtrees_nest(after[i].path, old_root, new_root);
            }
        } else {
            assert(after[i] == rows[i]);
        }
    }
    assert forall|i: int|
        0 <= i < rows.len() && in_subtree(#[trigger] rows[i].path, old_root) implies has_note(
        after,
        rebased(rows[i].path, old_root, new_root),
    ) by {
        assert(after[i].path == rebased(rows[i].path, old_root, new_root));
        lemma_position_of(after, rebased(rows[i].path, old_root, new_root));
    }
}

/// Renaming a note and renaming it back restores every path. Where each
/// plan is made from the descendants that the index lists at the time,
/// neither path lies at or below the other, and no note stood at or below
/// the second path to begin with: the index has its rows in the same order
/// with the same paths, and each row is as it was but for the parent, which
/// is the one that its path names.
pub proof fn theorem_rename_there_and_back(
    rows: Seq<NoteRowView>,
    a: Seq<char>,
    b: Seq<char>,
    there: (RenameKind, Seq<char>, Seq<DescendantView>, u128),
    back: (RenameKind, Seq<char>, Seq<DescendantView>, u128),
)
    requires
        apart(a, b),
        forall|i: int| 0 <= i < rows.len() ==> !in_subtree(#[trigger] rows[i].path, b),
        lists_descendants(there.2, rows, a),
        lists_descendants(
            back.2,
            rows_after(rows, rename_plan(there.0, a, b, there.1, there.2, there.3)),
            b,
        ),
    ensures
        ({
            let mid = rows_after(rows, rename_plan(there.0, a, b, there.1, there.2, there.3));
            let after = rows_after(mid, rename_plan(back.0, b, a, back.1, back.2, back.3));
            &&& after.len() == rows.len()
            &&& forall|i: int|
                0 <= i < rows.len() ==> #[trigger] after[i] == if in_subtree(rows[i].path, a) {
                    NoteRowView { parent_path: parent_of(rows[i].path), ..rows[i] }
                } else {
                    rows[i]
                }
        }),
{
    theorem_rename_moves_subtree(rows, there.0, a, b, there.1, there.2, there.3);
    let mid = rows_after(rows, rename_plan(there.0, a, b, there.1, there.2, there.3));
    theorem_rename_moves_subtree(mid, back.0, b, a, back.1, back.2, back.3);
    lemma_there_and_back(rows, a, b, ArchiveMark::Keep, ArchiveMark::Keep);
}

/// The rows after a subtree has moved from `a` to `b` and back.
pub proof fn lemma_there_and_back(
    rows: Seq<NoteRowView>,
    a: Seq<char>,
    b: Seq<char>,
    first: ArchiveMark,
    second: ArchiveMark,
)
    requires
        apart(a, b),
        forall|i: int| 0 <= i < rows.len() ==> !in_subtree(#[trigger] rows[i].path, b),
    ensures
        ({
            let after = relocated(relocated(rows, a, b, first), b, a, second);
            &&& after.len() == rows.len()
            &&& forall|i: int|
                0 <= i < rows.len() ==> #[trigger] after[i] == if in_subtree(rows[i].path, a) {
                    moved_row(
                        moved_row(rows[i], rows[i].path, parent_of(rows[i].path), first),
                        rows[i].path,
                        parent_of(rows[i].path),
                        second,
                    )
                } else {
                    rows[i]
                }
        }),
{
    let mid = relocated(rows, a, b, first);
    let after = relocated(mid, b, a, second);
    assert forall|i: int| 0 <= i < rows.len() implies #[trigger] after[i] == if in_subtree(
        rows[i].path,
        a,
    ) {
        moved_row(
            moved_row(rows[i], rows[i].path, parent_of(rows[i].path), first),
            rows[i].path,
            parent_of(rows[i].path),
            second,
        )
    } else {
        rows[i]
    } by {
        if in_subtree(rows[i].path, a) {
            lemma_rebased_descendant(rows[i].path, a, b);
            lemma_rebased_back(rows[i].path, a, b);
        } else {
            assert(mid[i] == rows[i]);
        }
    }
}

/// A plan of one step.
pub proof fn lemma_rows_after_one(rows: Seq<NoteRowView>, step: StepView)
    ensures
        rows_after(rows, seq![step]) == rows_after_step(rows, step),
        rows_after(rows, Seq::empty()) == rows,
{
    assert(seq![step].drop_last() =~= Seq::<StepView>::empty());
    assert(rows_after(rows, seq![step].drop_last()) == rows);
}

/// A row after one more visit at `now`.
pub open spec fn visited(row: NoteRowView, now: i64, direct: bool) -> NoteRowView {
    NoteRowView {
        access_count: (row.access_count + 1) as i64,
        direct_access_count: if direct {
            (row.direct_access_count + 1) as i64
        } else {
            row.direct_access_count
        },
        last_accessed_at: Some(now),
        frecency_score: frecency_micros((row.access_count + 1) as i64, Some(now), now) as i128,
        ..row
    }
}

/// `a` is an ancestor of the note at `path`: it stands in the chain of
/// `path`, before `path` itself.
pub open spec fn is_ancestor(a: Seq<char>, path: Seq<char>) -> bool {
    ancestor_chain(path).drop_last().contains(a)
}

/// An ancestor's path is shorter than the note's, and the ancestors of a
/// note are its parent and the parent's ancestors.
pub proof fn lemma_ancestors(path: Seq<char>)
    ensures
        forall|a: Seq<char>| is_ancestor(a, path) ==> a.len() < path.len(),
        match parent_of(path) {
            Some(parent) => forall|a: Seq<char>|
                is_ancestor(a, path) <==> a == parent || is_ancestor(a, parent),
            None => forall|a: Seq<char>| !is_ancestor(a, path),
        },
    decreases path.len(),
{
    lemma_ancestor_chain(path);
    lemma_parent_is_prefix(path);
    match parent_of(path) {
        Some(parent) => {
            lemma_ancestors(parent);
            lemma_ancestor_chain(parent);
            let chain = ancestor_chain(parent);
            assert(ancestor_chain(path).drop_last() =~= chain);
            assert(chain =~= chain.drop_last().push(parent));
            assert forall|a: Seq<char>| is_ancestor(a, path) <==> a == parent || is_ancestor(
                a,
                parent,
            ) by {
                if chain.contains(a) {
                    let k = choose|k: int| 0 <= k < chain.len() && chain[k] == a;
                    if k < chain.len() - 1 {
                        assert(chain.drop_last()[k] == a);
                    }
                }
                if a == parent {
                    assert(chain[chain.len() - 1] == a);
                }
                if is_ancestor(a, parent) {
                    let k = choose|k: int|
                        0 <= k < chain.drop_last().len() && chain.drop_last()[k] == a;
                    assert(chain[k] == a);
                }
            }
        },
        None => {
            assert(ancestor_chain(path).drop_last() =~= Seq::<Seq<char>>::empty());
        },
    }
}

/// The visits recorded upward from `from`, done on rows that stand as
/// `rows` stood in all that concerns the ancestors of `from`.
proof fn lemma_upward_visits(
    rows: Seq<NoteRowView>,
    current: Seq<NoteRowView>,
    from: Seq<char>,
    now: i64,
)
    requires
        paths_unique(rows),
        current.len() == rows.len(),
        forall|i: int| 0 <= i < rows.len() ==> (#[trigger] current[i]).path == rows[i].path,
        forall|i: int|
            0 <= i < rows.len() && is_ancestor(rows[i].path, from) ==> #[trigger] current[i]
                == rows[i],
    ensures
        ({
            let after = rows_after(current, upward_visits(rows, from, now));
            &&& after.len() == rows.len()
            &&& forall|i: int|
                0 <= i < rows.len() ==> #[trigger] after[i] == if is_ancestor(rows[i].path, from) {
                    visited(rows[i], now, false)
                } else {
                    current[i]
                }
        }),
    decreases from.len(),
{
    lemma_ancestors(from);
    lemma_parent_is_prefix(from);
    lemma_rows_after_one(current, StepView::AnnounceFrecency);
    match parent_of(from) {
        Some(parent) => {
            lemma_ancestors(parent);
            lemma_position_of(rows, parent);
            let here = match row_at(rows, parent) {
                Some(row) => seq![visit(row, now, false)],
                None => Seq::empty(),
            };
            let rest = upward_visits(rows, parent, now);
            assert(upward_visits(rows, from, now) == here + rest);
            lemma_rows_after_concat(current, here, rest);
            let next = rows_after(current, here);
            match row_at(rows, parent) {
                Some(row) => {
                    lemma_rows_after_one(current, visit(row, now, false));
                    let at = position_of(rows, parent)->0;
                    assert(row == rows[at]);
                    assert forall|i: int| 0 <= i < rows.len() implies #[trigger] next[i] == if i
                        == at {
                        visited(rows[i], now, false)
                    } else {
                        current[i]
                    } by {
                        if i == at {
                            assert(is_ancestor(rows[at].path, from));
                            assert(current[at] == rows[at]);
                        } else {
                            assert(rows[i].path != rows[at].path);
                        }
                    }
                },
                None => {
                    assert(next == current);
                },
            }
            assert forall|i: int|
                0 <= i < rows.len() && is_ancestor(rows[i].path, parent) implies #[trigger] next[i]
                == rows[i] by {
                assert(is_ancestor(rows[i].path, from));
                assert(rows[i].path.len() < parent.len());
            }
            lemma_upward_visits(rows, next, parent, now);
        },
        None => {
            assert(upward_visits(rows, from, now) =~= Seq::<StepView>::empty());
        },
    }
}

/// Every visit counts once, in the note and in each of its ancestors.
/// Where no two rows share a path and the counts leave room in the rows
/// concerned: after the plan
/// that records a visit to the note at `path`, the row of the note has one
/// more access and one more direct access; the row of each ancestor has one
/// more access and as many direct accesses as before; each of these rows
/// carries the moment of the visit and the score of that moment; and every
/// other row is as it was.
pub proof fn theorem_visit_counts_once(rows: Seq<NoteRowView>, path: Seq<char>, now: i64)
    requires
        paths_unique(rows),
        room_for_visit(rows, path),
        has_note(rows, path),
    ensures
        access_plan(rows, path, now) is Some,
        ({
            let after = rows_after(rows, access_plan(rows, path, now)->0);
            &&& after.len() == rows.len()
            &&& forall|i: int|
                0 <= i < rows.len() ==> #[trigger] after[i] == if rows[i].path == path {
                    visited(rows[i], now, true)
                } else if is_ancestor(rows[i].path, path) {
                    visited(rows[i], now, false)
                } else {
                    rows[i]
                }
            &&& forall|i: int|
                0 <= i < rows.len() && (rows[i].path == path || is_ancestor(rows[i].path, path))
                    ==> (#[trigger] after[i]).access_count == rows[i].access_count + 1
            &&& forall|i: int|
                0 <= i < rows.len() && is_ancestor(rows[i].path, path) ==> (
                #[trigger] after[i]).direct_access_count == rows[i].direct_access_count
            &&& forall|i: int|
                0 <= i < rows.len() && rows[i].path == path ==> (
                #[trigger] after[i]).direct_access_count == rows[i].direct_access_count + 1
        }),
{
    lemma_position_of(rows, path);
    lemma_ancestors(path);
    let at = position_of(rows, path)->0;
    let row = rows[at];
    let first = visit(row, now, true);
    let upward = upward_visits(rows, path, now);
    let plan = access_plan(rows, path, now)->0;
    assert(plan == seq![first] + upward + seq![StepView::AnnounceFrecency]);
    lemma_rows_after_concat(rows, seq![first] + upward, seq![StepView::AnnounceFrecency]);
    lemma_rows_after_concat(rows, seq![first], upward);
    lemma_rows_after_one(rows, first);
    let started = rows_after(rows, seq![first]);
    lemma_rows_after_one(rows_after(started, upward), StepView::AnnounceFrecency);
    assert forall|i: int| 0 <= i < rows.len() implies #[trigger] started[i] == if i == at {
        visited(rows[i], now, true)
    } else {
        rows[i]
    } by {
        if i != at {
            assert(rows[i].path != rows[at].path);
        }
    }
    assert forall|i: int|
        0 <= i < rows.len() && is_ancestor(rows[i].path, path) implies #[trigger] started[i]
        == rows[i] by {
        assert(rows[i].path.len() < path.len());
    }
    lemma_upward_visits(rows, started, path, now);
    let after = rows_after(rows, plan);
    assert forall|i: int| 0 <= i < rows.len() implies #[trigger] after[i] == if rows[i].path
        == path {
        visited(rows[i], now, true)
    } else if is_ancestor(rows[i].path, path) {
        visited(rows[i], now, false)
    } else {
        rows[i]
    } by {
        if rows[i].path == path {
            if i != at {
                assert(rows[i].path != rows[at].path);
            }
            if is_ancestor(rows[i].path, path) {
                assert(rows[i].path.len() < path.len());
            }
        }
    }
    let chain = ancestor_chain(path);
    lemma_ancestor_chain(path);
    assert forall|i: int|
        0 <= i < rows.len() && (rows[i].path == path || is_ancestor(rows[i].path, path))
        implies countable(#[trigger] rows[i]) by {
        if rows[i].path == path {
            assert(chain[chain.len() - 1] == path);
        } else {
            let k = choose|k: int| 0 <= k < chain.drop_last().len() && chain.drop_last()[k]
                == rows[i].path;
            assert(chain[k] == rows[i].path);
        }
        assert(chain.contains(rows[i].path));
    }
}

/// The rows after a step that may be none.
pub open spec fn rows_after_maybe(rows: Seq<NoteRowView>, step: Option<StepView>) -> Seq<
    NoteRowView,
> {
    match step {
        Some(s) => rows_after_step(rows, s),
        None => rows,
    }
}

/// The index after the sync of the note at `path`, found on disk with this
/// modification time and content.
pub open spec fn synced(rows: Seq<NoteRowView>, path: Seq<char>, mtime: u64, content: Seq<char>)
    -> Seq<NoteRowView> {
    rows_after_maybe(rows, sync_plan(path, mtime, content, row_at(rows, path)))
}

/// Rows that agree in their paths, place by place, have each path at the
/// same place.
pub proof fn lemma_same_paths(rows: Seq<NoteRowView>, other: Seq<NoteRowView>, path: Seq<char>)
    requires
        rows.len() == other.len(),
        forall|i: int| 0 <= i < rows.len() ==> (#[trigger] rows[i]).path == other[i].path,
    ensures
        position_of(rows, path) == position_of(other, path),
{
    lemma_position_of(rows, path);
    lemma_position_of(other, path);
    match position_of(rows, path) {
        Some(i) => {
            assert(other[i].path == path);
            assert forall|j: int| 0 <= j < i implies other[j].path != path by {
                assert(rows[j].path == other[j].path);
            }
            lemma_position_is(other, path, i);
        },
        None => {
            if position_of(other, path) is Some {
                let j = position_of(other, path)->0;
                assert(rows[j].path == other[j].path);
            }
        },
    }
}

/// A sync brings the index up to date, and a second sync finds nothing to
/// do. After the sync of a note, the index has a row for it that carries
/// the digest of the content; the rows it had keep their places and paths;
/// and a sync of the same content, whatever the modification time, changes
/// nothing.
pub proof fn theorem_sync_settles(
    rows: Seq<NoteRowView>,
    path: Seq<char>,
    mtime: u64,
    content: Seq<char>,
    later_mtime: u64,
)
    ensures
        ({
            let after = synced(rows, path, mtime, content);
            &&& row_at(after, path) is Some
            &&& row_at(after, path)->0.content_hash == content_hash(content)
            &&& row_at(after, path)->0.parent_path == parent_of(path) || sync_plan(
                path,
                mtime,
                content,
                row_at(rows, path),
            ) is None
            &&& sync_plan(path, later_mtime, content, row_at(after, path)) is None
            &&& synced(after, path, later_mtime, content) == after
            &&& after.len() >= rows.len()
            &&& forall|i: int| 0 <= i < rows.len() ==> (#[trigger] after[i]).path == rows[i].path
            &&& forall|i: int|
                rows.len() <= i < after.len() ==> (#[trigger] after[i]).path == path
        }),
{
    let after = synced(rows, path, mtime, content);
    lemma_position_of(rows, path);
    match row_at(rows, path) {
        Some(row) => {
            let at = position_of(rows, path)->0;
            lemma_same_paths(rows, after, path);
            assert(after[at].content_hash == content_hash(content));
        },
        None => {
            assert(after[rows.len() as int].path == path);
            assert forall|j: int| 0 <= j < rows.len() implies after[j].path != path by {
                assert(after[j] == rows[j]);
            }
            lemma_position_is(after, path, rows.len() as int);
        },
    }
}

/// Every row names as its parent the one that its path names.
pub open spec fn parents_derived(rows: Seq<NoteRowView>) -> bool {
    forall|i: int| 0 <= i < rows.len() ==> (#[trigger] rows[i]).parent_path == parent_of(rows[i].path)
}

/// The step gives each row that it writes the parent that the row's path
/// names.
pub open spec fn names_parent(step: StepView) -> bool {
    match step {
        StepView::InsertRow { path, parent_path, mtime, content_hash, content } => parent_path
            == parent_of(path),
        StepView::RefreshRow { id, path, parent_path, mtime, content_hash, content } => parent_path
            == parent_of(path),
        StepView::MoveRow { from, to, parent_path, mark } => parent_path == parent_of(to),
        _ => true,
    }
}

/// Every step of the plan gives each row that it writes the parent that the
/// row's path names.
pub open spec fn all_name_parents(steps: Seq<StepView>) -> bool {
    forall|i: int| 0 <= i < steps.len() ==> names_parent(#[trigger] steps[i])
}

/// What is kept of rows stood among them.
pub proof fn lemma_kept_from(rows: Seq<NoteRowView>, keep: spec_fn(NoteRowView) -> bool, j: int)
    requires
        0 <= j < kept(rows, keep).len(),
    ensures
        rows.contains(kept(rows, keep)[j]),
        keep(kept(rows, keep)[j]),
{
    lemma_kept(rows, keep);
    assert(kept(rows, keep).contains(kept(rows, keep)[j]));
}

/// The plans of this library name parents as the paths do.
pub proof fn lemma_plans_name_parents(
    rows: Seq<NoteRowView>,
    scanned: Seq<FsNoteView>,
    path: Seq<char>,
    target: Seq<char>,
    content: Seq<char>,
    descendants: Seq<DescendantView>,
    kind: RenameKind,
    stamp: u128,
    mark: ArchiveMark,
    mtime: u64,
    now: i64,
)
    ensures
        all_name_parents(rename_plan(kind, path, target, content, descendants, stamp)),
        all_name_parents(relocation_plan(path, target, content, descendants, mark)),
        all_name_parents(archive_plan(path, content, descendants, now)),
        unarchive_plan(path, content, descendants) is Ok ==> all_name_parents(
            unarchive_plan(path, content, descendants)->Ok_0,
        ),
        sync_plan(path, mtime, content, row_at(rows, path)) is Some ==> names_parent(
            sync_plan(path, mtime, content, row_at(rows, path))->0,
        ),
        access_plan(rows, path, now) is Some ==> all_name_parents(access_plan(rows, path, now)->0),
        all_name_parents(stale_rows(rows, scanned)),
{
    lemma_moves_name_parents(descendants, path, target, ArchiveMark::Keep);
    lemma_moves_name_parents(descendants, path, target, mark);
    lemma_moves_name_parents(
        descendants,
        path,
        archive_target(path),
        ArchiveMark::Archived { at: now },
    );
    lemma_rename_in_two_parts(kind, path, target, content, descendants, stamp);
    let scratch = temp_target(path, decimal(stamp as nat));
    lemma_writes_on_disk(descendants, path, target);
    lemma_writes_on_disk(descendants, path, archive_target(path));
    if unarchive_target(path) is Some {
        lemma_moves_name_parents(descendants, path, unarchive_target(path)->0, ArchiveMark::Restored);
        lemma_writes_on_disk(descendants, path, unarchive_target(path)->0);
    }
    lemma_visits_name_parents(rows, path, now);
    lemma_stale_name_parents(rows, scanned);
}

proof fn lemma_moves_name_parents(
    descendants: Seq<DescendantView>,
    old_root: Seq<char>,
    new_root: Seq<char>,
    mark: ArchiveMark,
)
    ensures
        all_name_parents(index_moves(descendants, old_root, new_root, mark)),
{
}

proof fn lemma_visits_name_parents(rows: Seq<NoteRowView>, path: Seq<char>, now: i64)
    ensures
        all_name_parents(upward_visits(rows, path, now)),
        forall|i: int|
            0 <= i < upward_visits(rows, path, now).len() ==> (#[trigger] upward_visits(
                rows,
                path,
                now,
            )[i]) is RecordAccess,
    decreases path.len(),
{
    match parent_of(path) {
        Some(parent) => {
            if parent.len() < path.len() {
                lemma_visits_name_parents(rows, parent, now);
            }
        },
        None => {},
    }
}

proof fn lemma_stale_name_parents(rows: Seq<NoteRowView>, scanned: Seq<FsNoteView>)
    ensures
        all_name_parents(stale_rows(rows, scanned)),
        forall|i: int|
            0 <= i < stale_rows(rows, scanned).len() ==> (#[trigger] stale_rows(rows, scanned)[i])
                is DeleteRow,
    decreases rows.len(),
{
    if rows.len() > 0 {
        lemma_stale_name_parents(rows.drop_last(), scanned);
    }
}

/// Parents stay as the paths name them. Where every row names as its
/// parent the one that its path names, and a plan gives each row that it
/// writes such a parent, the same holds of every row after the plan.
pub proof fn theorem_parents_stay_derived(rows: Seq<NoteRowView>, steps: Seq<StepView>)
    requires
        parents_derived(rows),
        all_name_parents(steps),
    ensures
        parents_derived(rows_after(rows, steps)),
    decreases steps.len(),
{
    if steps.len() > 0 {
        assert forall|i: int| 0 <= i < steps.drop_last().len() implies names_parent(
            #[trigger] steps.drop_last()[i],
        ) by {
            assert(names_parent(steps[i]));
        }
        theorem_parents_stay_derived(rows, steps.drop_last());
        let before = rows_after(rows, steps.drop_last());
        let step = steps.last();
        assert(names_parent(steps[steps.len() - 1]));
        let after = rows_after_step(before, step);
        assert forall|i: int| 0 <= i < after.len() implies (#[trigger] after[i]).parent_path
            == parent_of(after[i].path) by {
            match step {
                StepView::DeleteSubtree { path } => {
                    lemma_kept_from(before, |row: NoteRowView| !in_subtree(row.path, path), i);
                    let k = choose|k: int| 0 <= k < before.len() && before[k] == after[i];
                    assert(before[k].parent_path == parent_of(before[k].path));
                },
                StepView::DeleteRow { path } => {
                    lemma_kept_from(before, |row: NoteRowView| row.path != path, i);
                    let k = choose|k: int| 0 <= k < before.len() && before[k] == after[i];
                    assert(before[k].parent_path == parent_of(before[k].path));
                },
                StepView::InsertRow { path, parent_path, mtime, content_hash, content } => {
                    if i < before.len() {
                        assert(after[i] == before[i]);
                    }
                },
                StepView::RefreshRow { id, path, parent_path, mtime, content_hash, content } => {
                    assert(before[i].parent_path == parent_of(before[i].path));
                },
                StepView::MoveRow { from, to, parent_path, mark } => {
                    assert(before[i].parent_path == parent_of(before[i].path));
                },
                StepView::RecordAccess {
                    path,
                    access_count,
                    direct_access_count,
                    last_accessed_at,
                    frecency_score,
                } => {
                    assert(before[i].parent_path == parent_of(before[i].path));
                },
                _ => {
                    assert(after[i] == before[i]);
                },
            }
        }
    }
}

/// A relocation is its steps on the disk, then its moves in the index.
pub proof fn lemma_relocation_in_two_parts(
    path: Seq<char>,
    target: Seq<char>,
    content: Seq<char>,
    descendants: Seq<DescendantView>,
    mark: ArchiveMark,
)
    ensures
        relocation_plan(path, target, content, descendants, mark) == relocation_on_disk(
            path,
            target,
            content,
            descendants,
        ) + index_moves(descendants, path, target, mark),
        forall|i: int|
            0 <= i < relocation_on_disk(path, target, content, descendants).len() ==> on_disk(
                #[trigger] relocation_on_disk(path, target, content, descendants)[i],
            ),
{
    lemma_writes_on_disk(descendants, path, target);
}

/// The steps of a relocation that come before the moves in the index.
pub open spec fn relocation_on_disk(
    path: Seq<char>,
    target: Seq<char>,
    content: Seq<char>,
    descendants: Seq<DescendantView>,
) -> Seq<StepView> {
    writes_to(descendants, path, target) + seq![
        StepView::WriteNote { path: target, content },
        StepView::DeleteNote { path },
    ]
}

/// After archiving, the whole subtree is archived. Where the plan is made
/// from the descendants that the index lists, and the note does not lie at
/// or below its own place in the archive: every row that stood at or below
/// the note stands at the same place below the archive path, is marked as
/// archived, and carries the moment of archiving; every other row is as it
/// was.
pub proof fn theorem_archive_marks_subtree(
    rows: Seq<NoteRowView>,
    path: Seq<char>,
    content: Seq<char>,
    descendants: Seq<DescendantView>,
    now: i64,
)
    requires
        lists_descendants(descendants, rows, path),
        apart(path, archive_target(path)),
    ensures
        ({
            let after = rows_after(rows, archive_plan(path, content, descendants, now));
            &&& after.len() == rows.len()
            &&& forall|i: int|
                0 <= i < rows.len() ==> #[trigger] after[i] == if in_subtree(rows[i].path, path) {
                    NoteRowView {
                        path: rebased(rows[i].path, path, archive_target(path)),
                        parent_path: parent_of(rebased(rows[i].path, path, archive_target(path))),
                        archived: true,
                        archived_at: Some(now),
                        ..rows[i]
                    }
                } else {
                    rows[i]
                }
            &&& forall|i: int| 0 <= i < after.len() ==> !in_subtree(#[trigger] after[i].path, path)
        }),
{
    let target = archive_target(path);
    let mark = ArchiveMark::Archived { at: now };
    lemma_relocation_in_two_parts(path, target, content, descendants, mark);
    lemma_rows_after_relocation(
        rows,
        relocation_on_disk(path, target, content, descendants),
        descendants,
        path,
        target,
        mark,
    );
    lemma_relocated(rows, path, target, mark);
}

/// Archiving a note and bringing it back restores it. Where the archive
/// path of the note leads back to the note, the note does not lie at or
/// below that path nor the path at or below the note, nothing stood at or
/// below the archive path before, and each plan is made from the
/// descendants that the index lists at the time: the second plan is not
/// refused, and after it every row of the subtree has its old path, the
/// parent that this path names, and is not archived; every other row, and
/// everything else in the rows of the subtree, is as it was.
pub proof fn theorem_archive_round_trip(
    rows: Seq<NoteRowView>,
    path: Seq<char>,
    now: i64,
    archived: (Seq<char>, Seq<DescendantView>),
    restored: (Seq<char>, Seq<DescendantView>),
)
    requires
        unarchive_target(archive_target(path)) == Some(path),
        apart(path, archive_target(path)),
        forall|i: int|
            0 <= i < rows.len() ==> !in_subtree(#[trigger] rows[i].path, archive_target(path)),
        lists_descendants(archived.1, rows, path),
        lists_descendants(
            restored.1,
            rows_after(rows, archive_plan(path, archived.0, archived.1, now)),
            archive_target(path),
        ),
    ensures
        unarchive_plan(archive_target(path), restored.0, restored.1) is Ok,
        ({
            let mid = rows_after(rows, archive_plan(path, archived.0, archived.1, now));
            let after = rows_after(
                mid,
                unarchive_plan(archive_target(path), restored.0, restored.1)->Ok_0,
            );
            &&& after.len() == rows.len()
            &&& forall|i: int|
                0 <= i < rows.len() ==> #[trigger] after[i] == if in_subtree(rows[i].path, path) {
                    NoteRowView {
                        parent_path: parent_of(rows[i].path),
                        archived: false,
                        archived_at: None,
                        ..rows[i]
                    }
                } else {
                    rows[i]
                }
        }),
{
    let target = archive_target(path);
    let there = ArchiveMark::Archived { at: now };
    let back = ArchiveMark::Restored;
    lemma_relocation_in_two_parts(path, target, archived.0, archived.1, there);
    lemma_rows_after_relocation(
        rows,
        relocation_on_disk(path, target, archived.0, archived.1),
        archived.1,
        path,
        target,
        there,
    );
    let mid = relocated(rows, path, target, there);
    lemma_relocation_in_two_parts(target, path, restored.0, restored.1, back);
    lemma_rows_after_relocation(
        mid,
        relocation_on_disk(target, path, restored.0, restored.1),
        restored.1,
        target,
        path,
        back,
    );
    lemma_there_and_back(rows, path, target, there, back);
}

/// The index after the sync of the first `n` notes of a scan, `contents`
/// holding the content read for each.
pub open spec fn synced_through(
    rows: Seq<NoteRowView>,
    scanned: Seq<FsNoteView>,
    contents: Seq<Seq<char>>,
    n: int,
) -> Seq<NoteRowView>
    decreases n,
{
    if n <= 0 {
        rows
    } else {
        synced(
            synced_through(rows, scanned, contents, n - 1),
            scanned[n - 1].path,
            scanned[n - 1].mtime,
            contents[n - 1],
        )
    }
}

/// The index after a rescan: every note of the scan is synced, then the
/// rows that were there before and whose note the scan did not find are
/// removed.
pub open spec fn rescanned(
    rows: Seq<NoteRowView>,
    scanned: Seq<FsNoteView>,
    contents: Seq<Seq<char>>,
) -> Seq<NoteRowView> {
    rows_after(
        synced_through(rows, scanned, contents, scanned.len() as int),
        stale_rows(rows, scanned),
    )
}

/// A note has a row where some row carries its path.
pub proof fn lemma_has_note(rows: Seq<NoteRowView>, path: Seq<char>)
    ensures
        has_note(rows, path) <==> exists|i: int| 0 <= i < rows.len() && (#[trigger] rows[i]).path == path,
{
    lemma_position_of(rows, path);
    if has_note(rows, path) {
        let i = position_of(rows, path)->0;
        assert(rows[i].path == path);
    }
}

/// The scan found a note where one of its entries carries the note's path.
pub proof fn lemma_scanned(scanned: Seq<FsNoteView>, path: Seq<char>)
    ensures
        scanned_mtime(scanned, path) is Some <==> exists|k: int|
            0 <= k < scanned.len() && (#[trigger] scanned[k]).path == path,
    decreases scanned.len(),
{
    if scanned.len() > 0 {
        let head = scanned.drop_last();
        lemma_scanned(head, path);
        if scanned_mtime(scanned, path) is Some {
            if scanned_mtime(head, path) is Some {
                let k = choose|k: int| 0 <= k < head.len() && (#[trigger] head[k]).path == path;
                assert(scanned[k].path == path);
            } else {
                assert(scanned[scanned.len() - 1].path == path);
            }
        }
        if exists|k: int| 0 <= k < scanned.len() && (#[trigger] scanned[k]).path == path {
            let k = choose|k: int| 0 <= k < scanned.len() && (#[trigger] scanned[k]).path == path;
            if k < head.len() {
                assert(head[k].path == path);
            }
        }
    }
}

/// What the index holds after the sync of the first `n` notes of a scan.
proof fn lemma_synced_through(
    rows: Seq<NoteRowView>,
    scanned: Seq<FsNoteView>,
    contents: Seq<Seq<char>>,
    n: int,
)
    requires
        0 <= n <= scanned.len(),
    ensures
        ({
            let mid = synced_through(rows, scanned, contents, n);
            &&& mid.len() >= rows.len()
            &&& forall|i: int| 0 <= i < rows.len() ==> (#[trigger] mid[i]).path == rows[i].path
            &&& forall|j: int|
                rows.len() <= j < mid.len() ==> exists|k: int|
                    0 <= k < n && (#[trigger] scanned[k]).path == (#[trigger] mid[j]).path
            &&& forall|k: int| 0 <= k < n ==> has_note(mid, (#[trigger] scanned[k]).path)
        }),
    decreases n,
{
    if n > 0 {
        lemma_synced_through(rows, scanned, contents, n - 1);
        let before = synced_through(rows, scanned, contents, n - 1);
        let note = scanned[n - 1];
        let mid = synced_through(rows, scanned, contents, n);
        theorem_sync_settles(before, note.path, note.mtime, contents[n - 1], note.mtime);
        assert forall|j: int| rows.len() <= j < mid.len() implies exists|k: int|
            0 <= k < n && (#[trigger] scanned[k]).path == (#[trigger] mid[j]).path by {
            if j < before.len() {
                assert(mid[j].path == before[j].path);
                let k = choose|k: int|
                    0 <= k < n - 1 && (#[trigger] scanned[k]).path == before[j].path;
                assert(0 <= k < n && scanned[k].path == mid[j].path);
            } else {
                assert(mid[j].path == note.path);
                assert(0 <= n - 1 < n && scanned[n - 1].path == mid[j].path);
            }
        }
        assert forall|k: int| 0 <= k < n implies has_note(mid, (#[trigger] scanned[k]).path) by {
            if k < n - 1 {
                lemma_has_note(before, scanned[k].path);
                let i = choose|i: int|
                    0 <= i < before.len() && (#[trigger] before[i]).path == scanned[k].path;
                assert(mid[i].path == before[i].path);
                lemma_has_note(mid, scanned[k].path);
            }
        }
        assert forall|i: int| 0 <= i < rows.len() implies (#[trigger] mid[i]).path
            == rows[i].path by {
            assert(mid[i].path == before[i].path);
        }
    }
}

/// What is left of the notes once the row at one path is removed.
proof fn lemma_row_removed(rows: Seq<NoteRowView>, gone: Seq<char>, path: Seq<char>)
    ensures
        has_note(rows_after_step(rows, StepView::DeleteRow { path: gone }), path) <==> has_note(
            rows,
            path,
        ) && path != gone,
{
    let keep = |row: NoteRowView| row.path != gone;
    let left = kept(rows, keep);
    assert(rows_after_step(rows, StepView::DeleteRow { path: gone }) == left);
    lemma_kept(rows, keep);
    lemma_has_note(rows, path);
    lemma_has_note(left, path);
    if has_note(left, path) {
        let j = choose|j: int| 0 <= j < left.len() && (#[trigger] left[j]).path == path;
        assert(left.contains(left[j]));
        assert(rows.contains(left[j]) && keep(left[j]));
        let i = choose|i: int| 0 <= i < rows.len() && rows[i] == left[j];
        assert(rows[i].path == path);
    }
    if has_note(rows, path) && path != gone {
        let i = choose|i: int| 0 <= i < rows.len() && (#[trigger] rows[i]).path == path;
        assert(rows.contains(rows[i]) && keep(rows[i]));
        assert(left.contains(rows[i]));
        let j = choose|j: int| 0 <= j < left.len() && left[j] == rows[i];
        assert(left[j].path == path);
    }
}

/// What is left of the notes once the stale rows among the first `m` rows
/// of the old index are removed.
proof fn lemma_stale_removed(
    mid: Seq<NoteRowView>,
    rows: Seq<NoteRowView>,
    scanned: Seq<FsNoteView>,
    m: int,
    path: Seq<char>,
)
    requires
        0 <= m <= rows.len(),
    ensures
        has_note(rows_after(mid, stale_rows(rows.take(m), scanned)), path) <==> has_note(mid, path)
            && !(scanned_mtime(scanned, path) is None && exists|i: int|
            0 <= i < m && (#[trigger] rows[i]).path == path),
    decreases m,
{
    if m == 0 {
        assert(rows.take(0) =~= Seq::<NoteRowView>::empty());
        assert(stale_rows(rows.take(0), scanned) =~= Seq::<StepView>::empty());
    } else {
        lemma_stale_removed(mid, rows, scanned, m - 1, path);
        assert(rows.take(m).drop_last() =~= rows.take(m - 1));
        assert(rows.take(m).last() == rows[m - 1]);
        let before = stale_rows(rows.take(m - 1), scanned);
        let gone = rows[m - 1].path;
        if scanned_mtime(scanned, gone) is None {
            let step = StepView::DeleteRow { path: gone };
            assert(stale_rows(rows.take(m), scanned) == before.push(step));
            assert(before.push(step).drop_last() =~= before);
            lemma_row_removed(rows_after(mid, before), gone, path);
            if path == gone {
                assert(0 <= m - 1 < m && rows[m - 1].path == path);
            }
        }
        if exists|i: int| 0 <= i < m && (#[trigger] rows[i]).path == path {
            let i = choose|i: int| 0 <= i < m && (#[trigger] rows[i]).path == path;
            if i < m - 1 {
                assert(0 <= i < m - 1 && rows[i].path == path);
            }
        }
        if exists|i: int| 0 <= i < m - 1 && (#[trigger] rows[i]).path == path {
            let i = choose|i: int| 0 <= i < m - 1 && (#[trigger] rows[i]).path == path;
            assert(0 <= i < m && rows[i].path == path);
        }
    }
}

/// After a rescan the index knows exactly the notes on disk: a note has a
/// row if and only if the scan found it.
pub proof fn theorem_rescan_matches_disk(
    rows: Seq<NoteRowView>,
    scanned: Seq<FsNoteView>,
    contents: Seq<Seq<char>>,
    path: Seq<char>,
)
    requires
        contents.len() == scanned.len(),
    ensures
        has_note(rescanned(rows, scanned, contents), path) <==> scanned_mtime(scanned, path)
            is Some,
{
    let mid = synced_through(rows, scanned, contents, scanned.len() as int);
    lemma_synced_through(rows, scanned, contents, scanned.len() as int);
    lemma_stale_removed(mid, rows, scanned, rows.len() as int, path);
    assert(rows.take(rows.len() as int) =~= rows);
    lemma_scanned(scanned, path);
    lemma_has_note(mid, path);
    if scanned_mtime(scanned, path) is Some {
        let k = choose|k: int| 0 <= k < scanned.len() && (#[trigger] scanned[k]).path == path;
        assert(has_note(mid, scanned[k].path));
    } else {
        if has_note(mid, path) {
            let j = choose|j: int| 0 <= j < mid.len() && (#[trigger] mid[j]).path == path;
            if j < rows.len() {
                assert(rows[j].path == path);
            } else {
                let k = choose|k: int|
                    0 <= k < scanned.len() && (#[trigger] scanned[k]).path == mid[j].path;
                assert(scanned[k].path == path);
            }
        }
    }
}

/// A plan of one step.
pub proof fn lemma_files_after_one(files: Map<Seq<char>, Seq<char>>, step: StepView)
    ensures
        files_after(files, seq![step]) == files_after_step(files, step),
        files_after(files, Seq::empty()) == files,
{
    assert(seq![step].drop_last() =~= Seq::<StepView>::empty());
    assert(files_after(files, seq![step].drop_last()) == files);
}

/// No two of the descendants share a path.
pub open spec fn distinct_paths(descendants: Seq<DescendantView>) -> bool {
    forall|j: int, k: int|
        0 <= j < k < descendants.len() ==> (#[trigger] descendants[j]).path != (
        #[trigger] descendants[k]).path
}

/// The disk after the first `n` writes of the descendants at their new
/// places.
proof fn lemma_files_after_writes(
    files: Map<Seq<char>, Seq<char>>,
    descendants: Seq<DescendantView>,
    old_root: Seq<char>,
    new_root: Seq<char>,
    n: int,
)
    requires
        0 <= n <= descendants.len(),
        distinct_paths(descendants),
        forall|k: int|
            0 <= k < descendants.len() ==> is_descendant(#[trigger] descendants[k].path, old_root),
    ensures
        ({
            let after = files_after(files, writes_to(descendants, old_root, new_root).take(n));
            &&& forall|k: int|
                0 <= k < n ==> after.contains_key(
                    rebased((#[trigger] descendants[k]).path, old_root, new_root),
                ) && after[rebased(descendants[k].path, old_root, new_root)]
                    == descendants[k].content
            &&& forall|p: Seq<char>|
                !is_descendant(p, new_root) ==> (#[trigger] after.contains_key(p))
                    == files.contains_key(p) && after[p] == files[p]
        }),
    decreases n,
{
    let writes = writes_to(descendants, old_root, new_root);
    if n == 0 {
        assert(writes.take(0) =~= Seq::<StepView>::empty());
    } else {
        lemma_files_after_writes(files, descendants, old_root, new_root, n - 1);
        assert(writes.take(n).drop_last() =~= writes.take(n - 1));
        assert(writes.take(n).last() == writes[n - 1]);
        let before = files_after(files, writes.take(n - 1));
        let d = descendants[n - 1];
        let to = rebased(d.path, old_root, new_root);
        let after = files_after(files, writes.take(n));
        assert(after == before.insert(to, d.content));
        lemma_rebased_descendant(d.path, old_root, new_root);
        assert(d.path.len() > old_root.len()) by {
            assert((old_root + seq!['/']).len() == old_root.len() + 1);
        }
        assert(is_descendant(to, new_root));
        assert forall|k: int| 0 <= k < n implies after.contains_key(
            rebased((#[trigger] descendants[k]).path, old_root, new_root),
        ) && after[rebased(descendants[k].path, old_root, new_root)]
            == descendants[k].content by {
            if k < n - 1 {
                let other = rebased(descendants[k].path, old_root, new_root);
                if other == to {
                    lemma_rebased_back(descendants[k].path, old_root, new_root);
                    lemma_rebased_back(d.path, old_root, new_root);
                    assert(descendants[k].path != descendants[n - 1].path);
                }
            }
        }
    }
}

/// What a relocation leaves on disk.
pub open spec fn content_moved(
    files: Map<Seq<char>, Seq<char>>,
    after: Map<Seq<char>, Seq<char>>,
    path: Seq<char>,
    target: Seq<char>,
    content: Seq<char>,
    descendants: Seq<DescendantView>,
) -> bool {
    &&& after.contains_key(target) && after[target] == content
    &&& forall|k: int|
        0 <= k < descendants.len() ==> after.contains_key(
            rebased((#[trigger] descendants[k]).path, path, target),
        ) && after[rebased(descendants[k].path, path, target)] == descendants[k].content
    &&& forall|p: Seq<char>| in_subtree(p, path) ==> !(#[trigger] after.contains_key(p))
    &&& forall|p: Seq<char>|
        !in_subtree(p, path) && !in_subtree(p, target) ==> (#[trigger] after.contains_key(p))
            == files.contains_key(p) && (files.contains_key(p) ==> after[p] == files[p])
}

/// The disk once the subtree is written at `target` and removed at `path`.
proof fn lemma_old_subtree_removed(
    files: Map<Seq<char>, Seq<char>>,
    written: Map<Seq<char>, Seq<char>>,
    path: Seq<char>,
    target: Seq<char>,
    content: Seq<char>,
    descendants: Seq<DescendantView>,
)
    requires
        path.len() > 0,
        forall|k: int|
            0 <= k < descendants.len() ==> is_descendant(#[trigger] descendants[k].path, path),
        apart(path, target),
        written.contains_key(target) && written[target] == content,
        forall|k: int|
            0 <= k < descendants.len() ==> written.contains_key(
                rebased((#[trigger] descendants[k]).path, path, target),
            ) && written[rebased(descendants[k].path, path, target)] == descendants[k].content,
        forall|p: Seq<char>|
            !in_subtree(p, target) ==> (#[trigger] written.contains_key(p)) == files.contains_key(p)
                && (files.contains_key(p) ==> written[p] == files[p]),
    ensures
        content_moved(
            files,
            without_directory(written, path),
            path,
            target,
            content,
            descendants,
        ),
{
    let after = without_directory(written, path);
    assert forall|k: int| 0 <= k < descendants.len() implies after.contains_key(
        rebased((#[trigger] descendants[k]).path, path, target),
    ) && after[rebased(descendants[k].path, path, target)] == descendants[k].content by {
        let to = rebased(descendants[k].path, path, target);
        lemma_rebased_descendant(descendants[k].path, path, target);
        if in_subtree(to, path) {
            lemma_subtrees_nest(to, path, target);
        }
        assert(written.contains_key(to));
    }
    assert forall|p: Seq<char>|
        !in_subtree(p, path) && !in_subtree(p, target) implies (#[trigger] after.contains_key(p))
        == files.contains_key(p) && (files.contains_key(p) ==> after[p] == files[p]) by {
        assert(written.contains_key(p) == files.contains_key(p));
    }
}

/// The disk once the subtree is written at `target`, the root before or
/// after the descendants.
proof fn lemma_subtree_written(
    files: Map<Seq<char>, Seq<char>>,
    path: Seq<char>,
    target: Seq<char>,
    content: Seq<char>,
    descendants: Seq<DescendantView>,
    steps: Seq<StepView>,
)
    requires
        distinct_paths(descendants),
        forall|k: int|
            0 <= k < descendants.len() ==> is_descendant(#[trigger] descendants[k].path, path),
        steps == seq![StepView::WriteNote { path: target, content }] + writes_to(
            descendants,
            path,
            target,
        ) || steps == writes_to(descendants, path, target) + seq![
            StepView::WriteNote { path: target, content },
        ],
    ensures
        ({
            let written = files_after(files, steps);
            &&& written.contains_key(target) && written[target] == content
            &&& forall|k: int|
                0 <= k < descendants.len() ==> written.contains_key(
                    rebased((#[trigger] descendants[k]).path, path, target),
                ) && written[rebased(descendants[k].path, path, target)]
                    == descendants[k].content
            &&& forall|p: Seq<char>|
                !in_subtree(p, target) ==> (#[trigger] written.contains_key(p))
                    == files.contains_key(p) && (files.contains_key(p) ==> written[p] == files[p])
        }),
{
    let step = StepView::WriteNote { path: target, content };
    let root = seq![step];
    let writes = writes_to(descendants, path, target);
    assert(writes.take(descendants.len() as int) =~= writes);
    assert(!is_descendant(target, target)) by {
        assert((target + seq!['/']).len() == target.len() + 1);
    }
    assert forall|k: int| 0 <= k < descendants.len() implies rebased(
        (#[trigger] descendants[k]).path,
        path,
        target,
    ) != target by {
        lemma_rebased_descendant(descendants[k].path, path, target);
        assert((path + seq!['/']).len() == path.len() + 1);
    }
    if steps == root + writes {
        lemma_files_after_concat(files, root, writes);
        lemma_files_after_one(files, step);
        lemma_files_after_writes(
            files.insert(target, content),
            descendants,
            path,
            target,
            descendants.len() as int,
        );
    } else {
        lemma_files_after_concat(files, writes, root);
        lemma_files_after_one(files_after(files, writes), step);
        lemma_files_after_writes(files, descendants, path, target, descendants.len() as int);
    }
}

/// The content moves with the notes when a subtree is archived or brought
/// back. Where the note is not the root note, no two descendants share a
/// path, each lies below `path`, and neither root lies at or below the
/// other: after the plan the note at
/// `target` holds `content`; each descendant holds its content at its new
/// place; nothing is left at or below `path`; and whatever lies elsewhere is
/// as it was.
pub proof fn theorem_relocation_moves_content(
    files: Map<Seq<char>, Seq<char>>,
    path: Seq<char>,
    target: Seq<char>,
    content: Seq<char>,
    descendants: Seq<DescendantView>,
    mark: ArchiveMark,
)
    requires
        path.len() > 0,
        distinct_paths(descendants),
        forall|k: int|
            0 <= k < descendants.len() ==> is_descendant(#[trigger] descendants[k].path, path),
        apart(path, target),
    ensures
        content_moved(
            files,
            files_after(files, relocation_plan(path, target, content, descendants, mark)),
            path,
            target,
            content,
            descendants,
        ),
{
    let writes = writes_to(descendants, path, target);
    let root = seq![StepView::WriteNote { path: target, content }];
    let delete = StepView::DeleteNote { path };
    let moves = index_moves(descendants, path, target, mark);
    let steps = relocation_plan(path, target, content, descendants, mark);
    assert(steps =~= (writes + root) + seq![delete] + moves);
    lemma_files_after_concat(files, (writes + root) + seq![delete], moves);
    lemma_each_to_its_own(Seq::empty(), files_after(files, (writes + root) + seq![delete]), moves);
    lemma_files_after_concat(files, writes + root, seq![delete]);
    lemma_files_after_one(files_after(files, writes + root), delete);
    lemma_subtree_written(files, path, target, content, descendants, writes + root);
    lemma_old_subtree_removed(
        files,
        files_after(files, writes + root),
        path,
        target,
        content,
        descendants,
    );
}

/// The content moves with the notes when a note is renamed, where the new
/// path differs from the old by more than letter case. Where the note is
/// not the root note, no two descendants share a path, each lies below the
/// old path, and neither path lies at or below the other: after the plan the note at the new path
/// holds `content`; each descendant holds its content at its new place;
/// nothing is left at or below the old path; and whatever lies elsewhere is
/// as it was.
pub proof fn theorem_rename_moves_content(
    files: Map<Seq<char>, Seq<char>>,
    old_path: Seq<char>,
    new_path: Seq<char>,
    content: Seq<char>,
    descendants: Seq<DescendantView>,
    stamp: u128,
)
    requires
        old_path.len() > 0,
        distinct_paths(descendants),
        forall|k: int|
            0 <= k < descendants.len() ==> is_descendant(#[trigger] descendants[k].path, old_path),
        apart(old_path, new_path),
    ensures
        content_moved(
            files,
            files_after(
                files,
                rename_plan(RenameKind::Regular, old_path, new_path, content, descendants, stamp),
            ),
            old_path,
            new_path,
            content,
            descendants,
        ),
{
    let writes = writes_to(descendants, old_path, new_path);
    let root = seq![StepView::WriteNote { path: new_path, content }];
    let delete = StepView::DeleteNote { path: old_path };
    let moves = index_moves(descendants, old_path, new_path, ArchiveMark::Keep);
    let steps = rename_plan(RenameKind::Regular, old_path, new_path, content, descendants, stamp);
    assert(steps =~= (root + writes) + seq![delete] + moves);
    lemma_files_after_concat(files, (root + writes) + seq![delete], moves);
    lemma_each_to_its_own(Seq::empty(), files_after(files, (root + writes) + seq![delete]), moves);
    lemma_files_after_concat(files, root + writes, seq![delete]);
    lemma_files_after_one(files_after(files, root + writes), delete);
    lemma_subtree_written(files, old_path, new_path, content, descendants, root + writes);
    lemma_old_subtree_removed(
        files,
        files_after(files, root + writes),
        old_path,
        new_path,
        content,
        descendants,
    );
}

/// The descendants as they are found once their subtree has moved from
/// `old_root` to `new_root`: each at its new place, with its content.
pub open spec fn moved_descendants(
    descendants: Seq<DescendantView>,
    old_root: Seq<char>,
    new_root: Seq<char>,
) -> Seq<DescendantView> {
    descendants.map_values(
        |d: DescendantView|
            DescendantView { path: rebased(d.path, old_root, new_root), content: d.content },
    )
}

/// Archiving a note and bringing it back restores the contents. Where
/// neither path is that of the root note, the note and its descendants are
/// read from disk as they stand, no two
/// descendants share a path, each lies below the note, and neither the note
/// nor its archive path lies at or below the other: after the two plans the
/// note and each descendant hold on disk what they held before, and nothing
/// is left at or below the archive path.
pub proof fn theorem_archive_round_trip_content(
    files: Map<Seq<char>, Seq<char>>,
    path: Seq<char>,
    target: Seq<char>,
    descendants: Seq<DescendantView>,
    now: i64,
)
    requires
        path.len() > 0,
        target.len() > 0,
        files.contains_key(path),
        forall|k: int|
            0 <= k < descendants.len() ==> is_descendant(#[trigger] descendants[k].path, path)
                && files.contains_key(descendants[k].path) && files[descendants[k].path]
                == descendants[k].content,
        distinct_paths(descendants),
        apart(path, target),
    ensures
        ({
            let there = relocation_plan(
                path,
                target,
                files[path],
                descendants,
                ArchiveMark::Archived { at: now },
            );
            let back = relocation_plan(
                target,
                path,
                files[path],
                moved_descendants(descendants, path, target),
                ArchiveMark::Restored,
            );
            let after = files_after(files_after(files, there), back);
            &&& after.contains_key(path) && after[path] == files[path]
            &&& forall|k: int|
                0 <= k < descendants.len() ==> after.contains_key((#[trigger] descendants[k]).path)
                    && after[descendants[k].path] == files[descendants[k].path]
            &&& forall|p: Seq<char>| in_subtree(p, target) ==> !(#[trigger] after.contains_key(p))
        }),
{
    let content = files[path];
    let moved = moved_descendants(descendants, path, target);
    theorem_relocation_moves_content(
        files,
        path,
        target,
        content,
        descendants,
        ArchiveMark::Archived { at: now },
    );
    let mid = files_after(
        files,
        relocation_plan(path, target, content, descendants, ArchiveMark::Archived { at: now }),
    );
    assert forall|k: int| 0 <= k < moved.len() implies is_descendant(
        #[trigger] moved[k].path,
        target,
    ) by {
        lemma_rebased_descendant(descendants[k].path, path, target);
        assert((path + seq!['/']).len() == path.len() + 1);
    }
    assert(distinct_paths(moved)) by {
        assert forall|j: int, k: int| 0 <= j < k < moved.len() implies (#[trigger] moved[j]).path
            != (#[trigger] moved[k]).path by {
            lemma_rebased_back(descendants[j].path, path, target);
            lemma_rebased_back(descendants[k].path, path, target);
            assert(descendants[j].path != descendants[k].path);
        }
    }
    theorem_relocation_moves_content(mid, target, path, content, moved, ArchiveMark::Restored);
    let after = files_after(
        mid,
        relocation_plan(target, path, content, moved, ArchiveMark::Restored),
    );
    assert forall|k: int| 0 <= k < descendants.len() implies after.contains_key(
        (#[trigger] descendants[k]).path,
    ) && after[descendants[k].path] == files[descendants[k].path] by {
        lemma_rebased_back(descendants[k].path, path, target);
        assert(rebased(moved[k].path, target, path) == descendants[k].path);
        assert(after.contains_key(rebased(moved[k].path, target, path)));
    }
}

/// No row counts more direct accesses than accesses, nor fewer than none.
pub open spec fn counts_ordered(rows: Seq<NoteRowView>) -> bool {
    forall|i: int|
        0 <= i < rows.len() ==> 0 <= (#[trigger] rows[i]).direct_access_count
            <= rows[i].access_count
}

/// Recording a visit keeps the counts in order: where no row counted more
/// direct accesses than accesses before, none does after.
pub proof fn theorem_counts_stay_ordered(rows: Seq<NoteRowView>, path: Seq<char>, now: i64)
    requires
        paths_unique(rows),
        room_for_visit(rows, path),
        has_note(rows, path),
        counts_ordered(rows),
    ensures
        counts_ordered(rows_after(rows, access_plan(rows, path, now)->0)),
{
    theorem_visit_counts_once(rows, path, now);
    let after = rows_after(rows, access_plan(rows, path, now)->0);
    assert forall|i: int| 0 <= i < after.len() implies 0 <= (#[trigger] after[i]).direct_access_count
        <= after[i].access_count by {
        assert(0 <= rows[i].direct_access_count <= rows[i].access_count);
        if rows[i].path == path || is_ancestor(rows[i].path, path) {
            assert(after[i].access_count == rows[i].access_count + 1);
        }
    }
}

/// Paths stay unique when a subtree moves. Where no two rows share a path,
/// neither root lies at or below the other, and no row stood at or below
/// the new root: no two rows share a path after the move.
pub proof fn theorem_relocation_keeps_paths_unique(
    rows: Seq<NoteRowView>,
    old_root: Seq<char>,
    new_root: Seq<char>,
    mark: ArchiveMark,
)
    requires
        paths_unique(rows),
        apart(old_root, new_root),
        forall|i: int| 0 <= i < rows.len() ==> !in_subtree(#[trigger] rows[i].path, new_root),
    ensures
        paths_unique(relocated(rows, old_root, new_root, mark)),
{
    let after = relocated(rows, old_root, new_root, mark);
    assert forall|i: int, j: int|
        0 <= i < after.len() && 0 <= j < after.len() && i != j implies (#[trigger] after[i]).path != (
    #[trigger] after[j]).path by {
        assert(rows[i].path != rows[j].path);
        let moved_i = in_subtree(rows[i].path, old_root);
        let moved_j = in_subtree(rows[j].path, old_root);
        if moved_i {
            lemma_rebased_descendant(rows[i].path, old_root, new_root);
            lemma_rebased_back(rows[i].path, old_root, new_root);
        }
        if moved_j {
            lemma_rebased_descendant(rows[j].path, old_root, new_root);
            lemma_rebased_back(rows[j].path, old_root, new_root);
        }
        if moved_i && !moved_j {
            assert(!in_subtree(rows[j].path, new_root));
        }
        if moved_j && !moved_i {
            assert(!in_subtree(rows[i].path, new_root));
        }
    }
}

/// The steps of the plan are of the kinds that record a visit.
pub open spec fn only_visits(steps: Seq<StepView>) -> bool {
    forall|i: int|
        0 <= i < steps.len() ==> (#[trigger] steps[i]) is RecordAccess || steps[i]
            is AnnounceFrecency
}

/// Recording visits changes no path, no digest and no file.
pub proof fn lemma_visits_keep_content(
    rows: Seq<NoteRowView>,
    files: Map<Seq<char>, Seq<char>>,
    steps: Seq<StepView>,
)
    requires
        only_visits(steps),
    ensures
        files_after(files, steps) == files,
        rows_after(rows, steps).len() == rows.len(),
        forall|i: int|
            0 <= i < rows.len() ==> (#[trigger] rows_after(rows, steps)[i]).path == rows[i].path
                && rows_after(rows, steps)[i].content_hash == rows[i].content_hash,
    decreases steps.len(),
{
    if steps.len() > 0 {
        assert forall|i: int| 0 <= i < steps.drop_last().len() implies (
        #[trigger] steps.drop_last()[i]) is RecordAccess || steps.drop_last()[i]
            is AnnounceFrecency by {
            assert(steps[i] is RecordAccess || steps[i] is AnnounceFrecency);
        }
        lemma_visits_keep_content(rows, files, steps.drop_last());
        assert(steps[steps.len() - 1] is RecordAccess || steps[steps.len() - 1]
            is AnnounceFrecency);
    }
}

/// What is saved is read back. After the note at `path` is saved with
/// `content` (written to disk, synced, and the visit recorded), the disk
/// holds `content` at `path`, and the index has a row for the note that
/// carries the digest of `content`.
pub proof fn theorem_save_is_read_back(
    files: Map<Seq<char>, Seq<char>>,
    rows: Seq<NoteRowView>,
    path: Seq<char>,
    content: Seq<char>,
    mtime: u64,
    now: i64,
)
    ensures
        ({
            let written = files_after(files, seq![StepView::WriteNote { path, content }]);
            let indexed = synced(rows, path, mtime, content);
            let visits = access_plan(indexed, path, now);
            &&& visits is Some
            &&& files_after(written, visits->0).contains_key(path)
            &&& files_after(written, visits->0)[path] == content
            &&& row_at(rows_after(indexed, visits->0), path) is Some
            &&& row_at(rows_after(indexed, visits->0), path)->0.content_hash == content_hash(
                content,
            )
        }),
{
    let written = files_after(files, seq![StepView::WriteNote { path, content }]);
    lemma_files_after_one(files, StepView::WriteNote { path, content });
    theorem_sync_settles(rows, path, mtime, content, mtime);
    let indexed = synced(rows, path, mtime, content);
    let visits = access_plan(indexed, path, now)->0;
    lemma_visits_name_parents(indexed, path, now);
    assert(only_visits(visits));
    lemma_visits_keep_content(indexed, written, visits);
    let last = rows_after(indexed, visits);
    lemma_same_paths(indexed, last, path);
    lemma_position_of(indexed, path);
}

/// Steps on the disk come first in every plan of a rename, of an archiving
/// and of a return from the archive.
pub proof fn theorem_disk_comes_first(
    kind: RenameKind,
    path: Seq<char>,
    target: Seq<char>,
    content: Seq<char>,
    descendants: Seq<DescendantView>,
    stamp: u128,
    mark: ArchiveMark,
)
    ensures
        crate::ops::disk_first(rename_plan(kind, path, target, content, descendants, stamp)),
        crate::ops::disk_first(relocation_plan(path, target, content, descendants, mark)),
{
    lemma_rename_in_two_parts(kind, path, target, content, descendants, stamp);
    lemma_relocation_in_two_parts(path, target, content, descendants, mark);
    lemma_moves_name_parents(descendants, path, target, mark);
}

} // verus!
