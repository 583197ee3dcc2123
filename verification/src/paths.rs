//! Note paths: slash-separated identifiers, the empty path being the root note.
//!
//! Everything here is arithmetic on the characters of a path. No function
//! looks at a disk or an index.

use crate::text::{
    chars_of, concat, contains_seq, find_in, lemma_find_from, lemma_first_occurrence,
    lemma_replace_prefix, occurs_at, replace_first, slice_of, starts_with, string_of,
};
use vstd::prelude::*;

verus! {

/// `path` without its last segment and without the slash before it. Empty
/// where `path` holds no slash.
pub open spec fn strip_last_segment(path: Seq<char>) -> Seq<char>
    decreases path.len(),
{
    if path.len() == 0 {
        path
    } else if path.last() == '/' {
        path.drop_last()
    } else {
        strip_last_segment(path.drop_last())
    }
}

/// The last segment of `path`: what follows its last slash, or all of it.
pub open spec fn last_segment(path: Seq<char>) -> Seq<char>
    decreases path.len(),
{
    if path.len() == 0 || path.last() == '/' {
        Seq::empty()
    } else {
        last_segment(path.drop_last()).push(path.last())
    }
}

/// The parent of a note: its path without the last segment. A note whose
/// path has one segment, and the root note, have none.
pub open spec fn parent_of(path: Seq<char>) -> Option<Seq<char>> {
    let rest = strip_last_segment(path);
    if rest.len() == 0 {
        None
    } else {
        Some(rest)
    }
}

/// The notes from the topmost ancestor of `path` down to `path` itself.
pub open spec fn ancestor_chain(path: Seq<char>) -> Seq<Seq<char>>
    decreases path.len(),
{
    match parent_of(path) {
        Some(parent) => {
            if parent.len() < path.len() {
                ancestor_chain(parent).push(path)
            } else {
                seq![path]
            }
        },
        None => seq![path],
    }
}

/// `path` lies below `root`: it is `root`, a slash, and something more or
/// nothing.
pub open spec fn is_descendant(path: Seq<char>, root: Seq<char>) -> bool {
    (root + seq!['/']).is_prefix_of(path)
}

/// `path` is `root` or lies below it.
pub open spec fn in_subtree(path: Seq<char>, root: Seq<char>) -> bool {
    path == root || is_descendant(path, root)
}

/// Where a note of the subtree at `old_root` stands once the subtree has
/// moved to `new_root`: the first occurrence of `old_root` in its path gives
/// way to `new_root`.
pub open spec fn rebased(path: Seq<char>, old_root: Seq<char>, new_root: Seq<char>) -> Seq<char> {
    replace_first(path, old_root, new_root)
}

/// Where an archived note goes: into the `_archive` folder beside it.
pub open spec fn archive_target(path: Seq<char>) -> Seq<char> {
    match parent_of(path) {
        Some(parent) => parent + "/_archive/"@ + last_segment(path),
        None => "_archive/"@ + path,
    }
}

/// Where a note comes back to from the archive: its path with the first
/// `/_archive/` replaced by a slash. A path without `/_archive/` names no
/// archived note.
pub open spec fn unarchive_target(path: Seq<char>) -> Option<Seq<char>> {
    if contains_seq(path, "/_archive/"@) {
        Some(replace_first(path, "/_archive/"@, "/"@))
    } else {
        None
    }
}

/// The file that holds a note's content, below `root`.
pub open spec fn note_file(root: Seq<char>, path: Seq<char>) -> Seq<char> {
    if path.len() == 0 {
        root + "/_index.md"@
    } else {
        root + "/"@ + path + "/_index.md"@
    }
}

/// The directory of a note, below `root`.
pub open spec fn note_dir(root: Seq<char>, path: Seq<char>) -> Seq<char> {
    if path.len() == 0 {
        root
    } else {
        root + "/"@ + path
    }
}

/// The scratch path through which a note goes when only the case of its
/// path changes.
pub open spec fn temp_target(path: Seq<char>, stamp: Seq<char>) -> Seq<char> {
    path + "_temp_"@ + stamp
}

/// A path is its parent, a slash and its last segment; or, without a slash,
/// its last segment alone.
pub proof fn lemma_path_parts(path: Seq<char>)
    ensures
        strip_last_segment(path).len() + last_segment(path).len() <= path.len(),
        path.contains('/') ==> path == strip_last_segment(path) + seq!['/'] + last_segment(path),
        !path.contains('/') ==> path == last_segment(path) && strip_last_segment(path).len() == 0,
        !last_segment(path).contains('/'),
    decreases path.len(),
{
    if path.len() == 0 {
        assert(path =~= last_segment(path));
    } else if path.last() == '/' {
        assert(path[path.len() - 1] == '/');
        assert(path =~= path.drop_last() + seq!['/'] + Seq::<char>::empty());
    } else {
        let rest = path.drop_last();
        lemma_path_parts(rest);
        if rest.contains('/') {
            let i = choose|i: int| 0 <= i < rest.len() && rest[i] == '/';
            assert(path[i] == '/');
            assert(path =~= (strip_last_segment(rest) + seq!['/'] + last_segment(rest)).push(
                path.last(),
            ));
            assert(path =~= strip_last_segment(path) + seq!['/'] + last_segment(path));
        } else {
            if path.contains('/') {
                let i = choose|i: int| 0 <= i < path.len() && path[i] == '/';
                assert(rest[i] == '/');
            }
            assert(path =~= rest.push(path.last()));
        }
        let seg = last_segment(path);
        if seg.contains('/') {
            let i = choose|i: int| 0 <= i < seg.len() && seg[i] == '/';
            assert(last_segment(rest)[i] == '/');
        }
    }
}

/// A parent is a proper prefix of its child, followed there by a slash.
pub proof fn lemma_parent_is_prefix(path: Seq<char>)
    ensures
        match parent_of(path) {
            Some(parent) => {
                &&& 0 < parent.len() < path.len()
                &&& path == parent + seq!['/'] + last_segment(path)
                &&& is_descendant(path, parent)
            },
            None => true,
        },
{
    lemma_path_parts(path);
    if parent_of(path) is Some {
        let parent = strip_last_segment(path);
        if !path.contains('/') {
            assert(false);
        }
        assert((parent + seq!['/']).is_prefix_of(path)) by {
            assert(path.subrange(0, (parent.len() + 1) as int) =~= parent + seq!['/']);
        }
    }
}

/// The chain of a note ends with the note, and holds its parent's chain
/// before that.
pub proof fn lemma_ancestor_chain(path: Seq<char>)
    ensures
        ancestor_chain(path).len() >= 1,
        ancestor_chain(path).last() == path,
        match parent_of(path) {
            Some(parent) => ancestor_chain(path) == ancestor_chain(parent).push(path),
            None => ancestor_chain(path) == seq![path],
        },
{
    lemma_parent_is_prefix(path);
}

/// A note that moves with its subtree keeps what follows the root in its path.
pub proof fn lemma_rebased_descendant(path: Seq<char>, old_root: Seq<char>, new_root: Seq<char>)
    requires
        in_subtree(path, old_root),
    ensures
        rebased(path, old_root, new_root) == new_root + path.skip(old_root.len() as int),
        rebased(old_root, old_root, new_root) == new_root,
        in_subtree(rebased(path, old_root, new_root), new_root),
        path == old_root <==> rebased(path, old_root, new_root) == new_root,
{
    assert(old_root.is_prefix_of(old_root)) by {
        assert(old_root.subrange(0, old_root.len() as int) =~= old_root);
    }
    lemma_replace_prefix(old_root, old_root, new_root);
    assert(new_root + old_root.skip(old_root.len() as int) =~= new_root);
    if path != old_root {
        let marked = old_root + seq!['/'];
        assert(marked == path.subrange(0, marked.len() as int));
        assert(old_root.is_prefix_of(path)) by {
            assert(path.subrange(0, old_root.len() as int) =~= old_root);
        }
        lemma_replace_prefix(path, old_root, new_root);
        let moved = new_root + path.skip(old_root.len() as int);
        assert(marked[old_root.len() as int] == '/');
        assert(path.subrange(0, marked.len() as int)[old_root.len() as int] == path[old_root.len() as int]);
        assert(path.skip(old_root.len() as int)[0] == '/');
        assert((new_root + seq!['/']).is_prefix_of(moved)) by {
            assert(moved.subrange(0, (new_root.len() + 1) as int) =~= new_root + seq!['/']);
        }
        assert(moved.len() > new_root.len());
    }
}

/// Archiving leads back. Where a note has a parent, its path does not hold
/// `/_archive/`, and its last segment is not `_archive`: the archive path of
/// the note names the note as the place to come back to, and neither of the
/// two paths lies at or below the other.
pub proof fn lemma_archive_leads_back(path: Seq<char>)
    requires
        parent_of(path) is Some,
        !contains_seq(path, "/_archive/"@),
        last_segment(path) != "_archive"@,
    ensures
        unarchive_target(archive_target(path)) == Some(path),
        !in_subtree(path, archive_target(path)),
        !in_subtree(archive_target(path), path),
{
    reveal_strlit("/_archive/");
    reveal_strlit("_archive");
    reveal_strlit("/");
    let folder = "/_archive/"@;
    let parent = parent_of(path)->0;
    let name = last_segment(path);
    let there = archive_target(path);
    let n = parent.len() as int;
    lemma_parent_is_prefix(path);
    lemma_path_parts(path);
    lemma_find_from(path, folder, 0);
    assert(there == parent + folder + name);
    assert(there.subrange(n, n + 10) =~= folder);
    assert forall|j: int| 0 <= j < n implies !occurs_at(there, folder, j) by {
        if occurs_at(there, folder, j) {
            let found = there.subrange(j, j + 10);
            assert forall|k: int| 0 <= k < 10 implies there[j + k] == folder[k] by {
                assert(found[k] == there[j + k]);
            }
            if j + 10 > n {
                let s = n - j;
                assert(there[j + s] == folder[s]);
                assert(there[n] == folder[0]);
                assert(s == 9);
            }
            assert forall|k: int| 0 <= k < 10 implies path[j + k] == folder[k] by {
                assert(there[j + k] == folder[k]);
                if j + k < n {
                    assert(path[j + k] == parent[j + k]);
                    assert(there[j + k] == parent[j + k]);
                } else {
                    assert(j + k == n);
                    assert(path[n] == '/');
                }
            }
            assert(path.subrange(j, j + 10) =~= folder);
            assert(occurs_at(path, folder, j));
        }
    }
    lemma_first_occurrence(there, folder, n);
    assert(there.take(n) + "/"@ + there.skip(n + 10) =~= path);
    if is_descendant(there, path) {
        let marked = path + seq!['/'];
        assert(there.subrange(0, marked.len() as int) == marked);
        assert forall|k: int| 0 <= k < marked.len() implies there[k] == marked[k] by {
            assert(there.subrange(0, marked.len() as int)[k] == there[k]);
        }
        if name.len() >= 9 {
            assert(there[n + 9] == marked[n + 9]);
            assert(marked[n + 9] == name[8]);
            assert(name.contains(name[8]));
            assert(false);
        }
        assert(there[n + 1 + name.len()] == marked[n + 1 + name.len()]);
        assert(name.len() == 8);
        assert forall|k: int| 0 <= k < 8 implies name[k] == "_archive"@[k] by {
            assert(there[n + 1 + k] == marked[n + 1 + k]);
        }
        assert(name =~= "_archive"@);
        assert(false);
    }
}

/// The parent of the note at `path`, if it has one.
pub fn get_parent_path(path: &str) -> (parent: Option<String>)
    ensures
        match parent {
            Some(p) => parent_of(path@) == Some(p@),
            None => parent_of(path@) is None,
        },
{
    let chars = chars_of(path);
    match parent_chars(&chars) {
        Some(p) => Some(string_of(&p)),
        None => None,
    }
}

/// The parent of the note at `path`, if it has one, as characters.
pub fn parent_chars(path: &Vec<char>) -> (parent: Option<Vec<char>>)
    ensures
        match parent {
            Some(p) => parent_of(path@) == Some(p@),
            None => parent_of(path@) is None,
        },
{
    let mut i: usize = path.len();
    assert(path@.take(i as int) =~= path@);
    while i > 0
        invariant
            i <= path.len(),
            strip_last_segment(path@) == strip_last_segment(path@.take(i as int)),
        decreases i,
    {
        proof {
            assert(path@.take(i as int).drop_last() =~= path@.take(i - 1));
            assert(path@.take(i as int).last() == path@[i - 1]);
        }
        if path[i - 1] == '/' {
            if i - 1 == 0 {
                return None;
            }
            let p = slice_of(path, 0, i - 1);
            assert(path@.subrange(0, i - 1) =~= path@.take(i - 1));
            return Some(p);
        }
        i -= 1;
    }
    None
}

/// The last segment of `path`.
pub fn last_segment_chars(path: &Vec<char>) -> (segment: Vec<char>)
    ensures
        segment@ == last_segment(path@),
{
    let mut i: usize = path.len();
    while i > 0 && path[i - 1] != '/'
        invariant
            i <= path.len(),
            forall|j: int| i <= j < path.len() ==> path@[j] != '/',
        decreases i,
    {
        i -= 1;
    }
    proof {
        lemma_segment_is_tail(path@, i as int);
    }
    slice_of(path, i, path.len())
}

/// Where no slash stands from `at` on and one stands just before `at` (or
/// `at` is the start), the last segment is what stands from `at` on.
pub proof fn lemma_segment_is_tail(path: Seq<char>, at: int)
    requires
        0 <= at <= path.len(),
        forall|j: int| at <= j < path.len() ==> path[j] != '/',
        at == 0 || path[at - 1] == '/',
    ensures
        last_segment(path) == path.subrange(at, path.len() as int),
    decreases path.len(),
{
    if at == path.len() {
        assert(path.subrange(at, path.len() as int) =~= Seq::<char>::empty());
    } else {
        let rest = path.drop_last();
        lemma_segment_is_tail(rest, at);
        assert(path.subrange(at, path.len() as int) =~= rest.subrange(at, rest.len() as int).push(
            path.last(),
        ));
    }
}

/// The notes from the topmost ancestor of `path` down to `path` itself.
pub fn ancestor_paths(path: &str) -> (chain: Vec<String>)
    ensures
        chain.deep_view() == ancestor_chain(path@),
{
    let mut chain: Vec<String> = Vec::new();
    let mut current = chars_of(path);
    chain.push(string_of(&current));
    proof {
        lemma_ancestor_chain(path@);
        assert(chain.deep_view() =~= seq![path@]);
        assert(ancestor_chain(path@) =~= ancestor_chain(path@).drop_last() + seq![path@]);
    }
    loop
        invariant
            ancestor_chain(path@) == ancestor_chain(current@).drop_last() + chain.deep_view(),
        decreases current.len(),
    {
        proof {
            lemma_ancestor_chain(current@);
            lemma_parent_is_prefix(current@);
        }
        match parent_chars(&current) {
            Some(parent) => {
                let ghost before = chain.deep_view();
                chain.insert(0, string_of(&parent));
                proof {
                    lemma_ancestor_chain(parent@);
                    assert(chain.deep_view() =~= seq![parent@] + before);
                    assert(ancestor_chain(current@).drop_last() =~= ancestor_chain(parent@));
                    assert(ancestor_chain(parent@) =~= ancestor_chain(parent@).drop_last()
                        + seq![parent@]);
                    assert(ancestor_chain(parent@).drop_last() + chain.deep_view() =~= (
                    ancestor_chain(parent@).drop_last() + seq![parent@]) + before);
                }
                current = parent;
            },
            None => {
                proof {
                    assert(ancestor_chain(current@).drop_last() =~= Seq::<Seq<char>>::empty());
                    assert(ancestor_chain(current@).drop_last() + chain.deep_view()
                        =~= chain.deep_view());
                }
                return chain;
            },
        }
    }
}

/// Whether `path` lies below `root`.
pub fn lies_below(path: &Vec<char>, root: &Vec<char>) -> (r: bool)
    ensures
        r == is_descendant(path@, root@),
{
    let mut marked = root.clone();
    marked.push('/');
    assert(marked@ =~= root@ + seq!['/']);
    starts_with(path, &marked)
}

/// Where a note of the subtree at `old_root` stands once the subtree has
/// moved to `new_root`.
pub fn rebase(path: &Vec<char>, old_root: &Vec<char>, new_root: &Vec<char>) -> (moved: Vec<char>)
    ensures
        moved@ == rebased(path@, old_root@, new_root@),
{
    match find_in(path, old_root) {
        Some(i) => {
            proof {
                lemma_find_from(path@, old_root@, 0);
            }
            let head = slice_of(path, 0, i);
            let tail = slice_of(path, i + old_root.len(), path.len());
            let joined = concat(&head, new_root);
            let moved = concat(&joined, &tail);
            proof {
                assert(path@.take(i as int) =~= path@.subrange(0, i as int));
                assert(path@.skip(i + old_root@.len()) =~= path@.subrange(
                    i + old_root@.len(),
                    path@.len() as int,
                ));
            }
            moved
        },
        None => path.clone(),
    }
}

/// Where an archived note goes.
pub fn archive_path(path: &str) -> (target: String)
    ensures
        target@ == archive_target(path@),
{
    let chars = chars_of(path);
    match parent_chars(&chars) {
        Some(parent) => {
            let folder = chars_of("/_archive/");
            let name = last_segment_chars(&chars);
            let head = concat(&parent, &folder);
            string_of(&concat(&head, &name))
        },
        None => {
            let folder = chars_of("_archive/");
            string_of(&concat(&folder, &chars))
        },
    }
}

/// Where a note comes back to from the archive; `None` for a path that
/// names no archived note.
pub fn unarchive_path(path: &str) -> (target: Option<String>)
    ensures
        match target {
            Some(t) => unarchive_target(path@) == Some(t@),
            None => unarchive_target(path@) is None,
        },
{
    let chars = chars_of(path);
    let folder = chars_of("/_archive/");
    match find_in(&chars, &folder) {
        Some(_) => {
            let slash = chars_of("/");
            Some(string_of(&rebase(&chars, &folder, &slash)))
        },
        None => None,
    }
}

/// The scratch path through which a note goes when only the case of its
/// path changes. `stamp` makes it unique.
pub fn temp_path(path: &str, stamp: &str) -> (target: String)
    ensures
        target@ == temp_target(path@, stamp@),
{
    let head = concat(&chars_of(path), &chars_of("_temp_"));
    string_of(&concat(&head, &chars_of(stamp)))
}

} // verus!
