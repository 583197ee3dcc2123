//! The index as a value: its rows, and what navigation and search read
//! from them.
//!
//! A [`NoteIndex`] holds the rows of the index store as they stood when they
//! were read. Every question here is answered from those rows alone.

use crate::notes::{
    metadata_of, Error, NoteMetadata, NoteMetadataView, NoteRow, NoteRowView, RankingMode,
};
use crate::paths::{
    ancestor_chain, ancestor_paths, get_parent_path, is_descendant, lies_below, parent_of,
};
use crate::text::{
    chars_of, comes_before, contains_seq, find_in, lex_lt, lowercase, same_chars, starts_with,
    to_lowercase,
};
use vstd::prelude::*;

verus! {

/// The rows of the index, in the order of the store.
#[derive(Debug)]
pub struct NoteIndex {
    pub rows: Vec<NoteRow>,
}

impl View for NoteIndex {
    type V = Seq<NoteRowView>;

    open spec fn view(&self) -> Seq<NoteRowView> {
        self.rows.deep_view()
    }
}

/// Where the first row with this path stands.
pub open spec fn position_of(rows: Seq<NoteRowView>, path: Seq<char>) -> Option<int>
    decreases rows.len(),
{
    if rows.len() == 0 {
        None
    } else {
        match position_of(rows.drop_last(), path) {
            Some(i) => Some(i),
            None => if rows.last().path == path {
                Some(rows.len() - 1)
            } else {
                None
            },
        }
    }
}

/// A row with this path is in the index.
pub open spec fn has_note(rows: Seq<NoteRowView>, path: Seq<char>) -> bool {
    position_of(rows, path) is Some
}

/// The first row with this path.
pub open spec fn row_at(rows: Seq<NoteRowView>, path: Seq<char>) -> Option<NoteRowView> {
    match position_of(rows, path) {
        Some(i) => Some(rows[i]),
        None => None,
    }
}

/// No two rows share a path.
pub open spec fn paths_unique(rows: Seq<NoteRowView>) -> bool {
    forall|i: int, j: int|
        0 <= i < rows.len() && 0 <= j < rows.len() && i != j ==> #[trigger] rows[i].path
            != #[trigger] rows[j].path
}

/// The rows that `keep` holds of, in the order of the index.
pub open spec fn kept(rows: Seq<NoteRowView>, keep: spec_fn(NoteRowView) -> bool) -> Seq<
    NoteRowView,
>
    decreases rows.len(),
{
    if rows.len() == 0 {
        Seq::empty()
    } else {
        let before = kept(rows.drop_last(), keep);
        if keep(rows.last()) {
            before.push(rows.last())
        } else {
            before
        }
    }
}

/// By what number a listing ranks a row: the higher, the earlier.
pub open spec fn rank_key(mode: RankingMode) -> spec_fn(NoteRowView) -> int {
    match mode {
        RankingMode::Visits => |row: NoteRowView| row.direct_access_count as int,
        RankingMode::Frecency => |row: NoteRowView| row.frecency_score as int,
    }
}

/// `a` is listed before `b`: it has the lower priority number; or the same
/// and the higher rank; or the same of both and the path that comes first.
pub open spec fn listed_before(
    a: NoteRowView,
    b: NoteRowView,
    prio: spec_fn(NoteRowView) -> int,
    key: spec_fn(NoteRowView) -> int,
) -> bool {
    prio(a) < prio(b) || (prio(a) == prio(b) && (key(a) > key(b) || (key(a) == key(b) && lex_lt(
        a.path,
        b.path,
    ))))
}

/// `sorted` with `row` put in behind every row that it is not listed before.
pub open spec fn insert_ranked(
    sorted: Seq<NoteRowView>,
    row: NoteRowView,
    prio: spec_fn(NoteRowView) -> int,
    key: spec_fn(NoteRowView) -> int,
) -> Seq<NoteRowView>
    decreases sorted.len(),
{
    if sorted.len() > 0 && listed_before(row, sorted.last(), prio, key) {
        insert_ranked(sorted.drop_last(), row, prio, key).push(sorted.last())
    } else {
        sorted.push(row)
    }
}

/// The rows in the order of a listing.
pub open spec fn ranked(
    rows: Seq<NoteRowView>,
    prio: spec_fn(NoteRowView) -> int,
    key: spec_fn(NoteRowView) -> int,
) -> Seq<NoteRowView>
    decreases rows.len(),
{
    if rows.len() == 0 {
        Seq::empty()
    } else {
        insert_ranked(ranked(rows.drop_last(), prio, key), rows.last(), prio, key)
    }
}

/// A listing: the rows that `keep` holds of, in ranking order, as metadata.
pub open spec fn listing(
    rows: Seq<NoteRowView>,
    keep: spec_fn(NoteRowView) -> bool,
    prio: spec_fn(NoteRowView) -> int,
    key: spec_fn(NoteRowView) -> int,
) -> Seq<NoteMetadataView> {
    ranked(kept(rows, keep), prio, key).map_values(|row: NoteRowView| metadata_of(row))
}

/// The first `limit` items of a listing; all of them where no limit is set.
pub open spec fn limited<T>(items: Seq<T>, limit: Option<usize>) -> Seq<T> {
    match limit {
        Some(n) => if n < items.len() {
            items.take(n as int)
        } else {
            items
        },
        None => items,
    }
}

/// Every row has the same priority.
pub open spec fn no_priority() -> spec_fn(NoteRowView) -> int {
    |row: NoteRowView| 1
}

/// How well a path matches a query: 1 where the path begins with the
/// query, 2 where it holds the query elsewhere, 3 where it does not hold it.
pub open spec fn match_rank(path: Seq<char>, query: Seq<char>) -> int {
    if query.is_prefix_of(path) {
        1
    } else if contains_seq(path, query) {
        2
    } else {
        3
    }
}

/// How well a path matches a query, letter case aside: the rank of the
/// match between the two in lower case.
pub open spec fn match_priority(path: Seq<char>, query: Seq<char>) -> int {
    match_rank(lowercase(path), lowercase(query))
}

/// The priority of each row under a query.
pub open spec fn query_priority(query: Seq<char>) -> spec_fn(NoteRowView) -> int {
    |row: NoteRowView| match_priority(row.path, query)
}

/// The row is a child of the note at `path`.
pub open spec fn child_of(path: Seq<char>) -> spec_fn(NoteRowView) -> bool {
    |row: NoteRowView| row.parent_path == Some(path)
}

/// The row has no parent.
pub open spec fn at_root() -> spec_fn(NoteRowView) -> bool {
    |row: NoteRowView| row.parent_path is None
}

/// The row is not archived.
pub open spec fn live() -> spec_fn(NoteRowView) -> bool {
    |row: NoteRowView| !row.archived
}

/// The row is not archived and its path holds the query, letter case aside.
pub open spec fn live_match(query: Seq<char>) -> spec_fn(NoteRowView) -> bool {
    |row: NoteRowView| !row.archived && match_priority(row.path, query) <= 2
}

/// The row lies below the note at `path`.
pub open spec fn below(path: Seq<char>) -> spec_fn(NoteRowView) -> bool {
    |row: NoteRowView| is_descendant(row.path, path)
}

/// The note at `path` has a child that is not archived.
pub open spec fn has_live_child(rows: Seq<NoteRowView>, path: Seq<char>) -> bool {
    exists|i: int|
        0 <= i < rows.len() && (#[trigger] rows[i]).parent_path == Some(path) && !rows[i].archived
}

/// What a search for `query` lists: the notes that are not archived and
/// whose path holds the query, those that begin with it first, then by rank,
/// then by path; cut off at `limit`. An empty query lists every note that is
/// not archived, by rank, then by path.
pub open spec fn fuzzy_listing(
    rows: Seq<NoteRowView>,
    query: Seq<char>,
    limit: Option<usize>,
    mode: RankingMode,
) -> Seq<NoteMetadataView> {
    if query.len() == 0 {
        limited(listing(rows, live(), no_priority(), rank_key(mode)), limit)
    } else {
        limited(listing(rows, live_match(query), query_priority(query), rank_key(mode)), limit)
    }
}

/// Of the notes in `chain`, those that the index knows, in the same order.
pub open spec fn known_of(rows: Seq<NoteRowView>, chain: Seq<Seq<char>>) -> Seq<NoteMetadataView>
    decreases chain.len(),
{
    if chain.len() == 0 {
        Seq::empty()
    } else {
        let before = known_of(rows, chain.drop_last());
        match row_at(rows, chain.last()) {
            Some(row) => before.push(metadata_of(row)),
            None => before,
        }
    }
}

/// The breadcrumbs of a note: its ancestors that the index knows, topmost
/// first, then the note itself. None where the note is unknown or archived.
pub open spec fn breadcrumbs(rows: Seq<NoteRowView>, path: Seq<char>) -> Option<
    Seq<NoteMetadataView>,
> {
    match row_at(rows, path) {
        Some(row) => if row.archived {
            None
        } else {
            Some(known_of(rows, ancestor_chain(path).drop_last()).push(metadata_of(row)))
        },
        None => None,
    }
}

/// The paths of the rows below `path`, in the order of the index.
pub open spec fn descendant_paths(rows: Seq<NoteRowView>, path: Seq<char>) -> Seq<Seq<char>> {
    kept(rows, below(path)).map_values(|row: NoteRowView| row.path)
}

/// What `position_of` returns is the first row with the path.
pub proof fn lemma_position_of(rows: Seq<NoteRowView>, path: Seq<char>)
    ensures
        match position_of(rows, path) {
            Some(i) => {
                &&& 0 <= i < rows.len()
                &&& rows[i].path == path
                &&& forall|j: int| 0 <= j < i ==> rows[j].path != path
            },
            None => forall|j: int| 0 <= j < rows.len() ==> rows[j].path != path,
        },
    decreases rows.len(),
{
    if rows.len() > 0 {
        lemma_position_of(rows.drop_last(), path);
        assert(forall|j: int| 0 <= j < rows.len() - 1 ==> rows.drop_last()[j] == rows[j]);
    }
}

/// The first row with the path is what `position_of` returns.
pub proof fn lemma_position_is(rows: Seq<NoteRowView>, path: Seq<char>, i: int)
    requires
        0 <= i < rows.len(),
        rows[i].path == path,
        forall|j: int| 0 <= j < i ==> rows[j].path != path,
    ensures
        position_of(rows, path) == Some(i),
{
    lemma_position_of(rows, path);
}

/// Putting a row in at the place where the rows behind it are those that it
/// is listed before.
pub proof fn lemma_insert_at(
    sorted: Seq<NoteRowView>,
    row: NoteRowView,
    at: int,
    prio: spec_fn(NoteRowView) -> int,
    key: spec_fn(NoteRowView) -> int,
)
    requires
        0 <= at <= sorted.len(),
        forall|k: int| at <= k < sorted.len() ==> listed_before(row, #[trigger] sorted[k], prio, key),
        at == 0 || !listed_before(row, sorted[at - 1], prio, key),
    ensures
        insert_ranked(sorted, row, prio, key) == sorted.insert(at, row),
    decreases sorted.len(),
{
    if at == sorted.len() {
        assert(sorted.insert(at, row) =~= sorted.push(row));
    } else {
        assert(listed_before(row, sorted[sorted.len() - 1], prio, key));
        lemma_insert_at(sorted.drop_last(), row, at, prio, key);
        assert(sorted.drop_last().insert(at, row).push(sorted.last()) =~= sorted.insert(at, row));
    }
}

/// A listing holds each row as often as it was given, and nothing else.
pub proof fn lemma_ranked_is_permutation(
    rows: Seq<NoteRowView>,
    prio: spec_fn(NoteRowView) -> int,
    key: spec_fn(NoteRowView) -> int,
)
    ensures
        ranked(rows, prio, key).to_multiset() == rows.to_multiset(),
        ranked(rows, prio, key).len() == rows.len(),
    decreases rows.len(),
{
    broadcast use vstd::seq_lib::group_to_multiset_ensures;

    if rows.len() == 0 {
    } else {
        let before = ranked(rows.drop_last(), prio, key);
        lemma_ranked_is_permutation(rows.drop_last(), prio, key);
        lemma_insert_keeps_rows(before, rows.last(), prio, key);
        assert(rows =~= rows.drop_last().push(rows.last()));
    }
}

/// Putting a row in adds that row and nothing else.
pub proof fn lemma_insert_keeps_rows(
    sorted: Seq<NoteRowView>,
    row: NoteRowView,
    prio: spec_fn(NoteRowView) -> int,
    key: spec_fn(NoteRowView) -> int,
)
    ensures
        insert_ranked(sorted, row, prio, key).to_multiset() == sorted.to_multiset().insert(row),
        insert_ranked(sorted, row, prio, key).len() == sorted.len() + 1,
    decreases sorted.len(),
{
    broadcast use vstd::seq_lib::group_to_multiset_ensures;

    if sorted.len() > 0 && listed_before(row, sorted.last(), prio, key) {
        lemma_insert_keeps_rows(sorted.drop_last(), row, prio, key);
        assert(sorted =~= sorted.drop_last().push(sorted.last()));
        assert(sorted.drop_last().to_multiset().insert(row).insert(sorted.last())
            =~= sorted.drop_last().to_multiset().insert(sorted.last()).insert(row));
    }
}

/// No row of `rows` is listed before a row that stands ahead of it.
pub open spec fn in_listing_order(
    rows: Seq<NoteRowView>,
    prio: spec_fn(NoteRowView) -> int,
    key: spec_fn(NoteRowView) -> int,
) -> bool {
    forall|k: int, l: int|
        0 <= k < l < rows.len() ==> !listed_before(#[trigger] rows[l], #[trigger] rows[k], prio, key)
}

/// Listing order is transitive, and of two rows neither is listed before
/// the other only where they agree in priority, rank and path.
pub proof fn lemma_listed_before_order(
    a: NoteRowView,
    b: NoteRowView,
    c: NoteRowView,
    prio: spec_fn(NoteRowView) -> int,
    key: spec_fn(NoteRowView) -> int,
)
    ensures
        listed_before(a, b, prio, key) && listed_before(b, c, prio, key) ==> listed_before(
            a,
            c,
            prio,
            key,
        ),
        !(listed_before(a, b, prio, key) && listed_before(b, a, prio, key)),
        !listed_before(a, b, prio, key) && !listed_before(b, a, prio, key) ==> a.path == b.path
            && prio(a) == prio(b) && key(a) == key(b),
        !listed_before(a, b, prio, key) && !listed_before(b, c, prio, key) ==> !listed_before(
            a,
            c,
            prio,
            key,
        ),
{
    crate::text::lemma_lex_lt_total(a.path, b.path);
    crate::text::lemma_lex_lt_total(b.path, c.path);
    crate::text::lemma_lex_lt_total(a.path, c.path);
    if lex_lt(a.path, b.path) && lex_lt(b.path, c.path) {
        crate::text::lemma_lex_lt_transitive(a.path, b.path, c.path);
    }
    if lex_lt(c.path, b.path) && lex_lt(b.path, a.path) {
        crate::text::lemma_lex_lt_transitive(c.path, b.path, a.path);
    }
    crate::text::lemma_lex_lt_irreflexive(a.path);
    crate::text::lemma_lex_lt_irreflexive(b.path);
}

/// Putting a row into rows that are in listing order leaves them so.
pub proof fn lemma_insert_keeps_order(
    sorted: Seq<NoteRowView>,
    row: NoteRowView,
    prio: spec_fn(NoteRowView) -> int,
    key: spec_fn(NoteRowView) -> int,
)
    requires
        in_listing_order(sorted, prio, key),
    ensures
        in_listing_order(insert_ranked(sorted, row, prio, key), prio, key),
        forall|x: NoteRowView| #[trigger]
            insert_ranked(sorted, row, prio, key).contains(x) ==> x == row || sorted.contains(x),
    decreases sorted.len(),
{
    let out = insert_ranked(sorted, row, prio, key);
    if sorted.len() > 0 && listed_before(row, sorted.last(), prio, key) {
        let head = sorted.drop_last();
        assert(in_listing_order(head, prio, key)) by {
            assert forall|k: int, l: int| 0 <= k < l < head.len() implies !listed_before(
                #[trigger] head[l],
                #[trigger] head[k],
                prio,
                key,
            ) by {
                assert(head[l] == sorted[l] && head[k] == sorted[k]);
            }
        }
        lemma_insert_keeps_order(head, row, prio, key);
        let inner = insert_ranked(head, row, prio, key);
        assert forall|k: int, l: int| 0 <= k < l < out.len() implies !listed_before(
            #[trigger] out[l],
            #[trigger] out[k],
            prio,
            key,
        ) by {
            if l < inner.len() {
                assert(out[l] == inner[l] && out[k] == inner[k]);
            } else {
                assert(out[l] == sorted.last());
                assert(out[k] == inner[k]);
                assert(inner.contains(inner[k]));
                if inner[k] == row {
                    lemma_listed_before_order(row, sorted.last(), row, prio, key);
                } else {
                    let j = choose|j: int| 0 <= j < head.len() && head[j] == inner[k];
                    assert(sorted[j] == head[j]);
                    assert(!listed_before(sorted[sorted.len() - 1], sorted[j], prio, key));
                }
            }
        }
        assert forall|x: NoteRowView| #[trigger] out.contains(x) implies x == row
            || sorted.contains(x) by {
            let j = choose|j: int| 0 <= j < out.len() && out[j] == x;
            if j < inner.len() {
                assert(inner.contains(inner[j]));
                if x != row {
                    let m = choose|m: int| 0 <= m < head.len() && head[m] == x;
                    assert(sorted[m] == x);
                }
            } else {
                assert(sorted[sorted.len() - 1] == x);
            }
        }
    } else {
        assert forall|k: int, l: int| 0 <= k < l < out.len() implies !listed_before(
            #[trigger] out[l],
            #[trigger] out[k],
            prio,
            key,
        ) by {
            if l < sorted.len() {
                assert(out[l] == sorted[l] && out[k] == sorted[k]);
            } else {
                assert(out[l] == row);
                assert(out[k] == sorted[k]);
                if sorted.len() > 0 {
                    assert(!listed_before(row, sorted[sorted.len() - 1], prio, key));
                    if k < sorted.len() - 1 {
                        assert(!listed_before(sorted[sorted.len() - 1], sorted[k], prio, key));
                        lemma_listed_before_order(row, sorted.last(), sorted[k], prio, key);
                    }
                }
            }
        }
        assert forall|x: NoteRowView| #[trigger] out.contains(x) implies x == row
            || sorted.contains(x) by {
            let j = choose|j: int| 0 <= j < out.len() && out[j] == x;
            if j < sorted.len() {
                assert(sorted[j] == x);
            }
        }
    }
}

/// A listing is in listing order: by priority, then by rank from high to
/// low, then by path.
pub proof fn lemma_ranked_in_order(
    rows: Seq<NoteRowView>,
    prio: spec_fn(NoteRowView) -> int,
    key: spec_fn(NoteRowView) -> int,
)
    ensures
        in_listing_order(ranked(rows, prio, key), prio, key),
    decreases rows.len(),
{
    if rows.len() > 0 {
        lemma_ranked_in_order(rows.drop_last(), prio, key);
        lemma_insert_keeps_order(ranked(rows.drop_last(), prio, key), rows.last(), prio, key);
    }
}

/// Only rows that `keep` holds of are kept, and each of them is.
pub proof fn lemma_kept(rows: Seq<NoteRowView>, keep: spec_fn(NoteRowView) -> bool)
    ensures
        forall|x: NoteRowView| #[trigger]
            kept(rows, keep).contains(x) <==> rows.contains(x) && keep(x),
        kept(rows, keep).len() <= rows.len(),
    decreases rows.len(),
{
    if rows.len() > 0 {
        let head = rows.drop_last();
        lemma_kept(head, keep);
        assert forall|x: NoteRowView| #[trigger]
            kept(rows, keep).contains(x) <==> rows.contains(x) && keep(x) by {
            if kept(rows, keep).contains(x) {
                let j = choose|j: int| 0 <= j < kept(rows, keep).len() && kept(rows, keep)[j] == x;
                if j < kept(head, keep).len() {
                    assert(kept(head, keep)[j] == x);
                    assert(kept(head, keep).contains(x));
                    let m = choose|m: int| 0 <= m < head.len() && head[m] == x;
                    assert(rows[m] == x);
                } else {
                    assert(rows[rows.len() - 1] == x);
                }
            }
            if rows.contains(x) && keep(x) {
                let m = choose|m: int| 0 <= m < rows.len() && rows[m] == x;
                if m < head.len() {
                    assert(head[m] == x);
                    assert(head.contains(x));
                    assert(kept(head, keep).contains(x));
                    let j = choose|j: int|
                        0 <= j < kept(head, keep).len() && kept(head, keep)[j] == x;
                    assert(kept(rows, keep)[j] == x);
                } else {
                    assert(kept(rows, keep)[kept(rows, keep).len() - 1] == x);
                }
            }
        }
    }
}

/// How well `path` matches `query`, both taken as they stand: 1 where the
/// path begins with the query, 2 where it holds the query elsewhere, 3 where
/// it does not hold it.
pub fn rank_match(path: &Vec<char>, query: &Vec<char>) -> (rank: u8)
    ensures
        rank as int == match_rank(path@, query@),
{
    if starts_with(path, query) {
        1
    } else if find_in(path, query).is_some() {
        2
    } else {
        3
    }
}

fn same_str(a: &str, b: &str) -> (r: bool)
    ensures
        r == (a@ == b@),
{
    same_chars(&chars_of(a), &chars_of(b))
}

impl NoteIndex {
    /// Where the first row with this path stands.
    pub fn position(&self, path: &str) -> (at: Option<usize>)
        ensures
            match at {
                Some(i) => position_of(self@, path@) == Some(i as int) && i < self.rows.len(),
                None => position_of(self@, path@) is None,
            },
    {
        let wanted = chars_of(path);
        let mut i: usize = 0;
        while i < self.rows.len()
            invariant
                i <= self.rows.len(),
                wanted@ == path@,
                forall|j: int| 0 <= j < i ==> self@[j].path != path@,
            decreases self.rows.len() - i,
        {
            if same_chars(&chars_of(self.rows[i].path.as_str()), &wanted) {
                proof {
                    lemma_position_is(self@, path@, i as int);
                }
                return Some(i);
            }
            i += 1;
        }
        proof {
            lemma_position_of(self@, path@);
        }
        None
    }

    /// Whether a note stands at this path.
    pub fn note_exists(&self, path: &str) -> (exists: bool)
        ensures
            exists == has_note(self@, path@),
    {
        self.position(path).is_some()
    }

    /// The first row with this path.
    pub fn row(&self, path: &str) -> (row: Option<&NoteRow>)
        ensures
            match row {
                Some(r) => row_at(self@, path@) == Some(r@),
                None => row_at(self@, path@) is None,
            },
    {
        match self.position(path) {
            Some(i) => Some(&self.rows[i]),
            None => None,
        }
    }

    /// The children of the note at `path`, by frecency score from high to
    /// low, then by path.
    pub fn get_children(&self, path: &str) -> (children: Vec<NoteMetadata>)
        ensures
            children.deep_view() == listing(
                self@,
                child_of(path@),
                no_priority(),
                rank_key(RankingMode::Frecency),
            ),
    {
        let mut keeps: Vec<bool> = Vec::new();
        let mut i: usize = 0;
        while i < self.rows.len()
            invariant
                i <= self.rows.len(),
                keeps.len() == i,
                forall|j: int| 0 <= j < i ==> keeps@[j] == child_of(path@)(#[trigger] self@[j]),
            decreases self.rows.len() - i,
        {
            let is_child = match &self.rows[i].parent_path {
                Some(parent) => same_str(parent.as_str(), path),
                None => false,
            };
            keeps.push(is_child);
            i += 1;
        }
        self.list(&keeps, None, RankingMode::Frecency, Ghost(child_of(path@)), Ghost(path@))
    }

    /// Whether the note at `path` has a child that is not archived.
    pub fn has_children(&self, path: &str) -> (r: bool)
        ensures
            r == has_live_child(self@, path@),
    {
        let mut i: usize = 0;
        while i < self.rows.len()
            invariant
                i <= self.rows.len(),
                forall|j: int|
                    0 <= j < i ==> !((#[trigger] self@[j]).parent_path == Some(path@)
                        && !self@[j].archived),
            decreases self.rows.len() - i,
        {
            let row = &self.rows[i];
            let is_child = match &row.parent_path {
                Some(parent) => same_str(parent.as_str(), path),
                None => false,
            };
            if is_child && !row.archived {
                assert(self@[i as int].parent_path == Some(path@) && !self@[i as int].archived);
                return true;
            }
            i += 1;
        }
        false
    }

    /// The parent of the note at `path`, where the path has a parent and the
    /// index knows it.
    pub fn get_parent(&self, path: &str) -> (parent: Option<NoteMetadata>)
        ensures
            match parent_of(path@) {
                Some(p) => match row_at(self@, p) {
                    Some(row) => parent is Some && parent->0@ == metadata_of(row),
                    None => parent is None,
                },
                None => parent is None,
            },
    {
        match get_parent_path(path) {
            Some(p) => match self.row(p.as_str()) {
                Some(row) => Some(row.metadata()),
                None => None,
            },
            None => None,
        }
    }

    /// The breadcrumbs of the note at `path`: its ancestors that the index
    /// knows, topmost first, then the note itself. An ancestor that the index
    /// does not know is passed over. Where the note itself is unknown or
    /// archived, the answer is the error that a query without rows gives.
    pub fn get_ancestors(&self, path: &str) -> (found: Result<Vec<NoteMetadata>, Error>)
        ensures
            match breadcrumbs(self@, path@) {
                Some(crumbs) => found is Ok && found->Ok_0.deep_view() == crumbs,
                None => found is Err && found->Err_0@ == crate::notes::ErrorView::Database(
                    "Query returned no rows"@,
                ),
            },
    {
        let chain = ancestor_paths(path);
        let ghost names = ancestor_chain(path@);
        proof {
            crate::paths::lemma_ancestor_chain(path@);
        }
        let mut crumbs: Vec<NoteMetadata> = Vec::new();
        let mut i: usize = 0;
        assert(names.drop_last().take(0) =~= Seq::<Seq<char>>::empty());
        while i + 1 < chain.len()
            invariant
                i + 1 <= chain.len(),
                chain.deep_view() == names,
                names.len() >= 1,
                crumbs.deep_view() == known_of(self@, names.drop_last().take(i as int)),
            decreases chain.len() - i,
        {
            let ghost seen = names.drop_last().take(i as int);
            let ghost next = names.drop_last().take(i + 1);
            let ghost listed = crumbs.deep_view();
            proof {
                assert(next.drop_last() =~= seen);
                assert(next.last() == names[i as int]);
                assert(chain.deep_view()[i as int] == chain@[i as int]@);
            }
            match self.row(chain[i].as_str()) {
                Some(row) => {
                    let meta = row.metadata();
                    crumbs.push(meta);
                    assert(crumbs.deep_view() =~= listed.push(meta@));
                },
                None => {},
            }
            i += 1;
        }
        assert(names.drop_last().take(i as int) =~= names.drop_last());
        match self.row(path) {
            Some(row) => {
                if row.archived {
                    Err(Error::Database("Query returned no rows".to_string()))
                } else {
                    let ghost listed = crumbs.deep_view();
                    let meta = row.metadata();
                    crumbs.push(meta);
                    assert(crumbs.deep_view() =~= listed.push(meta@));
                    Ok(crumbs)
                }
            },
            None => Err(Error::Database("Query returned no rows".to_string())),
        }
    }

    /// The notes without a parent, by frecency score from high to low, then
    /// by path.
    pub fn get_root_notes(&self) -> (roots: Vec<NoteMetadata>)
        ensures
            roots.deep_view() == listing(
                self@,
                at_root(),
                no_priority(),
                rank_key(RankingMode::Frecency),
            ),
    {
        let mut keeps: Vec<bool> = Vec::new();
        let mut i: usize = 0;
        while i < self.rows.len()
            invariant
                i <= self.rows.len(),
                keeps.len() == i,
                forall|j: int| 0 <= j < i ==> keeps@[j] == at_root()(#[trigger] self@[j]),
            decreases self.rows.len() - i,
        {
            keeps.push(self.rows[i].parent_path.is_none());
            i += 1;
        }
        self.list(&keeps, None, RankingMode::Frecency, Ghost(at_root()), Ghost(Seq::empty()))
    }

    /// The notes that are not archived, by frecency score from high to low,
    /// then by path.
    pub fn get_all_notes(&self) -> (notes: Vec<NoteMetadata>)
        ensures
            notes.deep_view() == listing(
                self@,
                live(),
                no_priority(),
                rank_key(RankingMode::Frecency),
            ),
    {
        let keeps = self.live_rows();
        self.list(&keeps, None, RankingMode::Frecency, Ghost(live()), Ghost(Seq::empty()))
    }

    /// Searches the paths for `query`, letter case aside. Lists the notes
    /// that are not archived and whose path holds the query: first those
    /// whose path begins with it, then by rank from high to low (visits or
    /// frecency score, as `ranking_mode` says), then by path; at most `limit`
    /// of them. An empty query lists every note that is not archived, by
    /// rank, then by path.
    pub fn fuzzy_search(&self, query: &str, limit: Option<usize>, ranking_mode: RankingMode) -> (found:
        Vec<NoteMetadata>)
        ensures
            found.deep_view() == fuzzy_listing(self@, query@, limit, ranking_mode),
    {
        if query.unicode_len() == 0 {
            let keeps = self.live_rows();
            let all = self.list(&keeps, None, ranking_mode, Ghost(live()), Ghost(Seq::empty()));
            return cut(all, limit);
        }
        let wanted = chars_of(to_lowercase(query).as_str());
        let mut keeps: Vec<bool> = Vec::new();
        let mut prios: Vec<u8> = Vec::new();
        let mut i: usize = 0;
        while i < self.rows.len()
            invariant
                i <= self.rows.len(),
                keeps.len() == i,
                prios.len() == i,
                wanted@ == lowercase(query@),
                forall|j: int| 0 <= j < i ==> keeps@[j] == live_match(query@)(#[trigger] self@[j]),
                forall|j: int|
                    0 <= j < i ==> prios@[j] as int == query_priority(query@)(#[trigger] self@[j]),
            decreases self.rows.len() - i,
        {
            let row = &self.rows[i];
            let lower = chars_of(to_lowercase(row.path.as_str()).as_str());
            let prio: u8 = rank_match(&lower, &wanted);
            keeps.push(!row.archived && prio <= 2);
            prios.push(prio);
            i += 1;
        }
        let all = self.list(
            &keeps,
            Some(&prios),
            ranking_mode,
            Ghost(live_match(query@)),
            Ghost(query@),
        );
        cut(all, limit)
    }

    /// The paths of the notes below `path`, in the order of the index.
    pub fn descendants(&self, path: &str) -> (below_it: Vec<String>)
        ensures
            below_it.deep_view() == descendant_paths(self@, path@),
    {
        let root = chars_of(path);
        let mut found: Vec<String> = Vec::new();
        let mut i: usize = 0;
        assert(self@.take(0) =~= Seq::<NoteRowView>::empty());
        while i < self.rows.len()
            invariant
                i <= self.rows.len(),
                root@ == path@,
                found.deep_view() == descendant_paths(self@.take(i as int), path@),
            decreases self.rows.len() - i,
        {
            let ghost listed = found.deep_view();
            proof {
                assert(self@.take(i + 1).drop_last() =~= self@.take(i as int));
                assert(self@.take(i + 1).last() == self@[i as int]);
            }
            let row = &self.rows[i];
            if lies_below(&chars_of(row.path.as_str()), &root) {
                found.push(row.path.clone());
                proof {
                    assert(found.deep_view() =~= listed.push(row@.path));
                    assert(descendant_paths(self@.take(i + 1), path@) =~= listed.push(row@.path));
                }
            }
            i += 1;
        }
        assert(self@.take(self.rows.len() as int) =~= self@);
        found
    }

    fn live_rows(&self) -> (keeps: Vec<bool>)
        ensures
            keeps.len() == self.rows.len(),
            forall|j: int| 0 <= j < keeps.len() ==> keeps@[j] == live()(#[trigger] self@[j]),
    {
        let mut keeps: Vec<bool> = Vec::new();
        let mut i: usize = 0;
        while i < self.rows.len()
            invariant
                i <= self.rows.len(),
                keeps.len() == i,
                forall|j: int| 0 <= j < i ==> keeps@[j] == live()(#[trigger] self@[j]),
            decreases self.rows.len() - i,
        {
            keeps.push(!self.rows[i].archived);
            i += 1;
        }
        keeps
    }

    /// Whether row `i` is listed before row `j`.
    fn goes_before(
        &self,
        paths: &Vec<Vec<char>>,
        prios: Option<&Vec<u8>>,
        i: usize,
        j: usize,
        mode: RankingMode,
        Ghost(query): Ghost<Seq<char>>,
    ) -> (r: bool)
        requires
            i < self.rows.len(),
            j < self.rows.len(),
            paths.len() == self.rows.len(),
            forall|k: int| 0 <= k < paths.len() ==> (#[trigger] paths@[k])@ == self@[k].path,
            match prios {
                Some(p) => p.len() == self.rows.len() && forall|k: int|
                    0 <= k < p.len() ==> p@[k] as int == query_priority(query)(#[trigger] self@[k]),
                None => true,
            },
        ensures
            r == listed_before(
                self@[i as int],
                self@[j as int],
                priority_used(prios is Some, query),
                rank_key(mode),
            ),
    {
        let (pa, pb): (u8, u8) = match prios {
            Some(p) => (p[i], p[j]),
            None => (1, 1),
        };
        if pa != pb {
            return pa < pb;
        }
        let a = &self.rows[i];
        let b = &self.rows[j];
        match mode {
            RankingMode::Visits => {
                if a.direct_access_count != b.direct_access_count {
                    return a.direct_access_count > b.direct_access_count;
                }
            },
            RankingMode::Frecency => {
                if a.frecency_score != b.frecency_score {
                    return a.frecency_score > b.frecency_score;
                }
            },
        }
        comes_before(&paths[i], &paths[j])
    }

    /// The rows marked in `keeps`, in listing order, as metadata.
    fn list(
        &self,
        keeps: &Vec<bool>,
        prios: Option<&Vec<u8>>,
        mode: RankingMode,
        Ghost(keep): Ghost<spec_fn(NoteRowView) -> bool>,
        Ghost(query): Ghost<Seq<char>>,
    ) -> (out: Vec<NoteMetadata>)
        requires
            keeps.len() == self.rows.len(),
            forall|k: int| 0 <= k < keeps.len() ==> keeps@[k] == keep(#[trigger] self@[k]),
            match prios {
                Some(p) => p.len() == self.rows.len() && forall|k: int|
                    0 <= k < p.len() ==> p@[k] as int == query_priority(query)(#[trigger] self@[k]),
                None => true,
            },
        ensures
            out.deep_view() == listing(
                self@,
                keep,
                priority_used(prios is Some, query),
                rank_key(mode),
            ),
    {
        let ghost prio = priority_used(prios is Some, query);
        let ghost key = rank_key(mode);
        let mut paths: Vec<Vec<char>> = Vec::new();
        let mut i: usize = 0;
        while i < self.rows.len()
            invariant
                i <= self.rows.len(),
                paths.len() == i,
                forall|k: int| 0 <= k < i ==> (#[trigger] paths@[k])@ == self@[k].path,
            decreases self.rows.len() - i,
        {
            paths.push(chars_of(self.rows[i].path.as_str()));
            i += 1;
        }
        // `order` holds the places of the kept rows seen so far, in listing order.
        let mut order: Vec<usize> = Vec::new();
        let ghost mut chosen: Seq<NoteRowView> = Seq::empty();
        i = 0;
        assert(self@.take(0) =~= Seq::<NoteRowView>::empty());
        while i < self.rows.len()
            invariant
                i <= self.rows.len(),
                keeps.len() == self.rows.len(),
                paths.len() == self.rows.len(),
                prio == priority_used(prios is Some, query),
                key == rank_key(mode),
                forall|k: int| 0 <= k < paths.len() ==> (#[trigger] paths@[k])@ == self@[k].path,
                forall|k: int| 0 <= k < keeps.len() ==> keeps@[k] == keep(#[trigger] self@[k]),
                match prios {
                    Some(p) => p.len() == self.rows.len() && forall|k: int|
                        0 <= k < p.len() ==> p@[k] as int == query_priority(query)(
                            #[trigger] self@[k],
                        ),
                    None => true,
                },
                chosen == ranked(kept(self@.take(i as int), keep), prio, key),
                order.len() == chosen.len(),
                forall|k: int|
                    0 <= k < order.len() ==> (#[trigger] order@[k]) < self.rows.len()
                        && self@[order@[k] as int] == chosen[k],
            decreases self.rows.len() - i,
        {
            proof {
                assert(self@.take(i + 1).drop_last() =~= self@.take(i as int));
                assert(self@.take(i + 1).last() == self@[i as int]);
            }
            if keeps[i] {
                let mut at: usize = order.len();
                while at > 0 && self.goes_before(&paths, prios, i, order[at - 1], mode, Ghost(query))
                    invariant
                        at <= order.len(),
                        i < self.rows.len(),
                        paths.len() == self.rows.len(),
                        prio == priority_used(prios is Some, query),
                        key == rank_key(mode),
                        forall|k: int|
                            0 <= k < paths.len() ==> (#[trigger] paths@[k])@ == self@[k].path,
                        match prios {
                            Some(p) => p.len() == self.rows.len() && forall|k: int|
                                0 <= k < p.len() ==> p@[k] as int == query_priority(query)(
                                    #[trigger] self@[k],
                                ),
                            None => true,
                        },
                        order.len() == chosen.len(),
                        forall|k: int|
                            0 <= k < order.len() ==> (#[trigger] order@[k]) < self.rows.len()
                                && self@[order@[k] as int] == chosen[k],
                        forall|k: int|
                            at <= k < chosen.len() ==> listed_before(
                                self@[i as int],
                                #[trigger] chosen[k],
                                prio,
                                key,
                            ),
                    decreases at,
                {
                    at -= 1;
                }
                proof {
                    let seen = kept(self@.take(i as int), keep);
                    assert(seen.push(self@[i as int]).drop_last() =~= seen);
                    lemma_insert_at(chosen, self@[i as int], at as int, prio, key);
                    chosen = chosen.insert(at as int, self@[i as int]);
                }
                order.insert(at, i);
            }
            i += 1;
        }
        assert(self@.take(self.rows.len() as int) =~= self@);
        let mut out: Vec<NoteMetadata> = Vec::new();
        let mut k: usize = 0;
        while k < order.len()
            invariant
                k <= order.len(),
                order.len() == chosen.len(),
                out.len() == k,
                forall|m: int|
                    0 <= m < order.len() ==> (#[trigger] order@[m]) < self.rows.len()
                        && self@[order@[m] as int] == chosen[m],
                forall|m: int| 0 <= m < k ==> (#[trigger] out@[m])@ == metadata_of(chosen[m]),
            decreases order.len() - k,
        {
            out.push(self.rows[order[k]].metadata());
            k += 1;
        }
        assert(out.deep_view() =~= chosen.map_values(|row: NoteRowView| metadata_of(row)));
        out
    }
}

/// The priority that a listing goes by: that of the query, or none.
pub open spec fn priority_used(by_query: bool, query: Seq<char>) -> spec_fn(NoteRowView) -> int {
    if by_query {
        query_priority(query)
    } else {
        no_priority()
    }
}

/// The first `limit` items; all of them where no limit is set.
fn cut(items: Vec<NoteMetadata>, limit: Option<usize>) -> (out: Vec<NoteMetadata>)
    ensures
        out.deep_view() == limited(items.deep_view(), limit),
{
    let mut items = items;
    match limit {
        Some(n) => {
            if n < items.len() {
                let ghost all = items.deep_view();
                items.truncate(n);
                assert(items.deep_view() =~= all.take(n as int));
            }
        },
        None => {},
    }
    items
}

} // verus!
