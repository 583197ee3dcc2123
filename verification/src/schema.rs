//! The versions of the index store's schema, and what opening a store asks
//! of it.
//!
//! Version 1 has the table of notes, with identity, path, parent, time of
//! last sync, digest and archive flag, and the full-text shadow. Version 2
//! adds the access count, the time of the last access and the frecency
//! score. Version 3 adds the count of direct accesses.

use crate::notes::{Error, ErrorView};
use vstd::prelude::*;

verus! {

/// The version of the schema that this library works with.
pub const LATEST_VERSION: i32 = 3;

/// The batches of changes that bring a store at `version` up to date: one
/// for each later version up to the latest, in rising order.
pub open spec fn pending(version: i32) -> Seq<i32> {
    if version < 1 {
        seq![1i32, 2i32, 3i32]
    } else if version < 2 {
        seq![2i32, 3i32]
    } else if version < 3 {
        seq![3i32]
    } else {
        Seq::empty()
    }
}

/// A store is sound where it has the table of notes and the full-text
/// shadow.
pub open spec fn verdict(has_notes: bool, has_shadow: bool) -> Result<(), ErrorView> {
    if has_notes && has_shadow {
        Ok(())
    } else {
        Err(ErrorView::DatabaseCorrupted)
    }
}

/// Every pending batch is for a version after the store's and up to the
/// latest, none is left out, and they rise one by one.
pub proof fn lemma_pending(version: i32)
    ensures
        forall|k: int|
            0 <= k < pending(version).len() ==> version < (#[trigger] pending(version)[k])
                <= LATEST_VERSION,
        forall|v: i32|
            version < v <= LATEST_VERSION && 1 <= v ==> #[trigger] pending(version).contains(v),
        forall|k: int|
            0 <= k < pending(version).len() - 1 ==> (#[trigger] pending(version)[k]) + 1 == pending(
                version,
            )[k + 1],
{
    let p = pending(version);
    assert forall|v: i32| version < v <= LATEST_VERSION && 1 <= v implies #[trigger] p.contains(
        v,
    ) by {
        let k = p.len() - (LATEST_VERSION - v) - 1;
        assert(p[k] == v);
    }
}

/// The batches of changes that a store at `version` still needs, in the
/// order in which they are applied. After each the store is at the version
/// of that batch.
pub fn pending_migrations(version: i32) -> (batches: Vec<i32>)
    ensures
        batches@ == pending(version),
{
    let mut batches: Vec<i32> = Vec::new();
    if version < 1 {
        batches.push(1);
    }
    if version < 2 {
        batches.push(2);
    }
    if version < 3 {
        batches.push(3);
    }
    assert(batches@ =~= pending(version));
    batches
}

/// Whether a store that has been brought up to date may be used: it must
/// have the table of notes (`has_notes`) and the full-text shadow
/// (`has_shadow`).
pub fn verify_schema(has_notes: bool, has_shadow: bool) -> (sound: Result<(), Error>)
    ensures
        match verdict(has_notes, has_shadow) {
            Ok(_) => sound is Ok,
            Err(e) => sound is Err && sound->Err_0@ == e,
        },
{
    if has_notes && has_shadow {
        Ok(())
    } else {
        Err(Error::DatabaseCorrupted)
    }
}

} // verus!
