//! The shapes in which notes cross to a front end: plain records, with
//! times as seconds since the Unix epoch.

use crate::notes::{Note, NoteMetadata, RankingMode};
use vstd::prelude::*;
use vstd::std_specs::convert::FromSpecImpl;

verus! {

/// A note with its content, for a front end.
#[derive(Debug, Clone)]
pub struct NoteDTO {
    pub id: i64,
    pub path: String,
    pub content: String,
    pub modified: u64,
}

/// What the index knows of a note, for a front end.
#[derive(Debug, Clone)]
pub struct NoteMetadataDTO {
    pub id: i64,
    pub path: String,
    pub modified: u64,
    pub archived: bool,
}

/// The ranking of a search, as a front end names it.
#[derive(Debug, Clone, Copy, PartialEq, Eq, Structural)]
pub enum RankingModeDTO {
    Visits,
    Frecency,
}

impl From<RankingModeDTO> for RankingMode {
    fn from(dto: RankingModeDTO) -> (mode: RankingMode) {
        match dto {
            RankingModeDTO::Visits => RankingMode::Visits,
            RankingModeDTO::Frecency => RankingMode::Frecency,
        }
    }
}

impl FromSpecImpl<RankingModeDTO> for RankingMode {
    open spec fn obeys_from_spec() -> bool {
        true
    }

    open spec fn from_spec(dto: RankingModeDTO) -> RankingMode {
        match dto {
            RankingModeDTO::Visits => RankingMode::Visits,
            RankingModeDTO::Frecency => RankingMode::Frecency,
        }
    }
}

impl From<Note> for NoteDTO {
    fn from(note: Note) -> (dto: NoteDTO) {
        NoteDTO { id: note.id, path: note.path, content: note.content, modified: note.modified }
    }
}

impl FromSpecImpl<Note> for NoteDTO {
    open spec fn obeys_from_spec() -> bool {
        true
    }

    open spec fn from_spec(note: Note) -> NoteDTO {
        NoteDTO { id: note.id, path: note.path, content: note.content, modified: note.modified }
    }
}

impl From<NoteMetadata> for NoteMetadataDTO {
    fn from(meta: NoteMetadata) -> (dto: NoteMetadataDTO) {
        NoteMetadataDTO {
            id: meta.id,
            path: meta.path,
            modified: meta.modified,
            archived: meta.archived,
        }
    }
}

impl FromSpecImpl<NoteMetadata> for NoteMetadataDTO {
    open spec fn obeys_from_spec() -> bool {
        true
    }

    open spec fn from_spec(meta: NoteMetadata) -> NoteMetadataDTO {
        NoteMetadataDTO {
            id: meta.id,
            path: meta.path,
            modified: meta.modified,
            archived: meta.archived,
        }
    }
}

} // verus!
