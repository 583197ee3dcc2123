//! The core of a hierarchical notes application: the arithmetic of note
//! paths, the index as a value with navigation and search, the operations of
//! the notes API as plans of steps, what the watcher decides, and the
//! theorems that hold of all this.

pub mod attachments;
pub mod digest;
pub mod dto;
pub mod filesystem;
pub mod frecency;
pub mod index;
pub mod markdown;
pub mod model;
pub mod notes;
pub mod ops;
pub mod paths;
pub mod schema;
pub mod text;
pub mod watcher;

pub use dto::{NoteDTO, NoteMetadataDTO, RankingModeDTO};
pub use filesystem::{DirEntry, FSNoteMetadata, NoteFilesystem};
pub use index::NoteIndex;
pub use markdown::clean_markdown;
pub use notes::{Error, Note, NoteMetadata, NoteRow, RankingMode};
pub use watcher::WatcherEvent;
