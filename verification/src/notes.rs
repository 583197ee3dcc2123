//! The values that the notes API hands out, and its errors.

use vstd::prelude::*;

verus! {

/// Why an operation on notes did not succeed.
#[derive(Debug)]
pub enum Error {
    /// The file system refused something; the text says what.
    Io(String),
    /// The index store refused something; the text says what.
    Database(String),
    /// The index store lacks a table that it must have.
    DatabaseCorrupted,
    /// No note stands at this path.
    NotFound(String),
    /// A note already stands at this path.
    AlreadyExists(String),
    /// The note would have no parent: none stands at this path.
    ParentNotFound(String),
}

/// An [`Error`] as contracts see it.
pub enum ErrorView {
    Io(Seq<char>),
    Database(Seq<char>),
    DatabaseCorrupted,
    NotFound(Seq<char>),
    AlreadyExists(Seq<char>),
    ParentNotFound(Seq<char>),
}

impl View for Error {
    type V = ErrorView;

    open spec fn view(&self) -> ErrorView {
        match self {
            Error::Io(detail) => ErrorView::Io(detail@),
            Error::Database(detail) => ErrorView::Database(detail@),
            Error::DatabaseCorrupted => ErrorView::DatabaseCorrupted,
            Error::NotFound(path) => ErrorView::NotFound(path@),
            Error::AlreadyExists(path) => ErrorView::AlreadyExists(path@),
            Error::ParentNotFound(path) => ErrorView::ParentNotFound(path@),
        }
    }
}

/// A note with its content. `modified` counts seconds since the Unix epoch.
#[derive(Debug, Clone)]
pub struct Note {
    pub id: i64,
    pub path: String,
    pub content: String,
    pub modified: u64,
}

/// A [`Note`] as contracts see it.
pub struct NoteView {
    pub id: i64,
    pub path: Seq<char>,
    pub content: Seq<char>,
    pub modified: u64,
}

impl View for Note {
    type V = NoteView;

    open spec fn view(&self) -> NoteView {
        NoteView { id: self.id, path: self.path@, content: self.content@, modified: self.modified }
    }
}

/// What the index knows of a note, without its content. `modified` counts
/// seconds since the Unix epoch.
#[derive(Debug, Clone)]
pub struct NoteMetadata {
    pub id: i64,
    pub path: String,
    pub modified: u64,
    pub archived: bool,
}

/// A [`NoteMetadata`] as contracts see it.
pub struct NoteMetadataView {
    pub id: i64,
    pub path: Seq<char>,
    pub modified: u64,
    pub archived: bool,
}

impl View for NoteMetadata {
    type V = NoteMetadataView;

    open spec fn view(&self) -> NoteMetadataView {
        NoteMetadataView {
            id: self.id,
            path: self.path@,
            modified: self.modified,
            archived: self.archived,
        }
    }
}

impl DeepView for NoteMetadata {
    type V = NoteMetadataView;

    open spec fn deep_view(&self) -> NoteMetadataView {
        self@
    }
}

/// By what a search ranks the notes it finds.
#[derive(Debug, Clone, Copy, PartialEq, Eq, Structural)]
pub enum RankingMode {
    /// By the number of direct visits.
    Visits,
    /// By the frecency score, which weighs frequency and recency.
    Frecency,
}

/// One row of the index: all that is recorded of one note. Times count
/// seconds since the Unix epoch; the score counts millionths of a point.
#[derive(Debug, Clone)]
pub struct NoteRow {
    pub id: i64,
    pub path: String,
    pub parent_path: Option<String>,
    pub mtime: i64,
    pub content_hash: String,
    pub archived: bool,
    pub archived_at: Option<i64>,
    pub access_count: i64,
    pub direct_access_count: i64,
    pub last_accessed_at: Option<i64>,
    pub frecency_score: i128,
}

/// A [`NoteRow`] as contracts see it.
pub struct NoteRowView {
    pub id: i64,
    pub path: Seq<char>,
    pub parent_path: Option<Seq<char>>,
    pub mtime: i64,
    pub content_hash: Seq<char>,
    pub archived: bool,
    pub archived_at: Option<i64>,
    pub access_count: i64,
    pub direct_access_count: i64,
    pub last_accessed_at: Option<i64>,
    pub frecency_score: i128,
}

impl View for NoteRow {
    type V = NoteRowView;

    open spec fn view(&self) -> NoteRowView {
        NoteRowView {
            id: self.id,
            path: self.path@,
            parent_path: match self.parent_path {
                Some(p) => Some(p@),
                None => None,
            },
            mtime: self.mtime,
            content_hash: self.content_hash@,
            archived: self.archived,
            archived_at: self.archived_at,
            access_count: self.access_count,
            direct_access_count: self.direct_access_count,
            last_accessed_at: self.last_accessed_at,
            frecency_score: self.frecency_score,
        }
    }
}

impl DeepView for NoteRow {
    type V = NoteRowView;

    open spec fn deep_view(&self) -> NoteRowView {
        self@
    }
}

/// The moment of a row's last sync, as the seconds that a [`Note`] carries.
pub open spec fn modified_of(mtime: i64) -> u64 {
    mtime as u64
}

/// What a listing shows of a row.
pub open spec fn metadata_of(row: NoteRowView) -> NoteMetadataView {
    NoteMetadataView {
        id: row.id,
        path: row.path,
        modified: modified_of(row.mtime),
        archived: row.archived,
    }
}

impl NoteRow {
    /// What a listing shows of this row.
    pub fn metadata(&self) -> (meta: NoteMetadata)
        ensures
            meta@ == metadata_of(self@),
    {
        NoteMetadata {
            id: self.id,
            path: self.path.clone(),
            modified: #[verifier::truncate]
            (self.mtime as u64),
            archived: self.archived,
        }
    }
}

} // verus!
