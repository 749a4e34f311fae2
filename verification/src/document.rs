//! Remote documents as the catalog reports them.

use vstd::prelude::*;

verus! {

/// A remote document with every field present.
#[derive(Debug, Clone)]
pub struct File {
    pub id: String,
    pub name: String,
    pub mime_type: String,
    pub owned_by_me: bool,
    pub modified_time: String,
    pub trashed: bool,
}

/// The mathematical value of a [`File`].
pub struct FileView {
    pub id: Seq<char>,
    pub name: Seq<char>,
    pub mime_type: Seq<char>,
    pub owned_by_me: bool,
    pub modified_time: Seq<char>,
    pub trashed: bool,
}

impl View for File {
    type V = FileView;

    open spec fn view(&self) -> FileView {
        FileView {
            id: self.id@,
            name: self.name@,
            mime_type: self.mime_type@,
            owned_by_me: self.owned_by_me,
            modified_time: self.modified_time@,
            trashed: self.trashed,
        }
    }
}

/// One record of a catalog listing, in which any field may be missing.
#[derive(Debug, Clone)]
pub struct ListedFile {
    pub id: Option<String>,
    pub name: Option<String>,
    pub mime_type: Option<String>,
    pub owned_by_me: Option<bool>,
    pub modified_time: Option<String>,
    pub trashed: Option<bool>,
}

/// The first field that a listed record lacks.
#[derive(Debug, Clone, Copy, PartialEq, Eq, Structural)]
pub enum ConversionError {
    MissingFieldId,
    MissingFieldName,
    MissingFieldMimeType,
    MissingFieldOwnedByMe,
    MissingFieldModifiedTime,
    MissingFieldTrashed,
}

/// What converting a listed record yields: the document when all six fields
/// are present, else the error for the first missing one, in the order id,
/// name, kind, ownership, modification time, trashed.
pub open spec fn converted(value: ListedFile) -> Result<FileView, ConversionError> {
    if value.id is None {
        Err(ConversionError::MissingFieldId)
    } else if value.name is None {
        Err(ConversionError::MissingFieldName)
    } else if value.mime_type is None {
        Err(ConversionError::MissingFieldMimeType)
    } else if value.owned_by_me is None {
        Err(ConversionError::MissingFieldOwnedByMe)
    } else if value.modified_time is None {
        Err(ConversionError::MissingFieldModifiedTime)
    } else if value.trashed is None {
        Err(ConversionError::MissingFieldTrashed)
    } else {
        Ok(
            FileView {
                id: value.id->0@,
                name: value.name->0@,
                mime_type: value.mime_type->0@,
                owned_by_me: value.owned_by_me->0,
                modified_time: value.modified_time->0@,
                trashed: value.trashed->0,
            },
        )
    }
}

impl File {
    /// Converts a listed record into a document, or names the first missing
    /// field.
    pub fn try_from(value: &ListedFile) -> (r: Result<File, ConversionError>)
        ensures
            match r {
                Ok(f) => converted(*value) == Ok::<FileView, ConversionError>(f@),
                Err(e) => converted(*value) == Err::<FileView, ConversionError>(e),
            },
    {
        let id = match &value.id {
            Some(s) => s.clone(),
            None => { return Err(ConversionError::MissingFieldId); },
        };
        let name = match &value.name {
            Some(s) => s.clone(),
            None => { return Err(ConversionError::MissingFieldName); },
        };
        let mime_type = match &value.mime_type {
            Some(s) => s.clone(),
            None => { return Err(ConversionError::MissingFieldMimeType); },
        };
        let owned_by_me = match value.owned_by_me {
            Some(b) => b,
            None => { return Err(ConversionError::MissingFieldOwnedByMe); },
        };
        let modified_time = match &value.modified_time {
            Some(s) => s.clone(),
            None => { return Err(ConversionError::MissingFieldModifiedTime); },
        };
        let trashed = match value.trashed {
            Some(b) => b,
            None => { return Err(ConversionError::MissingFieldTrashed); },
        };
        Ok(File { id, name, mime_type, owned_by_me, modified_time, trashed })
    }
}

} // verus!
