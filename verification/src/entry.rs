//! Clipboard history entries: the payload sum type, the entry record, the
//! error taxonomy, and decoding of stored rows.

use vstd::prelude::*;

verus! {

/// A clipboard payload: copied text, or an image held as a rendered location.
pub enum ClipboardHistory {
    Text(String),
    Image(String),
}

/// The mathematical value of a clipboard payload.
pub enum ContentModel {
    Text(Seq<char>),
    Image(Seq<char>),
}

impl View for ClipboardHistory {
    type V = ContentModel;

    open spec fn view(&self) -> ContentModel {
        match self {
            ClipboardHistory::Text(s) => ContentModel::Text(s@),
            ClipboardHistory::Image(p) => ContentModel::Image(p@),
        }
    }
}

impl Clone for ClipboardHistory {
    fn clone(&self) -> (r: Self)
        ensures
            r == *self,
    {
        match self {
            ClipboardHistory::Text(s) => ClipboardHistory::Text(s.clone()),
            ClipboardHistory::Image(p) => ClipboardHistory::Image(p.clone()),
        }
    }
}

impl ClipboardHistory {
    /// Whether two payloads hold the same kind and the same characters.
    pub fn same_content(&self, other: &ClipboardHistory) -> (r: bool)
        ensures
            r == (self@ == other@),
    {
        match (self, other) {
            (ClipboardHistory::Text(a), ClipboardHistory::Text(b)) => *a == *b,
            (ClipboardHistory::Image(a), ClipboardHistory::Image(b)) => *a == *b,
            _ => false,
        }
    }
}

/// How a history operation fails.
#[derive(Clone, Copy, Debug, PartialEq, Eq)]
pub enum HistoryError {
    /// The clipboard provider could not be read this tick.
    ProviderUnavailable,
    /// The durable store failed an operation.
    PersistenceError,
    /// A delete targeted an id no stored row holds.
    NotFound,
    /// A stored row cannot be decoded into an entry.
    MalformedRecord,
}

/// One clipboard history entry: the store-assigned id (absent until the
/// entry is persisted), the payload, and the creation stamp as a sortable
/// string.
pub struct ClipboardEntry {
    pub id: Option<i64>,
    pub content: ClipboardHistory,
    pub created_at: String,
}

/// The mathematical value of an entry.
pub struct EntryModel {
    pub id: Option<i64>,
    pub content: ContentModel,
    pub created_at: Seq<char>,
}

impl View for ClipboardEntry {
    type V = EntryModel;

    open spec fn view(&self) -> EntryModel {
        EntryModel { id: self.id, content: self.content@, created_at: self.created_at@ }
    }
}

impl Clone for ClipboardEntry {
    fn clone(&self) -> (r: Self)
        ensures
            r == *self,
    {
        ClipboardEntry {
            id: self.id,
            content: self.content.clone(),
            created_at: self.created_at.clone(),
        }
    }
}

/// Relies on `chrono::Utc::now`: the current moment in its standard text
/// form, which sorts chronologically within one run; nothing is promised of
/// the value itself.
#[verifier::external_body]
fn now_utc_string() -> String {
    chrono::Utc::now().to_string()
}

impl ClipboardEntry {
    /// Builds an unpersisted text entry stamped with the current time.
    pub fn new_text_entry(text: String) -> (r: ClipboardEntry)
        ensures
            r@.id is None,
            r@.content == ContentModel::Text(text@),
    {
        ClipboardEntry {
            id: None,
            content: ClipboardHistory::Text(text),
            created_at: now_utc_string(),
        }
    }

    /// Builds an unpersisted image entry stamped with the current time.
    pub fn new_image_entry(image_path: String) -> (r: ClipboardEntry)
        ensures
            r@.id is None,
            r@.content == ContentModel::Image(image_path@),
    {
        ClipboardEntry {
            id: None,
            content: ClipboardHistory::Image(image_path),
            created_at: now_utc_string(),
        }
    }

    /// The tag under which this entry's kind is stored.
    pub fn content_tag(&self) -> (r: &'static str)
        ensures
            self@.content matches ContentModel::Text(_) ==> r@ == "TEXT"@,
            self@.content matches ContentModel::Image(_) ==> r@ == "IMAGE"@,
    {
        match &self.content {
            ClipboardHistory::Text(_) => "TEXT",
            ClipboardHistory::Image(_) => "IMAGE",
        }
    }

    /// The text payload, for a text entry.
    pub fn text_content(&self) -> (r: Option<String>)
        ensures
            match self@.content {
                ContentModel::Text(t) => r matches Some(s) && s@ == t,
                ContentModel::Image(_) => r is None,
            },
    {
        match &self.content {
            ClipboardHistory::Text(s) => Some(s.clone()),
            ClipboardHistory::Image(_) => None,
        }
    }

    /// The image location, for an image entry.
    pub fn image_path(&self) -> (r: Option<String>)
        ensures
            match self@.content {
                ContentModel::Image(p) => r matches Some(s) && s@ == p,
                ContentModel::Text(_) => r is None,
            },
    {
        match &self.content {
            ClipboardHistory::Image(p) => Some(p.clone()),
            ClipboardHistory::Text(_) => None,
        }
    }
}

/// Rebuilds an entry from the fields of a stored row. A row whose tag names
/// neither kind, or whose payload column for its kind is absent, is
/// malformed and fails the read.
pub fn decode_row(
    id: i64,
    content_type: &str,
    text_content: Option<String>,
    image_path: Option<String>,
    created_at: String,
) -> (r: Result<ClipboardEntry, HistoryError>)
    ensures
        ({
            if content_type@ == "TEXT"@ {
                match text_content {
                    Some(t) => r matches Ok(e) && e@ == (EntryModel {
                        id: Some(id),
                        content: ContentModel::Text(t@),
                        created_at: created_at@,
                    }),
                    None => r matches Err(x) && x == HistoryError::MalformedRecord,
                }
            } else if content_type@ == "IMAGE"@ {
                match image_path {
                    Some(p) => r matches Ok(e) && e@ == (EntryModel {
                        id: Some(id),
                        content: ContentModel::Image(p@),
                        created_at: created_at@,
                    }),
                    None => r matches Err(x) && x == HistoryError::MalformedRecord,
                }
            } else {
                r matches Err(x) && x == HistoryError::MalformedRecord
            }
        }),
{
    if crate::text::str_eq(content_type, "TEXT") {
        match text_content {
            Some(t) => Ok(ClipboardEntry {
                id: Some(id),
                content: ClipboardHistory::Text(t),
                created_at,
            }),
            None => Err(HistoryError::MalformedRecord),
        }
    } else if crate::text::str_eq(content_type, "IMAGE") {
        match image_path {
            Some(p) => Ok(ClipboardEntry {
                id: Some(id),
                content: ClipboardHistory::Image(p),
                created_at,
            }),
            None => Err(HistoryError::MalformedRecord),
        }
    } else {
        Err(HistoryError::MalformedRecord)
    }
}

} // verus!
