//! A mail as its MIME structure: what reading a mail needs to know of it.

use vstd::prelude::*;

use crate::message::date::DateTime;
use crate::text;

verus! {

/// The content type of a part.
#[derive(Debug, Clone)]
pub struct ContentType {
    pub media_type: String,
    pub media_subtype: String,
    /// Type and subtype in one, as in `text/plain`.
    pub mime_type: Option<String>,
    /// The parameter `smime-type`.
    pub smime_type: Option<String>,
    /// The parameter `charset`.
    pub charset: Option<String>,
}

/// The texts of a content type.
pub struct ContentTypeView {
    pub media_type: Seq<char>,
    pub media_subtype: Seq<char>,
    pub mime_type: Option<Seq<char>>,
    pub smime_type: Option<Seq<char>>,
    pub charset: Option<Seq<char>>,
}

impl View for ContentType {
    type V = ContentTypeView;

    open spec fn view(&self) -> ContentTypeView {
        ContentTypeView {
            media_type: self.media_type@,
            media_subtype: self.media_subtype@,
            mime_type: text::optional_text(self.mime_type),
            smime_type: text::optional_text(self.smime_type),
            charset: text::optional_text(self.charset),
        }
    }
}

impl ContentTypeView {
    /// The content type has the given type and subtype. Case does not matter.
    pub open spec fn is_type(self, media_type: Seq<char>, media_subtype: Seq<char>) -> bool {
        &&& text::ascii_lowercase(self.media_type) == text::ascii_lowercase(media_type)
        &&& text::ascii_lowercase(self.media_subtype) == text::ascii_lowercase(media_subtype)
    }
}

impl ContentType {
    /// Whether the content type has the given type and subtype. Case does not
    /// matter.
    pub fn is_type(&self, media_type: &str, media_subtype: &str) -> (r: bool)
        ensures
            r == self@.is_type(media_type@, media_subtype@),
    {
        text::same_ignoring_ascii_case(self.media_type.as_str(), media_type)
            && text::same_ignoring_ascii_case(self.media_subtype.as_str(), media_subtype)
    }
}

/// The decoded content of a part, and how many bytes writing it out is said to
/// have given.
#[derive(Debug, Clone)]
pub struct PartContent {
    pub written: i64,
    pub bytes: Vec<u8>,
}

/// What a content holds.
pub struct PartContentView {
    pub written: i64,
    pub bytes: Seq<u8>,
}

impl View for PartContent {
    type V = PartContentView;

    open spec fn view(&self) -> PartContentView {
        PartContentView { written: self.written, bytes: self.bytes@ }
    }
}

/// What a part has that holds content rather than other parts.
#[derive(Debug, Clone)]
pub struct LeafPart {
    pub is_attachment: bool,
    pub filename: Option<String>,
    pub content: Option<PartContent>,
}

/// What a leaf holds.
pub struct LeafView {
    pub is_attachment: bool,
    pub filename: Option<Seq<char>>,
    pub content: Option<PartContentView>,
}

impl View for LeafPart {
    type V = LeafView;

    open spec fn view(&self) -> LeafView {
        LeafView {
            is_attachment: self.is_attachment,
            filename: text::optional_text(self.filename),
            content: match self.content {
                Some(content) => Some(content@),
                None => None,
            },
        }
    }
}

/// A part of a mail.
#[derive(Debug, Clone)]
pub struct MimePart {
    pub content_type: Option<ContentType>,
    pub content_id: Option<String>,
    pub leaf: Option<LeafPart>,
}

/// What a part holds.
pub struct PartView {
    pub content_type: Option<ContentTypeView>,
    pub content_id: Option<Seq<char>>,
    pub leaf: Option<LeafView>,
}

impl View for MimePart {
    type V = PartView;

    open spec fn view(&self) -> PartView {
        PartView {
            content_type: match self.content_type {
                Some(content_type) => Some(content_type@),
                None => None,
            },
            content_id: text::optional_text(self.content_id),
            leaf: match self.leaf {
                Some(leaf) => Some(leaf@),
                None => None,
            },
        }
    }
}

/// The addresses of a header, in order. One that cannot be written out is `None`.
#[derive(Debug, Clone)]
pub struct AddressList {
    pub addresses: Vec<Option<String>>,
}

impl View for AddressList {
    type V = Seq<Option<Seq<char>>>;

    open spec fn view(&self) -> Seq<Option<Seq<char>>> {
        Seq::new(self.addresses@.len(), |i: int| text::optional_text(self.addresses@[i]))
    }
}

/// The addresses of a header that may be absent.
pub open spec fn optional_addresses(list: Option<AddressList>) -> Option<Seq<Option<Seq<char>>>> {
    match list {
        Some(list) => Some(list@),
        None => None,
    }
}

/// A mail: its headers, and its parts in the order in which they stand, the
/// parts that hold other parts included.
#[derive(Debug, Clone)]
pub struct MimeMessage {
    pub from: Option<AddressList>,
    pub to: Option<AddressList>,
    pub cc: Option<AddressList>,
    pub bcc: Option<AddressList>,
    pub subject: Option<String>,
    pub date: Option<DateTime>,
    pub parts: Vec<MimePart>,
}

/// What a mail holds.
pub struct MimeView {
    pub from: Option<Seq<Option<Seq<char>>>>,
    pub to: Option<Seq<Option<Seq<char>>>>,
    pub cc: Option<Seq<Option<Seq<char>>>>,
    pub bcc: Option<Seq<Option<Seq<char>>>>,
    pub subject: Option<Seq<char>>,
    pub date: Option<DateTime>,
    pub parts: Seq<PartView>,
}

/// What a list of parts holds.
pub open spec fn part_views(parts: Seq<MimePart>) -> Seq<PartView> {
    Seq::new(parts.len(), |i: int| parts[i]@)
}

impl View for MimeMessage {
    type V = MimeView;

    open spec fn view(&self) -> MimeView {
        MimeView {
            from: optional_addresses(self.from),
            to: optional_addresses(self.to),
            cc: optional_addresses(self.cc),
            bcc: optional_addresses(self.bcc),
            subject: text::optional_text(self.subject),
            date: self.date,
            parts: part_views(self.parts@),
        }
    }
}

/// A content type is compared by its type and its subtype, both of them, and without
/// regard to case.
pub proof fn law_types_are_compared_without_case(
    content_type: ContentType,
    media_type: &str,
    media_subtype: &str,
    found: bool,
)
    requires
        call_ensures(ContentType::is_type, (&content_type, media_type, media_subtype), found),
    ensures
        found <==> text::ascii_lowercase(content_type.media_type@) == text::ascii_lowercase(
            media_type@,
        ) && text::ascii_lowercase(content_type.media_subtype@) == text::ascii_lowercase(
            media_subtype@,
        ),
{
}

} // verus!
