//! Mails, as `.eml` files hold them.

use vstd::prelude::*;

use crate::codec;
use crate::message::attachment;
use crate::message::attachment::Attachment;
use crate::message::cancellation;
use crate::message::cancellation::Cancellation;
use crate::message::date;
use crate::message::date::DateTime;
use crate::message::message;
use crate::message::message::{Message, ParseError, Protection};
use crate::message::mime;
use crate::message::mime::{AddressList, ContentType, LeafPart, MimeMessage, MimePart};
use crate::text;

verus! {

/// The addresses of a list that can be written out, in order.
pub open spec fn written_addresses(list: Seq<Option<Seq<char>>>) -> Seq<Seq<char>>
    decreases list.len(),
{
    if list.len() == 0 {
        Seq::empty()
    } else {
        let front = written_addresses(list.drop_last());
        match list.last() {
            Some(address) => front.push(address),
            None => front,
        }
    }
}

/// A list of addresses in one line.
pub open spec fn address_line(list: Seq<Option<Seq<char>>>) -> Seq<char> {
    text::joined(written_addresses(list), ", "@)
}

/// A list of addresses in one line, or nothing where there is no list.
pub open spec fn optional_line(list: Option<Seq<Option<Seq<char>>>>) -> Seq<char> {
    match list {
        Some(list) => address_line(list),
        None => Seq::empty(),
    }
}

/// What the content type of a part says about the protection of the message: the
/// wrapper of RFC 1847 for PGP/MIME and S/MIME. S/MIME puts everything in one
/// part and says which in a parameter: `signed-data`, or else it is encrypted.
pub open spec fn type_protection(content_type: mime::ContentTypeView) -> Option<Protection> {
    if content_type.is_type("multipart"@, "encrypted"@) {
        Some(Protection::Encrypted)
    } else if content_type.is_type("multipart"@, "signed"@) {
        Some(Protection::Signed)
    } else if content_type.is_type("application"@, "pkcs7-mime"@) || content_type.is_type(
        "application"@,
        "x-pkcs7-mime"@,
    ) {
        if content_type.smime_type == Some("signed-data"@) {
            Some(Protection::Signed)
        } else {
            Some(Protection::Encrypted)
        }
    } else {
        None
    }
}

/// What a part says about the protection of the message.
pub open spec fn protection_of(part: mime::PartView) -> Option<Protection> {
    match part.content_type {
        Some(content_type) => type_protection(content_type),
        None => None,
    }
}

/// What a body says about its protection: the armor of RFC 4880, in the older
/// style that puts the block in the body.
pub open spec fn armor(body: Seq<char>) -> Option<Protection> {
    let body = text::trimmed_start(body);
    if text::begins_with(body, "-----BEGIN PGP MESSAGE-----"@) {
        Some(Protection::Encrypted)
    } else if text::begins_with(body, "-----BEGIN PGP SIGNED MESSAGE-----"@) {
        Some(Protection::Signed)
    } else {
        None
    }
}

/// The text of a leaf, in the charset that its content type names. It is empty
/// where there is nothing to decode or the charset is not known.
pub open spec fn leaf_text(
    content_type: Option<mime::ContentTypeView>,
    leaf: mime::LeafView,
) -> Seq<char> {
    let charset = match content_type {
        Some(mime::ContentTypeView { charset: Some(charset), .. }) => charset,
        _ => "utf-8"@,
    };
    match leaf.content {
        Some(content) if content.written as u32 > 0 => match codec::decoded_text(
            charset,
            content.bytes,
        ) {
            Some(decoded) => decoded,
            None => Seq::empty(),
        },
        _ => Seq::empty(),
    }
}

/// The attachment that a part gives, if it has a file name, a type and content.
pub open spec fn attachment_of(part: mime::PartView) -> Option<attachment::AttachmentView> {
    match (part.leaf, part.content_type) {
        (
            Some(mime::LeafView { filename: Some(filename), content: Some(content), .. }),
            Some(content_type),
        ) => Some(
            attachment::AttachmentView {
                filename,
                content_id: match part.content_id {
                    Some(content_id) => content_id,
                    None => "none"@,
                },
                body: content.bytes,
                mime_type: content_type.mime_type,
            },
        ),
        _ => None,
    }
}

/// What walking the parts of a mail finds.
pub struct Found {
    pub html: Option<Seq<char>>,
    pub text: Option<Seq<char>>,
    pub attachments: Seq<attachment::AttachmentView>,
    pub protection: Protection,
}

/// The protection after a part: the first that is claimed stays, but encrypted
/// wins, for what is inside is not readable from here anyway.
pub open spec fn protection_after(before: Protection, part: mime::PartView) -> Protection {
    match protection_of(part) {
        Some(found) if found == Protection::Encrypted || before == Protection::Plain => found,
        _ => before,
    }
}

/// A part is a leaf of the given type that is no attachment.
pub open spec fn is_body(part: mime::PartView, media_subtype: Seq<char>) -> bool {
    match (part.leaf, part.content_type) {
        (Some(leaf), Some(content_type)) => !leaf.is_attachment && content_type.is_type(
            "text"@,
            media_subtype,
        ),
        _ => false,
    }
}

/// A part is a leaf that is an attachment, or of a type that no body has.
pub open spec fn is_attached(part: mime::PartView) -> bool {
    match (part.leaf, part.content_type) {
        (Some(leaf), Some(_)) => leaf.is_attachment || (!is_body(part, "html"@) && !is_body(
            part,
            "plain"@,
        )),
        (Some(leaf), None) => leaf.is_attachment,
        _ => false,
    }
}

/// What walking finds once it is past a part.
pub open spec fn after_part(before: Found, part: mime::PartView) -> Found {
    Found {
        html: if is_body(part, "html"@) {
            Some(leaf_text(part.content_type, part.leaf->0))
        } else {
            before.html
        },
        text: if is_body(part, "plain"@) && !is_body(part, "html"@) {
            Some(leaf_text(part.content_type, part.leaf->0))
        } else {
            before.text
        },
        attachments: match attachment_of(part) {
            Some(a) if is_attached(part) => before.attachments.push(a),
            _ => before.attachments,
        },
        protection: protection_after(before.protection, part),
    }
}

/// What walking finds once it is past all the parts.
pub open spec fn after_parts(before: Found, parts: Seq<mime::PartView>) -> Found
    decreases parts.len(),
{
    if parts.len() == 0 {
        before
    } else {
        after_part(after_parts(before, parts.drop_last()), parts.last())
    }
}

/// What is known before the parts are walked. There is no html yet: only what
/// this walk finds replaces the one that is known.
pub open spec fn found_before(content: message::Content) -> Found {
    Found {
        html: None,
        text: content.body_text,
        attachments: content.attachments,
        protection: content.protection,
    }
}

/// What is known after the body of a mail is read.
pub open spec fn with_body(
    content: message::Content,
    parts: Seq<mime::PartView>,
) -> message::Content {
    let found = after_parts(found_before(content), parts);
    message::Content {
        body_html: match found.html {
            Some(html) => Some(html),
            None => content.body_html,
        },
        body_text: found.text,
        attachments: found.attachments,
        protection: final_protection(found),
        ..content
    }
}

/// The protection of a mail: what its parts say, or else what its text says.
pub open spec fn final_protection(found: Found) -> Protection {
    if found.protection == Protection::Plain {
        match found.text {
            Some(text) => match armor(text) {
                Some(protection) => protection,
                None => Protection::Plain,
            },
            None => Protection::Plain,
        }
    } else {
        found.protection
    }
}

/// What is known after a mail is read. A sender or a subject that is not there
/// leaves the one that is known.
pub open spec fn with_mail(content: message::Content, mail: mime::MimeView) -> message::Content {
    with_body(
        message::Content {
            from: match mail.from {
                Some(from) => address_line(from),
                None => content.from,
            },
            to: optional_line(mail.to),
            cc: optional_line(mail.cc),
            bcc: optional_line(mail.bcc),
            subject: match mail.subject {
                Some(subject) => subject,
                None => content.subject,
            },
            date: mail.date,
            ..content
        },
        mail.parts,
    )
}

/// No content of a part is longer than can be decoded.
pub open spec fn decodable(parts: Seq<mime::PartView>) -> bool {
    forall|i: int| 0 <= i < parts.len() ==> part_decodable(#[trigger] parts[i])
}

/// The content of a part is no longer than can be decoded.
pub open spec fn part_decodable(part: mime::PartView) -> bool {
    part.leaf matches Some(leaf) ==> leaf_decodable(leaf)
}

/// The content of a leaf is no longer than can be decoded.
pub open spec fn leaf_decodable(leaf: mime::LeafView) -> bool {
    leaf.content matches Some(content) ==> content.bytes.len() <= codec::encodable_len()
}

/// A mail, as its MIME structure gives it, and what was read of it.
#[derive(Debug, Clone)]
pub struct ElectronicMail {
    pub message: Option<MimeMessage>,
    pub from: String,
    pub to: String,
    pub cc: String,
    pub bcc: String,
    pub date: Option<DateTime>,
    pub subject: String,
    pub body_html: Option<String>,
    pub body_text: Option<String>,
    pub attachments: Vec<Attachment>,
    pub protection: Protection,
}

/// The bodies of a mail and its attachments, while its parts are walked.
struct Walk {
    html: Option<String>,
    text: Option<String>,
    attachments: Vec<Attachment>,
    protection: Protection,
}

impl View for Walk {
    type V = Found;

    closed spec fn view(&self) -> Found {
        Found {
            html: text::optional_text(self.html),
            text: text::optional_text(self.text),
            attachments: attachment::attachment_views(self.attachments@),
            protection: self.protection,
        }
    }
}

impl ElectronicMail {
    /// The mail that is to be read, if there is one.
    pub open spec fn mail(&self) -> Option<mime::MimeView> {
        match self.message {
            Some(message) => Some(message@),
            None => None,
        }
    }

    /// A mail that is not read yet. `message` is its MIME structure, if the file
    /// holds a mail at all.
    pub fn new(message: Option<MimeMessage>) -> (r: ElectronicMail)
        ensures
            r.mail() == (match message {
                Some(message) => Some(message@),
                None => None,
            }),
            r.content() == message::unread(),
    {
        let r = ElectronicMail {
            message,
            from: String::new(),
            to: String::new(),
            cc: String::new(),
            bcc: String::new(),
            subject: String::new(),
            body_html: None,
            body_text: None,
            date: None,
            attachments: Vec::new(),
            protection: Protection::default(),
        };
        assert(attachment::attachment_views(r.attachments@) =~= seq![]);
        r
    }

    /// A recipient in Bcc was hidden from everyone else, and a recipient in Cc
    /// was not addressed directly. Neither is a To, so neither is folded into
    /// it.
    pub fn addresses(list: &Option<AddressList>) -> (r: String)
        ensures
            r@ == optional_line(mime::optional_addresses(*list)),
    {
        match list {
            Some(list) => Self::internet_list(list),
            None => String::new(),
        }
    }

    /// A list of addresses in one line.
    pub fn internet_list(list: &AddressList) -> (r: String)
        ensures
            r@ == address_line(list@),
    {
        let mut addresses: Vec<String> = Vec::new();
        assert(text::texts(addresses@) =~= written_addresses(list@.take(0)));
        for i in 0..list.addresses.len()
            invariant
                text::texts(addresses@) == written_addresses(list@.take(i as int)),
        {
            let ghost before = addresses@;
            assert(list@.take(i + 1).drop_last() =~= list@.take(i as int));
            match &list.addresses[i] {
                Some(address) => {
                    addresses.push(address.clone());
                    assert(text::texts(addresses@) =~= text::texts(before).push(address@));
                },
                None => {},
            }
        }
        assert(list@.take(list@.len() as int) =~= list@);
        text::join(&addresses, ", ")
    }

    /// What the structure of the message says about itself, without touching a
    /// key.
    pub fn part_protection(content_type: &ContentType) -> (r: Option<Protection>)
        ensures
            r == type_protection(content_type@),
    {
        if content_type.is_type("multipart", "encrypted") {
            return Some(Protection::Encrypted);
        }
        if content_type.is_type("multipart", "signed") {
            return Some(Protection::Signed);
        }
        if content_type.is_type("application", "pkcs7-mime") || content_type.is_type(
            "application",
            "x-pkcs7-mime",
        ) {
            return match &content_type.smime_type {
                Some(smime_type) if text::same_text(smime_type.as_str(), "signed-data") => Some(
                    Protection::Signed,
                ),
                // enveloped-data, authenveloped-data, or nothing said.
                _ => Some(Protection::Encrypted),
            };
        }
        None
    }

    /// What a body says about its protection, without touching a key.
    pub fn inline_protection(body: &str) -> (r: Option<Protection>)
        ensures
            r == armor(body@),
    {
        let chars = text::chars_of(body);
        let from: usize = text::trim_start(&chars);
        let body = text::string_of(&chars, from, chars.len());
        assert(body@ =~= chars@.skip(from as int));
        let chars = text::chars_of(body.as_str());
        if text::starts_with(&chars, "-----BEGIN PGP MESSAGE-----") {
            return Some(Protection::Encrypted);
        }
        if text::starts_with(&chars, "-----BEGIN PGP SIGNED MESSAGE-----") {
            return Some(Protection::Signed);
        }
        None
    }

    /// The text of a leaf, in the charset that its content type names.
    pub fn get_content(content_type: &Option<ContentType>, leaf: &LeafPart) -> (r: String)
        requires
            leaf_decodable(leaf@),
        ensures
            r@ == leaf_text(
                match *content_type {
                    Some(content_type) => Some(content_type@),
                    None => None,
                },
                leaf@,
            ),
    {
        match &leaf.content {
            Some(content) => {
                let size = #[verifier::truncate]
                (content.written as u32);
                if size > 0 {
                    let charset: &str = match content_type {
                        Some(content_type) => match &content_type.charset {
                            Some(charset) => charset.as_str(),
                            None => "utf-8",
                        },
                        None => "utf-8",
                    };
                    match codec::decode(charset, &content.bytes) {
                        Some(decoded) => decoded,
                        None => String::new(),
                    }
                } else {
                    String::new()
                }
            },
            None => String::new(),
        }
    }

    /// The attachment that a part gives, if it has a file name, a type and
    /// content.
    pub fn get_attachment(part: &MimePart) -> (r: Option<Attachment>)
        ensures
            (match r {
                Some(a) => Some(a@),
                None => None,
            }) == attachment_of(part@),
    {
        let leaf = match &part.leaf {
            Some(leaf) => leaf,
            None => {
                return None;
            },
        };
        let content_id = match &part.content_id {
            Some(id) => id.clone(),
            None => "none".to_owned(),
        };
        match (&leaf.filename, &part.content_type, &leaf.content) {
            (Some(filename), Some(content_type), Some(content)) => {
                let body = content.bytes.clone();
                assert(body@ =~= content.bytes@);
                let mime_type = text::clone_optional(&content_type.mime_type);
                Some(Attachment { content_id, filename: filename.clone(), mime_type, body })
            },
            _ => None,
        }
    }
}

impl Default for ElectronicMail {
    fn default() -> (r: Self)
        ensures
            r.mail() is None,
            r.content() == message::unread(),
    {
        ElectronicMail::new(None)
    }
}

impl Walk {
    fn add_attachment(&mut self, part: &MimePart)
        ensures
            final(self)@ == (Found {
                attachments: match attachment_of(part@) {
                    Some(a) => old(self)@.attachments.push(a),
                    None => old(self)@.attachments,
                },
                ..old(self)@
            }),
    {
        match ElectronicMail::get_attachment(part) {
            Some(a) => {
                let ghost before = self.attachments@;
                self.attachments.push(a);
                assert(attachment::attachment_views(self.attachments@)
                    =~= attachment::attachment_views(before).push(a@));
            },
            None => {},
        }
    }

    /// Takes what a part gives.
    fn visit(&mut self, part: &MimePart)
        requires
            part_decodable(part@),
        ensures
            final(self)@ == after_part(old(self)@, part@),
    {
        match &part.content_type {
            Some(content_type) => match ElectronicMail::part_protection(content_type) {
                Some(found) => {
                    // Encrypted wins: what is inside is not readable from here
                    // anyway.
                    if found == Protection::Encrypted || self.protection == Protection::Plain {
                        self.protection = found;
                    }
                },
                None => {},
            },
            None => {},
        }
        match &part.leaf {
            Some(leaf) => {
                if leaf.is_attachment {
                    self.add_attachment(part);
                } else {
                    // An inline (cid) part is no attachment here.
                    match &part.content_type {
                        Some(content_type) => {
                            if content_type.is_type("text", "html") {
                                self.html = Some(
                                    ElectronicMail::get_content(&part.content_type, leaf),
                                );
                            } else if content_type.is_type("text", "plain") {
                                self.text = Some(
                                    ElectronicMail::get_content(&part.content_type, leaf),
                                );
                            } else {
                                self.add_attachment(part);
                            }
                        },
                        None => {},
                    }
                }
            },
            None => {},
        }
    }
}

impl ElectronicMail {
    /// Reads the bodies and the attachments of a mail.
    fn parse_body(&mut self, parts: &Vec<MimePart>)
        requires
            decodable(mime::part_views(parts@)),
        ensures
            final(self).content() == with_body(old(self).content(), mime::part_views(parts@)),
            final(self).mail() == old(self).mail(),
    {
        let ghost all = mime::part_views(parts@);
        let ghost start = found_before(self.content());
        let mut walk = Walk {
            html: None,
            text: self.body_text.take(),
            attachments: Vec::new(),
            protection: self.protection,
        };
        std::mem::swap(&mut walk.attachments, &mut self.attachments);
        assert(all.take(0) =~= seq![]);
        for i in 0..parts.len()
            invariant
                all == mime::part_views(parts@),
                decodable(all),
                walk@ == after_parts(start, all.take(i as int)),
        {
            proof {
                assert(all.take(i + 1).drop_last() =~= all.take(i as int));
                assert(all.take(i + 1).last() == all[i as int]);
                assert(part_decodable(all[i as int]));
            }
            walk.visit(&parts[i]);
        }
        assert(all.take(parts@.len() as int) =~= all);
        if walk.protection == Protection::Plain {
            match &walk.text {
                Some(text) => match Self::inline_protection(text.as_str()) {
                    Some(found) => {
                        walk.protection = found;
                    },
                    None => {},
                },
                None => {},
            }
        }
        self.protection = walk.protection;
        self.body_text = walk.text;
        self.attachments = walk.attachments;
        match walk.html {
            Some(html) => {
                self.body_html = Some(html);
            },
            None => {},
        }
    }

    /// Reads a mail.
    fn read(&mut self, mail: &MimeMessage)
        requires
            decodable(mail@.parts),
        ensures
            final(self).content() == with_mail(old(self).content(), mail@),
            final(self).mail() == old(self).mail(),
    {
        match &mail.from {
            Some(from) => {
                self.from = Self::internet_list(from);
            },
            None => {},
        }
        self.to = Self::addresses(&mail.to);
        self.cc = Self::addresses(&mail.cc);
        self.bcc = Self::addresses(&mail.bcc);
        match &mail.subject {
            Some(subject) => {
                self.subject = subject.clone();
            },
            None => {},
        }
        self.date = mail.date;
        self.parse_body(&mail.parts);
    }
}

impl Message for ElectronicMail {
    open spec fn content(&self) -> message::Content {
        message::Content {
            from: self.from@,
            to: self.to@,
            cc: self.cc@,
            bcc: self.bcc@,
            subject: self.subject@,
            date: self.date,
            body_html: text::optional_text(self.body_html),
            body_text: text::optional_text(self.body_text),
            attachments: attachment::attachment_views(self.attachments@),
            protection: self.protection,
        }
    }

    open spec fn readable(&self) -> bool {
        self.mail() matches Some(mail) ==> decodable(mail.parts)
    }

    open spec fn questions(&self, stop: Option<nat>) -> nat {
        1
    }

    open spec fn outcome(&self, stop: Option<nat>) -> (
        message::Content,
        Result<(), message::ErrorView>,
    ) {
        if stop == Some(0nat) {
            (self.content(), Err(message::ErrorView::Cancelled))
        } else {
            match self.mail() {
                Some(mail) => (with_mail(self.content(), mail), Ok(())),
                None => (self.content(), Err(message::ErrorView::NoMessage)),
            }
        }
    }

    fn is_readable(&self) -> bool {
        let mail = match &self.message {
            Some(mail) => mail,
            None => {
                return true;
            },
        };
        let ghost all = mail@.parts;
        for i in 0..mail.parts.len()
            invariant
                all == mail@.parts,
                self.mail() == Some(mail@),
                forall|j: int| 0 <= j < i ==> part_decodable(#[trigger] all[j]),
        {
            assert(all[i as int] == mail.parts@[i as int]@);
            match &mail.parts[i].leaf {
                Some(leaf) => match &leaf.content {
                    Some(content) => {
                        if content.bytes.len() > usize::MAX / 8 {
                            assert(!part_decodable(all[i as int]));
                            return false;
                        }
                    },
                    None => {},
                },
                None => {},
            }
        }
        true
    }

    fn parse<F: Fn() -> bool>(&mut self, cancellation: &mut Cancellation<F>) -> (r: Result<
        (),
        ParseError,
    >)
        ensures
            final(self).mail() == old(self).mail(),
    {
        let ghost start = cancellation.answers();
        let cancelled = cancellation.is_cancelled();
        proof {
            let more = cancellation.answers().skip(start.len() as int);
            assert(more =~= seq![cancelled]);
            assert(start + more =~= cancellation.answers());
            assert(more =~= cancellation::replies(1, cancellation::stopped_at(more)));
        }
        if cancelled {
            return Err(ParseError::Cancelled);
        }
        let message = self.message.take();
        let r = match &message {
            Some(mail) => {
                self.read(mail);
                Ok(())
            },
            None => Err(ParseError::NoMessage),
        };
        self.message = message;
        r
    }

    fn from(&self) -> String {
        self.from.clone()
    }

    fn to(&self) -> String {
        self.to.clone()
    }

    fn cc(&self) -> String {
        self.cc.clone()
    }

    fn bcc(&self) -> String {
        self.bcc.clone()
    }

    fn subject(&self) -> String {
        self.subject.clone()
    }

    fn date(&self) -> String {
        date::local_date(&self.date)
    }

    fn attachments(&self) -> Vec<Attachment> {
        attachment::clone_attachments(&self.attachments)
    }

    fn body_html(&self) -> Option<String> {
        text::clone_optional(&self.body_html)
    }

    fn body_text(&self) -> Option<String> {
        text::clone_optional(&self.body_text)
    }

    fn protection(&self) -> Protection {
        self.protection
    }
}

/// A part claims the given protection for the message.
pub open spec fn claimed(parts: Seq<mime::PartView>, protection: Protection) -> bool {
    exists|i: int| 0 <= i < parts.len() && #[trigger] protection_of(parts[i]) == Some(protection)
}

proof fn lemma_protection_of_parts(before: Found, parts: Seq<mime::PartView>)
    ensures
        after_parts(before, parts).protection == (if before.protection == Protection::Encrypted
            || claimed(parts, Protection::Encrypted) {
            Protection::Encrypted
        } else if before.protection == Protection::Signed || claimed(parts, Protection::Signed) {
            Protection::Signed
        } else {
            Protection::Plain
        }),
        !claimed(parts, Protection::Plain),
    decreases parts.len(),
{
    if parts.len() > 0 {
        let front = parts.drop_last();
        lemma_protection_of_parts(before, front);
        assert(parts[parts.len() - 1] == parts.last());
        assert forall|p: Protection| #[trigger]
            claimed(parts, p) == (claimed(front, p) || protection_of(parts.last()) == Some(p)) by {
            if claimed(front, p) {
                let i = choose|i: int|
                    0 <= i < front.len() && #[trigger] protection_of(front[i]) == Some(p);
                assert(parts[i] == front[i]);
            }
            if claimed(parts, p) {
                let i = choose|i: int|
                    0 <= i < parts.len() && #[trigger] protection_of(parts[i]) == Some(p);
                if i < front.len() {
                    assert(front[i] == parts[i]);
                }
            }
        }
    }
}

/// Encrypted wins: if any part says that the message is encrypted, that is what
/// is said of the message, whatever the other parts, the text, or an earlier
/// reading say.
pub proof fn law_encrypted_wins(content: message::Content, mail: mime::MimeView)
    requires
        claimed(mail.parts, Protection::Encrypted),
    ensures
        with_mail(content, mail).protection == Protection::Encrypted,
{
    lemma_protection_of_parts(found_before(content), mail.parts);
}

/// A message is signed if a part says so and none says that it is encrypted. Only
/// where no part says anything does the text count.
pub proof fn law_the_structure_comes_before_the_text(
    content: message::Content,
    mail: mime::MimeView,
)
    requires
        content.protection == Protection::Plain,
        !claimed(mail.parts, Protection::Encrypted),
    ensures
        claimed(mail.parts, Protection::Signed) ==> with_mail(content, mail).protection
            == Protection::Signed,
        !claimed(mail.parts, Protection::Signed) ==> with_mail(content, mail).protection == (
        match with_mail(content, mail).body_text {
            Some(text) => match armor(text) {
                Some(protection) => protection,
                None => Protection::Plain,
            },
            None => Protection::Plain,
        }),
{
    lemma_protection_of_parts(found_before(content), mail.parts);
}

/// Nothing is said about a plain message: one where no part claims a protection,
/// and whose text does not begin with an armor.
pub proof fn law_nothing_is_said_about_a_plain_message(
    content: message::Content,
    mail: mime::MimeView,
)
    requires
        content.protection == Protection::Plain,
    ensures
        with_mail(content, mail).protection == Protection::Plain <==> (!claimed(
            mail.parts,
            Protection::Encrypted,
        ) && !claimed(mail.parts, Protection::Signed) && (with_mail(
            content,
            mail,
        ).body_text matches Some(text) ==> armor(text) is None)),
{
    lemma_protection_of_parts(found_before(content), mail.parts);
}

/// The recipients are kept apart: who gets a copy, openly or blind, changes
/// nothing but the line of those recipients.
pub proof fn law_recipients_are_kept_apart(
    content: message::Content,
    mail: mime::MimeView,
    cc: Option<Seq<Option<Seq<char>>>>,
    bcc: Option<Seq<Option<Seq<char>>>>,
)
    ensures
        with_mail(content, (mime::MimeView { cc, bcc, ..mail })) == (message::Content {
            cc: optional_line(cc),
            bcc: optional_line(bcc),
            ..with_mail(content, mail)
        }),
{
}

/// The attachments that the parts give, in the order of the parts.
pub open spec fn attachments_of(parts: Seq<mime::PartView>) -> Seq<attachment::AttachmentView>
    decreases parts.len(),
{
    if parts.len() == 0 {
        Seq::empty()
    } else {
        let front = attachments_of(parts.drop_last());
        match attachment_of(parts.last()) {
            Some(a) if is_attached(parts.last()) => front.push(a),
            _ => front,
        }
    }
}

proof fn lemma_attachments_of_parts(before: Found, parts: Seq<mime::PartView>)
    ensures
        after_parts(before, parts).attachments == before.attachments + attachments_of(parts),
    decreases parts.len(),
{
    if parts.len() > 0 {
        lemma_attachments_of_parts(before, parts.drop_last());
        assert(after_parts(before, parts).attachments =~= before.attachments + attachments_of(
            parts,
        ));
    } else {
        assert(before.attachments + attachments_of(parts) =~= before.attachments);
    }
}

/// Reading adds the attachments of the mail, in its order, to those that are
/// known, and takes none away.
pub proof fn law_attachments_are_added_in_order(content: message::Content, mail: mime::MimeView)
    ensures
        with_mail(content, mail).attachments == content.attachments + attachments_of(mail.parts),
{
    lemma_attachments_of_parts(found_before(content), mail.parts);
}

proof fn lemma_html_of_parts(before: Found, parts: Seq<mime::PartView>, i: int)
    requires
        -1 <= i < parts.len(),
        i >= 0 ==> is_body(parts[i], "html"@),
        forall|j: int| i < j < parts.len() ==> !is_body(#[trigger] parts[j], "html"@),
    ensures
        after_parts(before, parts).html == (if i < 0 {
            before.html
        } else {
            Some(leaf_text(parts[i].content_type, parts[i].leaf->0))
        }),
    decreases parts.len(),
{
    if parts.len() > 0 {
        let front = parts.drop_last();
        assert(parts[parts.len() - 1] == parts.last());
        if i < front.len() {
            assert forall|j: int| i < j < front.len() implies !is_body(
                #[trigger] front[j],
                "html"@,
            ) by {
                assert(front[j] == parts[j]);
            }
            lemma_html_of_parts(before, front, i);
        }
    }
}

/// The html of a mail is that of its last html part. Without one it stays as it
/// was: a mail that has only text gets no html body.
pub proof fn law_the_last_html_part_counts(content: message::Content, mail: mime::MimeView, i: int)
    requires
        -1 <= i < mail.parts.len(),
        i >= 0 ==> is_body(mail.parts[i], "html"@),
        forall|j: int| i < j < mail.parts.len() ==> !is_body(#[trigger] mail.parts[j], "html"@),
    ensures
        with_mail(content, mail).body_html == (if i < 0 {
            content.body_html
        } else {
            Some(leaf_text(mail.parts[i].content_type, mail.parts[i].leaf->0))
        }),
{
    lemma_html_of_parts(found_before(content), mail.parts, i);
}

proof fn lemma_body_has_one_type(part: mime::PartView)
    ensures
        !(is_body(part, "html"@) && is_body(part, "plain"@)),
{
    reveal_strlit("html");
    reveal_strlit("plain");
    assert(text::ascii_lowercase("html"@).len() == 4);
    assert(text::ascii_lowercase("plain"@).len() == 5);
}

proof fn lemma_text_of_parts(before: Found, parts: Seq<mime::PartView>, i: int)
    requires
        -1 <= i < parts.len(),
        i >= 0 ==> is_body(parts[i], "plain"@),
        forall|j: int| i < j < parts.len() ==> !is_body(#[trigger] parts[j], "plain"@),
    ensures
        after_parts(before, parts).text == (if i < 0 {
            before.text
        } else {
            Some(leaf_text(parts[i].content_type, parts[i].leaf->0))
        }),
    decreases parts.len(),
{
    if parts.len() > 0 {
        let front = parts.drop_last();
        assert(parts[parts.len() - 1] == parts.last());
        lemma_body_has_one_type(parts.last());
        if i < front.len() {
            assert forall|j: int| i < j < front.len() implies !is_body(
                #[trigger] front[j],
                "plain"@,
            ) by {
                assert(front[j] == parts[j]);
            }
            lemma_text_of_parts(before, front, i);
        }
    }
}

/// The text of a mail is that of its last plain text part. Without one it stays
/// as it was: a mail that has only html gets no text body.
pub proof fn law_the_last_text_part_counts(content: message::Content, mail: mime::MimeView, i: int)
    requires
        -1 <= i < mail.parts.len(),
        i >= 0 ==> is_body(mail.parts[i], "plain"@),
        forall|j: int| i < j < mail.parts.len() ==> !is_body(#[trigger] mail.parts[j], "plain"@),
    ensures
        with_mail(content, mail).body_text == (if i < 0 {
            content.body_text
        } else {
            Some(leaf_text(mail.parts[i].content_type, mail.parts[i].leaf->0))
        }),
{
    lemma_text_of_parts(found_before(content), mail.parts, i);
}

/// Reading that is called off, or that finds no mail, changes nothing.
pub proof fn law_a_failed_reading_changes_nothing(mail: &ElectronicMail, stop: Option<nat>)
    requires
        mail.outcome(stop).1 is Err,
    ensures
        mail.outcome(stop).0 == mail.content(),
{
}

/// A part is a file that comes with the mail, by its own word.
pub open spec fn comes_attached(part: mime::PartView) -> bool {
    part.leaf is Some && part.leaf->0.is_attachment
}

proof fn lemma_attached_parts_are_no_body(before: Found, parts: Seq<mime::PartView>)
    ensures
        after_parts(before, parts.filter(|p: mime::PartView| !comes_attached(p))).html
            == after_parts(before, parts).html,
        after_parts(before, parts.filter(|p: mime::PartView| !comes_attached(p))).text
            == after_parts(before, parts).text,
    decreases parts.len(),
{
    reveal(Seq::filter);
    let kept = |p: mime::PartView| !comes_attached(p);
    if parts.len() > 0 {
        let front = parts.drop_last();
        let last = parts.last();
        lemma_attached_parts_are_no_body(before, front);
        if kept(last) {
            assert(parts.filter(kept).drop_last() =~= front.filter(kept));
            assert(parts.filter(kept).last() == last);
        }
    }
}

/// A file that comes with the mail is never its body, whatever its type: the bodies
/// are the same when every attached file is taken out of the mail.
pub proof fn law_an_attached_file_is_no_body(content: message::Content, mail: mime::MimeView)
    ensures
        ({
            let parts = mail.parts.filter(|p: mime::PartView| !comes_attached(p));
            let rest = mime::MimeView { parts, ..mail };
            &&& with_mail(content, rest).body_html == with_mail(content, mail).body_html
            &&& with_mail(content, rest).body_text == with_mail(content, mail).body_text
        }),
{
    let now = message::Content {
        from: with_mail(content, mail).from,
        to: optional_line(mail.to),
        cc: optional_line(mail.cc),
        bcc: optional_line(mail.bcc),
        subject: with_mail(content, mail).subject,
        date: mail.date,
        ..content
    };
    lemma_attached_parts_are_no_body(found_before(now), mail.parts);
}

/// The content type has the given type and subtype, which are in lower case, in any
/// mixture of cases.
pub open spec fn typed(
    content_type: mime::ContentTypeView,
    media_type: Seq<char>,
    media_subtype: Seq<char>,
) -> bool {
    &&& text::ascii_lowercase(content_type.media_type) == media_type
    &&& text::ascii_lowercase(content_type.media_subtype) == media_subtype
}

proof fn lemma_lower(s: Seq<char>)
    requires
        forall|i: int| 0 <= i < s.len() ==> !('A' <= #[trigger] s[i] <= 'Z'),
    ensures
        text::ascii_lowercase(s) == s,
{
    assert(text::ascii_lowercase(s) =~= s);
}

proof fn lemma_text_types(content_type: mime::ContentTypeView)
    ensures
        content_type.is_type("text"@, "html"@) == typed(content_type, "text"@, "html"@),
        content_type.is_type("text"@, "plain"@) == typed(content_type, "text"@, "plain"@),
        !(typed(content_type, "text"@, "html"@) && typed(content_type, "text"@, "plain"@)),
{
    reveal_strlit("text");
    reveal_strlit("html");
    reveal_strlit("plain");
    lemma_lower("text"@);
    lemma_lower("html"@);
    lemma_lower("plain"@);
    assert("html"@.len() != "plain"@.len());
}

/// A part that is no attached file is text of the given kind.
pub open spec fn text_part(part: mime::PartView, media_subtype: Seq<char>) -> bool {
    &&& part.leaf is Some && !part.leaf->0.is_attachment
    &&& part.content_type is Some && typed(part.content_type->0, "text"@, media_subtype)
}

/// A part is kept as a file: it has a name, a type and content, and it is attached or
/// of a type that no body has.
pub open spec fn file_part(part: mime::PartView) -> bool {
    &&& part.leaf is Some && part.content_type is Some
    &&& part.leaf->0.filename is Some && part.leaf->0.content is Some
    &&& part.leaf->0.is_attachment || (!typed(part.content_type->0, "text"@, "html"@) && !typed(
        part.content_type->0,
        "text"@,
        "plain"@,
    ))
}

/// The text is that of the content of a part: its bytes in the charset that the part
/// names, or UTF-8 where it names none. There is no text where no bytes were written,
/// or the charset is not known.
pub open spec fn text_of_part(part: mime::PartView, shown: Seq<char>) -> bool {
    let charset = if part.content_type is Some && part.content_type->0.charset is Some {
        part.content_type->0.charset->0
    } else {
        "utf-8"@
    };
    match part.leaf->0.content {
        None => shown.len() == 0,
        Some(content) => {
            &&& content.written as u32 == 0 ==> shown.len() == 0
            &&& content.written as u32 > 0 ==> {
                let decoded = codec::decoded_text(charset, content.bytes);
                &&& decoded is Some ==> shown == decoded->0
                &&& decoded is None ==> shown.len() == 0
            }
        },
    }
}

proof fn lemma_text_of_part(part: mime::PartView)
    requires
        part.leaf is Some,
    ensures
        text_of_part(part, leaf_text(part.content_type, part.leaf->0)),
{
}

/// What one part gives. The last text part of a kind is the body of that kind, a file
/// is added to the attachments with its name, its id or else `none`, its bytes and
/// its type, and any other part gives nothing. No part gives nothing at all.
pub proof fn law_what_a_part_gives(
    content: message::Content,
    mail: mime::MimeView,
    part: mime::PartView,
)
    ensures
        ({
            let after = with_mail(content, (mime::MimeView { parts: seq![part], ..mail }));
            &&& text_part(part, "html"@) ==> after.body_html is Some && text_of_part(
                part,
                after.body_html->0,
            )
            &&& !text_part(part, "html"@) ==> after.body_html == content.body_html
            &&& text_part(part, "plain"@) ==> after.body_text is Some && text_of_part(
                part,
                after.body_text->0,
            )
            &&& !text_part(part, "plain"@) ==> after.body_text == content.body_text
            &&& !file_part(part) ==> after.attachments == content.attachments
            &&& file_part(part) ==> {
                let added = after.attachments.last();
                &&& after.attachments.len() == content.attachments.len() + 1
                &&& after.attachments.drop_last() == content.attachments
                &&& added.filename == part.leaf->0.filename->0
                &&& added.body == (part.leaf->0.content->0).bytes
                &&& added.mime_type == part.content_type->0.mime_type
                &&& part.content_id is Some ==> added.content_id == part.content_id->0
                &&& part.content_id is None ==> added.content_id == "none"@
            }
        }),
        ({
            let after = with_mail(content, (mime::MimeView { parts: seq![], ..mail }));
            &&& after.body_html == content.body_html
            &&& after.body_text == content.body_text
            &&& after.attachments == content.attachments
        }),
{
    if part.content_type is Some {
        lemma_text_types(part.content_type->0);
    }
    let parts = seq![part];
    assert(parts.last() == part);
    assert(parts.drop_last() =~= Seq::<mime::PartView>::empty());
    reveal_with_fuel(after_parts, 2);
    if part.leaf is Some {
        lemma_text_of_part(part);
    }
    let after = with_mail(content, (mime::MimeView { parts, ..mail }));
    if file_part(part) {
        assert(after.attachments.drop_last() =~= content.attachments);
    }
}

proof fn lemma_parts_in_two(before: Found, a: Seq<mime::PartView>, b: Seq<mime::PartView>)
    ensures
        after_parts(before, a + b) == after_parts(after_parts(before, a), b),
    decreases b.len(),
{
    if b.len() > 0 {
        lemma_parts_in_two(before, a, b.drop_last());
        assert((a + b).drop_last() =~= a + b.drop_last());
        assert((a + b).last() == b.last());
    } else {
        assert(a + b =~= a);
    }
}

proof fn lemma_fields_apart(x: Found, y: Found, parts: Seq<mime::PartView>)
    requires
        x.text == y.text,
        x.attachments == y.attachments,
        y.html is None,
    ensures
        after_parts(x, parts).text == after_parts(y, parts).text,
        after_parts(x, parts).attachments == after_parts(y, parts).attachments,
        after_parts(x, parts).html == (if after_parts(y, parts).html is Some {
            after_parts(y, parts).html
        } else {
            x.html
        }),
    decreases parts.len(),
{
    if parts.len() > 0 {
        lemma_fields_apart(x, y, parts.drop_last());
    }
}

/// The parts are read one after the other: reading all of them gives what reading the
/// first few and then the rest gives. So a later body takes the place of an earlier
/// one of its kind, and later files follow the earlier ones.
pub proof fn law_parts_are_read_in_order(
    content: message::Content,
    mail: mime::MimeView,
    a: Seq<mime::PartView>,
    b: Seq<mime::PartView>,
)
    ensures
        ({
            let whole = with_mail(content, (mime::MimeView { parts: a + b, ..mail }));
            let first = with_mail(content, (mime::MimeView { parts: a, ..mail }));
            let second = with_mail(first, (mime::MimeView { parts: b, ..mail }));
            &&& whole.body_html == second.body_html
            &&& whole.body_text == second.body_text
            &&& whole.attachments == second.attachments
        }),
{
    let start = found_before(content);
    let first = with_mail(content, (mime::MimeView { parts: a, ..mail }));
    lemma_parts_in_two(start, a, b);
    lemma_fields_apart(after_parts(start, a), found_before(first), b);
    let x = message::Content {
        from: first.from,
        to: first.to,
        cc: first.cc,
        bcc: first.bcc,
        subject: first.subject,
        date: first.date,
        ..content
    };
    lemma_fields_apart(found_before(x), start, a);
    lemma_fields_apart(found_before(x), start, a + b);
}

/// Every header is taken as it is written: a mail without a sender or a subject leaves
/// the one that is known, one without recipients of a kind has none of that kind, and
/// its date is its date.
pub proof fn law_every_header_is_taken(content: message::Content, mail: mime::MimeView)
    ensures
        ({
            let after = with_mail(content, mail);
            &&& mail.from is Some ==> after.from == address_line(mail.from->0)
            &&& mail.from is None ==> after.from == content.from
            &&& mail.to is Some ==> after.to == address_line(mail.to->0)
            &&& mail.to is None ==> after.to.len() == 0
            &&& mail.cc is Some ==> after.cc == address_line(mail.cc->0)
            &&& mail.cc is None ==> after.cc.len() == 0
            &&& mail.bcc is Some ==> after.bcc == address_line(mail.bcc->0)
            &&& mail.bcc is None ==> after.bcc.len() == 0
            &&& mail.subject is Some ==> after.subject == mail.subject->0
            &&& mail.subject is None ==> after.subject == content.subject
            &&& after.date == mail.date
        }),
{
}

proof fn lemma_written_addresses(a: Seq<Option<Seq<char>>>, b: Seq<Option<Seq<char>>>)
    ensures
        written_addresses(a + b) == written_addresses(a) + written_addresses(b),
        (exists|i: int| 0 <= i < b.len() && #[trigger] b[i] is Some) ==> written_addresses(b).len()
            > 0,
    decreases b.len(),
{
    if b.len() > 0 {
        let front = b.drop_last();
        lemma_written_addresses(a, front);
        assert((a + b).drop_last() =~= a + front);
        assert((a + b).last() == b.last());
        assert(written_addresses(a + b) =~= written_addresses(a) + written_addresses(b));
        if exists|i: int| 0 <= i < b.len() && #[trigger] b[i] is Some {
            let i = choose|i: int| 0 <= i < b.len() && #[trigger] b[i] is Some;
            if i < front.len() {
                assert(front[i] is Some);
            }
        }
    } else {
        assert(a + b =~= a);
        assert(written_addresses(a) + written_addresses(b) =~= written_addresses(a));
    }
}

/// A line of addresses names each address that can be written out, in order, with a
/// comma and a blank between two of them. One that cannot be written out leaves no
/// trace.
pub proof fn law_a_line_names_every_address(
    a: Seq<Option<Seq<char>>>,
    b: Seq<Option<Seq<char>>>,
    address: Seq<char>,
)
    ensures
        address_line(Seq::empty()) == Seq::<char>::empty(),
        address_line(seq![Some(address)]) == address,
        address_line(a + seq![None] + b) == address_line(a + b),
        (exists|i: int| 0 <= i < a.len() && #[trigger] a[i] is Some) && (exists|i: int|
            0 <= i < b.len() && #[trigger] b[i] is Some) ==> address_line(a + b) == address_line(a)
            + seq![',', ' '] + address_line(b),
{
    reveal_strlit(", ");
    assert(", "@ =~= seq![',', ' ']);
    let none = Seq::<Option<Seq<char>>>::empty();
    let one = seq![Some(address)];
    let skipped = seq![None::<Seq<char>>];
    reveal_with_fuel(written_addresses, 2);
    assert(one.drop_last() =~= none);
    assert(skipped.drop_last() =~= none);
    assert(written_addresses(none) =~= Seq::<Seq<char>>::empty());
    assert(one.last() == Some(address));
    assert(skipped.last() is None);
    assert(written_addresses(one) =~= seq![address]);
    assert(written_addresses(skipped) =~= Seq::<Seq<char>>::empty());
    lemma_written_addresses(a, b);
    lemma_written_addresses(none, a);
    lemma_written_addresses(a + skipped, b);
    lemma_written_addresses(a, skipped);
    assert(written_addresses(a) + written_addresses(skipped) =~= written_addresses(a));
    text::law_joining_puts_separators_between(
        written_addresses(a),
        written_addresses(b),
        address,
        ", "@,
    );
}

/// A list that is not there is written as nothing, and one that is there as the line
/// of its addresses.
pub proof fn law_a_missing_list_is_nothing(
    list: AddressList,
    none: String,
    line: String,
    some: String,
)
    requires
        call_ensures(ElectronicMail::addresses, (&None::<AddressList>,), none),
        call_ensures(ElectronicMail::internet_list, (&list,), line),
        call_ensures(ElectronicMail::addresses, (&Some(list),), some),
    ensures
        none@.len() == 0,
        some@ == line@,
        line@ == address_line(list@),
        list@.len() == list.addresses@.len(),
        forall|i: int|
            0 <= i < list@.len() ==> (#[trigger] list@[i]) is Some == list.addresses@[i] is Some
                && (list@[i] is Some ==> list@[i]->0 == list.addresses@[i]->0@),
{
}

/// A part of this type is the wrapper of an encrypted message: that of PGP/MIME, or
/// that of S/MIME which does not say that it is only signed.
pub open spec fn wraps_encrypted(content_type: mime::ContentTypeView) -> bool {
    typed(content_type, "multipart"@, "encrypted"@) || ((typed(
        content_type,
        "application"@,
        "pkcs7-mime"@,
    ) || typed(content_type, "application"@, "x-pkcs7-mime"@)) && content_type.smime_type != Some(
        "signed-data"@,
    ))
}

/// A part of this type is the wrapper of a signed message.
pub open spec fn wraps_signed(content_type: mime::ContentTypeView) -> bool {
    typed(content_type, "multipart"@, "signed"@) || ((typed(
        content_type,
        "application"@,
        "pkcs7-mime"@,
    ) || typed(content_type, "application"@, "x-pkcs7-mime"@)) && content_type.smime_type == Some(
        "signed-data"@,
    ))
}

/// The wrapper tells how a message is protected, and a part that is no wrapper tells
/// nothing.
pub proof fn law_the_wrapper_tells_the_protection(
    content_type: ContentType,
    found: Option<Protection>,
)
    requires
        call_ensures(ElectronicMail::part_protection, (&content_type,), found),
    ensures
        found == Some(Protection::Encrypted) <==> wraps_encrypted(content_type@),
        found == Some(Protection::Signed) <==> wraps_signed(content_type@),
        found is None <==> !wraps_encrypted(content_type@) && !wraps_signed(content_type@),
{
    lemma_wrapper(content_type@);
}

proof fn lemma_wrapper(content_type: mime::ContentTypeView)
    ensures
        type_protection(content_type) == Some(Protection::Encrypted) <==> wraps_encrypted(
            content_type,
        ),
        type_protection(content_type) == Some(Protection::Signed) <==> wraps_signed(content_type),
        type_protection(content_type) is None <==> !wraps_encrypted(content_type)
            && !wraps_signed(content_type),
        type_protection(content_type) != Some(Protection::Plain),
{
    reveal_strlit("multipart");
    reveal_strlit("encrypted");
    reveal_strlit("signed");
    reveal_strlit("application");
    reveal_strlit("pkcs7-mime");
    reveal_strlit("x-pkcs7-mime");
    lemma_lower("multipart"@);
    lemma_lower("encrypted"@);
    lemma_lower("signed"@);
    lemma_lower("application"@);
    lemma_lower("pkcs7-mime"@);
    lemma_lower("x-pkcs7-mime"@);
    assert("multipart"@.len() != "application"@.len());
    assert("encrypted"@.len() != "signed"@.len());
}

/// The text begins with the line, but for blanks.
pub open spec fn opens_with(body: Seq<char>, line: Seq<char>) -> bool {
    exists|before: Seq<char>, rest: Seq<char>|
        text::blank(before) && body == #[trigger] (before + line + rest)
}

proof fn lemma_opens_with(body: Seq<char>, line: Seq<char>)
    requires
        line.len() > 0,
        line[0] == '-',
    ensures
        opens_with(body, line) <==> text::begins_with(text::trimmed_start(body), line),
{
    let from = text::trimmed_start(body);
    text::law_only_leading_blanks_are_taken(body, Seq::empty(), Seq::empty());
    text::law_a_part_stands_between_the_rest(from, line);
    if text::begins_with(from, line) {
        let rest = choose|rest: Seq<char>| from == #[trigger] (line + rest);
        let n = choose|n: int|
            0 <= n <= body.len() && text::blank(#[trigger] body.take(n)) && from == body.skip(n);
        assert(body =~= body.take(n) + line + rest) by {
            assert(body =~= body.take(n) + body.skip(n));
        }
        assert(text::blank(body.take(n)));
    }
    if opens_with(body, line) {
        let (before, rest) = choose|before: Seq<char>, rest: Seq<char>|
            text::blank(before) && body == #[trigger] (before + line + rest);
        assert(body =~= before + (line + rest));
        assert(!text::blanks().contains((line + rest)[0] as int)) by {
            text::law_white_space_is_that_of_unicode('-');
        }
        text::law_only_leading_blanks_are_taken(body, before, line + rest);
        assert(from == line + rest);
    }
}

proof fn lemma_armor(body: Seq<char>)
    ensures
        armor(body) == Some(Protection::Encrypted) <==> opens_with(
            body,
            "-----BEGIN PGP MESSAGE-----"@,
        ),
        armor(body) == Some(Protection::Signed) <==> opens_with(
            body,
            "-----BEGIN PGP SIGNED MESSAGE-----"@,
        ),
        armor(body) != Some(Protection::Plain),
{
    reveal_strlit("-----BEGIN PGP MESSAGE-----");
    reveal_strlit("-----BEGIN PGP SIGNED MESSAGE-----");
    let message = "-----BEGIN PGP MESSAGE-----"@;
    let signed = "-----BEGIN PGP SIGNED MESSAGE-----"@;
    lemma_opens_with(body, message);
    lemma_opens_with(body, signed);
    let from = text::trimmed_start(body);
    if text::begins_with(from, message) && text::begins_with(from, signed) {
        assert(from.subrange(0, message.len() as int)[15] == from[15]);
        assert(from.subrange(0, signed.len() as int)[15] == from[15]);
        assert(message[15] != signed[15]);
    }
}

/// The text tells how a message is protected by the line that it opens with, blanks
/// before it or not, and a text that opens otherwise tells nothing.
pub proof fn law_the_armor_tells_the_protection(body: &str, found: Option<Protection>)
    requires
        call_ensures(ElectronicMail::inline_protection, (body,), found),
    ensures
        found == Some(Protection::Encrypted) <==> opens_with(
            body@,
            "-----BEGIN PGP MESSAGE-----"@,
        ),
        found == Some(Protection::Signed) <==> opens_with(
            body@,
            "-----BEGIN PGP SIGNED MESSAGE-----"@,
        ),
        found != Some(Protection::Plain),
{
    lemma_armor(body@);
}

/// A message is encrypted where any part is the wrapper of an encrypted one, else
/// signed where any part is that of a signed one, and else what its text says, if it
/// says anything. What was known of it before counts as if a part had said it.
pub proof fn law_the_protection_is_what_the_mail_says(
    content: message::Content,
    mail: mime::MimeView,
)
    ensures
        ({
            let after = with_mail(content, mail);
            let encrypted = content.protection == Protection::Encrypted || exists|i: int|
                0 <= i < mail.parts.len() && (#[trigger] mail.parts[i]).content_type is Some
                    && wraps_encrypted(mail.parts[i].content_type->0);
            let signed = content.protection == Protection::Signed || exists|i: int|
                0 <= i < mail.parts.len() && (#[trigger] mail.parts[i]).content_type is Some
                    && wraps_signed(mail.parts[i].content_type->0);
            let said = if after.body_text is Some {
                after.body_text->0
            } else {
                Seq::empty()
            };
            &&& encrypted ==> after.protection == Protection::Encrypted
            &&& !encrypted && signed ==> after.protection == Protection::Signed
            &&& !encrypted && !signed ==> {
                &&& after.protection == Protection::Encrypted <==> opens_with(
                    said,
                    "-----BEGIN PGP MESSAGE-----"@,
                )
                &&& after.protection == Protection::Signed <==> opens_with(
                    said,
                    "-----BEGIN PGP SIGNED MESSAGE-----"@,
                )
            }
        }),
{
    let after = with_mail(content, mail);
    lemma_protection_of_parts(found_before(content), mail.parts);
    assert forall|i: int| 0 <= i < mail.parts.len() implies ((
    #[trigger] mail.parts[i]).content_type is Some && wraps_encrypted(
        mail.parts[i].content_type->0,
    )) == (protection_of(mail.parts[i]) == Some(Protection::Encrypted)) && (
    mail.parts[i].content_type is Some && wraps_signed(mail.parts[i].content_type->0)) == (
    protection_of(mail.parts[i]) == Some(Protection::Signed)) by {
        if mail.parts[i].content_type is Some {
            lemma_wrapper(mail.parts[i].content_type->0);
        }
    }
    let said = if after.body_text is Some {
        after.body_text->0
    } else {
        Seq::empty()
    };
    lemma_armor(said);
    if after.body_text is None {
        lemma_nothing_opens(said);
    }
    if claimed(mail.parts, Protection::Encrypted) {
        let i = choose|i: int|
            0 <= i < mail.parts.len() && #[trigger] protection_of(mail.parts[i]) == Some(
                Protection::Encrypted,
            );
        assert(mail.parts[i].content_type is Some);
    }
    if claimed(mail.parts, Protection::Signed) {
        let i = choose|i: int|
            0 <= i < mail.parts.len() && #[trigger] protection_of(mail.parts[i]) == Some(
                Protection::Signed,
            );
        assert(mail.parts[i].content_type is Some);
    }
}

proof fn lemma_nothing_opens(body: Seq<char>)
    requires
        body.len() == 0,
    ensures
        !opens_with(body, "-----BEGIN PGP MESSAGE-----"@),
        !opens_with(body, "-----BEGIN PGP SIGNED MESSAGE-----"@),
{
    reveal_strlit("-----BEGIN PGP MESSAGE-----");
    reveal_strlit("-----BEGIN PGP SIGNED MESSAGE-----");
}

/// A mail is asked for once whether to stop. Where it is not to, all of it is read.
/// Where it is, or where there is no mail, nothing is known that was not known before.
pub proof fn law_a_mail_is_read_as_a_whole(mail: &ElectronicMail, stop: Option<nat>)
    ensures
        mail.questions(stop) == 1,
        stop == Some(0nat) ==> mail.outcome(stop) == (
            mail.content(),
            Err::<(), message::ErrorView>(message::ErrorView::Cancelled),
        ),
        stop != Some(0nat) && mail.message is None ==> mail.outcome(stop) == (
            mail.content(),
            Err::<(), message::ErrorView>(message::ErrorView::NoMessage),
        ),
        stop != Some(0nat) && mail.message is Some ==> mail.outcome(stop).1 is Ok
            && mail.outcome(stop).0 == with_mail(mail.content(), mail.message->0@),
{
}

/// What is shown of a mail is what was read of it, each thing in its own place.
pub proof fn law_a_mail_shows_what_was_read(
    mail: ElectronicMail,
    from: String,
    to: String,
    cc: String,
    bcc: String,
    subject: String,
    html: Option<String>,
    text: Option<String>,
    protection: Protection,
    attachments: Vec<Attachment>,
    date: String,
    local: String,
)
    requires
        call_ensures(<ElectronicMail as Message>::from, (&mail,), from),
        call_ensures(ElectronicMail::to, (&mail,), to),
        call_ensures(ElectronicMail::cc, (&mail,), cc),
        call_ensures(ElectronicMail::bcc, (&mail,), bcc),
        call_ensures(ElectronicMail::subject, (&mail,), subject),
        call_ensures(ElectronicMail::body_html, (&mail,), html),
        call_ensures(ElectronicMail::body_text, (&mail,), text),
        call_ensures(ElectronicMail::protection, (&mail,), protection),
        call_ensures(ElectronicMail::attachments, (&mail,), attachments),
        call_ensures(ElectronicMail::date, (&mail,), date),
        call_ensures(date::local_date, (&mail.date,), local),
    ensures
        from@ == mail.from@,
        to@ == mail.to@,
        cc@ == mail.cc@,
        bcc@ == mail.bcc@,
        subject@ == mail.subject@,
        html is Some == mail.body_html is Some,
        html is Some ==> html->0@ == mail.body_html->0@,
        text is Some == mail.body_text is Some,
        text is Some ==> text->0@ == mail.body_text->0@,
        protection == mail.protection,
        attachments@.len() == mail.attachments@.len(),
        forall|i: int|
            0 <= i < attachments@.len() ==> (#[trigger] attachments@[i])@
                == mail.attachments@[i]@,
        date@ == local@,
{
    let shown = attachment::attachment_views(attachments@);
    let known = attachment::attachment_views(mail.attachments@);
    assert(shown == known);
    assert forall|i: int| 0 <= i < attachments@.len() implies (#[trigger] attachments@[i])@
        == mail.attachments@[i]@ by {
        assert(shown[i] == known[i]);
    }
    assert(shown.len() == known.len());
}

/// A part gives a file where it has a name, a type and content, and the file has all
/// of those, its bytes as they are, and its id or else `none`.
pub proof fn law_a_file_is_what_its_part_holds(part: MimePart, found: Option<Attachment>)
    requires
        call_ensures(ElectronicMail::get_attachment, (&part,), found),
    ensures
        found is Some <==> part.leaf is Some && part.content_type is Some
            && part.leaf->0.filename is Some && part.leaf->0.content is Some,
        found matches Some(a) ==> a.filename@ == part.leaf->0.filename->0@ && a.body@ == (
        part.leaf->0.content->0).bytes@,
        found matches Some(a) ==> a.content_id@ == (if part.content_id is Some {
            part.content_id->0@
        } else {
            "none"@
        }),
        found matches Some(a) ==> a.mime_type is Some == part.content_type->0.mime_type is Some && (
        a.mime_type is Some ==> a.mime_type->0@ == part.content_type->0.mime_type->0@),
{
    if let Some(a) = found {
        assert(attachment_of(part@) == Some(a@));
        assert(a@.mime_type == part@.content_type->0.mime_type);
    }
}

/// The text of a part is its bytes in its charset.
pub proof fn law_the_text_is_that_of_the_part(part: MimePart, shown: String)
    requires
        part.leaf is Some,
        call_ensures(ElectronicMail::get_content, (&part.content_type, &part.leaf->0), shown),
    ensures
        text_of_part(part@, shown@),
{
    lemma_text_of_part(part@);
}

/// A mail can be read where no content is longer than the encoders take, and nothing
/// else stands in the way.
pub proof fn law_only_a_huge_part_cannot_be_read(mail: ElectronicMail, readable: bool)
    requires
        call_ensures(ElectronicMail::is_readable, (&mail,), readable),
    ensures
        readable <==> mail.message is None || forall|i: int|
            0 <= i < (mail.message->0).parts@.len() ==> ({
                let leaf = (#[trigger] (mail.message->0).parts@[i]).leaf;
                leaf is None || leaf->0.content is None || (leaf->0.content->0).bytes@.len()
                    <= usize::MAX / 8
            }),
{
    if mail.message is Some {
        let parts = (mail.message->0).parts@;
        let views = mail.message->0@.parts;
        assert forall|i: int| 0 <= i < parts.len() implies part_decodable(#[trigger] views[i]) == ({
            let leaf = parts[i].leaf;
            leaf is None || leaf->0.content is None || (leaf->0.content->0).bytes@.len()
                <= usize::MAX / 8
        }) by {
            assert(views[i] == parts[i]@);
        }
        if !readable {
            let i = choose|i: int| 0 <= i < views.len() && !part_decodable(#[trigger] views[i]);
            assert(parts[i].leaf is Some);
        }
        if readable {
            assert forall|i: int| 0 <= i < parts.len() implies ({
                let leaf = (#[trigger] parts[i]).leaf;
                leaf is None || leaf->0.content is None || (leaf->0.content->0).bytes@.len()
                    <= usize::MAX / 8
            }) by {
                assert(part_decodable(views[i]));
            }
        }
    }
}

} // verus!
