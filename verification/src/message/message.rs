//! What every kind of message has, and the choice between the kinds.

use vstd::prelude::*;

use crate::codec::HexError;
use crate::message::attachment;
use crate::message::attachment::Attachment;
use crate::message::cancellation;
use crate::message::cancellation::Cancellation;
use crate::message::date;
use crate::message::date::DateTime;
use crate::message::electronicmail::ElectronicMail;
use crate::message::mime::MimeMessage;
use crate::message::outlook::OutlookMessage;
use crate::text;

verus! {

/// What the structure of a message says about how it is protected.
#[derive(Debug, Clone, Copy, PartialEq, Eq, Structural)]
pub enum Protection {
    /// Nothing is claimed.
    Plain,
    Signed,
    Encrypted,
}

impl Default for Protection {
    fn default() -> (r: Self)
        ensures
            r == Protection::Plain,
    {
        Protection::Plain
    }
}

/// What is known of a message.
pub struct Content {
    pub from: Seq<char>,
    pub to: Seq<char>,
    pub cc: Seq<char>,
    pub bcc: Seq<char>,
    pub subject: Seq<char>,
    pub date: Option<DateTime>,
    pub body_html: Option<Seq<char>>,
    pub body_text: Option<Seq<char>>,
    pub attachments: Seq<attachment::AttachmentView>,
    pub protection: Protection,
}

/// What is known of a message that was not read yet.
pub open spec fn unread() -> Content {
    Content {
        from: seq![],
        to: seq![],
        cc: seq![],
        bcc: seq![],
        subject: seq![],
        date: None,
        body_html: None,
        body_text: None,
        attachments: seq![],
        protection: Protection::Plain,
    }
}

/// Why a message could not be read.
#[derive(Debug)]
pub enum ParseError {
    /// Reading was called off.
    Cancelled,
    /// There is no mail in the file.
    NoMessage,
    /// The file is no Outlook message, with the reason in words.
    Outlook(String),
    /// The content of an attachment is not encoded as it should be.
    Payload(HexError),
}

/// An error, with the reason as text.
pub enum ErrorView {
    Cancelled,
    NoMessage,
    Outlook(Seq<char>),
    Payload(HexError),
}

impl View for ParseError {
    type V = ErrorView;

    open spec fn view(&self) -> ErrorView {
        match self {
            ParseError::Cancelled => ErrorView::Cancelled,
            ParseError::NoMessage => ErrorView::NoMessage,
            ParseError::Outlook(reason) => ErrorView::Outlook(reason@),
            ParseError::Payload(e) => ErrorView::Payload(*e),
        }
    }
}

/// What a result of reading says.
pub open spec fn result_view(r: Result<(), ParseError>) -> Result<(), ErrorView> {
    match r {
        Ok(()) => Ok(()),
        Err(e) => Err(e@),
    }
}

/// What reading did with the questions whether to stop, and what it left: the
/// answers to all its questions, of which the last alone may be yes, tell where it
/// stopped, and that tells the rest.
pub open spec fn read_so<F: Fn() -> bool>(
    before: Cancellation<F>,
    after: Cancellation<F>,
    questions: spec_fn(Option<nat>) -> nat,
    outcome: spec_fn(Option<nat>) -> (Content, Result<(), ErrorView>),
    content: Content,
    r: Result<(), ParseError>,
) -> bool {
    let more = after.answers().skip(before.answers().len() as int);
    let stop = cancellation::stopped_at(more);
    &&& cancellation::asked_on(before, after, more)
    &&& more == cancellation::replies(questions(stop), stop)
    &&& (content, result_view(r)) == outcome(stop)
}

/// A message. It is empty until it is read.
pub trait Message {
    /// What is known of the message.
    spec fn content(&self) -> Content;

    /// The message is one that can be read: no part of a mail is longer than can be
    /// decoded, and a file of Outlook is what it says it is.
    spec fn readable(&self) -> bool;

    /// How often reading asks whether to stop, by the question at which it stops.
    spec fn questions(&self, stop: Option<nat>) -> nat;

    /// What is known of the message after reading, and what reading says, by the
    /// question at which it stopped.
    spec fn outcome(&self, stop: Option<nat>) -> (Content, Result<(), ErrorView>);

    /// Whether the message is one that can be read.
    fn is_readable(&self) -> (r: bool)
        ensures
            r == self.readable(),
    ;

    /// Reads the message, and asks on the way whether to stop.
    fn parse<F: Fn() -> bool>(&mut self, cancellation: &mut Cancellation<F>) -> (r: Result<
        (),
        ParseError,
    >)
        requires
            old(self).readable(),
        ensures
            read_so(
                *old(cancellation),
                *final(cancellation),
                |stop: Option<nat>| old(self).questions(stop),
                |stop: Option<nat>| old(self).outcome(stop),
                final(self).content(),
                r,
            ),
    ;

    /// The sender.
    fn from(&self) -> (r: String)
        ensures
            r@ == self.content().from,
    ;

    /// The recipients that are addressed directly.
    fn to(&self) -> (r: String)
        ensures
            r@ == self.content().to,
    ;

    /// The recipients of a copy.
    fn cc(&self) -> (r: String)
        ensures
            r@ == self.content().cc,
    ;

    /// The recipients of a copy that are hidden from everyone else.
    fn bcc(&self) -> (r: String)
        ensures
            r@ == self.content().bcc,
    ;

    /// The subject.
    fn subject(&self) -> (r: String)
        ensures
            r@ == self.content().subject,
    ;

    /// The date in the time zone of the user.
    fn date(&self) -> (r: String)
        ensures
            r@ == date::local_text(self.content().date),
    ;

    /// The attachments.
    fn attachments(&self) -> (r: Vec<Attachment>)
        ensures
            attachment::attachment_views(r@) == self.content().attachments,
    ;

    /// The body in html.
    fn body_html(&self) -> (r: Option<String>)
        ensures
            text::optional_text(r) == self.content().body_html,
    ;

    /// The body in plain text.
    fn body_text(&self) -> (r: Option<String>)
        ensures
            text::optional_text(r) == self.content().body_text,
    ;

    /// How the message says it is protected.
    fn protection(&self) -> (r: Protection)
        ensures
            r == self.content().protection,
    ;
}

/// The content type of a mail.
pub const EML_MIME_TYPE: &'static str = "message/rfc822";

/// The content type of an Outlook message.
pub const MSG_MIME_TYPE: &'static str = "application/vnd.ms-outlook";

/// The content type of a file of the kind that Outlook keeps a message in.
pub const OLE_MIME_TYPE: &'static str = "application/x-ole-storage";

/// The kinds of message.
#[derive(Debug, Clone, Copy, PartialEq, Eq, Structural)]
pub enum MessageType {
    Eml,
    Msg,
}

/// The content type is one that an Outlook message has.
pub open spec fn is_msg(content_type: Seq<char>) -> bool {
    content_type == MSG_MIME_TYPE@ || content_type == OLE_MIME_TYPE@
}

/// The kind of message that a content type stands for.
pub open spec fn kind_of(content_type: Seq<char>) -> Option<MessageType> {
    if content_type == EML_MIME_TYPE@ {
        Some(MessageType::Eml)
    } else if is_msg(content_type) {
        Some(MessageType::Msg)
    } else {
        None
    }
}

/// The kind of message that a file is taken for. Where its content type is a
/// guess, a mail that does not come from a file is guessed to be plain text, so
/// whatever is no Outlook message is a mail.
pub open spec fn taken_for(content_type: Seq<char>) -> MessageType {
    if is_msg(content_type) {
        MessageType::Msg
    } else {
        MessageType::Eml
    }
}

/// The content types of the messages that can be read.
pub open spec fn supported() -> Seq<Seq<char>> {
    seq![EML_MIME_TYPE@, MSG_MIME_TYPE@, OLE_MIME_TYPE@]
}

/// What is said of a file that is no message.
pub open spec fn unsupported_text(path: Seq<char>, content_type: Seq<char>) -> Seq<char> {
    "File "@ + path + " has an unsupported content type: "@ + content_type
}

/// A message of either kind.
pub enum Parser {
    Eml(ElectronicMail),
    Msg(OutlookMessage),
}

/// A message, whatever its kind.
pub struct MessageParser {
    pub parser: Parser,
    pub message_type: MessageType,
}

impl MessageParser {
    /// The kind of message that a file of the given content type is taken for.
    pub fn guess(content_type: &str) -> (r: MessageType)
        ensures
            r == taken_for(content_type@),
    {
        if text::same_text(content_type, MSG_MIME_TYPE) || text::same_text(
            content_type,
            OLE_MIME_TYPE,
        ) {
            MessageType::Msg
        } else {
            MessageType::Eml
        }
    }

    /// A message that is not read yet, of the kind that its content type says:
    /// an Outlook message with the bytes of its file, or a mail with its MIME
    /// structure, if the file holds one.
    pub fn new(content: Vec<u8>, content_type: &str, mail: Option<MimeMessage>) -> (r: Self)
        ensures
            r.message_type == taken_for(content_type@),
            r.content() == unread(),
            match r.parser {
                Parser::Eml(message) => r.message_type == MessageType::Eml && message.mail() == (
                match mail {
                    Some(mail) => Some(mail@),
                    None => None,
                }),
                Parser::Msg(message) => r.message_type == MessageType::Msg && message.data@
                    == content@,
            },
    {
        let message_type = Self::guess(content_type);
        let parser = if message_type == MessageType::Msg {
            Parser::Msg(OutlookMessage::new(content))
        } else {
            Parser::Eml(ElectronicMail::new(mail))
        };
        MessageParser { parser, message_type }
    }

    /// The content types of the messages that can be read.
    pub fn supported_mime_types() -> (r: Vec<&'static str>)
        ensures
            text::literals(r@) == supported(),
    {
        let v = vec![EML_MIME_TYPE, MSG_MIME_TYPE, OLE_MIME_TYPE];
        assert(text::literals(v@) =~= supported());
        v
    }

    /// The kind of message that a file of the given content type is, or what to
    /// say of the file at `path` where it is none.
    pub fn message_type(path: &str, content_type: &str) -> (r: Result<MessageType, String>)
        ensures
            match (kind_of(content_type@), r) {
                (Some(kind), Ok(found)) => found == kind,
                (None, Err(reason)) => reason@ == unsupported_text(path@, content_type@),
                _ => false,
            },
    {
        if text::same_text(content_type, EML_MIME_TYPE) {
            return Ok(MessageType::Eml);
        }
        if text::same_text(content_type, MSG_MIME_TYPE) || text::same_text(
            content_type,
            OLE_MIME_TYPE,
        ) {
            return Ok(MessageType::Msg);
        }
        let mut out = String::new();
        out.append("File ");
        out.append(path);
        out.append(" has an unsupported content type: ");
        out.append(content_type);
        assert(out@ =~= unsupported_text(path@, content_type@));
        Err(out)
    }

    /// The date in the time zone of the user, or nothing where there is none.
    pub fn to_local_date(date: &Option<DateTime>) -> (r: String)
        ensures
            r@ == date::local_text(*date),
    {
        date::local_date(date)
    }
}

impl Message for MessageParser {
    open spec fn content(&self) -> Content {
        match self.parser {
            Parser::Eml(message) => message.content(),
            Parser::Msg(message) => message.content(),
        }
    }

    open spec fn readable(&self) -> bool {
        match self.parser {
            Parser::Eml(message) => message.readable(),
            Parser::Msg(message) => message.readable(),
        }
    }

    open spec fn questions(&self, stop: Option<nat>) -> nat {
        match self.parser {
            Parser::Eml(message) => message.questions(stop),
            Parser::Msg(message) => message.questions(stop),
        }
    }

    open spec fn outcome(&self, stop: Option<nat>) -> (Content, Result<(), ErrorView>) {
        match self.parser {
            Parser::Eml(message) => message.outcome(stop),
            Parser::Msg(message) => message.outcome(stop),
        }
    }

    fn is_readable(&self) -> bool {
        match &self.parser {
            Parser::Eml(message) => message.is_readable(),
            Parser::Msg(message) => message.is_readable(),
        }
    }

    fn parse<F: Fn() -> bool>(&mut self, cancellation: &mut Cancellation<F>) -> (r: Result<
        (),
        ParseError,
    >)
        ensures
            final(self).message_type == old(self).message_type,
    {
        match &mut self.parser {
            Parser::Eml(message) => message.parse(cancellation),
            Parser::Msg(message) => message.parse(cancellation),
        }
    }

    fn from(&self) -> String {
        match &self.parser {
            Parser::Eml(message) => message.from(),
            Parser::Msg(message) => message.from(),
        }
    }

    fn to(&self) -> String {
        match &self.parser {
            Parser::Eml(message) => message.to(),
            Parser::Msg(message) => message.to(),
        }
    }

    fn cc(&self) -> String {
        match &self.parser {
            Parser::Eml(message) => message.cc(),
            Parser::Msg(message) => message.cc(),
        }
    }

    fn bcc(&self) -> String {
        match &self.parser {
            Parser::Eml(message) => message.bcc(),
            Parser::Msg(message) => message.bcc(),
        }
    }

    fn subject(&self) -> String {
        match &self.parser {
            Parser::Eml(message) => message.subject(),
            Parser::Msg(message) => message.subject(),
        }
    }

    fn date(&self) -> String {
        match &self.parser {
            Parser::Eml(message) => message.date(),
            Parser::Msg(message) => message.date(),
        }
    }

    fn attachments(&self) -> Vec<Attachment> {
        match &self.parser {
            Parser::Eml(message) => message.attachments(),
            Parser::Msg(message) => message.attachments(),
        }
    }

    fn body_html(&self) -> Option<String> {
        match &self.parser {
            Parser::Eml(message) => message.body_html(),
            Parser::Msg(message) => message.body_html(),
        }
    }

    fn body_text(&self) -> Option<String> {
        match &self.parser {
            Parser::Eml(message) => message.body_text(),
            Parser::Msg(message) => message.body_text(),
        }
    }

    fn protection(&self) -> Protection {
        match &self.parser {
            Parser::Eml(message) => message.protection(),
            Parser::Msg(message) => message.protection(),
        }
    }
}

/// The content types that are announced are those that are recognised, and a file
/// of one of them is taken for the kind that it is.
pub proof fn law_supported_types_are_recognised(content_type: Seq<char>)
    ensures
        supported().contains(content_type) <==> kind_of(content_type) is Some,
        kind_of(content_type) matches Some(kind) ==> taken_for(content_type) == kind,
{
    reveal_strlit("message/rfc822");
    reveal_strlit("application/vnd.ms-outlook");
    reveal_strlit("application/x-ole-storage");
    assert(EML_MIME_TYPE@.len() == 14);
    assert(MSG_MIME_TYPE@.len() == 26);
    assert(OLE_MIME_TYPE@.len() == 25);
    assert(supported()[0] == EML_MIME_TYPE@);
    assert(supported()[1] == MSG_MIME_TYPE@);
    assert(supported()[2] == OLE_MIME_TYPE@);
}

/// A file is taken for an Outlook message by the two content types that such a file
/// has, and for a mail by any other.
pub proof fn law_only_outlook_types_are_taken_for_outlook(content_type: &str, kind: MessageType)
    requires
        call_ensures(MessageParser::guess, (content_type,), kind),
    ensures
        kind == MessageType::Msg <==> content_type@ == "application/vnd.ms-outlook"@ || content_type@
            == "application/x-ole-storage"@,
{
}

/// A file is a mail or an Outlook message by its content type alone. Of any other
/// file the path and the type are reported.
pub proof fn law_the_content_type_tells_the_kind(
    path: &str,
    content_type: &str,
    r: Result<MessageType, String>,
)
    requires
        call_ensures(MessageParser::message_type, (path, content_type), r),
    ensures
        r == Ok::<MessageType, String>(MessageType::Eml) <==> content_type@ == "message/rfc822"@,
        r == Ok::<MessageType, String>(MessageType::Msg) <==> content_type@
            == "application/vnd.ms-outlook"@ || content_type@ == "application/x-ole-storage"@,
        r matches Err(said) ==> said@ == "File "@ + path@ + " has an unsupported content type: "@
            + content_type@,
{
    reveal_strlit("message/rfc822");
    reveal_strlit("application/vnd.ms-outlook");
    reveal_strlit("application/x-ole-storage");
    assert("message/rfc822"@.len() != "application/vnd.ms-outlook"@.len());
    assert("message/rfc822"@.len() != "application/x-ole-storage"@.len());
}

/// The content types that are announced are those with which a file is no error.
pub proof fn law_what_is_announced_can_be_read(
    path: &str,
    content_type: &str,
    announced: Vec<&'static str>,
    r: Result<MessageType, String>,
)
    requires
        call_ensures(MessageParser::supported_mime_types, (), announced),
        call_ensures(MessageParser::message_type, (path, content_type), r),
    ensures
        r is Ok <==> exists|i: int|
            0 <= i < announced@.len() && (#[trigger] announced@[i])@ == content_type@,
        announced@.len() == 3,
        announced@[0]@ == "message/rfc822"@,
        announced@[1]@ == "application/vnd.ms-outlook"@,
        announced@[2]@ == "application/x-ole-storage"@,
{
    law_supported_types_are_recognised(content_type@);
    let types = text::literals(announced@);
    assert(types.len() == 3);
    assert(types[0] == announced@[0]@ && types[1] == announced@[1]@ && types[2]
        == announced@[2]@);
    if r is Ok {
        let i = choose|i: int| 0 <= i < supported().len() && supported()[i] == content_type@;
        assert(announced@[i]@ == content_type@);
    }
    if exists|i: int| 0 <= i < announced@.len() && (#[trigger] announced@[i])@ == content_type@ {
        let i = choose|i: int|
            0 <= i < announced@.len() && (#[trigger] announced@[i])@ == content_type@;
        assert(supported()[i] == content_type@);
    }
}

/// A message that was not read holds nothing and claims nothing, and it is of the
/// kind that its content type says, with what it was given to read.
pub proof fn law_a_new_message_is_empty(
    content: Vec<u8>,
    content_type: &str,
    mail: Option<MimeMessage>,
    r: MessageParser,
)
    requires
        call_ensures(MessageParser::new, (content, content_type, mail), r),
    ensures
        r.content().from.len() == 0,
        r.content().to.len() == 0,
        r.content().cc.len() == 0,
        r.content().bcc.len() == 0,
        r.content().subject.len() == 0,
        r.content().date is None,
        r.content().body_html is None,
        r.content().body_text is None,
        r.content().attachments.len() == 0,
        r.content().protection == Protection::Plain,
        content_type@ == "application/vnd.ms-outlook"@ || content_type@
            == "application/x-ole-storage"@ ==> (r.parser matches Parser::Msg(message)
            && message.data@ == content@),
        content_type@ != "application/vnd.ms-outlook"@ && content_type@
            != "application/x-ole-storage"@ ==> (r.parser matches Parser::Eml(message)
            && message.mail() is Some == mail is Some && (mail matches Some(mail)
            ==> message.mail() == Some(mail@))),
{
}

/// A message of either kind is read and shown as that kind is.
pub proof fn law_a_message_is_what_its_kind_is(r: MessageParser, stop: Option<nat>)
    ensures
        r.parser matches Parser::Eml(message) ==> r.content() == message.content() && r.readable()
            == message.readable() && r.questions(stop) == message.questions(stop) && r.outcome(stop)
            == message.outcome(stop),
        r.parser matches Parser::Msg(message) ==> r.content() == message.content() && r.readable()
            == message.readable() && r.questions(stop) == message.questions(stop) && r.outcome(stop)
            == message.outcome(stop),
{
}

/// The date that a caller asks for is the one that a message shows.
pub proof fn law_dates_are_shown_alike(date: Option<DateTime>, a: String, b: String)
    requires
        call_ensures(MessageParser::to_local_date, (&date,), a),
        call_ensures(date::local_date, (&date,), b),
    ensures
        a@ == b@,
{
}

/// Whoever reads asks until the answer is yes or there is nothing more to ask: only
/// the last answer can be yes, and where reading stopped is told by that answer alone.
/// The answers before reading began stay.
pub proof fn law_reading_stops_at_the_first_yes<F: Fn() -> bool>(
    before: Cancellation<F>,
    after: Cancellation<F>,
    questions: spec_fn(Option<nat>) -> nat,
    outcome: spec_fn(Option<nat>) -> (Content, Result<(), ErrorView>),
    content: Content,
    r: Result<(), ParseError>,
)
    requires
        read_so(before, after, questions, outcome, content, r),
    ensures
        ({
            let asked = after.answers().len() - before.answers().len();
            let last = after.answers()[after.answers().len() - 1];
            let stop = if asked > 0 && last {
                Some((asked - 1) as nat)
            } else {
                None
            };
            &&& asked == questions(stop)
            &&& after.answers().take(before.answers().len() as int) == before.answers()
            &&& forall|i: int|
                before.answers().len() <= i < after.answers().len() - 1
                    ==> !#[trigger] after.answers()[i]
            &&& content == outcome(stop).0
            &&& r is Ok <==> outcome(stop).1 is Ok
            &&& r matches Err(e) ==> outcome(stop).1 == Err::<(), ErrorView>(e@)
        }),
{
    let start = before.answers().len() as int;
    let more = after.answers().skip(start);
    assert(after.answers().take(start) =~= before.answers());
    assert forall|i: int| start <= i < after.answers().len() - 1 implies !#[trigger] after.answers()[i] by {
        assert(after.answers()[i] == more[i - start]);
    }
    if more.len() > 0 {
        assert(more.last() == after.answers()[after.answers().len() - 1]);
    }
}

} // verus!
