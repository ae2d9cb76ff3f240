//! Outlook messages, as `.msg` files hold them.

use msg_parser::Outlook;
use vstd::prelude::*;

use crate::codec;
use crate::message::attachment;
use crate::message::attachment::Attachment;
use crate::message::cancellation;
use crate::message::cancellation::Cancellation;
use crate::message::compound;
use crate::message::date;
use crate::message::date::DateTime;
use crate::message::message;
use crate::message::message::{Message, ParseError, Protection};
use crate::text;

verus! {

/// Someone who sends or gets a message.
#[derive(Debug, Clone)]
pub struct Person {
    pub name: String,
    pub email: String,
}

/// The texts of a person.
pub struct PersonView {
    pub name: Seq<char>,
    pub email: Seq<char>,
}

impl View for Person {
    type V = PersonView;

    open spec fn view(&self) -> PersonView {
        PersonView { name: self.name@, email: self.email@ }
    }
}

/// An attachment as the file holds it: the payload is in hexadecimal digits.
#[derive(Debug, Clone)]
pub struct OutlookAttachment {
    pub file_name: String,
    pub payload: String,
    pub mime_tag: String,
}

/// The texts of an attachment.
pub struct OutlookAttachmentView {
    pub file_name: Seq<char>,
    pub payload: Seq<char>,
    pub mime_tag: Seq<char>,
}

impl View for OutlookAttachment {
    type V = OutlookAttachmentView;

    open spec fn view(&self) -> OutlookAttachmentView {
        OutlookAttachmentView {
            file_name: self.file_name@,
            payload: self.payload@,
            mime_tag: self.mime_tag@,
        }
    }
}

/// What a `.msg` file holds of a message.
#[derive(Debug, Clone)]
pub struct OutlookContent {
    pub sender: Person,
    pub to: Vec<Person>,
    pub subject: String,
    /// The date header, as it is written.
    pub date: String,
    pub body: String,
    pub html: String,
    pub attachments: Vec<OutlookAttachment>,
}

/// The texts of a `.msg` file.
pub struct OutlookView {
    pub sender: PersonView,
    pub to: Seq<PersonView>,
    pub subject: Seq<char>,
    pub date: Seq<char>,
    pub body: Seq<char>,
    pub html: Seq<char>,
    pub attachments: Seq<OutlookAttachmentView>,
}

impl View for OutlookContent {
    type V = OutlookView;

    open spec fn view(&self) -> OutlookView {
        OutlookView {
            sender: self.sender@,
            to: person_views(self.to@),
            subject: self.subject@,
            date: self.date@,
            body: self.body@,
            html: self.html@,
            attachments: payload_views(self.attachments@),
        }
    }
}

/// The texts of a list of persons.
pub open spec fn person_views(persons: Seq<Person>) -> Seq<PersonView> {
    Seq::new(persons.len(), |i: int| persons[i]@)
}

/// The texts of a list of attachments.
pub open spec fn payload_views(attachments: Seq<OutlookAttachment>) -> Seq<OutlookAttachmentView> {
    Seq::new(attachments.len(), |i: int| attachments[i]@)
}

/// The payload of an attachment can be decoded.
pub open spec fn decodable(a: OutlookAttachmentView) -> bool {
    codec::hex_bytes(vstd::utf8::encode_utf8(a.payload)) is Ok
}

/// Every payload can be decoded.
pub open spec fn all_decodable(attachments: Seq<OutlookAttachmentView>) -> bool {
    forall|i: int| 0 <= i < attachments.len() ==> decodable(#[trigger] attachments[i])
}

/// What `Outlook::from_slice` of `msg_parser` reads in a file, or why it cannot.
pub uninterp spec fn outlook_content(data: Seq<u8>) -> Result<OutlookView, Seq<char>>;

/// What a result of reading a file holds.
pub open spec fn read_view(r: Result<OutlookContent, String>) -> Result<OutlookView, Seq<char>> {
    match r {
        Ok(content) => Ok(content@),
        Err(reason) => Err(reason@),
    }
}

/// `Outlook::from_slice` of `msg_parser`, with its error in words. The result is
/// a function of the bytes, called `outlook_content`; how the bytes of a compound
/// file give it is left unsaid, but that a payload always is in pairs of
/// hexadecimal digits. It panics on some files that are not what they say they
/// are, none of which is `parsable`.
#[verifier::external_body]
fn read_outlook(data: &Vec<u8>) -> (r: Result<OutlookContent, String>)
    requires
        compound::parsable(data@),
    ensures
        read_view(r) == outlook_content(data@),
        r matches Ok(content) ==> all_decodable(content@.attachments),
{
    let outlook = Outlook::from_slice(data).map_err(|e| e.to_string())?;
    let person = |p: msg_parser::Person| Person { name: p.name, email: p.email };
    let attachment = |a: msg_parser::Attachment|
        OutlookAttachment { file_name: a.file_name, payload: a.payload, mime_tag: a.mime_tag };
    Ok(OutlookContent {
        sender: person(outlook.sender),
        to: outlook.to.into_iter().map(person).collect(),
        subject: outlook.subject,
        date: outlook.headers.date,
        body: outlook.body,
        html: outlook.html,
        attachments: outlook.attachments.into_iter().map(attachment).collect(),
    })
}

/// A person as a name with an address.
pub open spec fn person_text(person: PersonView) -> Seq<char> {
    person.name + " <"@ + person.email + ">"@
}

/// Persons in one line.
pub open spec fn person_line(persons: Seq<PersonView>) -> Seq<char> {
    text::joined(persons.map_values(|p| person_text(p)), ", "@)
}

/// The text without its NUL characters.
pub open spec fn without_nul(s: Seq<char>) -> Seq<char> {
    s.filter(|c: char| c != '\0')
}

/// A text that may be absent, without its NUL characters.
pub open spec fn body_of(body: Seq<char>) -> Option<Seq<char>> {
    if body.len() == 0 {
        None
    } else {
        Some(without_nul(body))
    }
}

/// The html of a message: the text that the hexadecimal digits stand for, or what
/// the file holds as it is where that is no such text.
pub open spec fn html_of(html: Seq<char>) -> Option<Seq<char>> {
    if html.len() == 0 {
        None
    } else {
        match codec::hex_bytes(vstd::utf8::encode_utf8(html)) {
            Ok(bytes) if vstd::utf8::valid_utf8(bytes) => Some(vstd::utf8::decode_utf8(bytes)),
            _ => Some(without_nul(html)),
        }
    }
}

/// What is known of a message once its headers and bodies are read. The date
/// is not known before its header is decoded.
pub open spec fn with_headers(content: message::Content, file: OutlookView) -> message::Content {
    message::Content {
        from: without_nul(person_text(file.sender)),
        to: without_nul(person_line(file.to)),
        subject: without_nul(file.subject),
        date: None,
        body_text: body_of(file.body),
        body_html: html_of(file.html),
        ..content
    }
}

/// An attachment with the bytes that its payload stands for. There is no content
/// id in the file, so that is the name again.
pub open spec fn attachment_with(
    a: OutlookAttachmentView,
    body: Seq<u8>,
) -> attachment::AttachmentView {
    attachment::AttachmentView {
        filename: without_nul(a.file_name),
        content_id: without_nul(a.file_name),
        body,
        mime_type: Some(a.mime_tag),
    }
}

/// Takes the attachments from `i` on, until one cannot be decoded, or `stop` says
/// to stop: question `n + 1` is asked before attachment `n`.
pub open spec fn with_attachments(
    known: Seq<attachment::AttachmentView>,
    attachments: Seq<OutlookAttachmentView>,
    i: nat,
    stop: Option<nat>,
) -> (Seq<attachment::AttachmentView>, Result<(), message::ErrorView>)
    decreases attachments.len() - i,
{
    if i >= attachments.len() {
        (known, Ok(()))
    } else if stop == Some(i + 1) {
        (known, Err(message::ErrorView::Cancelled))
    } else {
        match codec::hex_bytes(vstd::utf8::encode_utf8(attachments[i as int].payload)) {
            Err(e) => (known, Err(message::ErrorView::Payload(e))),
            Ok(body) => with_attachments(
                known.push(attachment_with(attachments[i as int], body)),
                attachments,
                i + 1,
                stop,
            ),
        }
    }
}

/// How often taking the attachments from `i` on asks whether to stop.
pub open spec fn attachment_questions(
    attachments: Seq<OutlookAttachmentView>,
    i: nat,
    stop: Option<nat>,
) -> nat
    decreases attachments.len() - i,
{
    if i >= attachments.len() {
        0
    } else if stop == Some(i + 1) || !decodable(attachments[i as int]) {
        1
    } else {
        1 + attachment_questions(attachments, i + 1, stop)
    }
}

/// How often taking what a file holds asks whether to stop: once before anything
/// is taken, and once before each attachment.
pub open spec fn file_questions(file: OutlookView, stop: Option<nat>) -> nat {
    if stop == Some(0nat) {
        1
    } else {
        1 + attachment_questions(file.attachments, 0, stop)
    }
}

/// What is known of a message after a file is read, and what reading says.
/// Question 0 is asked before anything is taken from the file.
pub open spec fn with_file(
    content: message::Content,
    file: OutlookView,
    stop: Option<nat>,
) -> (message::Content, Result<(), message::ErrorView>) {
    if stop == Some(0nat) {
        (content, Err(message::ErrorView::Cancelled))
    } else {
        let (attachments, r) = with_attachments(content.attachments, file.attachments, 0, stop);
        (message::Content { attachments, ..with_headers(content, file) }, r)
    }
}

/// The date header that is known after a file is read.
pub open spec fn date_header_after(
    known: Seq<char>,
    file: OutlookView,
    stop: Option<nat>,
) -> Seq<char> {
    if stop == Some(0nat) {
        known
    } else {
        without_nul(file.date)
    }
}

/// An Outlook message: the bytes of its file, and what was read of it.
#[derive(Debug, Clone)]
pub struct OutlookMessage {
    pub data: Vec<u8>,
    pub from: String,
    pub to: String,
    /// The date header, once the file is read.
    pub date_header: String,
    pub date: Option<DateTime>,
    pub subject: String,
    pub body: Option<String>,
    pub html: Option<String>,
    pub attachments: Vec<Attachment>,
}

impl OutlookMessage {
    /// A message that is not read yet.
    pub fn new(data: Vec<u8>) -> (r: Self)
        ensures
            r.data@ == data@,
            r.date_header@ == Seq::<char>::empty(),
            r.content() == message::unread(),
    {
        let r = OutlookMessage {
            data,
            from: String::new(),
            to: String::new(),
            date_header: String::new(),
            date: None,
            subject: String::new(),
            body: None,
            html: None,
            attachments: Vec::new(),
        };
        assert(attachment::attachment_views(r.attachments@) =~= seq![]);
        r
    }

    /// Takes the date that the date header stands for.
    pub fn set_date(&mut self, date: Option<DateTime>)
        ensures
            *final(self) == (OutlookMessage { date, ..*old(self) }),
    {
        self.date = date;
    }

    /// A person as a name with an address.
    pub fn person_to_string(person: &Person) -> (r: String)
        ensures
            r@ == person_text(person@),
    {
        let mut out = String::new();
        out.append(person.name.as_str());
        out.append(" <");
        out.append(person.email.as_str());
        out.append(">");
        assert(out@ =~= person_text(person@));
        out
    }

    /// Persons in one line.
    pub fn person_list_to_string(persons: &Vec<Person>) -> (r: String)
        ensures
            r@ == person_line(person_views(persons@)),
    {
        let ghost all = person_views(persons@);
        let mut lines: Vec<String> = Vec::new();
        for i in 0..persons.len()
            invariant
                all == person_views(persons@),
                text::texts(lines@) == all.take(i as int).map_values(|p| person_text(p)),
        {
            let ghost before = lines@;
            let line = Self::person_to_string(&persons[i]);
            lines.push(line);
            assert(text::texts(lines@) =~= text::texts(before).push(line@));
            assert(text::texts(lines@) =~= all.take(i + 1).map_values(|p| person_text(p)));
        }
        assert(all.take(persons@.len() as int) =~= all);
        text::join(&lines, ", ")
    }

    /// Some fields of a file contain NUL characters, and not everything that
    /// shows a text can handle them.
    pub fn clean_string(value: String) -> (r: String)
        ensures
            r@ == without_nul(value@),
    {
        let chars = text::chars_of(value.as_str());
        let mut out = String::new();
        proof {
            reveal(Seq::filter);
        }
        for i in 0..chars.len()
            invariant
                chars@ == value@,
                out@ == without_nul(value@.take(i as int)),
        {
            proof {
                reveal(Seq::filter);
                assert(value@.take(i + 1).drop_last() =~= value@.take(i as int));
            }
            if chars[i] != '\0' {
                out.push(chars[i]);
            }
        }
        assert(value@.take(chars@.len() as int) =~= value@);
        out
    }

    fn decode_html(html: &String) -> (r: Option<String>)
        ensures
            text::optional_text(r) == html_of(html@),
    {
        if html.as_str().is_empty() {
            return None;
        }
        match codec::from_hex(html.as_str()) {
            Ok(bytes) => match codec::from_utf8(bytes) {
                Some(text) => Some(text),
                None => Some(Self::clean_string(html.clone())),
            },
            Err(_) => Some(Self::clean_string(html.clone())),
        }
    }

    /// Takes what a file holds, and asks on the way whether to stop.
    pub fn load<F: Fn() -> bool>(
        &mut self,
        file: &OutlookContent,
        cancellation: &mut Cancellation<F>,
    ) -> (r: Result<(), ParseError>)
        ensures
            final(self).data == old(self).data,
            message::read_so(
                *old(cancellation),
                *final(cancellation),
                |stop: Option<nat>| file_questions(file@, stop),
                |stop: Option<nat>| with_file(old(self).content(), file@, stop),
                final(self).content(),
                r,
            ),
            final(self).date_header@ == date_header_after(
                old(self).date_header@,
                file@,
                stop_of(*old(cancellation), *final(cancellation)),
            ),
    {
        let ghost start = self.content();
        let ghost asked = cancellation.answers();
        let ghost question = cancellation.question();
        if cancellation.is_cancelled() {
            proof {
                assert(cancellation.answers() =~= asked + cancellation::replies(1, Some(0nat)));
                lemma_answers(asked, cancellation.answers(), 1, Some(0nat));
            }
            return Err(ParseError::Cancelled);
        }
        self.from = Self::clean_string(Self::person_to_string(&file.sender));
        self.to = Self::clean_string(Self::person_list_to_string(&file.to));
        self.subject = Self::clean_string(file.subject.clone());
        self.date_header = Self::clean_string(file.date.clone());
        self.date = None;
        self.body = if file.body.as_str().is_empty() {
            None
        } else {
            Some(Self::clean_string(file.body.clone()))
        };
        self.html = Self::decode_html(&file.html);
        let ghost headers = self.content();
        assert(headers == with_headers(start, file@));
        assert(cancellation.answers() =~= asked + cancellation::replies(1, None));
        for i in 0..file.attachments.len()
            invariant
                cancellation.question() == question,
                question == old(cancellation).question(),
                question.ensures((), false),
                asked == old(cancellation).answers(),
                cancellation.answers() == asked + cancellation::replies((i + 1) as nat, None),
                self.data == old(self).data,
                self.date_header@ == without_nul(file@.date),
                headers == with_headers(start, file@),
                headers.attachments == start.attachments,
                self.content() == (message::Content {
                    attachments: self.content().attachments,
                    ..headers
                }),
                start == old(self).content(),
                forall|stop: Option<nat>|
                    (stop matches Some(n) ==> n > i) ==> #[trigger] file_questions(file@, stop) == 1
                        + i + attachment_questions(file@.attachments, i as nat, stop),
                forall|stop: Option<nat>|
                    (stop matches Some(n) ==> n > i) ==> #[trigger] with_file(start, file@, stop)
                        == ({
                        let (attachments, r) = with_attachments(
                            self.content().attachments,
                            file@.attachments,
                            i as nat,
                            stop,
                        );
                        (message::Content { attachments, ..headers }, r)
                    }),
        {
            let a = &file.attachments[i];
            assert(a@ == file@.attachments[i as int]);
            let ghost known = self.content().attachments;
            if cancellation.is_cancelled() {
                proof {
                    let stop = Some((i + 1) as nat);
                    assert(cancellation.answers() =~= asked + cancellation::replies(
                        (i + 2) as nat,
                        stop,
                    ));
                    lemma_answers(asked, cancellation.answers(), (i + 2) as nat, stop);
                    assert(file_questions(file@, stop) == i + 2);
                    assert(with_file(start, file@, stop).0 == self.content());
                }
                return Err(ParseError::Cancelled);
            }
            assert(cancellation.answers() =~= asked + cancellation::replies((i + 2) as nat, None));
            let body = match codec::from_hex(a.payload.as_str()) {
                Ok(body) => body,
                Err(e) => {
                    proof {
                        lemma_answers(asked, cancellation.answers(), (i + 2) as nat, None);
                        assert(file_questions(file@, None) == i + 2);
                        assert(with_file(start, file@, None).0 == self.content());
                    }
                    return Err(ParseError::Payload(e));
                },
            };
            let taken = Attachment {
                filename: Self::clean_string(a.file_name.clone()),
                content_id: Self::clean_string(a.file_name.clone()),
                body,
                mime_type: Some(a.mime_tag.clone()),
            };
            let ghost before = self.attachments@;
            self.attachments.push(taken);
            assert(attachment::attachment_views(self.attachments@) =~= known.push(taken@));
            assert(taken@ == attachment_with(a@, taken@.body));
        }
        proof {
            let count = (file@.attachments.len() + 1) as nat;
            lemma_answers(asked, cancellation.answers(), count, None);
            assert(file_questions(file@, None) == count);
            assert(with_file(start, file@, None).0 == self.content());
        }
        Ok(())
    }
}

/// The question at which reading stopped.
pub open spec fn stop_of<F: Fn() -> bool>(
    before: Cancellation<F>,
    after: Cancellation<F>,
) -> Option<nat> {
    cancellation::stopped_at(after.answers().skip(before.answers().len() as int))
}

proof fn lemma_answers(before: Seq<bool>, after: Seq<bool>, count: nat, stop: Option<nat>)
    requires
        count > 0,
        after == before + cancellation::replies(count, stop),
        stop matches Some(n) ==> n + 1 == count,
    ensures
        after.skip(before.len() as int) == cancellation::replies(count, stop),
        cancellation::stopped_at(after.skip(before.len() as int)) == stop,
        before + after.skip(before.len() as int) == after,
{
    assert(after.skip(before.len() as int) =~= cancellation::replies(count, stop));
    assert(before + after.skip(before.len() as int) =~= after);
}

impl Default for OutlookMessage {
    fn default() -> (r: Self)
        ensures
            r.data@ == Seq::<u8>::empty(),
            r.content() == message::unread(),
    {
        OutlookMessage::new(Vec::new())
    }
}

impl Message for OutlookMessage {
    open spec fn content(&self) -> message::Content {
        message::Content {
            from: self.from@,
            to: self.to@,
            cc: seq![],
            bcc: seq![],
            subject: self.subject@,
            date: self.date,
            body_html: text::optional_text(self.html),
            body_text: text::optional_text(self.body),
            attachments: attachment::attachment_views(self.attachments@),
            protection: Protection::Plain,
        }
    }

    open spec fn readable(&self) -> bool {
        compound::parsable(self.data@)
    }

    open spec fn questions(&self, stop: Option<nat>) -> nat {
        match outlook_content(self.data@) {
            Ok(file) => file_questions(file, stop),
            Err(_) => 0,
        }
    }

    open spec fn outcome(&self, stop: Option<nat>) -> (
        message::Content,
        Result<(), message::ErrorView>,
    ) {
        match outlook_content(self.data@) {
            Ok(file) => with_file(self.content(), file, stop),
            Err(reason) => (self.content(), Err(message::ErrorView::Outlook(reason))),
        }
    }

    fn is_readable(&self) -> bool {
        compound::is_parsable(&self.data)
    }

    fn parse<F: Fn() -> bool>(&mut self, cancellation: &mut Cancellation<F>) -> (r: Result<
        (),
        ParseError,
    >)
        ensures
            final(self).data == old(self).data,
            outlook_content(old(self).data@) is Ok && !old(cancellation).question().ensures(
                (),
                true,
            ) ==> r is Ok,
            final(self).date_header@ == (match outlook_content(old(self).data@) {
                Ok(file) => date_header_after(
                    old(self).date_header@,
                    file,
                    stop_of(*old(cancellation), *final(cancellation)),
                ),
                Err(_) => old(self).date_header@,
            }),
    {
        let ghost before = *self;
        let ghost asked = cancellation.answers();
        match read_outlook(&self.data) {
            Ok(file) => {
                let r = self.load(&file, cancellation);
                proof {
                    law_reading_succeeds(before.content(), file@);
                }
                r
            },
            Err(reason) => {
                proof {
                    assert(asked.skip(asked.len() as int) =~= seq![]);
                    assert(asked + seq![] =~= asked);
                    assert(cancellation::replies(0, None) =~= seq![]);
                }
                Err(ParseError::Outlook(reason))
            },
        }
    }

    fn from(&self) -> String {
        self.from.clone()
    }

    fn to(&self) -> String {
        self.to.clone()
    }

    fn cc(&self) -> String {
        String::new()
    }

    fn bcc(&self) -> String {
        String::new()
    }

    fn subject(&self) -> String {
        self.subject.clone()
    }

    fn date(&self) -> String {
        date::local_date(&self.date)
    }

    fn attachments(&self) -> Vec<Attachment> {
        attachment::clone_attachments(&self.attachments)
    }

    fn body_html(&self) -> Option<String> {
        text::clone_optional(&self.html)
    }

    fn body_text(&self) -> Option<String> {
        text::clone_optional(&self.body)
    }

    fn protection(&self) -> Protection {
        // Outlook keeps a signed or encrypted message as an attached blob rather
        // than in the mime structure, so nothing is claimed here.
        Protection::Plain
    }
}

/// A text that holds no NUL character.
pub open spec fn free_of_nul(s: Seq<char>) -> bool {
    forall|i: int| 0 <= i < s.len() ==> #[trigger] s[i] != '\0'
}

proof fn lemma_without_nul(s: Seq<char>)
    ensures
        free_of_nul(without_nul(s)),
        free_of_nul(s) ==> without_nul(s) == s,
    decreases s.len(),
{
    reveal(Seq::filter);
    if s.len() > 0 {
        let front = s.drop_last();
        lemma_without_nul(front);
        assert forall|i: int| 0 <= i < without_nul(s).len() implies #[trigger] without_nul(s)[i]
            != '\0' by {
            if i < without_nul(front).len() {
                assert(without_nul(s)[i] == without_nul(front)[i]);
            }
        }
        if free_of_nul(s) {
            assert(free_of_nul(front)) by {
                assert forall|i: int| 0 <= i < front.len() implies #[trigger] front[i] != '\0' by {
                    assert(front[i] == s[i]);
                }
            }
            assert(s[s.len() - 1] == s.last());
            assert(without_nul(s) =~= s);
        }
    }
}

/// No NUL character reaches the sender, the recipients, the subject or the text
/// of a message that was read, nor the name of an attachment.
pub proof fn law_no_nul_is_shown(
    content: message::Content,
    file: OutlookView,
    a: OutlookAttachmentView,
    body: Seq<u8>,
)
    ensures
        free_of_nul(with_headers(content, file).from),
        free_of_nul(with_headers(content, file).to),
        free_of_nul(with_headers(content, file).subject),
        with_headers(content, file).body_text matches Some(text) ==> free_of_nul(text),
        free_of_nul(attachment_with(a, body).filename),
        free_of_nul(attachment_with(a, body).content_id),
{
    lemma_without_nul(person_text(file.sender));
    lemma_without_nul(person_line(file.to));
    lemma_without_nul(file.subject);
    lemma_without_nul(file.body);
    lemma_without_nul(a.file_name);
}

/// Cleaning changes no text that holds no NUL character, so it changes nothing
/// when it is done again.
pub proof fn law_cleaning_is_stable(s: Seq<char>)
    ensures
        free_of_nul(s) ==> without_nul(s) == s,
        without_nul(without_nul(s)) == without_nul(s),
{
    lemma_without_nul(s);
    lemma_without_nul(without_nul(s));
}

/// An attachment as it is taken.
pub open spec fn taken(a: OutlookAttachmentView) -> attachment::AttachmentView {
    attachment_with(a, codec::hex_bytes(vstd::utf8::encode_utf8(a.payload))->Ok_0)
}

proof fn lemma_attachments_are_taken(
    known: Seq<attachment::AttachmentView>,
    attachments: Seq<OutlookAttachmentView>,
    i: nat,
    stop: Option<nat>,
) -> (n: nat)
    requires
        i <= attachments.len(),
    ensures
        i <= n <= attachments.len(),
        with_attachments(known, attachments, i, stop).0 == known + attachments.subrange(
            i as int,
            n as int,
        ).map_values(|a| taken(a)),
        with_attachments(known, attachments, i, stop).1 is Ok ==> n == attachments.len(),
        (stop is None && forall|j: int|
            i <= j < attachments.len() ==> decodable(#[trigger] attachments[j]))
            ==> with_attachments(known, attachments, i, stop).1 is Ok,
    decreases attachments.len() - i,
{
    if i >= attachments.len() || stop == Some(i + 1) || !decodable(attachments[i as int]) {
        assert(known =~= known + attachments.subrange(i as int, i as int).map_values(
            |a| taken(a),
        ));
        i
    } else {
        let more = known.push(taken(attachments[i as int]));
        let n = lemma_attachments_are_taken(more, attachments, i + 1, stop);
        assert(more + attachments.subrange((i + 1) as int, n as int).map_values(|a| taken(a)) =~= known
            + attachments.subrange(i as int, n as int).map_values(|a| taken(a)));
        n
    }
}

/// The attachments are taken in the order of the file, after those that are known
/// already: all of them where reading succeeds, and else the first few.
pub proof fn law_attachments_are_taken_in_order(
    content: message::Content,
    file: OutlookView,
    stop: Option<nat>,
)
    ensures
        exists|n: int|
            0 <= n <= file.attachments.len() && (with_file(content, file, stop).1 is Ok ==> n
                == file.attachments.len()) && with_file(content, file, stop).0.attachments
                == content.attachments + (#[trigger] file.attachments.take(n)).map_values(
                |a| taken(a),
            ),
{
    if stop == Some(0nat) {
        assert(content.attachments =~= content.attachments + file.attachments.take(0).map_values(
            |a| taken(a),
        ));
    } else {
        let n = lemma_attachments_are_taken(content.attachments, file.attachments, 0, stop);
        assert(file.attachments.take(n as int) =~= file.attachments.subrange(0, n as int));
    }
}

/// Reading succeeds where nobody calls it off and every payload can be decoded.
pub proof fn law_reading_succeeds(content: message::Content, file: OutlookView)
    requires
        all_decodable(file.attachments),
    ensures
        with_file(content, file, None).1 is Ok,
{
    let n = lemma_attachments_are_taken(content.attachments, file.attachments, 0, None);
}

/// Cleaning goes character by character: it takes every NUL away, and leaves the rest
/// in its order.
pub proof fn law_cleaning_takes_the_nul_alone(a: Seq<char>, b: Seq<char>, c: char)
    ensures
        without_nul(Seq::empty()) == Seq::<char>::empty(),
        without_nul(a + b) == without_nul(a) + without_nul(b),
        c as int == 0 ==> without_nul(seq![c]).len() == 0,
        c as int != 0 ==> without_nul(seq![c]) == seq![c],
    decreases b.len(),
{
    reveal(Seq::filter);
    let none = Seq::<char>::empty();
    assert(without_nul(none) =~= none);
    assert(seq![c].drop_last() =~= none);
    assert(seq![c].last() == c);
    assert(c as int == 0 <==> c == '\0');
    if c != '\0' {
        assert(without_nul(seq![c]) =~= seq![c]);
    }
    if b.len() > 0 {
        law_cleaning_takes_the_nul_alone(a, b.drop_last(), c);
        assert((a + b).drop_last() =~= a + b.drop_last());
        assert((a + b).last() == b.last());
        assert(without_nul(a + b) =~= without_nul(a) + without_nul(b));
    } else {
        assert(a + b =~= a);
        assert(without_nul(a) + without_nul(b) =~= without_nul(a));
    }
}

/// A person is written as the name and then the address in pointed brackets.
pub proof fn law_a_person_is_a_name_and_an_address(
    person: Person,
    written: String,
    value: String,
    cleaned: String,
)
    requires
        call_ensures(OutlookMessage::person_to_string, (&person,), written),
        call_ensures(OutlookMessage::clean_string, (value,), cleaned),
    ensures
        written@ == person.name@ + seq![' ', '<'] + person.email@ + seq!['>'],
        cleaned@ == without_nul(value@),
{
    reveal_strlit(" <");
    reveal_strlit(">");
    assert(" <"@ =~= seq![' ', '<']);
    assert(">"@ =~= seq!['>']);
}

/// A line of persons names each of them, in order, with a comma and a blank between
/// two of them.
pub proof fn law_a_line_names_every_person(
    a: Seq<PersonView>,
    b: Seq<PersonView>,
    person: PersonView,
    persons: Vec<Person>,
    line: String,
)
    requires
        call_ensures(OutlookMessage::person_list_to_string, (&persons,), line),
    ensures
        line@ == person_line(Seq::new(persons@.len(), |i: int| persons@[i]@)),
        person_line(Seq::empty()) == Seq::<char>::empty(),
        person_line(seq![person]) == person.name + seq![' ', '<'] + person.email + seq!['>'],
        a.len() > 0 && b.len() > 0 ==> person_line(a + b) == person_line(a) + seq![',', ' ']
            + person_line(b),
{
    reveal_strlit(" <");
    reveal_strlit(">");
    reveal_strlit(", ");
    assert(" <"@ =~= seq![' ', '<']);
    assert(">"@ =~= seq!['>']);
    assert(", "@ =~= seq![',', ' ']);
    let text_of = |p| person_text(p);
    assert(Seq::<PersonView>::empty().map_values(text_of) =~= Seq::<Seq<char>>::empty());
    assert(seq![person].map_values(text_of) =~= seq![person_text(person)]);
    assert((a + b).map_values(text_of) =~= a.map_values(text_of) + b.map_values(text_of));
    text::law_joining_puts_separators_between(
        a.map_values(text_of),
        b.map_values(text_of),
        person_text(person),
        ", "@,
    );
}

/// Every header and body of the file is taken, without its NUL characters, from the
/// field it stands in: the sender, the recipients, the subject and the text. The date
/// waits for its header to be decoded. A copy and a protection are nothing that the
/// file tells.
pub proof fn law_every_field_of_the_file_is_taken(
    content: message::Content,
    file: OutlookView,
    stop: Option<nat>,
    known: Seq<char>,
)
    requires
        stop != Some(0nat),
    ensures
        ({
            let after = with_file(content, file, stop).0;
            &&& after.from == without_nul(
                file.sender.name + seq![' ', '<'] + file.sender.email + seq!['>'],
            )
            &&& after.to == without_nul(person_line(file.to))
            &&& after.subject == without_nul(file.subject)
            &&& after.date is None
            &&& file.body.len() == 0 ==> after.body_text is None
            &&& file.body.len() > 0 ==> after.body_text == Some(without_nul(file.body))
            &&& after.cc == content.cc && after.bcc == content.bcc
            &&& after.protection == content.protection
            &&& date_header_after(known, file, stop) == without_nul(file.date)
        }),
{
    reveal_strlit(" <");
    reveal_strlit(">");
    assert(" <"@ =~= seq![' ', '<']);
    assert(">"@ =~= seq!['>']);
}

/// The html of a file is text that stands there in hexadecimal digits, and what is
/// taken is that text: encoding it gives the bytes of the digits. Where the digits are
/// none, or stand for no text, the html is taken as it is but for its NUL characters.
pub proof fn law_the_html_is_decoded(
    content: message::Content,
    file: OutlookView,
    stop: Option<nat>,
)
    requires
        stop != Some(0nat),
    ensures
        ({
            let after = with_file(content, file, stop).0.body_html;
            let bytes = codec::hex_bytes(vstd::utf8::encode_utf8(file.html));
            &&& file.html.len() == 0 ==> after is None
            &&& file.html.len() > 0 ==> after is Some
            &&& file.html.len() > 0 && bytes is Ok && vstd::utf8::valid_utf8(bytes->Ok_0)
                ==> vstd::utf8::encode_utf8(after->0) == bytes->Ok_0
            &&& file.html.len() > 0 && !(bytes is Ok && vstd::utf8::valid_utf8(bytes->Ok_0))
                ==> after->0 == without_nul(file.html)
        }),
{
    let bytes = codec::hex_bytes(vstd::utf8::encode_utf8(file.html));
    if bytes is Ok && vstd::utf8::valid_utf8(bytes->Ok_0) {
        vstd::utf8::decode_utf8_encode_utf8(bytes->Ok_0);
    }
}

proof fn lemma_where_taking_ends(
    known: Seq<attachment::AttachmentView>,
    attachments: Seq<OutlookAttachmentView>,
    i: nat,
    stop: Option<nat>,
    end: nat,
)
    requires
        i <= end <= attachments.len(),
        forall|j: int|
            i <= j < end ==> decodable(#[trigger] attachments[j]) && stop != Some((j + 1) as nat),
        end == attachments.len() || stop == Some((end + 1) as nat) || !decodable(
            attachments[end as int],
        ),
    ensures
        with_attachments(known, attachments, i, stop).0 == known + attachments.subrange(
            i as int,
            end as int,
        ).map_values(|a| taken(a)),
        with_attachments(known, attachments, i, stop).1 == (if end == attachments.len() {
            Ok::<(), message::ErrorView>(())
        } else if stop == Some((end + 1) as nat) {
            Err(message::ErrorView::Cancelled)
        } else {
            Err(
                message::ErrorView::Payload(
                    codec::hex_bytes(
                        vstd::utf8::encode_utf8(attachments[end as int].payload),
                    )->Err_0,
                ),
            )
        }),
        attachment_questions(attachments, i, stop) == end - i + (if end == attachments.len() {
            0int
        } else {
            1
        }),
    decreases end - i,
{
    if i == end {
        assert(known =~= known + attachments.subrange(i as int, i as int).map_values(
            |a| taken(a),
        ));
    } else {
        assert(decodable(attachments[i as int]));
        let more = known.push(taken(attachments[i as int]));
        lemma_where_taking_ends(more, attachments, i + 1, stop, end);
        assert(more + attachments.subrange((i + 1) as int, end as int).map_values(|a| taken(a))
            =~= known + attachments.subrange(i as int, end as int).map_values(|a| taken(a)));
    }
}

/// An attachment of the message is what one of the file holds: its name without NUL
/// characters, which is its id too, the type that the file gives it, and the bytes that
/// its digits stand for.
pub open spec fn taken_from(
    a: attachment::AttachmentView,
    from: OutlookAttachmentView,
) -> bool {
    &&& a.filename == without_nul(from.file_name)
    &&& a.content_id == without_nul(from.file_name)
    &&& a.mime_type == Some(from.mime_tag)
    &&& codec::hex_bytes(vstd::utf8::encode_utf8(from.payload)) == Ok::<Seq<u8>, codec::HexError>(
        a.body,
    )
}

/// Reading a file takes its attachments one by one, after those that are known, each
/// with its own name, type and bytes. It ends before attachment `end`: where there is
/// no more, where it is told to stop, or where the digits are none, and it says which.
/// It has then asked once at the start, and once for each attachment it came to.
pub proof fn law_attachments_are_taken_up_to_the_end(
    content: message::Content,
    file: OutlookView,
    stop: Option<nat>,
    end: nat,
)
    requires
        stop != Some(0nat),
        end <= file.attachments.len(),
        forall|j: int|
            0 <= j < end ==> codec::hex_bytes(
                vstd::utf8::encode_utf8((#[trigger] file.attachments[j]).payload),
            ) is Ok && stop != Some((j + 1) as nat),
        end == file.attachments.len() || stop == Some((end + 1) as nat) || codec::hex_bytes(
            vstd::utf8::encode_utf8(file.attachments[end as int].payload),
        ) is Err,
    ensures
        ({
            let (after, said) = with_file(content, file, stop);
            &&& after.attachments.len() == content.attachments.len() + end
            &&& after.attachments.take(content.attachments.len() as int) == content.attachments
            &&& forall|n: int|
                0 <= n < end ==> taken_from(
                    #[trigger] after.attachments[content.attachments.len() + n],
                    file.attachments[n],
                )
            &&& said is Ok <==> end == file.attachments.len()
            &&& end < file.attachments.len() && stop == Some((end + 1) as nat) ==> said == Err::<
                (),
                message::ErrorView,
            >(message::ErrorView::Cancelled)
            &&& end < file.attachments.len() && stop != Some((end + 1) as nat) ==> said == Err::<
                (),
                message::ErrorView,
            >(
                message::ErrorView::Payload(
                    codec::hex_bytes(
                        vstd::utf8::encode_utf8(file.attachments[end as int].payload),
                    )->Err_0,
                ),
            )
            &&& file_questions(file, stop) == 1 + end + (if end == file.attachments.len() {
                0int
            } else {
                1
            })
        }),
{
    assert forall|j: int| 0 <= j < end implies decodable(#[trigger] file.attachments[j]) && stop
        != Some((j + 1) as nat) by {}
    lemma_where_taking_ends(content.attachments, file.attachments, 0, stop, end);
    let after = with_file(content, file, stop).0.attachments;
    let more = file.attachments.subrange(0, end as int);
    assert(after == content.attachments + more.map_values(|a| taken(a)));
    assert(after.take(content.attachments.len() as int) =~= content.attachments);
    assert forall|n: int| 0 <= n < end implies taken_from(
        #[trigger] after[content.attachments.len() + n],
        file.attachments[n],
    ) by {
        assert(after[content.attachments.len() + n] == taken(more[n]));
        assert(decodable(file.attachments[n]));
    }
}

/// A file that is called off before anything is taken leaves everything as it was, and
/// so does one that cannot be parsed, which is reported with the reason. Any other is
/// read as its content says.
pub proof fn law_an_outlook_message_is_read_from_its_file(
    message: &OutlookMessage,
    stop: Option<nat>,
    known: Seq<char>,
)
    ensures
        outlook_content(message.data@) matches Err(reason) ==> message.outcome(stop) == (
            message.content(),
            Err::<(), message::ErrorView>(message::ErrorView::Outlook(reason)),
        ) && message.questions(stop) == 0,
        outlook_content(message.data@) matches Ok(file) ==> message.outcome(stop) == with_file(
            message.content(),
            file,
            stop,
        ) && message.questions(stop) == file_questions(file, stop),
        outlook_content(message.data@) matches Ok(file) ==> stop == Some(0nat) ==> message.outcome(
            stop,
        ) == (message.content(), Err::<(), message::ErrorView>(message::ErrorView::Cancelled))
            && message.questions(stop) == 1 && date_header_after(known, file, stop) == known,
{
}

/// What is shown of an Outlook message is what was read of it, each thing in its own
/// place. It has no copies, and claims no protection.
pub proof fn law_an_outlook_message_shows_what_was_read(
    message: OutlookMessage,
    from: String,
    to: String,
    cc: String,
    bcc: String,
    subject: String,
    html: Option<String>,
    text: Option<String>,
    protection: Protection,
    attachments: Vec<Attachment>,
    date: String,
    local: String,
)
    requires
        call_ensures(<OutlookMessage as Message>::from, (&message,), from),
        call_ensures(OutlookMessage::to, (&message,), to),
        call_ensures(OutlookMessage::cc, (&message,), cc),
        call_ensures(OutlookMessage::bcc, (&message,), bcc),
        call_ensures(OutlookMessage::subject, (&message,), subject),
        call_ensures(OutlookMessage::body_html, (&message,), html),
        call_ensures(OutlookMessage::body_text, (&message,), text),
        call_ensures(OutlookMessage::protection, (&message,), protection),
        call_ensures(OutlookMessage::attachments, (&message,), attachments),
        call_ensures(OutlookMessage::date, (&message,), date),
        call_ensures(date::local_date, (&message.date,), local),
    ensures
        from@ == message.from@,
        to@ == message.to@,
        cc@.len() == 0,
        bcc@.len() == 0,
        subject@ == message.subject@,
        html is Some == message.html is Some,
        html is Some ==> html->0@ == message.html->0@,
        text is Some == message.body is Some,
        text is Some ==> text->0@ == message.body->0@,
        protection == Protection::Plain,
        attachments@.len() == message.attachments@.len(),
        forall|i: int|
            0 <= i < attachments@.len() ==> (#[trigger] attachments@[i])@
                == message.attachments@[i]@,
        date@ == local@,
{
    let shown = attachment::attachment_views(attachments@);
    let known = attachment::attachment_views(message.attachments@);
    assert(shown == known);
    assert forall|i: int| 0 <= i < attachments@.len() implies (#[trigger] attachments@[i])@
        == message.attachments@[i]@ by {
        assert(shown[i] == known[i]);
    }
    assert(shown.len() == known.len());
}

} // verus!
