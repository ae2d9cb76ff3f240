use mailviewer_core::message::cancellation::Cancellation;
use mailviewer_core::message::date::{CalendarTime, DateTime};
use mailviewer_core::message::electronicmail::ElectronicMail;
use mailviewer_core::message::message::{
    Message, MessageParser, MessageType, ParseError, Parser, Protection,
};
use mailviewer_core::message::mime::{
    AddressList, ContentType, LeafPart, MimeMessage, MimePart, PartContent,
};

fn content_type(media_type: &str, media_subtype: &str) -> ContentType {
    ContentType {
        media_type: media_type.to_string(),
        media_subtype: media_subtype.to_string(),
        mime_type: Some(format!("{media_type}/{media_subtype}")),
        smime_type: None,
        charset: None,
    }
}

fn content(bytes: &[u8]) -> PartContent {
    PartContent {
        written: bytes.len() as i64,
        bytes: bytes.to_vec(),
    }
}

fn multipart(media_subtype: &str) -> MimePart {
    MimePart {
        content_type: Some(content_type("multipart", media_subtype)),
        content_id: None,
        leaf: None,
    }
}

fn part(content_type: ContentType, bytes: &[u8]) -> MimePart {
    MimePart {
        content_type: Some(content_type),
        content_id: None,
        leaf: Some(LeafPart {
            is_attachment: false,
            filename: None,
            content: Some(content(bytes)),
        }),
    }
}

fn text(media_subtype: &str, bytes: &[u8]) -> MimePart {
    part(content_type("text", media_subtype), bytes)
}

fn file(filename: &str, media_type: &str, media_subtype: &str, bytes: &[u8]) -> MimePart {
    MimePart {
        content_type: Some(content_type(media_type, media_subtype)),
        content_id: None,
        leaf: Some(LeafPart {
            is_attachment: true,
            filename: Some(filename.to_string()),
            content: Some(content(bytes)),
        }),
    }
}

fn addresses(list: &[&str]) -> Option<AddressList> {
    Some(AddressList {
        addresses: list.iter().map(|a| Some(a.to_string())).collect(),
    })
}

fn message(parts: Vec<MimePart>) -> MimeMessage {
    MimeMessage {
        from: addresses(&["John Doe <john@moon.space>"]),
        to: addresses(&["Lucas <lucas@mercure.space>"]),
        cc: None,
        bcc: None,
        subject: Some("Lorem ipsum".to_string()),
        date: None,
        parts,
    }
}

fn read(parts: Vec<MimePart>) -> ElectronicMail {
    let mut mail = ElectronicMail::new(Some(message(parts)));
    mail.parse(&mut Cancellation::new(|| false)).unwrap();
    mail
}

#[test]
fn a_mail_is_empty_until_it_is_read() {
    let mut mail = ElectronicMail::new(Some(message(vec![text("plain", b"hi")])));
    assert!(mail.is_readable());
    assert_eq!(mail.from(), "");
    assert_eq!(mail.to(), "");
    assert_eq!(mail.subject(), "");
    assert_eq!(mail.date(), "");
    assert_eq!(mail.body_text(), None);
    assert_eq!(mail.body_html(), None);
    assert_eq!(mail.attachments().len(), 0);
    assert_eq!(mail.protection(), Protection::Plain);

    mail.parse(&mut Cancellation::new(|| false)).unwrap();
    assert_eq!(mail.from(), "John Doe <john@moon.space>");
    assert_eq!(mail.to(), "Lucas <lucas@mercure.space>");
    assert_eq!(mail.subject(), "Lorem ipsum");
    assert_eq!(mail.body_text().as_deref(), Some("hi"));
    assert_eq!(mail.body_html(), None);
}

#[test]
fn keeps_the_recipients_apart() {
    let mut message = message(vec![]);
    message.cc = addresses(&["Marie <marie@venus.space>"]);
    message.bcc = addresses(&["Quiet One <quiet@pluto.space>"]);
    let mut parser = ElectronicMail::new(Some(message));
    parser.parse(&mut Cancellation::new(|| false)).unwrap();

    assert_eq!(parser.to(), "Lucas <lucas@mercure.space>");
    assert_eq!(parser.cc(), "Marie <marie@venus.space>");
    assert_eq!(parser.bcc(), "Quiet One <quiet@pluto.space>");
    // The one that matters: someone in blind copy does not turn up as a
    // recipient everyone could see.
    assert!(!parser.to().contains("quiet@pluto.space"));
}

#[test]
fn addresses_stand_in_one_line() {
    let list = AddressList {
        addresses: vec![
            Some("a@x".to_string()),
            None,
            Some("B <b@x>".to_string()),
            Some(String::new()),
        ],
    };
    assert_eq!(ElectronicMail::internet_list(&list), "a@x, B <b@x>, ");
    assert_eq!(ElectronicMail::addresses(&Some(list)), "a@x, B <b@x>, ");
    assert_eq!(ElectronicMail::addresses(&None), "");
    assert_eq!(ElectronicMail::addresses(&addresses(&[])), "");
}

#[test]
fn reports_pgp_mime_messages() {
    assert_eq!(
        read(vec![multipart("encrypted")]).protection(),
        Protection::Encrypted
    );
    assert_eq!(
        read(vec![multipart("Signed"), text("plain", b"hi")]).protection(),
        Protection::Signed
    );
}

#[test]
fn reports_smime_messages() {
    let smime = |media_subtype: &str, smime_type: Option<&str>| {
        let mut content_type = content_type("application", media_subtype);
        content_type.smime_type = smime_type.map(String::from);
        ElectronicMail::part_protection(&content_type)
    };

    assert_eq!(
        smime("pkcs7-mime", Some("signed-data")),
        Some(Protection::Signed)
    );
    assert_eq!(
        smime("X-PKCS7-MIME", Some("enveloped-data")),
        Some(Protection::Encrypted)
    );
    assert_eq!(
        smime("pkcs7-mime", Some("Signed-Data")),
        Some(Protection::Encrypted)
    );
    assert_eq!(smime("pkcs7-mime", None), Some(Protection::Encrypted));
    assert_eq!(smime("pkcs7-signature", Some("signed-data")), None);
}

#[test]
fn reports_pgp_written_into_the_body() {
    assert_eq!(
        read(vec![text("plain", b"\r\n -----BEGIN PGP MESSAGE-----\n...")]).protection(),
        Protection::Encrypted
    );
    assert_eq!(
        read(vec![text("plain", b"-----BEGIN PGP SIGNED MESSAGE-----\n...")]).protection(),
        Protection::Signed
    );
    assert_eq!(
        ElectronicMail::inline_protection("Hello -----BEGIN PGP MESSAGE-----"),
        None
    );
}

#[test]
fn says_nothing_about_a_plain_message() {
    assert_eq!(
        read(vec![multipart("alternative"), text("html", b"<p>hi</p>")]).protection(),
        Protection::Plain
    );
    assert_eq!(
        read(vec![text("plain", b"hi")]).protection(),
        Protection::Plain
    );
    assert_eq!(read(vec![]).protection(), Protection::Plain);
}

#[test]
fn encrypted_wins() {
    let signed = || multipart("signed");
    let encrypted = || multipart("encrypted");

    assert_eq!(
        read(vec![signed(), encrypted(), signed()]).protection(),
        Protection::Encrypted
    );
    // The structure comes before the text.
    assert_eq!(
        read(vec![
            signed(),
            text("plain", b"-----BEGIN PGP MESSAGE-----")
        ])
        .protection(),
        Protection::Signed
    );
}

#[test]
fn the_last_body_of_each_kind_counts() {
    let mail = read(vec![
        text("html", b"<p>1</p>"),
        text("plain", b"one"),
        text("HTML", b"<p>2</p>"),
        text("plain", b"two"),
    ]);

    assert_eq!(mail.body_html().as_deref(), Some("<p>2</p>"));
    assert_eq!(mail.body_text().as_deref(), Some("two"));
    assert_eq!(mail.attachments().len(), 0);
}

#[test]
fn attachments_come_in_order() {
    let mut inline = file("logo.gif", "image", "gif", &[1, 2]);
    inline.content_id = Some("logo@x".to_string());
    if let Some(leaf) = &mut inline.leaf {
        leaf.is_attachment = false;
    }
    let mail = read(vec![
        multipart("mixed"),
        text("html", b"x"),
        inline,
        file("a.txt", "text", "plain", b"abc"),
        // neither a name nor a body: nothing to keep
        part(content_type("application", "pdf"), b"pdf"),
    ]);

    assert_eq!(mail.attachments.len(), 2);
    assert_eq!(mail.attachments[0].filename, "logo.gif");
    assert_eq!(mail.attachments[0].content_id, "logo@x");
    assert_eq!(mail.attachments[0].mime_type.as_deref(), Some("image/gif"));
    assert_eq!(mail.attachments[0].body, [1, 2]);
    assert_eq!(mail.attachments[1].filename, "a.txt");
    assert_eq!(mail.attachments[1].content_id, "none");
    assert_eq!(mail.attachments[1].mime_type.as_deref(), Some("text/plain"));
    assert_eq!(mail.attachments[1].body, b"abc");
    // An attachment is no body, whatever its type.
    assert_eq!(mail.body_text(), None);
}

#[test]
fn a_part_without_a_type_gives_no_attachment() {
    let mut part = file("a.bin", "x", "y", b"abc");
    part.content_type = None;
    assert!(ElectronicMail::get_attachment(&part).is_none());

    let mut part = file("a.bin", "x", "y", b"abc");
    if let Some(leaf) = &mut part.leaf {
        leaf.content = None;
    }
    assert!(ElectronicMail::get_attachment(&part).is_none());
    assert!(ElectronicMail::get_attachment(&multipart("mixed")).is_none());
    assert!(read(vec![part]).attachments().is_empty());
}

#[test]
fn text_is_decoded_in_its_charset() {
    let decoded = |charset: Option<&str>, written: i64, bytes: &[u8]| {
        let mut content_type = content_type("text", "plain");
        content_type.charset = charset.map(String::from);
        let leaf = LeafPart {
            is_attachment: false,
            filename: None,
            content: Some(PartContent {
                written,
                bytes: bytes.to_vec(),
            }),
        };
        ElectronicMail::get_content(&Some(content_type), &leaf)
    };

    assert_eq!(decoded(None, 2, "é".as_bytes()), "é");
    assert_eq!(decoded(Some("utf-8"), 2, "é".as_bytes()), "é");
    assert_eq!(decoded(Some("ISO-8859-1"), 1, &[0xe9]), "é");
    assert_eq!(decoded(Some("no-such-charset"), 2, b"ab"), "");
    assert_eq!(decoded(None, 1, &[0xff]), "\u{fffd}");
    assert_eq!(decoded(None, 0, b"ab"), "");
    assert_eq!(decoded(None, -1, b"ab"), "ab");
    assert_eq!(decoded(None, 1 << 32, b"ab"), "");

    let empty = LeafPart {
        is_attachment: false,
        filename: None,
        content: None,
    };
    assert_eq!(ElectronicMail::get_content(&None, &empty), "");
}

#[test]
fn reading_that_is_called_off_changes_nothing() {
    let mut mail = ElectronicMail::new(Some(message(vec![text("plain", b"hi")])));
    assert!(matches!(mail.parse(&mut Cancellation::new(|| true)), Err(ParseError::Cancelled)));
    assert_eq!(mail.from(), "");
    assert_eq!(mail.body_text(), None);

    mail.parse(&mut Cancellation::new(|| false)).unwrap();
    assert_eq!(mail.body_text().as_deref(), Some("hi"));
}

#[test]
fn a_file_without_a_mail_is_reported() {
    let mut mail = ElectronicMail::default();
    assert!(matches!(mail.parse(&mut Cancellation::new(|| false)), Err(ParseError::NoMessage)));
    assert!(matches!(mail.parse(&mut Cancellation::new(|| true)), Err(ParseError::Cancelled)));
}

#[test]
fn reading_again_keeps_what_is_known() {
    let mut mail = ElectronicMail::new(Some(MimeMessage {
        from: None,
        to: None,
        cc: None,
        bcc: None,
        subject: None,
        date: None,
        parts: vec![file("a.txt", "text", "plain", b"abc")],
    }));
    mail.from = "someone".to_string();
    mail.to = "gone".to_string();
    mail.subject = "kept".to_string();
    mail.body_html = Some("kept too".to_string());
    mail.parse(&mut Cancellation::new(|| false)).unwrap();
    mail.parse(&mut Cancellation::new(|| false)).unwrap();

    assert_eq!(mail.from(), "someone");
    assert_eq!(mail.to(), "");
    assert_eq!(mail.subject(), "kept");
    assert_eq!(mail.body_html().as_deref(), Some("kept too"));
    assert_eq!(mail.attachments().len(), 2);
}

fn time(hour: u8, utc_offset: i32) -> CalendarTime {
    CalendarTime {
        year: 2026,
        month: 7,
        day: 30,
        hour,
        minute: 6,
        second: 8,
        utc_offset,
    }
}

#[test]
fn dates_are_written_with_their_offset() {
    assert_eq!(time(16, 0).to_string(), "2026-07-30 16:06:08 +0000");
    assert_eq!(time(18, 7200).to_string(), "2026-07-30 18:06:08 +0200");
    assert_eq!(time(11, -18000).to_string(), "2026-07-30 11:06:08 -0500");
    assert_eq!(time(9, -12600).to_string(), "2026-07-30 09:06:08 -0330");
}

#[test]
fn one_instant_is_shown_in_one_way() {
    // The same instant, written with three offsets.
    let local = Some(time(17, 3600));
    let shown = |written: CalendarTime| {
        MessageParser::to_local_date(&Some(DateTime { written, local }))
    };
    assert_eq!(shown(time(16, 0)), "2026-07-30 17:06:08 +0100");
    assert_eq!(shown(time(18, 7200)), shown(time(16, 0)));
    assert_eq!(shown(time(11, -18000)), shown(time(16, 0)));
}

#[test]
fn the_local_date_is_shown() {
    let mut message = message(vec![]);
    let date = DateTime {
        written: time(18, 7200),
        local: Some(time(16, 0)),
    };
    message.date = Some(date);
    let mut mail = ElectronicMail::new(Some(message));
    mail.parse(&mut Cancellation::new(|| false)).unwrap();

    assert_eq!(
        mail.date.unwrap().written.to_string(),
        "2026-07-30 18:06:08 +0200"
    );
    assert_eq!(mail.date(), "2026-07-30 16:06:08 +0000");
    assert_eq!(mail.date().len(), 25);
    assert_eq!(mail.date().as_bytes()[19], b' ');
    assert_eq!(MessageParser::to_local_date(&Some(date)), mail.date());
    assert_eq!(MessageParser::to_local_date(&None), "");
    assert_eq!(
        MessageParser::to_local_date(&Some(DateTime {
            written: time(18, 7200),
            local: None,
        })),
        ""
    );
}

#[test]
fn test_content_type_eml() {
    assert_eq!(
        MessageParser::message_type("sample.eml", "message/rfc822").unwrap(),
        MessageType::Eml
    );
}

#[test]
fn test_content_type_msg() {
    assert_eq!(
        MessageParser::message_type("sample.msg", "application/vnd.ms-outlook").unwrap(),
        MessageType::Msg
    );
    assert_eq!(
        MessageParser::message_type("sample.msg", "application/x-ole-storage").unwrap(),
        MessageType::Msg
    );
}

#[test]
fn other_content_types_are_refused() {
    assert_eq!(
        MessageParser::message_type("/tmp/a.png", "image/png").unwrap_err(),
        "File /tmp/a.png has an unsupported content type: image/png"
    );
}

#[test]
fn the_supported_types_are_recognised() {
    let types = MessageParser::supported_mime_types();
    assert_eq!(
        types,
        [
            "message/rfc822",
            "application/vnd.ms-outlook",
            "application/x-ole-storage"
        ]
    );
    for content_type in types {
        assert!(MessageParser::message_type("x", content_type).is_ok());
    }
}

#[test]
fn whatever_is_no_outlook_message_is_a_mail() {
    assert_eq!(MessageParser::guess("text/plain"), MessageType::Eml);
    assert_eq!(
        MessageParser::guess("application/x-ole-storage"),
        MessageType::Msg
    );

    let mut parser = MessageParser::new(
        vec![],
        "text/plain",
        Some(message(vec![
            text("plain", b"hi"),
            text("html", b"<p>hi</p>"),
            file("a.txt", "text", "plain", b"abc"),
            multipart("signed"),
        ])),
    );
    assert_eq!(parser.message_type, MessageType::Eml);
    assert!(matches!(parser.parser, Parser::Eml(_)));
    assert!(matches!(parser.parse(&mut Cancellation::new(|| true)), Err(ParseError::Cancelled)));
    parser.parse(&mut Cancellation::new(|| false)).unwrap();
    assert_eq!(parser.from(), "John Doe <john@moon.space>");
    assert_eq!(parser.to(), "Lucas <lucas@mercure.space>");
    assert_eq!(parser.cc(), "");
    assert_eq!(parser.bcc(), "");
    assert_eq!(parser.subject(), "Lorem ipsum");
    assert_eq!(parser.date(), "");
    assert_eq!(parser.body_text().as_deref(), Some("hi"));
    assert_eq!(parser.body_html().as_deref(), Some("<p>hi</p>"));
    assert_eq!(parser.attachments().len(), 1);
    assert_eq!(parser.protection(), Protection::Signed);
}
