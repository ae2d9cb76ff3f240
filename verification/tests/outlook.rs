use std::cell::Cell;

use mailviewer_core::codec::HexError;
use mailviewer_core::message::cancellation::Cancellation;
use mailviewer_core::message::date::{CalendarTime, DateTime};
use mailviewer_core::message::message::{
    Message, MessageParser, MessageType, ParseError, Parser, Protection,
};
use mailviewer_core::message::outlook::{
    OutlookAttachment, OutlookContent, OutlookMessage, Person,
};

#[test]
fn clean_string_bytes() {
    assert_eq!(OutlookMessage::clean_string("a\0b\0c".to_string()), "abc");
}

#[test]
fn cleaning_a_clean_text_changes_nothing() {
    assert_eq!(OutlookMessage::clean_string("é b".to_string()), "é b");
    assert_eq!(OutlookMessage::clean_string("\0\0".to_string()), "");
}

#[test]
fn a_default_message_is_empty() {
    let mut message = OutlookMessage::default();
    assert!(message.data.is_empty());
    assert_eq!(message.subject(), "");
    assert!(matches!(
        message.parse(&mut Cancellation::new(|| false)),
        Err(ParseError::Outlook(_))
    ));
}

fn person(name: &str, email: &str) -> Person {
    Person {
        name: name.to_string(),
        email: email.to_string(),
    }
}

fn attached(file_name: &str, payload: &str) -> OutlookAttachment {
    OutlookAttachment {
        file_name: file_name.to_string(),
        payload: payload.to_string(),
        mime_tag: "image/png".to_string(),
    }
}

fn file() -> OutlookContent {
    OutlookContent {
        sender: person("John\0 Doe", "john@moon.space"),
        to: vec![
            person("Lucas", "lucas@mercure.space"),
            person("", "b@x\0"),
        ],
        subject: "Lorem\0 ipsum".to_string(),
        date: "Thu,\0 30 Jul 2026 18:06:08 +0200".to_string(),
        body: "Hello Lucas\0".to_string(),
        html: "3c703e4869c3a93c2f703E".to_string(),
        attachments: vec![attached("image001.png\0", "0aFF"), attached("b", "")],
    }
}

#[test]
fn persons_in_one_line() {
    assert_eq!(
        OutlookMessage::person_to_string(&person("John Doe", "john@moon.space")),
        "John Doe <john@moon.space>"
    );
    assert_eq!(OutlookMessage::person_list_to_string(&vec![]), "");
    assert_eq!(
        OutlookMessage::person_list_to_string(&vec![person("A", "a@x"), person("B", "b@x")]),
        "A <a@x>, B <b@x>"
    );
}

#[test]
fn a_file_is_loaded() {
    let mut message = OutlookMessage::new(vec![]);
    message.load(&file(), &mut Cancellation::new(|| false)).unwrap();

    assert_eq!(message.from(), "John Doe <john@moon.space>");
    assert_eq!(message.to(), "Lucas <lucas@mercure.space>,  <b@x>");
    assert_eq!(message.cc(), "");
    assert_eq!(message.bcc(), "");
    assert_eq!(message.subject(), "Lorem ipsum");
    assert_eq!(message.date_header, "Thu, 30 Jul 2026 18:06:08 +0200");
    assert_eq!(message.date(), "");
    assert_eq!(message.body_text().as_deref(), Some("Hello Lucas"));
    assert_eq!(message.body_html().as_deref(), Some("<p>Hié</p>"));
    assert_eq!(message.protection(), Protection::Plain);

    let attachments = message.attachments();
    assert_eq!(attachments.len(), 2);
    assert_eq!(attachments[0].filename, "image001.png");
    assert_eq!(attachments[0].content_id, "image001.png"); // same as filename
    assert_eq!(attachments[0].mime_type.as_deref(), Some("image/png"));
    assert_eq!(attachments[0].body, [0x0a, 0xff]);
    assert!(attachments[1].body.is_empty());
}

#[test]
fn html_that_is_not_encoded_is_kept() {
    let mut content = file();
    let html_of = |content: &OutlookContent| {
        let mut message = OutlookMessage::new(vec![]);
        message.load(content, &mut Cancellation::new(|| false)).unwrap();
        message.body_html()
    };

    content.html = "<p>\0hi</p>".to_string();
    assert_eq!(html_of(&content).as_deref(), Some("<p>hi</p>"));
    // Two digits, but no UTF-8.
    content.html = "ff".to_string();
    assert_eq!(html_of(&content).as_deref(), Some("ff"));
    content.html = "fff".to_string();
    assert_eq!(html_of(&content).as_deref(), Some("fff"));
    content.html = String::new();
    assert_eq!(html_of(&content), None);
    // A NUL that is encoded stays.
    content.html = "610062".to_string();
    assert_eq!(html_of(&content).as_deref(), Some("a\0b"));
}

#[test]
fn an_empty_body_is_none() {
    let mut content = file();
    content.body = String::new();
    let mut message = OutlookMessage::new(vec![]);
    message.load(&content, &mut Cancellation::new(|| false)).unwrap();
    assert_eq!(message.body_text(), None);

    content.body = "\0".to_string();
    message.load(&content, &mut Cancellation::new(|| false)).unwrap();
    assert_eq!(message.body_text().as_deref(), Some(""));
}

fn loaded_with(payload: &str) -> (OutlookMessage, Result<(), ParseError>) {
    let mut content = file();
    content.attachments.push(attached("bad", payload));
    content.attachments.push(attached("never", "00"));
    let mut message = OutlookMessage::new(vec![]);
    let r = message.load(&content, &mut Cancellation::new(|| false));
    (message, r)
}

#[test]
fn a_payload_that_is_not_encoded_is_reported() {
    let (message, r) = loaded_with("0");
    assert!(matches!(r, Err(ParseError::Payload(HexError::OddLength))));
    assert_eq!(message.attachments().len(), 2);
    assert_eq!(message.subject(), "Lorem ipsum");

    let (_, r) = loaded_with("0g");
    assert!(matches!(
        r,
        Err(ParseError::Payload(HexError::InvalidCharacter {
            c: 'g',
            index: 1
        }))
    ));
    // The length is looked at first.
    let (_, r) = loaded_with("0gg");
    assert!(matches!(r, Err(ParseError::Payload(HexError::OddLength))));
}

#[test]
fn loading_stops_when_it_is_called_off() {
    let stop_at = |n: u32| {
        let asked = Cell::new(0);
        let mut message = OutlookMessage::new(vec![]);
        let mut cancellation = Cancellation::new(|| {
            asked.set(asked.get() + 1);
            asked.get() > n
        });
        let r = message.load(&file(), &mut cancellation);
        (message, r, asked.get())
    };

    let (message, r, asked) = stop_at(0);
    assert!(matches!(r, Err(ParseError::Cancelled)));
    assert_eq!(message.subject(), "");
    assert_eq!(message.date_header, "");
    assert_eq!(asked, 1);

    let (message, r, asked) = stop_at(1);
    assert!(matches!(r, Err(ParseError::Cancelled)));
    assert_eq!(message.subject(), "Lorem ipsum");
    assert_eq!(message.attachments().len(), 0);
    assert_eq!(asked, 2);

    let (message, r, asked) = stop_at(2);
    assert!(matches!(r, Err(ParseError::Cancelled)));
    assert_eq!(message.attachments().len(), 1);
    assert_eq!(asked, 3);

    // Once before anything is taken, and once before each attachment.
    let (message, r, asked) = stop_at(3);
    assert!(r.is_ok());
    assert_eq!(message.attachments().len(), 2);
    assert_eq!(asked, 3);
}

#[test]
fn loading_again_adds_the_attachments_again() {
    let mut message = OutlookMessage::new(vec![]);
    message.load(&file(), &mut Cancellation::new(|| false)).unwrap();
    message.load(&file(), &mut Cancellation::new(|| false)).unwrap();
    assert_eq!(message.attachments().len(), 4);
}

#[test]
fn the_date_is_taken_once_it_is_decoded() {
    let local = CalendarTime {
        year: 2026,
        month: 7,
        day: 30,
        hour: 16,
        minute: 6,
        second: 8,
        utc_offset: 0,
    };
    let mut message = OutlookMessage::new(vec![]);
    message.load(&file(), &mut Cancellation::new(|| false)).unwrap();
    message.set_date(Some(DateTime {
        written: local,
        local: Some(local),
    }));
    assert_eq!(message.date(), "2026-07-30 16:06:08 +0000");
}

#[test]
fn a_file_of_another_kind_is_reported() {
    let mut message = OutlookMessage::new(b"From: someone".to_vec());
    match message.parse(&mut Cancellation::new(|| true)) {
        Err(ParseError::Outlook(reason)) => {
            assert_eq!(reason, "Error parsing file with ole: Invalid OLE File")
        }
        _ => panic!("a text was taken for an Outlook message"),
    }
    assert_eq!(message.from(), "");
}

const END: u32 = 0xffff_fffe;
const FREE: u32 = 0xffff_ffff;

struct Node {
    name: &'static str,
    is_stream: bool,
    parent: usize,
    data: Vec<u8>,
}

fn storage(name: &'static str) -> Node {
    Node {
        name,
        is_stream: false,
        parent: 0,
        data: vec![],
    }
}

fn stream(name: &'static str, parent: usize, data: Vec<u8>) -> Node {
    Node {
        name,
        is_stream: true,
        parent,
        data,
    }
}

fn utf16(text: &str) -> Vec<u8> {
    text.encode_utf16().flat_map(|u| u.to_le_bytes()).collect()
}

fn push_words(out: &mut Vec<u8>, words: &[u32], len: usize) {
    for i in 0..len {
        out.extend(words.get(i).unwrap_or(&FREE).to_le_bytes());
    }
}

// A compound file: the header, one sector of the allocation table, the directory,
// one sector of the table of the small streams, and the small streams.
fn compound_file(nodes: &[Node]) -> Vec<u8> {
    let mut small: Vec<u8> = vec![];
    let mut small_table: Vec<u32> = vec![];
    let mut starts: Vec<u32> = vec![];
    for node in nodes {
        let first = small_table.len() as u32;
        let count = node.data.len().div_ceil(64) as u32;
        starts.push(if count == 0 { END } else { first });
        for i in 0..count {
            small_table.push(if i + 1 == count { END } else { first + i + 1 });
        }
        small.extend(&node.data);
        small.resize(small_table.len() * 64, 0);
    }
    small.resize(small.len().next_multiple_of(512), 0);

    let entries = nodes.len() + 1;
    let dir_sectors = entries.div_ceil(4) as u32;
    let small_sectors = (small.len() / 512) as u32;
    let small_table_sector = 1 + dir_sectors;
    let small_start = small_table_sector + 1;
    let mut table = vec![0xffff_fffd];
    for i in 1..=dir_sectors {
        table.push(if i == dir_sectors { END } else { i + 1 });
    }
    table.push(END);
    for i in 0..small_sectors {
        table.push(if i + 1 == small_sectors {
            END
        } else {
            small_start + i + 1
        });
    }

    let mut out: Vec<u8> = vec![0xd0, 0xcf, 0x11, 0xe0, 0xa1, 0xb1, 0x1a, 0xe1];
    out.extend([0; 16]);
    out.extend([0x3e, 0, 3, 0, 0xfe, 0xff, 9, 0, 6, 0]);
    out.extend([0; 10]);
    push_words(
        &mut out,
        &[1, 1, 0, 4096, small_table_sector, 1, END, 0, 0],
        9,
    );
    push_words(&mut out, &[], 108);
    push_words(&mut out, &table, 128);

    for i in 0..(dir_sectors as usize * 4) {
        let mut entry = [0u8; 128];
        let (name, kind, parent, start, size) = if i == 0 {
            ("Root Entry", 5, usize::MAX, small_start, small.len())
        } else if i < entries {
            let node = &nodes[i - 1];
            let kind = if node.is_stream { 2 } else { 1 };
            (
                node.name,
                kind,
                node.parent,
                starts[i - 1],
                node.data.len(),
            )
        } else {
            ("", 0, usize::MAX, END, 0)
        };
        let name = utf16(name);
        entry[..name.len()].copy_from_slice(&name);
        entry[64..66].copy_from_slice(&(name.len() as u16 + 2).to_le_bytes());
        entry[66] = kind;
        entry[67] = 1;
        let next = |from: usize, parent: usize| {
            (from..entries)
                .find(|&j| j > 0 && nodes[j - 1].parent == parent)
                .map_or(FREE, |j| j as u32)
        };
        let sibling = if parent == usize::MAX {
            FREE
        } else {
            next(i + 1, parent)
        };
        let child = if kind == 2 || kind == 0 { FREE } else { next(1, i) };
        entry[68..72].copy_from_slice(&FREE.to_le_bytes());
        entry[72..76].copy_from_slice(&sibling.to_le_bytes());
        entry[76..80].copy_from_slice(&child.to_le_bytes());
        entry[116..120].copy_from_slice(&start.to_le_bytes());
        entry[120..124].copy_from_slice(&(size as u32).to_le_bytes());
        out.extend(entry);
    }
    push_words(&mut out, &small_table, 128);
    out.extend(small);
    out
}

fn sample() -> Vec<u8> {
    compound_file(&[
        stream("__substg1.0_0037001F", 0, utf16("Lorem ipsum\0")),
        stream("__substg1.0_0C1A001F", 0, utf16("John Doe")),
        stream("__substg1.0_0C1F001F", 0, utf16("john@moon.space")),
        stream("__substg1.0_1000001F", 0, utf16("Hello Lucas, and hello to everyone else who reads this")),
        stream("__substg1.0_10130102", 0, b"<p>Hello Lucas</p>".to_vec()),
        storage("__recip_version1.0_#00000000"),
        storage("__attach_version1.0_#00000000"),
        stream("__substg1.0_3001001F", 6, utf16("Lucas")),
        stream("__substg1.0_39FE001F", 6, utf16("lucas@mercure.space")),
        stream("__substg1.0_3704001F", 7, utf16("image001.png")),
        stream("__substg1.0_370E001F", 7, utf16("image/png")),
        stream("__substg1.0_37010102", 7, vec![0x89, b'P', b'N', b'G']),
    ])
}

fn with_entries(names: &[&'static str], records: Vec<u8>) -> Vec<u8> {
    let mut nodes = vec![
        storage("__nameid_version1.0"),
        stream("__substg1.0_00030102", 1, records),
    ];
    for name in names {
        nodes.push(stream(name, 0, utf16("x")));
    }
    compound_file(&nodes)
}

#[test]
fn a_file_that_is_what_it_says_can_be_read() {
    let readable = |data: Vec<u8>| OutlookMessage::new(data).is_readable();

    assert!(readable(sample()));
    assert!(readable(vec![]));
    assert!(readable(vec![0xff; 2000]));
    assert!(readable(with_entries(&["__substg1.0_0037001F", "é"], vec![0; 16])));
    // The number of the second record has no room for what is added to it.
    let mut records = vec![0; 24];
    records[15] = 0x7f;
    assert!(readable(with_entries(&[], records.clone())));
    records[15] = 0x80;
    assert!(!readable(with_entries(&[], records.clone())));
    // Not a record: the stream ends before.
    records.truncate(15);
    assert!(readable(with_entries(&[], records)));
    // Only the stream of this very name holds records.
    let mut records = vec![0; 8];
    records[7] = 0x80;
    assert!(readable(compound_file(&[stream("__substg1.0_000301020", 0, records.clone())])));
    assert!(readable(compound_file(&[stream("__substg1.0_00030103", 0, records.clone())])));
    assert!(!readable(compound_file(&[stream("__substg1.0_00030102", 0, records)])));
}

#[test]
fn the_tag_of_a_property_is_cut_between_characters() {
    let readable = |name: &'static str| {
        OutlookMessage::new(with_entries(&[name], vec![])).is_readable()
    };

    assert!(!readable("__substg1.0_\u{20ac}\u{20ac}\u{20ac}"));
    assert!(!readable("__substg1.0_abc\u{e9}defg"));
    assert!(!readable("__substg1.0_abcd\u{e9}efg"));
    assert!(readable("__substg1.0_ab\u{e9}defg\u{e9}"));
    assert!(readable("__substg1.0_\u{e9}\u{e9}\u{e9}\u{e9}"));
    assert!(readable("__substg1.0_\u{1f600}\u{1f600}"));
    assert!(readable("__substg1.0_\u{1f600}\u{20ac}0"));
    // Too short to be cut.
    assert!(readable("__substg1.0_\u{20ac}\u{20ac}0"));
    // The tag ends at the next underscore, and begins after all before it.
    assert!(readable("__substg1.0_12345678_\u{20ac}\u{20ac}\u{20ac}"));
    assert!(!readable("__substg1.0___\u{20ac}\u{20ac}\u{20ac}"));
    assert!(readable("__substg1.0\u{20ac}\u{20ac}\u{20ac}_"));
    // What these are cut into is no property, but they are read.
    for name in ["__substg1.0_\u{1f600}\u{1f600}", "__substg1.0_\u{20ac}\u{20ac}0"] {
        let mut parser = OutlookMessage::new(with_entries(&[name], vec![]));
        parser.parse(&mut Cancellation::new(|| false)).unwrap();
        assert_eq!(parser.subject, "");
    }
}

#[test]
fn the_first_entry_need_not_be_the_root() {
    // The directory stands in the second sector. Its first entry becomes a storage,
    // which then names one sector.
    let mut data = with_entries(&[], vec![0; 16]);
    assert_eq!(data[1024 + 66], 5);
    data[1024 + 66] = 1;
    let mut parser = OutlookMessage::new(data);
    assert!(parser.is_readable());
    parser.parse(&mut Cancellation::new(|| false)).unwrap();
    assert_eq!(parser.subject, "");

    // The records are found through it all the same.
    let mut records = vec![0; 8];
    records[7] = 0x80;
    let mut data = with_entries(&[], records);
    data[1024 + 66] = 1;
    assert!(!OutlookMessage::new(data).is_readable());
}

#[test]
fn a_sector_may_be_too_short_for_the_directory() {
    for power in [0, 1, 2, 6] {
        let mut data = sample();
        data[30] = power;
        let mut parser = OutlookMessage::new(data);
        assert!(parser.is_readable());
        if parser.parse(&mut Cancellation::new(|| false)).is_ok() {
            assert_eq!(parser.subject, "");
        }
    }
}

#[test]
fn a_table_that_goes_on_longer_than_announced_cannot_be_read() {
    let word = |data: &mut Vec<u8>, at: usize, value: u32| {
        data[at..at + 4].copy_from_slice(&value.to_le_bytes());
    };
    // The header is full of sectors of the table, and goes on in sector 0.
    let mut data = sample();
    for i in 0..109 {
        word(&mut data, 76 + 4 * i, 0);
    }
    word(&mut data, 68, 0);
    let mut announced = data.clone();
    for i in 0..127 {
        word(&mut announced, 512 + 4 * i, 0);
    }
    word(&mut announced, 512 + 508, END);

    word(&mut announced, 72, 1);
    assert!(OutlookMessage::new(announced.clone()).is_readable());
    word(&mut announced, 72, 0);
    assert!(!OutlookMessage::new(announced.clone()).is_readable());
    // The list ends at once.
    word(&mut announced, 68, END);
    assert!(OutlookMessage::new(announced).is_readable());
    // Sectors of two bytes.
    data[30] = 1;
    assert!(!OutlookMessage::new(data).is_readable());
}

#[test]
fn an_outlook_file_is_read() {
    let mut parser = OutlookMessage::new(sample());
    assert!(parser.is_readable());
    parser.parse(&mut Cancellation::new(|| false)).unwrap();
    assert_eq!(parser.from, "John Doe <john@moon.space>");
    assert_eq!(parser.to, "Lucas <lucas@mercure.space>");
    assert_eq!(parser.subject, "Lorem ipsum");
    assert!(parser.date.is_none());
    assert_eq!(parser.date_header, "");
    assert_eq!(parser.attachments.len(), 1);
    assert_eq!(parser.attachments[0].filename, "image001.png");
    assert_eq!(parser.attachments[0].content_id, "image001.png");
    assert_eq!(parser.attachments[0].body, [0x89, b'P', b'N', b'G']);
    assert!(parser.body.clone().unwrap().contains("Hello Lucas"));
    assert_eq!(parser.html.as_deref(), Some("<p>Hello Lucas</p>"));
    assert_eq!(
        parser.attachments[0].mime_type.clone().unwrap(),
        "image/png"
    );
}

#[test]
fn an_outlook_file_is_read_through_the_parser() {
    let mut message = MessageParser::new(sample(), "application/vnd.ms-outlook", None);
    assert_eq!(message.message_type, MessageType::Msg);
    assert!(matches!(message.parser, Parser::Msg(_)));
    assert!(matches!(message.parse(&mut Cancellation::new(|| true)), Err(ParseError::Cancelled)));
    assert_eq!(message.subject(), "");

    message.parse(&mut Cancellation::new(|| false)).unwrap();
    assert_eq!(message.from(), "John Doe <john@moon.space>");
    assert_eq!(message.to(), "Lucas <lucas@mercure.space>");
    assert_eq!(message.cc(), "");
    assert_eq!(message.bcc(), "");
    assert_eq!(message.subject(), "Lorem ipsum");
    assert_eq!(message.date(), "");
    assert_eq!(message.attachments().len(), 1);
    assert_eq!(message.body_html().as_deref(), Some("<p>Hello Lucas</p>"));
    assert!(message.body_text().is_some());
    assert_eq!(message.protection(), Protection::Plain);
}
