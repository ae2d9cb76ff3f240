use mailviewer_core::message::attachment::{
    file_exists, must_create_folder, Attachment, QueryError, WriteError, DEFAULT_FILENAME,
};

fn attachment(filename: &str) -> Attachment {
    Attachment {
        filename: filename.to_string(),
        content_id: String::new(),
        body: vec![],
        mime_type: None,
    }
}

#[test]
fn safe_filename_keeps_regular_names() {
    assert_eq!(
        attachment("Deus_Gnome.png").safe_filename(),
        "Deus_Gnome.png"
    );
    assert_eq!(
        attachment("état des lieux.pdf").safe_filename(),
        "état des lieux.pdf"
    );
}

#[test]
fn safe_filename_strips_directories() {
    assert_eq!(attachment("../../.bashrc").safe_filename(), ".bashrc");
    assert_eq!(attachment("/etc/passwd").safe_filename(), "passwd");
    assert_eq!(attachment("..\\..\\evil.exe").safe_filename(), "evil.exe");
    assert_eq!(attachment("a/b/c.png").safe_filename(), "c.png");
}

#[test]
fn safe_filename_falls_back_when_nothing_is_left() {
    assert_eq!(attachment("").safe_filename(), DEFAULT_FILENAME);
    assert_eq!(attachment("..").safe_filename(), DEFAULT_FILENAME);
    assert_eq!(attachment("/").safe_filename(), DEFAULT_FILENAME);
    assert_eq!(attachment("evil/").safe_filename(), DEFAULT_FILENAME);
}

#[test]
fn safe_filename_strips_control_characters() {
    assert_eq!(attachment("a\nb\tc.png").safe_filename(), "abc.png");
}

#[test]
fn safe_filename_trims_what_is_left() {
    assert_eq!(attachment("a/ \u{2003}b c\u{a0} ").safe_filename(), "b c");
    assert_eq!(attachment(" . ").safe_filename(), "attachment");
    assert_eq!(attachment("...").safe_filename(), "...");
    assert_eq!(attachment("\u{1}..\u{85}").safe_filename(), "attachment");
}

#[test]
fn a_safe_filename_is_its_own() {
    let mut names = vec![];
    for name in ["a/b", "\t\n", "..", " x ", "\u{9f}y/\u{7f}z"] {
        names.push(attachment(name).safe_filename());
    }
    assert_eq!(names, ["b", "attachment", "attachment", "x", "z"]);
    for name in names {
        assert!(!name.contains('/') && !name.contains('\\'));
        assert_eq!(attachment(&name).safe_filename(), name);
    }
}

#[test]
fn an_attachment_in_words() {
    let mut a = attachment("f.txt");
    assert_eq!(
        a.to_string(),
        "Attachment(content_id: , filename: f.txt, mime_type: None)"
    );
    a.content_id = "id".to_string();
    a.mime_type = Some("text/plain".to_string());
    assert_eq!(
        a.to_string(),
        "Attachment(content_id: id, filename: f.txt, mime_type: text/plain)"
    );
}

#[test]
fn a_written_attachment_is_reported() {
    let mut a = attachment("f.txt");
    a.body = b"BBBB".to_vec();

    assert!(a.write_outcome::<u8>("/tmp/f", Ok(4), Ok(())).is_ok());
    assert!(matches!(
        a.write_outcome("/tmp/f", Ok(4), Err(7u8)),
        Err(WriteError::Io(7))
    ));
    assert!(matches!(
        a.write_outcome("/tmp/f", Err(3u8), Ok(())),
        Err(WriteError::Io(3))
    ));
    assert!(matches!(
        a.write_outcome("/tmp/f", Err(3u8), Err(7)),
        Err(WriteError::Io(7))
    ));
    match a.write_outcome::<u8>("/tmp/f", Ok(3), Ok(())) {
        Err(WriteError::Incomplete(said)) => assert_eq!(
            said,
            "Failed to write Attachment(content_id: , filename: f.txt, mime_type: None) to file \
             /tmp/f: only 3 of 4 bytes have been written"
        ),
        _ => panic!("a part was taken for the whole"),
    }
}

#[test]
fn a_folder_is_created_only_if_it_is_missing() {
    let there = file_exists::<u8>(Ok(()));
    let missing = file_exists::<u8>(Err(QueryError::NotFound));
    let unknown = file_exists(Err(QueryError::Other(5u8)));

    assert_eq!(there, Ok(true));
    assert_eq!(missing, Ok(false));
    assert_eq!(unknown, Err(5));
    assert!(!must_create_folder(&there));
    assert!(must_create_folder(&missing));
    assert!(!must_create_folder(&unknown));
}
