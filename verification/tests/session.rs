use mailviewer_core::message::session::{
    clean_stale_folders, is_older_than, is_session_folder, session_folder_name, FolderEntry, Span,
    Timestamp, STALE_AFTER_SECONDS,
};

const DAY: Span = Span {
    seconds: STALE_AFTER_SECONDS,
    nanos: 0,
};

const TOUCHED: Timestamp = Timestamp {
    seconds: 1_000_000,
    nanos: 500,
};

fn after(days: i64) -> Timestamp {
    Timestamp {
        seconds: TOUCHED.seconds + days * 86400,
        nanos: TOUCHED.nanos,
    }
}

fn entry(name: &str, is_dir: bool) -> FolderEntry {
    FolderEntry {
        name: Some(name.to_string()),
        is_dir,
        modified: Some(TOUCHED),
    }
}

#[test]
fn clean_stale_folders_removes_previous_sessions() {
    let stale = "0123456789abcdef0123456789abcdef";
    let current = "fedcba9876543210fedcba9876543210";

    let removed = clean_stale_folders(
        &vec![entry(stale, true), entry(current, true)],
        current,
        DAY,
        after(2),
    );

    assert_eq!(removed, [stale]);
}

#[test]
fn clean_stale_folders_keeps_recent_sessions() {
    let other = "0123456789abcdef0123456789abcdef";

    // A folder this recent may belong to a second instance still running.
    assert!(clean_stale_folders(&vec![entry(other, true)], "none", DAY, after(0)).is_empty());
}

#[test]
fn clean_stale_folders_only_touches_its_own_folders() {
    let entries = vec![
        entry("not-a-uuid", true),
        entry("0123456789abcdef0123456789abcdef", false),
        FolderEntry {
            name: None,
            is_dir: true,
            modified: Some(TOUCHED),
        },
    ];

    assert!(clean_stale_folders(&entries, "none", DAY, after(2)).is_empty());
}

#[test]
fn session_folders_have_32_digits() {
    assert!(is_session_folder(&entry(
        "0123456789abcdefABCDEF0123456789",
        true
    )));
    assert!(!is_session_folder(&entry(
        "0123456789abcdef0123456789abcde",
        true
    )));
    assert!(!is_session_folder(&entry(
        "0123456789abcdef0123456789abcdefa",
        true
    )));
    assert!(!is_session_folder(&entry(
        "0123456789abcdef0123456789abcdeg",
        true
    )));
    assert!(!is_session_folder(&entry(
        "0123456789abcdef0123456789abcdé",
        true
    )));
}

#[test]
fn age_is_compared_to_the_nanosecond() {
    let folder = entry("x", true);
    let mut now = after(1);
    assert!(is_older_than(&folder, DAY, now));
    now.nanos -= 1;
    assert!(!is_older_than(&folder, DAY, now));
    assert!(!is_older_than(&folder, DAY, after(-1)));
    // In the future, however short the time.
    let nothing = Span {
        seconds: 0,
        nanos: 0,
    };
    assert!(is_older_than(&folder, nothing, after(0)));
    assert!(!is_older_than(&folder, nothing, after(-1)));

    let unknown = FolderEntry {
        name: None,
        is_dir: true,
        modified: None,
    };
    assert!(!is_older_than(&unknown, nothing, after(2)));
    assert!(!is_older_than(
        &folder,
        Span {
            seconds: u64::MAX,
            nanos: u32::MAX
        },
        Timestamp {
            seconds: i64::MAX,
            nanos: u32::MAX
        }
    ));
}

#[test]
fn a_new_name_is_recognised_later() {
    let name = session_folder_name();
    assert_eq!(name.len(), 32);
    assert_eq!(name, name.to_lowercase());
    assert!(is_session_folder(&entry(&name, true)));
    assert_ne!(name, session_folder_name());
    assert_eq!(
        clean_stale_folders(&vec![entry(&name, true)], "other", DAY, after(2)),
        [name]
    );
}
