//! The folders that attachments are extracted to, one for each run of the
//! application, and which of them are leftovers.

use uuid::Uuid;
use vstd::prelude::*;

use crate::text;

verus! {

/// The folder that holds the session folders, under the runtime directory of the
/// user. Not taken from the application, so that a frontend does not have to
/// provide it.
pub const TEMP_FOLDER_NAME: &'static str = "mailviewer";

/// A point in time: seconds since the epoch, and nanoseconds after that second.
#[derive(Debug, Clone, Copy, PartialEq, Eq, Structural)]
pub struct Timestamp {
    pub seconds: i64,
    pub nanos: u32,
}

/// A span of time.
#[derive(Debug, Clone, Copy, PartialEq, Eq, Structural)]
pub struct Span {
    pub seconds: u64,
    pub nanos: u32,
}

/// A day: session folders that have not been touched for this long are leftovers.
/// A more recent one may belong to another instance running at the same time.
pub const STALE_AFTER_SECONDS: u64 = 86400;

impl Timestamp {
    /// Nanoseconds since the epoch.
    pub open spec fn nanoseconds(self) -> int {
        self.seconds * 1_000_000_000 + self.nanos
    }
}

impl Span {
    /// The span in nanoseconds.
    pub open spec fn nanoseconds(self) -> int {
        self.seconds * 1_000_000_000 + self.nanos
    }
}

/// An entry of the folder that holds the session folders.
pub struct FolderEntry {
    /// The name, where it is text.
    pub name: Option<String>,
    /// Whether the entry is known to be a folder.
    pub is_dir: bool,
    /// When the entry was last touched, where that is known.
    pub modified: Option<Timestamp>,
}

/// What is known of an entry.
pub struct EntryView {
    pub name: Option<Seq<char>>,
    pub is_dir: bool,
    pub modified: Option<Timestamp>,
}

impl View for FolderEntry {
    type V = EntryView;

    open spec fn view(&self) -> EntryView {
        EntryView {
            name: text::optional_text(self.name),
            is_dir: self.is_dir,
            modified: self.modified,
        }
    }
}

/// The entries of a list.
pub open spec fn entry_views(entries: Seq<FolderEntry>) -> Seq<EntryView> {
    Seq::new(entries.len(), |i: int| entries[i]@)
}

/// The name of a session folder: a UUID in its simple form, so 32 hexadecimal
/// digits.
pub open spec fn session_name(name: Seq<char>) -> bool {
    &&& name.len() == 32
    &&& forall|i: int| 0 <= i < name.len() ==> text::hex_digit(#[trigger] name[i])
}

/// Anything that is no folder with the name of one was put there by someone else.
pub open spec fn session_folder(entry: EntryView) -> bool {
    entry.is_dir && (entry.name matches Some(name) && session_name(name))
}

/// The entry was last touched at least `older_than` ago, and not in the future.
pub open spec fn older(entry: EntryView, older_than: Span, now: Timestamp) -> bool {
    match entry.modified {
        Some(modified) => modified.nanoseconds() <= now.nanoseconds() && now.nanoseconds()
            - modified.nanoseconds() >= older_than.nanoseconds(),
        None => false,
    }
}

/// The entry is a leftover of an earlier run, and not the folder to keep.
pub open spec fn stale(entry: EntryView, keep: Seq<char>, older_than: Span, now: Timestamp) -> bool {
    &&& session_folder(entry)
    &&& entry.name != Some(keep)
    &&& older(entry, older_than, now)
}

/// The names of the leftovers, in the order of the entries.
pub open spec fn stale_names(
    entries: Seq<EntryView>,
    keep: Seq<char>,
    older_than: Span,
    now: Timestamp,
) -> Seq<Seq<char>>
    decreases entries.len(),
{
    if entries.len() == 0 {
        Seq::empty()
    } else {
        let front = stale_names(entries.drop_last(), keep, older_than, now);
        if stale(entries.last(), keep, older_than, now) {
            front.push(entries.last().name->0)
        } else {
            front
        }
    }
}

/// Whether an entry is a session folder.
pub fn is_session_folder(entry: &FolderEntry) -> (r: bool)
    ensures
        r == session_folder(entry@),
{
    if !entry.is_dir {
        return false;
    }
    match &entry.name {
        Some(name) => is_session_name(name.as_str()),
        None => false,
    }
}

/// Whether a name is that of a session folder.
fn is_session_name(name: &str) -> (r: bool)
    ensures
        r == session_name(name@),
{
    let chars = text::chars_of(name);
    if chars.len() != 32 {
        return false;
    }
    for i in 0..chars.len()
        invariant
            chars@ == name@,
            forall|j: int| 0 <= j < i ==> text::hex_digit(#[trigger] name@[j]),
    {
        let c = chars[i];
        if !(('0' <= c && c <= '9') || ('a' <= c && c <= 'f') || ('A' <= c && c <= 'F')) {
            assert(!text::hex_digit(name@[i as int]));
            return false;
        }
    }
    true
}

/// Whether an entry was last touched at least `older_than` ago.
pub fn is_older_than(entry: &FolderEntry, older_than: Span, now: Timestamp) -> (r: bool)
    ensures
        r == older(entry@, older_than, now),
{
    match entry.modified {
        Some(modified) => {
            let then: i128 = modified.seconds as i128 * 1_000_000_000 + modified.nanos as i128;
            let now: i128 = now.seconds as i128 * 1_000_000_000 + now.nanos as i128;
            let least: i128 = older_than.seconds as i128 * 1_000_000_000 + older_than.nanos as i128;
            then <= now && now - then >= least
        },
        None => false,
    }
}

/// The names of the folders to remove: those of earlier runs, but for the one to
/// keep.
pub fn clean_stale_folders(
    entries: &Vec<FolderEntry>,
    keep: &str,
    older_than: Span,
    now: Timestamp,
) -> (r: Vec<String>)
    ensures
        text::texts(r@) == stale_names(entry_views(entries@), keep@, older_than, now),
{
    let ghost all = entry_views(entries@);
    let mut names: Vec<String> = Vec::new();
    assert(text::texts(names@) =~= stale_names(all.take(0), keep@, older_than, now));
    for i in 0..entries.len()
        invariant
            all == entry_views(entries@),
            text::texts(names@) == stale_names(all.take(i as int), keep@, older_than, now),
    {
        let entry = &entries[i];
        let ghost before = names@;
        proof {
            assert(all.take(i + 1).drop_last() =~= all.take(i as int));
            assert(all.take(i + 1).last() == entry@);
        }
        match &entry.name {
            Some(name) => {
                if !text::same_text(name.as_str(), keep) && is_session_folder(entry)
                    && is_older_than(entry, older_than, now) {
                    names.push(name.clone());
                    assert(text::texts(names@) =~= text::texts(before).push(name@));
                }
            },
            None => {},
        }
    }
    assert(all.take(entries@.len() as int) =~= all);
    names
}

/// `Uuid::new_v4` of `uuid` in its simple form: 32 hexadecimal digits in lower
/// case. Which ones is left to chance.
#[verifier::external_body]
fn random_name() -> (r: String)
    ensures
        session_name(r@),
        text::ascii_lowercase(r@) == r@,
{
    Uuid::new_v4().simple().to_string()
}

/// A name for the session folder of this run. It is one that is recognised as
/// such later on.
pub fn session_folder_name() -> (r: String)
    ensures
        session_name(r@),
        text::ascii_lowercase(r@) == r@,
{
    random_name()
}

/// The folder to keep, anything that is no session folder, and any folder that
/// was touched too recently stays: what is removed is the name of a leftover.
pub proof fn law_only_leftovers_are_removed(
    entries: Seq<EntryView>,
    keep: Seq<char>,
    older_than: Span,
    now: Timestamp,
)
    ensures
        !stale_names(entries, keep, older_than, now).contains(keep),
        forall|name: Seq<char>| #[trigger]
            stale_names(entries, keep, older_than, now).contains(name) ==> exists|i: int|
                0 <= i < entries.len() && (#[trigger] entries[i]).name == Some(name)
                    && session_folder(entries[i]) && older(entries[i], older_than, now),
    decreases entries.len(),
{
    let names = stale_names(entries, keep, older_than, now);
    if entries.len() > 0 {
        let rest = entries.drop_last();
        let front = stale_names(rest, keep, older_than, now);
        law_only_leftovers_are_removed(rest, keep, older_than, now);
        assert forall|name: Seq<char>| #[trigger] names.contains(name) implies name != keep
            && exists|i: int|
            0 <= i < entries.len() && (#[trigger] entries[i]).name == Some(name) && session_folder(
                entries[i],
            ) && older(entries[i], older_than, now) by {
            let k = choose|k: int| 0 <= k < names.len() && names[k] == name;
            if k < front.len() {
                assert(front[k] == names[k]);
                assert(front.contains(name));
                let i = choose|i: int|
                    0 <= i < rest.len() && (#[trigger] rest[i]).name == Some(name)
                        && session_folder(rest[i]) && older(rest[i], older_than, now);
                assert(entries[i] == rest[i]);
            } else {
                assert(entries[entries.len() - 1] == entries.last());
            }
        }
    }
}

/// Every leftover is removed.
pub proof fn law_every_leftover_is_removed(
    entries: Seq<EntryView>,
    keep: Seq<char>,
    older_than: Span,
    now: Timestamp,
    i: int,
)
    requires
        0 <= i < entries.len(),
        stale(entries[i], keep, older_than, now),
    ensures
        stale_names(entries, keep, older_than, now).contains(entries[i].name->0),
    decreases entries.len(),
{
    let names = stale_names(entries, keep, older_than, now);
    let rest = entries.drop_last();
    let front = stale_names(rest, keep, older_than, now);
    if i < rest.len() {
        assert(rest[i] == entries[i]);
        law_every_leftover_is_removed(rest, keep, older_than, now, i);
        let k = choose|k: int| 0 <= k < front.len() && front[k] == entries[i].name->0;
        assert(names[k] == front[k]);
    } else {
        assert(entries[i] == entries.last());
        assert(names[names.len() - 1] == entries[i].name->0);
    }
}

/// An entry of the folder is a leftover, by what it is: a folder with a name of 32
/// hexadecimal digits that is not the one to keep, last touched no later than now
/// and at least `older_than` ago.
pub open spec fn leftover(
    entry: FolderEntry,
    keep: Seq<char>,
    older_than: Span,
    now: Timestamp,
) -> bool {
    match (entry.name, entry.modified) {
        (Some(name), Some(touched)) => {
            let passed = (now.seconds - touched.seconds) * 1_000_000_000 + now.nanos
                - touched.nanos;
            &&& entry.is_dir
            &&& name@ != keep
            &&& name@.len() == 32
            &&& forall|i: int|
                0 <= i < 32 ==> {
                    let code = (#[trigger] name@[i]) as int;
                    48 <= code <= 57 || 65 <= code <= 70 || 97 <= code <= 102
                }
            &&& passed >= 0
            &&& passed >= older_than.seconds * 1_000_000_000 + older_than.nanos
        },
        _ => false,
    }
}

proof fn lemma_leftover(entry: FolderEntry, keep: Seq<char>, older_than: Span, now: Timestamp)
    ensures
        leftover(entry, keep, older_than, now) == stale(entry@, keep, older_than, now),
{
    if let Some(name) = entry.name {
        if session_name(name@) {
            assert forall|i: int| 0 <= i < 32 implies {
                let code = (#[trigger] name@[i]) as int;
                48 <= code <= 57 || 65 <= code <= 70 || 97 <= code <= 102
            } by {
                assert(text::hex_digit(name@[i]));
            }
        }
    }
}

/// What is to be removed is the leftovers: the name of each of them, and no other
/// name.
pub proof fn law_what_is_removed_is_the_leftovers(
    entries: Vec<FolderEntry>,
    keep: &str,
    older_than: Span,
    now: Timestamp,
    removed: Vec<String>,
    name: Seq<char>,
)
    requires
        call_ensures(clean_stale_folders, (&entries, keep, older_than, now), removed),
    ensures
        text::texts(removed@).contains(name) <==> exists|i: int|
            0 <= i < entries@.len() && leftover(#[trigger] entries@[i], keep@, older_than, now)
                && entries@[i].name->0@ == name,
{
    let all = entry_views(entries@);
    let names = text::texts(removed@);
    law_only_leftovers_are_removed(all, keep@, older_than, now);
    if names.contains(name) {
        let i = choose|i: int|
            0 <= i < all.len() && (#[trigger] all[i]).name == Some(name) && session_folder(all[i])
                && older(all[i], older_than, now);
        lemma_leftover(entries@[i], keep@, older_than, now);
        assert(leftover(entries@[i], keep@, older_than, now));
    }
    if exists|i: int|
        0 <= i < entries@.len() && leftover(#[trigger] entries@[i], keep@, older_than, now)
            && entries@[i].name->0@ == name {
        let i = choose|i: int|
            0 <= i < entries@.len() && leftover(#[trigger] entries@[i], keep@, older_than, now)
                && entries@[i].name->0@ == name;
        lemma_leftover(entries@[i], keep@, older_than, now);
        law_every_leftover_is_removed(all, keep@, older_than, now, i);
    }
}

/// The names come in the order of the entries: looking through the entries in two
/// batches gives those of the first batch and then those of the second.
pub proof fn law_leftovers_come_in_order(
    a: Seq<EntryView>,
    b: Seq<EntryView>,
    keep: Seq<char>,
    older_than: Span,
    now: Timestamp,
)
    ensures
        stale_names(a + b, keep, older_than, now) == stale_names(a, keep, older_than, now)
            + stale_names(b, keep, older_than, now),
        b.len() == 1 ==> stale_names(b, keep, older_than, now).len() <= 1,
    decreases b.len(),
{
    if b.len() > 0 {
        let front = b.drop_last();
        law_leftovers_come_in_order(a, front, keep, older_than, now);
        assert((a + b).drop_last() =~= a + front);
        assert((a + b).last() == b.last());
        assert(stale_names(a + b, keep, older_than, now) =~= stale_names(a, keep, older_than, now)
            + stale_names(b, keep, older_than, now));
        if b.len() == 1 {
            assert(front =~= Seq::<EntryView>::empty());
        }
    } else {
        assert(a + b =~= a);
        assert(stale_names(a, keep, older_than, now) + stale_names(b, keep, older_than, now)
            =~= stale_names(a, keep, older_than, now));
    }
}

/// Only a folder whose name is 32 hexadecimal digits counts as one of a session,
/// and such a folder always does.
pub proof fn law_a_session_folder_is_known_by_its_name(entry: FolderEntry, found: bool)
    requires
        call_ensures(is_session_folder, (&entry,), found),
    ensures
        found ==> entry.is_dir && entry.name is Some && entry.name->0@.len() == 32 && forall|i: int|
            0 <= i < 32 ==> {
                let code = (#[trigger] entry.name->0@[i]) as int;
                48 <= code <= 57 || 65 <= code <= 70 || 97 <= code <= 102
            },
        entry.is_dir && entry.name is Some && entry.name->0@.len() == 32 && (forall|i: int|
            0 <= i < 32 ==> {
                let code = (#[trigger] entry.name->0@[i]) as int;
                48 <= code <= 57 || 65 <= code <= 70 || 97 <= code <= 102
            }) ==> found,
{
    if found {
        let name = entry.name->0@;
        assert forall|i: int| 0 <= i < 32 implies {
            let code = (#[trigger] name[i]) as int;
            48 <= code <= 57 || 65 <= code <= 70 || 97 <= code <= 102
        } by {
            assert(text::hex_digit(name[i]));
        }
    }
}

/// An entry is old once the span has passed since it was touched, to the
/// nanosecond. One that was touched in the future, or nobody knows when, is not.
pub proof fn law_age_is_the_time_that_has_passed(
    entry: FolderEntry,
    older_than: Span,
    now: Timestamp,
    found: bool,
)
    requires
        call_ensures(is_older_than, (&entry, older_than, now), found),
    ensures
        entry.modified is None ==> !found,
        entry.modified matches Some(touched) ==> {
            let passed = (now.seconds - touched.seconds) * 1_000_000_000 + now.nanos
                - touched.nanos;
            found == (passed >= 0 && passed >= older_than.seconds * 1_000_000_000
                + older_than.nanos)
        },
{
}

/// A folder is left alone for a day, and the folders are kept under one name.
pub proof fn law_a_folder_is_left_alone_for_a_day()
    ensures
        STALE_AFTER_SECONDS == 24 * 60 * 60,
        TEMP_FOLDER_NAME@ == "mailviewer"@,
{
}

} // verus!
