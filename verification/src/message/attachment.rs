//! Files that come with a message, and how they are written to disk.

use vstd::prelude::*;

use crate::text;

verus! {

/// The name of an attachment whose own name leaves nothing to use.
pub const DEFAULT_FILENAME: &'static str = "attachment";

/// A file that comes with a message.
#[derive(Debug)]
pub struct Attachment {
    pub filename: String,
    pub content_id: String,
    pub body: Vec<u8>,
    pub mime_type: Option<String>,
}

/// What an attachment holds.
pub struct AttachmentView {
    pub filename: Seq<char>,
    pub content_id: Seq<char>,
    pub body: Seq<u8>,
    pub mime_type: Option<Seq<char>>,
}

impl View for Attachment {
    type V = AttachmentView;

    open spec fn view(&self) -> AttachmentView {
        AttachmentView {
            filename: self.filename@,
            content_id: self.content_id@,
            body: self.body@,
            mime_type: text::optional_text(self.mime_type),
        }
    }
}

impl Clone for Attachment {
    fn clone(&self) -> (r: Self)
        ensures
            r@ == self@,
    {
        let body = self.body.clone();
        assert(body@ =~= self.body@);
        Attachment {
            filename: self.filename.clone(),
            content_id: self.content_id.clone(),
            body,
            mime_type: text::clone_optional(&self.mime_type),
        }
    }
}

/// What the attachments of a list hold.
pub open spec fn attachment_views(attachments: Seq<Attachment>) -> Seq<AttachmentView> {
    Seq::new(attachments.len(), |i: int| attachments[i]@)
}

/// A copy of a list of attachments.
pub(crate) fn clone_attachments(attachments: &Vec<Attachment>) -> (r: Vec<Attachment>)
    ensures
        attachment_views(r@) == attachment_views(attachments@),
{
    let mut out: Vec<Attachment> = Vec::new();
    for i in 0..attachments.len()
        invariant
            attachment_views(out@) == attachment_views(attachments@).take(i as int),
    {
        let ghost before = out@;
        out.push(attachments[i].clone());
        assert(attachment_views(out@) =~= attachment_views(before).push(attachments@[i as int]@));
        assert(attachment_views(attachments@).take(i + 1) =~= attachment_views(attachments@).take(
            i as int,
        ).push(attachments@[i as int]@));
    }
    assert(attachment_views(attachments@).take(attachments@.len() as int) =~= attachment_views(
        attachments@,
    ));
    out
}

/// A character that separates the segments of a path, on any system.
pub open spec fn separator(c: char) -> bool {
    c == '/' || c == '\\'
}

/// What stands behind the last separator, or everything if there is none.
pub open spec fn last_segment(name: Seq<char>) -> Seq<char>
    decreases name.len(),
{
    if name.len() == 0 || separator(name.last()) {
        Seq::empty()
    } else {
        last_segment(name.drop_last()).push(name.last())
    }
}

/// The text without its control characters.
pub open spec fn without_controls(s: Seq<char>) -> Seq<char> {
    s.filter(|c: char| !text::control(c))
}

/// A name that means no file of its directory, but nothing or a directory.
pub open spec fn no_file(name: Seq<char>) -> bool {
    name.len() == 0 || name == "."@ || name == ".."@
}

/// The file name to use for an attachment that calls itself `name`.
pub open spec fn safe_name(name: Seq<char>) -> Seq<char> {
    let kept = text::trimmed(without_controls(last_segment(name)));
    if no_file(kept) {
        DEFAULT_FILENAME@
    } else {
        kept
    }
}

/// What an attachment is called in messages to the user.
pub open spec fn description(a: AttachmentView) -> Seq<char> {
    "Attachment(content_id: "@ + a.content_id + ", filename: "@ + a.filename + ", mime_type: "@
        + match a.mime_type {
        Some(mime_type) => mime_type,
        None => "None"@,
    } + ")"@
}

/// What is said of a file that was written in part.
pub open spec fn incomplete_text(a: AttachmentView, path: Seq<char>, written: nat) -> Seq<char> {
    "Failed to write "@ + description(a) + " to file "@ + path + ": only "@ + text::decimal(written)
        + " of "@ + text::decimal(a.body.len()) + " bytes have been written"@
}

/// Why an attachment was not written.
#[derive(Debug)]
pub enum WriteError<E> {
    /// The file could not be written or closed.
    Io(E),
    /// Only a part was written: what to say of it.
    Incomplete(String),
}

/// What became of the question for a file.
#[derive(Debug)]
pub enum QueryError<E> {
    NotFound,
    Other(E),
}

impl Attachment {
    /// The file name comes from the message, so it can contain anything, including
    /// path separators and dot segments. Whoever joins it to a directory resolves
    /// those, so writing to `filename` directly can escape the target directory.
    pub fn safe_filename(&self) -> (r: String)
        ensures
            r@ == safe_name(self.filename@),
    {
        let chars = text::chars_of(self.filename.as_str());
        let mut from: usize = chars.len();
        let ghost end = chars@.len();
        assert(chars@.take(end as int) =~= chars@);
        assert(chars@.subrange(end as int, end as int) =~= Seq::<char>::empty());
        while from > 0 && chars[from - 1] != '/' && chars[from - 1] != '\\'
            invariant
                from <= end == chars@.len(),
                last_segment(chars@) == last_segment(chars@.take(from as int)) + chars@.subrange(
                    from as int,
                    end as int,
                ),
            decreases from,
        {
            proof {
                let now = chars@.take(from as int);
                assert(now.drop_last() =~= chars@.take(from - 1));
                assert(last_segment(chars@) =~= last_segment(chars@.take(from - 1))
                    + chars@.subrange(from - 1, end as int));
            }
            from = from - 1;
        }
        assert(last_segment(chars@) =~= chars@.subrange(from as int, end as int));
        let mut kept: Vec<char> = Vec::new();
        let mut i: usize = from;
        assert(chars@.subrange(from as int, from as int) =~= Seq::<char>::empty());
        proof {
            reveal(Seq::filter);
        }
        while i < chars.len()
            invariant
                from <= i <= end == chars@.len(),
                kept@ == without_controls(chars@.subrange(from as int, i as int)),
            decreases end - i,
        {
            let c = chars[i];
            if !text::is_control(c) {
                kept.push(c);
            }
            proof {
                reveal(Seq::filter);
                assert(chars@.subrange(from as int, i + 1).drop_last() =~= chars@.subrange(
                    from as int,
                    i as int,
                ));
            }
            i = i + 1;
        }
        let name = text::trim(&kept);
        if name.as_str().is_empty() || text::same_text(name.as_str(), ".") || text::same_text(
            name.as_str(),
            "..",
        ) {
            return DEFAULT_FILENAME.to_owned();
        }
        name
    }

    /// What the attachment is called in messages to the user.
    pub fn to_string(&self) -> (r: String)
        ensures
            r@ == description(self@),
    {
        let mut out = String::new();
        out.append("Attachment(content_id: ");
        out.append(self.content_id.as_str());
        out.append(", filename: ");
        out.append(self.filename.as_str());
        out.append(", mime_type: ");
        match &self.mime_type {
            Some(mime_type) => out.append(mime_type.as_str()),
            None => out.append("None"),
        }
        out.append(")");
        assert(out@ =~= description(self@));
        out
    }

    /// What to report once the body was written to the file at `path` and the
    /// file was closed: `written` says how many bytes arrived. A file that
    /// cannot be closed is reported first.
    pub fn write_outcome<E>(
        &self,
        path: &str,
        written: Result<usize, E>,
        closed: Result<(), E>,
    ) -> (r: Result<(), WriteError<E>>)
        ensures
            match (closed, written) {
                (Err(e), _) => r == Err::<(), WriteError<E>>(WriteError::Io(e)),
                (Ok(_), Err(e)) => r == Err::<(), WriteError<E>>(WriteError::Io(e)),
                (Ok(_), Ok(n)) => if n == self.body@.len() {
                    r is Ok
                } else {
                    r matches Err(WriteError::Incomplete(said)) && said@ == incomplete_text(
                        self@,
                        path@,
                        n as nat,
                    )
                },
            },
    {
        match closed {
            Err(e) => Err(WriteError::Io(e)),
            Ok(_) => match written {
                Err(e) => Err(WriteError::Io(e)),
                Ok(n) => {
                    if n == self.body.len() {
                        return Ok(());
                    }
                    let mut out = String::new();
                    out.append("Failed to write ");
                    out.append(self.to_string().as_str());
                    out.append(" to file ");
                    out.append(path);
                    out.append(": only ");
                    text::push_decimal(&mut out, n as u64);
                    out.append(" of ");
                    text::push_decimal(&mut out, self.body.len() as u64);
                    out.append(" bytes have been written");
                    assert(out@ =~= incomplete_text(self@, path@, n as nat));
                    Err(WriteError::Incomplete(out))
                },
            },
        }
    }
}

/// Whether a file exists, by the answer to a question for it: a file that is not
/// found does not exist, any other failure is reported.
pub fn file_exists<E>(query: Result<(), QueryError<E>>) -> (r: Result<bool, E>)
    ensures
        match query {
            Ok(_) => r == Ok::<bool, E>(true),
            Err(QueryError::NotFound) => r == Ok::<bool, E>(false),
            Err(QueryError::Other(e)) => r == Err::<bool, E>(e),
        },
{
    match query {
        Ok(_) => Ok(true),
        Err(QueryError::NotFound) => Ok(false),
        Err(QueryError::Other(e)) => Err(e),
    }
}

/// Whether the folder for extracted attachments has to be created before one is
/// written to it: only if it is known not to exist.
pub fn must_create_folder<E>(exists: &Result<bool, E>) -> (r: bool)
    ensures
        r == (*exists matches Ok(found) && !found),
{
    match exists {
        Ok(found) => !*found,
        Err(_) => false,
    }
}

proof fn lemma_last_segment(name: Seq<char>)
    ensures
        forall|i: int|
            0 <= i < last_segment(name).len() ==> !separator(#[trigger] last_segment(name)[i]),
        (forall|i: int| 0 <= i < name.len() ==> !separator(#[trigger] name[i])) ==> last_segment(name)
            == name,
    decreases name.len(),
{
    if name.len() > 0 {
        lemma_last_segment(name.drop_last());
        if !separator(name.last()) {
            assert forall|i: int| 0 <= i < last_segment(name).len() implies !separator(
                #[trigger] last_segment(name)[i],
            ) by {
                if i < last_segment(name.drop_last()).len() {
                    assert(last_segment(name)[i] == last_segment(name.drop_last())[i]);
                }
            }
        }
        if forall|i: int| 0 <= i < name.len() ==> !separator(#[trigger] name[i]) {
            assert forall|i: int| 0 <= i < name.drop_last().len() implies !separator(
                #[trigger] name.drop_last()[i],
            ) by {
                assert(name.drop_last()[i] == name[i]);
            }
            assert(name.drop_last().push(name.last()) =~= name);
        }
    } else {
        assert(last_segment(name) =~= name);
    }
}

proof fn lemma_without_controls(s: Seq<char>)
    ensures
        forall|i: int|
            0 <= i < without_controls(s).len() ==> {
                &&& !text::control(#[trigger] without_controls(s)[i])
                &&& s.contains(without_controls(s)[i])
            },
        (forall|i: int| 0 <= i < s.len() ==> !text::control(#[trigger] s[i])) ==> without_controls(s)
            == s,
    decreases s.len(),
{
    reveal(Seq::filter);
    if s.len() > 0 {
        let front = s.drop_last();
        lemma_without_controls(front);
        assert forall|i: int| 0 <= i < without_controls(s).len() implies {
            &&& !text::control(#[trigger] without_controls(s)[i])
            &&& s.contains(without_controls(s)[i])
        } by {
            if i < without_controls(front).len() {
                assert(without_controls(s)[i] == without_controls(front)[i]);
                let j = choose|j: int| 0 <= j < front.len() && front[j] == without_controls(front)[i];
                assert(s[j] == front[j]);
            } else {
                assert(s[s.len() - 1] == without_controls(s)[i]);
            }
        }
        if forall|i: int| 0 <= i < s.len() ==> !text::control(#[trigger] s[i]) {
            assert forall|i: int| 0 <= i < front.len() implies !text::control(
                #[trigger] front[i],
            ) by {
                assert(front[i] == s[i]);
            }
            assert(front.push(s.last()) =~= s);
        }
    }
}

/// Whatever an attachment calls itself, the name it is written under stays in
/// its directory: it is not empty, it names neither the directory nor its
/// parent, and it holds no separator and no control character.
pub proof fn law_safe_name_stays_inside(name: Seq<char>)
    ensures
        !no_file(safe_name(name)),
        forall|i: int|
            0 <= i < safe_name(name).len() ==> {
                &&& !separator(#[trigger] safe_name(name)[i])
                &&& !text::control(safe_name(name)[i])
            },
{
    reveal_strlit("attachment");
    reveal_strlit(".");
    reveal_strlit("..");
    assert(DEFAULT_FILENAME@.len() == 10 && "."@.len() == 1 && ".."@.len() == 2);
    let segment = last_segment(name);
    let plain = without_controls(segment);
    lemma_last_segment(name);
    lemma_without_controls(segment);
    text::lemma_trimmed(plain);
    let kept = text::trimmed(plain);
    assert forall|i: int| 0 <= i < kept.len() implies {
        &&& !separator(#[trigger] kept[i])
        &&& !text::control(kept[i])
    } by {
        assert(plain.contains(kept[i]));
        let j = choose|j: int| 0 <= j < plain.len() && plain[j] == kept[i];
        assert(segment.contains(plain[j]));
    }
}

/// A safe name is its own safe name.
pub proof fn law_safe_name_is_stable(name: Seq<char>)
    ensures
        safe_name(safe_name(name)) == safe_name(name),
{
    reveal_strlit("attachment");
    reveal_strlit(".");
    reveal_strlit("..");
    let safe = safe_name(name);
    law_safe_name_stays_inside(name);
    lemma_last_segment(safe);
    lemma_without_controls(safe);
    text::lemma_trimmed(without_controls(last_segment(name)));
    text::lemma_trimmed(safe);
}

proof fn lemma_last_segment_after(before: Seq<char>, separating: char, name: Seq<char>)
    requires
        separator(separating),
    ensures
        last_segment(before + seq![separating] + name) == last_segment(name),
    decreases name.len(),
{
    let all = before + seq![separating] + name;
    if name.len() == 0 {
        assert(all.last() == separating);
    } else {
        assert(all.last() == name.last());
        assert(all.drop_last() =~= before + seq![separating] + name.drop_last());
        lemma_last_segment_after(before, separating, name.drop_last());
    }
}

/// Only what stands behind the last separator counts: whatever directories a name
/// puts before another one, it is written under the same name.
pub proof fn law_directories_do_not_count(
    a: Attachment,
    b: Attachment,
    directories: Seq<char>,
    separating: char,
    a_name: String,
    b_name: String,
)
    requires
        separating == '/' || separating == '\\',
        a.filename@ == directories + seq![separating] + b.filename@,
        call_ensures(Attachment::safe_filename, (&a,), a_name),
        call_ensures(Attachment::safe_filename, (&b,), b_name),
    ensures
        a_name@ == b_name@,
{
    lemma_last_segment_after(directories, separating, b.filename@);
}

proof fn lemma_without_controls_of(a: Seq<char>, b: Seq<char>)
    ensures
        without_controls(a + b) == without_controls(a) + without_controls(b),
    decreases b.len(),
{
    reveal(Seq::filter);
    if b.len() > 0 {
        lemma_without_controls_of(a, b.drop_last());
        assert((a + b).drop_last() =~= a + b.drop_last());
        assert((a + b).last() == b.last());
        assert(without_controls(a + b) =~= without_controls(a) + without_controls(b));
    } else {
        assert(a + b =~= a);
        assert(without_controls(a) + without_controls(b) =~= without_controls(a));
    }
}

proof fn lemma_last_segment_with_control(before: Seq<char>, c: char, after: Seq<char>)
    requires
        text::control(c),
    ensures
        without_controls(last_segment(before + seq![c] + after)) == without_controls(
            last_segment(before + after),
        ),
    decreases after.len(),
{
    let with = before + seq![c] + after;
    let without = before + after;
    if after.len() == 0 {
        assert(without =~= before);
        assert(with.last() == c);
        assert(with.drop_last() =~= before);
        assert(last_segment(with) == last_segment(before).push(c));
        assert(last_segment(before).push(c) =~= last_segment(before) + seq![c]);
        lemma_without_controls_of(last_segment(before), seq![c]);
        assert(without_controls(seq![c]) =~= Seq::<char>::empty()) by {
            reveal(Seq::filter);
            assert(seq![c].drop_last() =~= Seq::<char>::empty());
            assert(seq![c].last() == c);
            assert(without_controls(Seq::<char>::empty()) =~= Seq::<char>::empty());
        }
        assert(without_controls(last_segment(with)) =~= without_controls(last_segment(before)));
    } else {
        let last = after.last();
        let front = after.drop_last();
        assert(with.last() == last && without.last() == last);
        assert(with.drop_last() =~= before + seq![c] + front);
        assert(without.drop_last() =~= before + front);
        lemma_last_segment_with_control(before, c, front);
        if !separator(last) {
            let x = last_segment(before + seq![c] + front);
            let y = last_segment(before + front);
            assert(x.push(last) =~= x + seq![last]);
            assert(y.push(last) =~= y + seq![last]);
            lemma_without_controls_of(x, seq![last]);
            lemma_without_controls_of(y, seq![last]);
        }
    }
}

/// A control character does not count, wherever it stands in a name.
pub proof fn law_controls_do_not_count(
    a: Attachment,
    b: Attachment,
    before: Seq<char>,
    c: char,
    after: Seq<char>,
    a_name: String,
    b_name: String,
)
    requires
        (c as int) < 32 || 127 <= (c as int) < 160,
        a.filename@ == before + seq![c] + after,
        b.filename@ == before + after,
        call_ensures(Attachment::safe_filename, (&a,), a_name),
        call_ensures(Attachment::safe_filename, (&b,), b_name),
    ensures
        a_name@ == b_name@,
{
    lemma_last_segment_with_control(before, c, after);
}

proof fn lemma_blank(s: Seq<char>)
    requires
        text::blank(s),
    ensures
        forall|i: int|
            0 <= i < s.len() ==> text::white_space(#[trigger] s[i]) && !separator(s[i]),
        forall|i: int|
            0 <= i < without_controls(s).len() ==> text::white_space(
                #[trigger] without_controls(s)[i],
            ),
{
    assert forall|i: int| 0 <= i < s.len() implies text::white_space(#[trigger] s[i])
        && !separator(s[i]) by {
        text::law_white_space_is_that_of_unicode(s[i]);
    }
    lemma_without_controls(s);
    assert forall|i: int| 0 <= i < without_controls(s).len() implies text::white_space(
        #[trigger] without_controls(s)[i],
    ) by {
        assert(s.contains(without_controls(s)[i]));
    }
}

/// A name that holds neither separators nor controls is kept as it is, without the
/// blanks around it. Where that leaves nothing, or what means a directory, it is
/// `attachment`.
pub proof fn law_a_harmless_name_is_kept(
    a: Attachment,
    before: Seq<char>,
    name: Seq<char>,
    after: Seq<char>,
    kept: String,
)
    requires
        a.filename@ == before + name + after,
        text::blank(before),
        text::blank(after),
        forall|i: int|
            0 <= i < name.len() ==> {
                let code = (#[trigger] name[i]) as int;
                code != 47 && code != 92 && code >= 32 && !(127 <= code < 160)
            },
        name.len() > 0 ==> !text::blanks().contains(name.first() as int)
            && !text::blanks().contains(name.last() as int),
        call_ensures(Attachment::safe_filename, (&a,), kept),
    ensures
        name.len() == 0 || name == seq!['.'] || name == seq!['.', '.'] ==> kept@ == "attachment"@,
        name.len() > 0 && name != seq!['.'] && name != seq!['.', '.'] ==> kept@ == name,
{
    lemma_blank(before);
    lemma_blank(after);
    lemma_last_segment(a.filename@);
    assert(last_segment(a.filename@) == a.filename@);
    lemma_without_controls(name);
    lemma_without_controls_of(before + name, after);
    lemma_without_controls_of(before, name);
    assert(without_controls(name) == name);
    if name.len() > 0 {
        text::law_white_space_is_that_of_unicode(name.first());
        text::law_white_space_is_that_of_unicode(name.last());
    }
    text::law_trimming_takes_what_is_around(
        without_controls(before),
        name,
        without_controls(after),
    );
    reveal_strlit(".");
    reveal_strlit("..");
    assert(seq!['.'] =~= "."@);
    assert(seq!['.', '.'] =~= ".."@);
}

/// What an attachment is called names its id, its file name and its type, in this
/// order. One without a type is said to have `None`.
pub proof fn law_an_attachment_is_described_by_its_fields(a: Attachment, said: String)
    requires
        call_ensures(Attachment::to_string, (&a,), said),
    ensures
        a.mime_type matches Some(mime_type) ==> said@ == "Attachment(content_id: "@ + a.content_id@
            + ", filename: "@ + a.filename@ + ", mime_type: "@ + mime_type@ + ")"@,
        a.mime_type is None ==> said@ == "Attachment(content_id: "@ + a.content_id@
            + ", filename: "@ + a.filename@ + ", mime_type: "@ + "None"@ + ")"@,
{
}

/// A failure to close is reported before one to write, and either before a file that
/// is too short. A file is complete where every byte of the body arrived. One that is
/// not is reported with what the attachment is called, the path and both numbers.
pub proof fn law_only_a_complete_file_is_a_success<E>(
    a: Attachment,
    path: &str,
    written: Result<usize, E>,
    closed: Result<(), E>,
    name: String,
    r: Result<(), WriteError<E>>,
)
    requires
        call_ensures(Attachment::to_string, (&a,), name),
        call_ensures(Attachment::write_outcome::<E>, (&a, path, written, closed), r),
    ensures
        r is Ok <==> closed is Ok && (written matches Ok(n) && n == a.body@.len()),
        closed matches Err(e) ==> r == Err::<(), WriteError<E>>(WriteError::Io(e)),
        closed is Ok ==> (written matches Err(e) ==> r == Err::<(), WriteError<E>>(
            WriteError::Io(e),
        )),
        closed is Ok ==> (written matches Ok(n) ==> n != a.body@.len() ==> (r matches Err(
            WriteError::Incomplete(said),
        ) && said@ == "Failed to write "@ + name@ + " to file "@ + path@ + ": only "@
            + text::decimal(n as nat) + " of "@ + text::decimal(a.body@.len())
            + " bytes have been written"@)),
{
}

/// Only what is not found does not exist, and a failure to find out is handed on.
/// The folder is made only where it is known not to exist.
pub proof fn law_only_what_is_not_found_is_made<E>(
    query: Result<(), QueryError<E>>,
    exists: Result<bool, E>,
    made: bool,
)
    requires
        call_ensures(file_exists::<E>, (query,), exists),
        call_ensures(must_create_folder::<E>, (&exists,), made),
    ensures
        made <==> query matches Err(QueryError::NotFound),
        exists is Err <==> query matches Err(QueryError::Other(_)),
        query matches Err(QueryError::Other(e)) ==> exists == Err::<bool, E>(e),
        query is Ok ==> exists == Ok::<bool, E>(true),
{
}

} // verus!
