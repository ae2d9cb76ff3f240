//! Reading the content of a file, chunk by chunk. What is to be done next is
//! decided here; doing it is up to the caller.

use vstd::prelude::*;

verus! {

/// What the caller is to do next.
#[derive(Debug, Clone, Copy, PartialEq, Eq, Structural)]
pub enum ReadAction {
    /// Find out whether reading was called off.
    CheckCancelled,
    /// Read the next chunk.
    ReadChunk,
    /// Close the stream.
    Close,
}

/// What came of it.
pub enum ReadEvent<E> {
    /// Reading was not called off.
    GoOn,
    /// The next chunk was read. It is empty at the end.
    Chunk(Vec<u8>),
    /// Reading was called off, or the stream could not be read.
    Failed(E),
}

/// What came of an action.
pub enum EventView<E> {
    GoOn,
    Chunk(Seq<u8>),
    Failed(E),
}

impl<E> View for ReadEvent<E> {
    type V = EventView<E>;

    open spec fn view(&self) -> EventView<E> {
        match *self {
            ReadEvent::GoOn => EventView::GoOn,
            ReadEvent::Chunk(bytes) => EventView::Chunk(bytes@),
            ReadEvent::Failed(e) => EventView::Failed(e),
        }
    }
}

/// The content that was read so far, and what is to be done next.
pub struct ContentReader<E> {
    pub content: Vec<u8>,
    pub action: ReadAction,
    pub failure: Option<E>,
}

/// The state of a reader.
pub struct ReaderView<E> {
    pub content: Seq<u8>,
    pub action: ReadAction,
    pub failure: Option<E>,
}

impl<E> View for ContentReader<E> {
    type V = ReaderView<E>;

    open spec fn view(&self) -> ReaderView<E> {
        ReaderView { content: self.content@, action: self.action, failure: self.failure }
    }
}

impl<E> ReaderView<E> {
    /// The state at the start.
    pub open spec fn start() -> Self {
        ReaderView { content: seq![], action: ReadAction::CheckCancelled, failure: None }
    }

    /// The state after an event. Once the stream is to be closed, nothing changes
    /// any more.
    pub open spec fn next(self, event: EventView<E>) -> Self {
        if self.action == ReadAction::Close {
            self
        } else {
            match event {
                EventView::GoOn => ReaderView { action: ReadAction::ReadChunk, ..self },
                EventView::Chunk(bytes) => if bytes.len() == 0 {
                    ReaderView { action: ReadAction::Close, ..self }
                } else {
                    ReaderView {
                        content: self.content + bytes,
                        action: ReadAction::CheckCancelled,
                        ..self
                    }
                },
                EventView::Failed(e) => ReaderView {
                    action: ReadAction::Close,
                    failure: Some(e),
                    ..self
                },
            }
        }
    }

    /// The state after a run of events.
    pub open spec fn after(self, events: Seq<EventView<E>>) -> Self
        decreases events.len(),
    {
        if events.len() == 0 {
            self
        } else {
            self.after(events.drop_last()).next(events.last())
        }
    }
}

impl<E> ContentReader<E> {
    /// Nothing is read yet.
    pub fn new() -> (r: Self)
        ensures
            r@ == ReaderView::<E>::start(),
    {
        let r = ContentReader {
            content: Vec::new(),
            action: ReadAction::CheckCancelled,
            failure: None,
        };
        assert(r@.content =~= seq![]);
        r
    }

    /// What the caller is to do next.
    pub fn action(&self) -> (r: ReadAction)
        ensures
            r == self@.action,
    {
        self.action
    }

    /// Takes what came of it.
    pub fn advance(&mut self, event: ReadEvent<E>)
        ensures
            final(self)@ == old(self)@.next(event@),
    {
        if self.action == ReadAction::Close {
            return;
        }
        match event {
            ReadEvent::GoOn => {
                self.action = ReadAction::ReadChunk;
            },
            ReadEvent::Chunk(bytes) => {
                if bytes.len() == 0 {
                    self.action = ReadAction::Close;
                } else {
                    self.content.extend_from_slice(bytes.as_slice());
                    self.action = ReadAction::CheckCancelled;
                    assert(self.content@ =~= old(self).content@ + bytes@);
                }
            },
            ReadEvent::Failed(e) => {
                self.action = ReadAction::Close;
                self.failure = Some(e);
            },
        }
    }

    /// The content, once the stream is closed. An error of closing comes before
    /// one of reading.
    pub fn finish(self, closed: Result<(), E>) -> (r: Result<Vec<u8>, E>)
        ensures
            match (closed, self@.failure) {
                (Err(e), _) => r == Err::<Vec<u8>, E>(e),
                (Ok(()), Some(e)) => r == Err::<Vec<u8>, E>(e),
                (Ok(()), None) => r matches Ok(content) && content@ == self@.content,
            },
    {
        match closed {
            Err(e) => Err(e),
            Ok(()) => match self.failure {
                Some(e) => Err(e),
                None => Ok(self.content),
            },
        }
    }
}

/// The events of a stream that gives the chunks one after the other and then
/// ends, while nobody calls reading off.
pub open spec fn quiet_run<E>(chunks: Seq<Seq<u8>>) -> Seq<EventView<E>>
    decreases chunks.len(),
{
    if chunks.len() == 0 {
        seq![]
    } else {
        quiet_run(chunks.drop_last()).push(EventView::GoOn).push(EventView::Chunk(chunks.last()))
    }
}

/// The chunks one after the other.
pub open spec fn concatenated(chunks: Seq<Seq<u8>>) -> Seq<u8>
    decreases chunks.len(),
{
    if chunks.len() == 0 {
        seq![]
    } else {
        concatenated(chunks.drop_last()) + chunks.last()
    }
}

/// What is read of a stream is its chunks one after the other, all of them up to
/// the empty one.
pub proof fn law_the_content_is_what_was_read<E>(chunks: Seq<Seq<u8>>)
    requires
        forall|i: int| 0 <= i < chunks.len() ==> (#[trigger] chunks[i]).len() > 0,
    ensures
        ReaderView::<E>::start().after(quiet_run(chunks)) == (ReaderView::<E> {
            content: concatenated(chunks),
            action: ReadAction::CheckCancelled,
            failure: None,
        }),
        ReaderView::<E>::start().after(quiet_run(chunks.push(seq![]))) == (ReaderView::<E> {
            content: concatenated(chunks),
            action: ReadAction::Close,
            failure: None,
        }),
    decreases chunks.len(),
{
    let start = ReaderView::<E>::start();
    if chunks.len() > 0 {
        let rest = chunks.drop_last();
        assert forall|i: int| 0 <= i < rest.len() implies (#[trigger] rest[i]).len() > 0 by {
            assert(rest[i] == chunks[i]);
        }
        law_the_content_is_what_was_read::<E>(rest);
        assert(chunks[chunks.len() - 1].len() > 0);
        lemma_two_events::<E>(start, quiet_run(rest), chunks.last());
    }
    assert(chunks.push(seq![]).drop_last() =~= chunks);
    lemma_two_events::<E>(start, quiet_run(chunks), seq![]);
}

proof fn lemma_two_events<E>(start: ReaderView<E>, events: Seq<EventView<E>>, chunk: Seq<u8>)
    ensures
        start.after(events.push(EventView::GoOn).push(EventView::Chunk(chunk))) == start.after(
            events,
        ).next(EventView::GoOn).next(EventView::Chunk(chunk)),
{
    let once = events.push(EventView::GoOn);
    let twice = once.push(EventView::Chunk(chunk));
    assert(twice.drop_last() =~= once);
    assert(start.after(twice) == start.after(once).next(EventView::Chunk(chunk)));
    assert(once.drop_last() =~= events);
    assert(start.after(once) == start.after(events).next(EventView::GoOn));
}

/// Once reading has failed, the failure is what is reported: nothing that comes
/// later changes the state.
pub proof fn law_a_failure_stays<E>(before: ReaderView<E>, e: E, later: Seq<EventView<E>>)
    requires
        before.action != ReadAction::Close,
    ensures
        before.next(EventView::Failed(e)).after(later).failure == Some(e),
        before.next(EventView::Failed(e)).after(later).action == ReadAction::Close,
    decreases later.len(),
{
    if later.len() > 0 {
        law_a_failure_stays(before, e, later.drop_last());
    }
}

/// Once the stream is to be closed, nothing changes any more, whatever comes.
pub proof fn law_a_closed_reader_stays<E>(before: ReaderView<E>, later: Seq<EventView<E>>)
    requires
        before.action == ReadAction::Close,
    ensures
        before.after(later) == before,
    decreases later.len(),
{
    if later.len() > 0 {
        law_a_closed_reader_stays(before, later.drop_last());
    }
}

/// Whatever came before, an open reader asks whether to go on before each chunk:
/// it reads a chunk where it was told to go on, asks again after one that holds
/// something, and closes after an empty one or a failure. Only a chunk adds to the
/// content, at its end, and only a failure is a failure.
pub proof fn law_every_chunk_is_asked_for<E>(before: ReaderView<E>, event: EventView<E>)
    requires
        before.action != ReadAction::Close,
    ensures
        event is GoOn ==> before.next(event).action == ReadAction::ReadChunk,
        event matches EventView::Chunk(bytes) ==> before.next(event).action == (if bytes.len()
            == 0 {
            ReadAction::Close
        } else {
            ReadAction::CheckCancelled
        }) && before.next(event).content.len() == before.content.len() + bytes.len()
            && before.next(event).content.take(before.content.len() as int) == before.content
            && before.next(event).content.skip(before.content.len() as int) == bytes,
        event matches EventView::Failed(e) ==> before.next(event).action == ReadAction::Close
            && before.next(event).failure == Some(e),
        !(event is Chunk) ==> before.next(event).content == before.content,
        !(event is Failed) ==> before.next(event).failure == before.failure,
{
    if let EventView::Chunk(bytes) = event {
        let content = before.next(event).content;
        assert(content.take(before.content.len() as int) =~= before.content);
        assert(content.skip(before.content.len() as int) =~= bytes);
    }
}

/// A reader begins by asking whether to go on, with nothing read. What it gives in
/// the end is an error of closing, or else one of reading, or else all that was
/// read.
pub proof fn law_an_error_is_never_content<E>(
    fresh: ContentReader<E>,
    reader: ContentReader<E>,
    closed: Result<(), E>,
    r: Result<Vec<u8>, E>,
)
    requires
        call_ensures(ContentReader::<E>::new, (), fresh),
        call_ensures(ContentReader::<E>::finish, (reader, closed), r),
    ensures
        fresh.content@.len() == 0,
        fresh.action == ReadAction::CheckCancelled,
        fresh.failure is None,
        r is Ok <==> closed is Ok && reader.failure is None,
        r matches Ok(content) ==> content@ == reader.content@,
        closed matches Err(e) ==> r == Err::<Vec<u8>, E>(e),
        closed is Ok ==> (reader.failure matches Some(e) ==> r == Err::<Vec<u8>, E>(e)),
{
    assert(fresh@.content == Seq::<u8>::empty());
}

} // verus!
