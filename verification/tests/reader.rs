use mailviewer_core::message::reader::{ContentReader, ReadAction, ReadEvent};

fn feed(reader: &mut ContentReader<u8>, chunk: &[u8]) {
    assert_eq!(reader.action(), ReadAction::CheckCancelled);
    reader.advance(ReadEvent::GoOn);
    assert_eq!(reader.action(), ReadAction::ReadChunk);
    reader.advance(ReadEvent::Chunk(chunk.to_vec()));
}

#[test]
fn the_content_is_what_was_read() {
    let mut reader = ContentReader::new();
    feed(&mut reader, b"one ");
    feed(&mut reader, b"two");
    feed(&mut reader, b"");
    assert_eq!(reader.action(), ReadAction::Close);
    // Nothing counts any more.
    reader.advance(ReadEvent::Chunk(b"three".to_vec()));
    reader.advance(ReadEvent::Failed(1));

    assert_eq!(reader.finish(Ok(())), Ok(b"one two".to_vec()));
}

#[test]
fn an_empty_stream_has_no_content() {
    let mut reader = ContentReader::<u8>::new();
    feed(&mut reader, b"");
    assert_eq!(reader.finish(Ok(())), Ok(vec![]));
}

#[test]
fn reading_stops_when_it_is_called_off() {
    let mut reader = ContentReader::new();
    feed(&mut reader, b"one");
    reader.advance(ReadEvent::Failed(7u8));
    assert_eq!(reader.action(), ReadAction::Close);
    assert_eq!(reader.finish(Ok(())), Err(7));
}

#[test]
fn reading_stops_when_the_stream_fails() {
    let mut reader = ContentReader::new();
    reader.advance(ReadEvent::GoOn);
    reader.advance(ReadEvent::Failed(9u8));
    assert_eq!(reader.finish(Ok(())), Err(9));
}

#[test]
fn an_error_of_closing_comes_first() {
    let mut reader = ContentReader::new();
    reader.advance(ReadEvent::Failed(9u8));
    assert_eq!(reader.finish(Err(2)), Err(2));

    let mut reader = ContentReader::new();
    feed(&mut reader, b"one");
    feed(&mut reader, b"");
    assert_eq!(reader.finish(Err(3)), Err(3));
}
