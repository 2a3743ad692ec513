use cool_thing::base::{Buffer, Chunk};
use cool_thing::errors::Error;
use cool_thing::lexer::classify_exec;
use cool_thing::token::TokenDescriptor;

#[test]
fn buffer_append_within_and_over_capacity() {
    let mut buffer = Buffer::new(5);
    assert_eq!(buffer.append(b"abc"), Ok(()));
    assert_eq!(buffer.bytes(), b"abc");
    assert_eq!(buffer.append(b"def"), Err(Error::BufferCapacityExceeded));
    assert_eq!(buffer.bytes(), b"abc");
    assert_eq!(buffer.append(b"de"), Ok(()));
    assert_eq!(buffer.bytes(), b"abcde");
    assert_eq!(buffer.len(), 5);
    assert_eq!(buffer.capacity(), 5);
}

#[test]
fn buffer_init_with_replaces_contents() {
    let mut buffer = Buffer::new(4);
    buffer.append(b"xy").unwrap();
    assert_eq!(buffer.init_with(b"abcd"), Ok(()));
    assert_eq!(buffer.bytes(), b"abcd");
    assert_eq!(buffer.init_with(b"abcde"), Err(Error::BufferCapacityExceeded));
    assert_eq!(buffer.bytes(), b"abcd");
}

#[test]
fn buffer_shrink_to_last_keeps_tail() {
    let mut buffer = Buffer::new(8);
    buffer.append(b"abcdef").unwrap();
    buffer.shrink_to_last(2);
    assert_eq!(buffer.bytes(), b"ef");
    buffer.shrink_to_last(0);
    assert_eq!(buffer.bytes(), b"");
}

#[test]
fn chunk_constructors() {
    let data = b"ab";
    let c = Chunk::from_slice(data);
    assert!(!c.is_last());
    assert_eq!(c.bytes(), b"ab");
    let l = Chunk::last(data);
    assert!(l.is_last());
    let e = Chunk::last_empty();
    assert!(e.is_last());
    assert_eq!(e.bytes().len(), 0);
}

#[test]
fn classify_reports_blocked_and_lengths() {
    assert!(classify_exec(b"<div", false).is_none());
    assert!(classify_exec(b"text", false).is_none());
    match classify_exec(b"text<", false) {
        Some((TokenDescriptor::Character, 4)) => {}
        other => panic!("unexpected {:?}", other),
    }
    match classify_exec(b"<b x='>'>rest", false) {
        Some((TokenDescriptor::StartTag { attributes, .. }, 9)) => assert_eq!(attributes.len(), 1),
        other => panic!("unexpected {:?}", other),
    }
    match classify_exec(b"<!-- a -->z", false) {
        Some((TokenDescriptor::Comment { text }, 10)) => assert_eq!((text.start, text.end), (4, 7)),
        other => panic!("unexpected {:?}", other),
    }
    match classify_exec(b"<div", true) {
        Some((TokenDescriptor::Character, 4)) => {}
        other => panic!("unexpected {:?}", other),
    }
}
