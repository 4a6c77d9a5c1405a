use automate_refuse_de_nier::tools::TokenBuffer;

#[test]
fn a_new_buffer_is_empty() {
    let buffer = TokenBuffer::new(20);
    assert!(buffer.tokens().is_empty());
}

#[test]
fn a_buffer_keeps_the_latest_tokens() {
    let mut buffer = TokenBuffer::new(3);
    buffer.push('a');
    buffer.push('b');
    assert_eq!(buffer.tokens(), ['a', 'b']);
    buffer.push('c');
    assert_eq!(buffer.tokens(), ['a', 'b', 'c']);
    buffer.push('d');
    assert_eq!(buffer.tokens(), ['b', 'c', 'd']);
    buffer.push('e');
    assert_eq!(buffer.tokens(), ['c', 'd', 'e']);
}

#[test]
fn a_buffer_without_room_stays_empty() {
    let mut buffer = TokenBuffer::new(0);
    buffer.push('a');
    assert!(buffer.tokens().is_empty());
}

#[test]
fn clearing_forgets_the_tokens() {
    let mut buffer = TokenBuffer::new(2);
    buffer.push('a');
    buffer.push('b');
    buffer.clear();
    assert!(buffer.tokens().is_empty());
    buffer.push('c');
    assert_eq!(buffer.tokens(), ['c']);
}
