use constriction::backends::{
    extend, reverse_in_place, LookaheadBackend, MutBackend, PosBackend, ReadCursorBackward,
    ReadCursorForward, ReadFromIterBackend, ReadStackBackend, SeekBackend, WriteBackend,
};

#[test]
fn growable_buffer_is_a_stack() {
    let mut buffer: Vec<u16> = Vec::new();
    assert!(LookaheadBackend::is_empty(&buffer));
    assert_eq!(buffer.peek(), None);
    assert_eq!(buffer.read(), None);

    buffer.write(1);
    buffer.write(2);
    extend(&mut buffer, &[3, 4, 5]);
    assert_eq!(buffer, vec![1, 2, 3, 4, 5]);
    assert_eq!(buffer.amt_left(), 5);
    assert_eq!(buffer.pos(), 5);
    assert!(!LookaheadBackend::is_empty(&buffer));

    assert_eq!(buffer.peek(), Some(5));
    assert_eq!(buffer.read(), Some(5));
    assert_eq!(buffer.read(), Some(4));
    assert_eq!(buffer.pos(), 3);
    assert_eq!(buffer, vec![1, 2, 3]);

    MutBackend::clear(&mut buffer);
    assert_eq!(buffer.amt_left(), 0);
    assert_eq!(buffer.read(), None);
}

#[test]
fn growable_buffer_seeks_by_dropping_words() {
    let mut buffer: Vec<u8> = vec![1, 2, 3, 4];
    assert_eq!(buffer.seek(5, false), Err(()));
    assert_eq!(buffer.seek(2, true), Err(()));
    assert_eq!(buffer.seek(0, false), Err(()));
    assert_eq!(buffer, vec![1, 2, 3, 4]);

    assert_eq!(buffer.seek(4, false), Ok(()));
    assert_eq!(buffer, vec![1, 2, 3, 4]);
    assert_eq!(buffer.seek(2, false), Ok(()));
    assert_eq!(buffer, vec![1, 2]);
    assert_eq!(buffer.seek(3, false), Err(()));
    assert_eq!(buffer.seek(0, true), Ok(()));
    assert!(buffer.is_empty());
}

#[test]
fn backward_cursor_reads_from_the_end() {
    let data = [10u32, 20, 30];
    let mut cursor = ReadCursorBackward::new(&data[..]);
    assert_eq!(cursor.pos(), 3);
    assert_eq!(cursor.amt_left(), 3);
    assert_eq!(cursor.peek(), Some(30));
    assert_eq!(cursor.read(), Some(30));
    assert_eq!(cursor.read(), Some(20));
    assert_eq!(cursor.pos(), 1);
    assert!(!cursor.is_empty());
    assert_eq!(cursor.read(), Some(10));
    assert!(cursor.is_empty());
    assert_eq!(cursor.peek(), None);
    assert_eq!(cursor.read(), None);
    assert_eq!(cursor.pos(), 0);
    assert_eq!(cursor.into_buf_and_pos(), (&data[..], 0));
}

#[test]
fn forward_cursor_reads_from_the_start() {
    let mut cursor = ReadCursorForward::new(vec![30u32, 20, 10]);
    assert_eq!(cursor.pos(), 0);
    assert_eq!(cursor.amt_left(), 3);
    assert_eq!(cursor.peek(), Some(30));
    assert_eq!(cursor.read(), Some(30));
    assert_eq!(cursor.read(), Some(20));
    assert_eq!(cursor.pos(), 2);
    assert_eq!(cursor.amt_left(), 1);
    assert_eq!(cursor.read(), Some(10));
    assert!(cursor.is_empty());
    assert_eq!(cursor.read(), None);
    assert_eq!(cursor.pos(), 3);
    assert_eq!(cursor.into_buf_and_pos(), (vec![30, 20, 10], 3));
}

#[test]
fn cursors_seek_within_their_buffer() {
    let mut backward = ReadCursorBackward::new(vec![1u8, 2, 3]);
    assert_eq!(backward.seek(4, false), Err(()));
    assert_eq!(backward.seek(1, true), Err(()));
    assert_eq!(backward.seek(0, false), Err(()));
    assert_eq!(backward.pos(), 3);
    assert_eq!(backward.seek(0, true), Ok(()));
    assert_eq!(backward.read(), None);
    assert_eq!(backward.seek(2, false), Ok(()));
    assert_eq!(backward.read(), Some(2));

    let mut forward = ReadCursorForward::new(vec![3u8, 2, 1]);
    assert_eq!(forward.seek(4, false), Err(()));
    assert_eq!(forward.seek(1, true), Err(()));
    assert_eq!(forward.seek(3, false), Err(()));
    assert_eq!(forward.pos(), 0);
    assert_eq!(forward.seek(3, true), Ok(()));
    assert_eq!(forward.read(), None);
    assert_eq!(forward.seek(1, false), Ok(()));
    assert_eq!(forward.read(), Some(2));
}

#[test]
fn reversed_cursor_reads_the_same_words() {
    let mut backward = ReadCursorBackward::new(vec![1u16, 2, 3, 4, 5]);
    assert_eq!(backward.read(), Some(5));
    let mut forward = backward.into_reversed();
    assert_eq!(forward.pos(), 1);
    assert_eq!(forward.read(), Some(4));
    assert_eq!(forward.read(), Some(3));
    let mut backward = forward.into_reversed();
    assert_eq!(backward.pos(), 2);
    assert_eq!(backward.clone().into_buf_and_pos(), (vec![1, 2, 3, 4, 5], 2));
    assert_eq!(backward.read(), Some(2));
    assert_eq!(backward.read(), Some(1));
    assert_eq!(backward.read(), None);
}

#[test]
fn reverse_in_place_reverses() {
    let mut even = vec![1u32, 2, 3, 4];
    reverse_in_place(&mut even);
    assert_eq!(even, vec![4, 3, 2, 1]);
    let mut odd = vec![1u32, 2, 3];
    reverse_in_place(&mut odd);
    assert_eq!(odd, vec![3, 2, 1]);
    let mut none: Vec<u32> = vec![];
    reverse_in_place(&mut none);
    assert!(none.is_empty());
}

#[test]
fn iterator_backend_reads_in_the_order_of_the_iterator() {
    let mut backend = ReadFromIterBackend::new([7u8, 8, 9].into_iter());
    assert_eq!(backend.peek(), Some(7));
    assert_eq!(backend.read(), Some(7));
    assert_eq!(backend.read(), Some(8));
    assert_eq!(backend.peek(), Some(9));
    assert_eq!(backend.read(), Some(9));
    assert_eq!(backend.peek(), None);
    assert_eq!(backend.read(), None);

    let mut none = ReadFromIterBackend::<u32>::new(core::iter::empty());
    assert_eq!(none.read(), None);
}
