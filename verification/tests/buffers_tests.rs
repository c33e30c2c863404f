use naia_lite::index_buffer::{IndexBuffer, SparseIndexBuffer};
use naia_lite::seq_num::SeqNum;
use naia_lite::sequence_buffer::SequenceBuffer;

#[test]
fn index_buffer_numbers_values_from_start() {
    let mut buffer: IndexBuffer<&str, 0> = IndexBuffer::with_start(SeqNum(65534));
    buffer.push_back("a");
    buffer.push_back("b");
    buffer.push_back("c");
    assert_eq!(buffer.len(), 3);
    assert_eq!(buffer.start_index(), SeqNum(65534));
    assert_eq!(buffer.last_index(), SeqNum(0));
    let items = buffer.iter();
    assert_eq!(items, vec![(SeqNum(65534), &"a"), (SeqNum(65535), &"b"), (SeqNum(0), &"c")]);
    assert_eq!(buffer.pop_front(), Some("a"));
    assert_eq!(buffer.start_index(), SeqNum(65535));
}

#[test]
fn index_buffer_bounded_drops_oldest() {
    let mut buffer: IndexBuffer<u32, 2> = IndexBuffer::new();
    buffer.push_back(10);
    buffer.push_back(11);
    buffer.push_back(12);
    assert_eq!(buffer.len(), 2);
    assert_eq!(buffer.start_index(), SeqNum(1));
    assert_eq!(buffer.iter(), vec![(SeqNum(1), &11), (SeqNum(2), &12)]);
}

#[test]
fn index_buffer_trim_and_empty_pop() {
    let mut buffer: IndexBuffer<u32, 0> = IndexBuffer::new();
    for v in 0..5u32 {
        buffer.push_back(v);
    }
    buffer.trim_lt(SeqNum(3));
    assert_eq!(buffer.start_index(), SeqNum(3));
    assert_eq!(buffer.len(), 2);
    buffer.trim_lt(SeqNum(100));
    assert_eq!(buffer.len(), 0);
    assert_eq!(buffer.start_index(), SeqNum(5));
    assert_eq!(buffer.pop_front(), None);
    assert_eq!(buffer.start_index(), SeqNum(6));
    assert_eq!(buffer.last_index(), SeqNum(5));
}

#[test]
fn sparse_buffer_fills_gaps_and_refuses_duplicates() {
    let mut buffer: SparseIndexBuffer<u32, 0> = SparseIndexBuffer::new();
    assert!(buffer.insert(SeqNum(2), 20));
    assert_eq!(buffer.buffer_depth(), -2);
    assert!(buffer.insert(SeqNum(0), 0));
    assert_eq!(buffer.buffer_depth(), 1);
    assert!(!buffer.insert(SeqNum(0), 99));
    assert!(buffer.insert(SeqNum(1), 10));
    assert_eq!(buffer.buffer_depth(), 3);
    if let Some(v) = buffer.get_mut(SeqNum(1)) {
        *v = 11;
    }
    assert_eq!(buffer.try_pop_front(SeqNum(1)), None);
    assert_eq!(buffer.try_pop_front(SeqNum(0)), Some(0));
    assert_eq!(buffer.pop_front(), Some(11));
    assert!(!buffer.insert(SeqNum(1), 5));
    assert_eq!(buffer.start_index(), SeqNum(2));
    assert_eq!(buffer.iter(), vec![(SeqNum(2), &Some(20))]);
}

#[test]
fn sparse_buffer_bounded_refuses_far_future() {
    let mut buffer: SparseIndexBuffer<u32, 4> = SparseIndexBuffer::with_start(SeqNum(10));
    assert!(!buffer.insert(SeqNum(14), 1));
    assert!(buffer.insert(SeqNum(13), 1));
    assert!(!buffer.insert(SeqNum(9), 1));
    assert_eq!(buffer.get_mut(SeqNum(12)), None);
    assert_eq!(buffer.get_mut(SeqNum(13)), Some(&mut 1));
}

#[test]
fn sequence_buffer_records_recent_numbers() {
    let mut buffer = SequenceBuffer::with_capacity(4);
    assert!(buffer.set(SeqNum(0)));
    assert!(buffer.set(SeqNum(2)));
    assert_eq!(buffer.sequence_num(), SeqNum(2));
    assert!(buffer.is_set(SeqNum(0)));
    assert!(!buffer.is_set(SeqNum(1)));
    assert!(buffer.is_set(SeqNum(2)));
    assert!(buffer.set(SeqNum(5)));
    // advancing clears only slots that hold the numbers passed over; slot 0 still holds 0
    assert!(buffer.is_set(SeqNum(0)));
    assert!(buffer.is_set(SeqNum(5)));
    assert!(!buffer.set(SeqNum(1)));
    assert!(buffer.set(SeqNum(3)));
    assert!(buffer.is_set(SeqNum(3)));
    assert_eq!(buffer.sequence_num(), SeqNum(5));
}

#[test]
fn sequence_buffer_jump_clears_everything() {
    let mut buffer = SequenceBuffer::with_capacity(4);
    assert!(buffer.set(SeqNum(1)));
    assert!(buffer.set(SeqNum(100)));
    assert!(!buffer.is_set(SeqNum(1)));
    assert!(buffer.is_set(SeqNum(100)));
    // 65535 is 98 numbers before 100, older than the window
    assert!(!buffer.set(SeqNum(65535)));
    assert!(!buffer.is_set(SeqNum(65535)));
}

#[test]
fn sequence_buffer_keeps_its_window_across_the_wrap() {
    let mut buffer = SequenceBuffer::with_capacity(33);
    assert!(buffer.set(SeqNum(5)));
    assert_eq!(buffer.sequence_num(), SeqNum(5));
    let mut buffer = SequenceBuffer::with_capacity(33);
    assert!(buffer.set(SeqNum(65535)));
    assert!(buffer.set(SeqNum(30)));
    assert!(buffer.is_set(SeqNum(65535)));
    assert!(buffer.is_set(SeqNum(30)));
    assert!(!buffer.is_set(SeqNum(29)));
}
