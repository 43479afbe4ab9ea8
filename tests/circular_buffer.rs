use workpool::circular::{BufferError, CircularBuffer};

#[test]
fn insert_and_check_size() {
    let mut buf = CircularBuffer::new(3);
    assert_eq!(buf.size(), 0);
    buf.write(10).unwrap();
    assert_eq!(buf.size(), 1);
}

#[test]
fn insert_and_read_same_value() {
    let mut buf = CircularBuffer::new(3);
    buf.write(42).unwrap();
    assert_eq!(buf.read(), Some(42));
    assert_eq!(buf.size(), 0);
}

#[test]
fn insert_multiple_and_read_all() {
    let mut buf = CircularBuffer::new(3);
    buf.write(1).unwrap();
    buf.write(2).unwrap();
    buf.write(3).unwrap();
    assert_eq!(buf.read(), Some(1));
    assert_eq!(buf.read(), Some(2));
    assert_eq!(buf.read(), Some(3));
    assert_eq!(buf.read(), None);
}

#[test]
fn head_and_tail_wraparound() {
    let mut buf = CircularBuffer::new(2);
    buf.write(1).unwrap();
    buf.write(2).unwrap();
    assert!(buf.write(3).is_err());
    assert_eq!(buf.read(), Some(1));
    buf.write(3).unwrap();
    assert_eq!(buf.read(), Some(2));
    assert_eq!(buf.read(), Some(3));
}

#[test]
fn read_from_empty_buffer() {
    let mut buf: CircularBuffer<i32> = CircularBuffer::new(3);
    assert_eq!(buf.read(), None);
}

#[test]
fn write_to_full_buffer_returns_error() {
    let mut buf = CircularBuffer::new(2);
    buf.write(1).unwrap();
    buf.write(2).unwrap();
    assert!(buf.write(3).is_err());
}

#[test]
fn overwrite_on_full_buffer() {
    let mut buf = CircularBuffer::new(2);
    buf.write(1).unwrap();
    buf.write(2).unwrap();
    buf.overwrite(3);
    assert_eq!(buf.read(), Some(2));
    assert_eq!(buf.read(), Some(3));
}

#[test]
fn make_contiguous_works() {
    let mut buf = CircularBuffer::new(4);
    buf.write(1).unwrap();
    buf.write(2).unwrap();
    buf.write(3).unwrap();
    buf.read();
    buf.write(4).unwrap();
    buf.write(5).unwrap();
    buf.make_contiguous();
    assert_eq!(buf.read(), Some(2));
    assert_eq!(buf.read(), Some(3));
    assert_eq!(buf.read(), Some(4));
    assert_eq!(buf.read(), Some(5));
}

#[test]
fn zero_capacity_buffer_is_always_full() {
    let mut buf: CircularBuffer<u8> = CircularBuffer::new(0);
    assert_eq!(buf.write(1), Err(BufferError::Full));
    assert_eq!(buf.read(), None);
    buf.make_contiguous();
    assert_eq!(buf.size(), 0);
}

#[test]
fn clear_empties_and_keeps_capacity() {
    let mut buf = CircularBuffer::new(2);
    buf.write(7).unwrap();
    buf.write(8).unwrap();
    buf.clear();
    assert_eq!(buf.size(), 0);
    assert_eq!(buf.read(), None);
    buf.write(9).unwrap();
    buf.write(10).unwrap();
    assert_eq!(buf.write(11), Err(BufferError::Full));
    assert_eq!(buf.read(), Some(9));
}

#[test]
fn overwrite_below_capacity_appends() {
    let mut buf = CircularBuffer::new(3);
    buf.write(1).unwrap();
    buf.overwrite(2);
    assert_eq!(buf.size(), 2);
    assert_eq!(buf.read(), Some(1));
    assert_eq!(buf.read(), Some(2));
}

#[test]
fn cloned_buffer_is_independent() {
    let mut a = CircularBuffer::new(2);
    a.write(1).unwrap();
    let mut b = a.clone();
    b.write(2).unwrap();
    assert_eq!(a.size(), 1);
    assert_eq!(b.size(), 2);
    assert_eq!(b.read(), Some(1));
}
