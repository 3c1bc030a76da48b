use xtransport::buffer::RingBuffer;
use xtransport::error::Error;

#[test]
fn test_basic_write_read() {
    let mut buf: RingBuffer<64> = RingBuffer::new();

    let written = buf.write(b"Hello");
    assert_eq!(written, 5);
    assert_eq!(buf.len(), 5);

    let mut out = [0u8; 10];
    let read = buf.read(&mut out);
    assert_eq!(read, 5);
    assert_eq!(&out[..5], b"Hello");
    assert!(buf.is_empty());
}

#[test]
fn test_wrap_around() {
    let mut buf: RingBuffer<8> = RingBuffer::new();

    buf.write(b"12345");
    assert_eq!(buf.len(), 5);

    let mut out = [0u8; 3];
    buf.read(&mut out);
    assert_eq!(&out, b"123");
    assert_eq!(buf.len(), 2);

    buf.write(b"ABCDE");
    assert_eq!(buf.len(), 7);

    let mut out = [0u8; 8];
    let read = buf.read(&mut out);
    assert_eq!(read, 7);
    assert_eq!(&out[..7], b"45ABCDE");
}

#[test]
fn test_peek() {
    let mut buf: RingBuffer<32> = RingBuffer::new();
    buf.write(b"Test data");

    let mut out1 = [0u8; 4];
    let mut out2 = [0u8; 4];

    buf.peek(&mut out1);
    buf.peek(&mut out2);

    assert_eq!(&out1, b"Test");
    assert_eq!(&out2, b"Test");
    assert_eq!(buf.len(), 9);
}

#[test]
fn test_full_buffer() {
    let mut buf: RingBuffer<8> = RingBuffer::new();

    let written = buf.write(b"12345678");
    assert_eq!(written, 8);
    assert!(buf.is_full());

    let written = buf.write(b"9");
    assert_eq!(written, 0);
}

#[test]
fn test_as_slices() {
    let mut buf: RingBuffer<16> = RingBuffer::new();

    buf.write(b"Hello");
    let (s1, s2) = buf.as_slices();
    assert_eq!(s1, b"Hello");
    assert_eq!(s2, &[]);

    buf.clear();

    buf.write(b"12345678901234");
    buf.skip(12);
    buf.write(b"AB");

    buf.clear();
    buf.write(b"12345678901234");
    buf.skip(12);
    buf.write(b"ABCD");

    let (s1, s2) = buf.as_slices();
    assert_eq!(s1, b"34AB");
    assert_eq!(s2, b"CD");
}

#[test]
fn ring_write_takes_only_what_fits() {
    let mut buf: RingBuffer<4> = RingBuffer::new();
    assert_eq!(buf.write(b"abcdef"), 4);
    assert_eq!(buf.remaining(), 0);
    assert_eq!(buf.capacity(), 4);
    let mut out = [0u8; 4];
    assert_eq!(buf.read(&mut out), 4);
    assert_eq!(&out, b"abcd");
}

#[test]
fn ring_write_all_is_all_or_nothing() {
    let mut buf: RingBuffer<4> = RingBuffer::new();
    assert!(buf.write_all(b"abc").is_ok());
    assert_eq!(buf.write_all(b"de"), Err(Error::BufferFull));
    assert_eq!(buf.len(), 3);
    assert!(buf.write_all(b"d").is_ok());
    assert!(buf.is_full());
}

#[test]
fn ring_skip_stops_at_the_end() {
    let mut buf: RingBuffer<8> = RingBuffer::new();
    buf.write(b"abc");
    assert_eq!(buf.skip(2), 2);
    assert_eq!(buf.skip(5), 1);
    assert_eq!(buf.skip(1), 0);
    assert!(buf.is_empty());
}

#[test]
fn ring_free_space_can_be_written_in_place() {
    let mut buf: RingBuffer<8> = RingBuffer::new();
    buf.write(b"123456");
    buf.skip(4);
    {
        let (first, second) = buf.as_mut_slices();
        assert_eq!(first.len(), 2);
        assert_eq!(second.len(), 4);
        first.copy_from_slice(b"AB");
        second[0] = b'C';
    }
    buf.advance_write(3);
    let mut out = [0u8; 8];
    assert_eq!(buf.read(&mut out), 5);
    assert_eq!(&out[..5], b"56ABC");
}

#[test]
fn ring_of_no_capacity_takes_nothing() {
    let mut buf: RingBuffer<0> = RingBuffer::new();
    assert_eq!(buf.write(b"x"), 0);
    assert_eq!(buf.skip(3), 0);
    let mut out = [0u8; 2];
    assert_eq!(buf.read(&mut out), 0);
    assert!(buf.is_empty() && buf.is_full());
}

#[test]
fn slices_divide_where_the_storage_ends() {
    let mut ring: RingBuffer<8> = RingBuffer::new();
    assert_eq!(ring.write(b"abcdef"), 6);
    let mut out = [0u8; 4];
    assert_eq!(ring.read(&mut out), 4);
    assert_eq!(ring.write(b"ghijk"), 5);
    let (first, second) = ring.as_slices();
    assert_eq!(first, b"efgh");
    assert_eq!(second, b"ijk");
    assert_eq!(ring.skip(3), 3);
    let (first, second) = ring.as_slices();
    assert_eq!(first, b"h");
    assert_eq!(second, b"ijk");
    assert_eq!(ring.skip(1), 1);
    let (first, second) = ring.as_slices();
    assert_eq!(first, b"ijk");
    assert!(second.is_empty());
    ring.clear();
    assert_eq!(ring.write(b"xy"), 2);
    let (first, second) = ring.as_slices();
    assert_eq!(first, b"xy");
    assert!(second.is_empty());
}
