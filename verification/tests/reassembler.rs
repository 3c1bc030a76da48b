use xtransport::codec::{Frame, Packet};
use xtransport::error::Error;
use xtransport::reliable::{Reassembler, ReassemblyEntry};

#[test]
fn test_single_fragment() {
    let mut reassembler: Reassembler<4, 1024> = Reassembler::new(256, 5000);

    let frame = Frame::new_data(0, 0, 1, 0, 1, b"Hello");

    let result = reassembler.process_frame(&frame, 0).unwrap();
    assert_eq!(result, Some(1));
}

#[test]
fn test_multi_fragment_in_order() {
    let mut reassembler: Reassembler<4, 1024> = Reassembler::new(256, 5000);

    let frame1 = Frame::new_data(0, 0, 1, 0, 2, b"Hello");
    let frame2 = Frame::new_data(1, 0, 1, 1, 2, b" World");

    let result1 = reassembler.process_frame(&frame1, 0).unwrap();
    assert_eq!(result1, None);

    let result2 = reassembler.process_frame(&frame2, 0).unwrap();
    assert_eq!(result2, Some(1));
}

#[test]
fn test_multi_fragment_out_of_order() {
    let mut reassembler: Reassembler<4, 1024> = Reassembler::new(256, 5000);

    let frame2 = Frame::new_data(1, 0, 1, 1, 2, b" World");
    let frame1 = Frame::new_data(0, 0, 1, 0, 2, b"Hello");

    let result2 = reassembler.process_frame(&frame2, 0).unwrap();
    assert_eq!(result2, None);

    let result1 = reassembler.process_frame(&frame1, 0).unwrap();
    assert_eq!(result1, Some(1));
}

#[test]
fn test_duplicate_fragment() {
    let mut reassembler: Reassembler<4, 1024> = Reassembler::new(256, 5000);

    let frame1 = Frame::new_data(0, 0, 1, 0, 2, b"Hello");

    reassembler.process_frame(&frame1, 0).unwrap();
    let result = reassembler.process_frame(&frame1, 0).unwrap();
    assert_eq!(result, None);
}

#[test]
fn test_cleanup_timeout() {
    let mut reassembler: Reassembler<4, 1024> = Reassembler::new(256, 100);

    let frame1 = Frame::new_data(0, 0, 1, 0, 2, b"Hello");
    reassembler.process_frame(&frame1, 0).unwrap();

    assert_eq!(reassembler.active_count(), 1);

    let cleaned = reassembler.cleanup_timeout(200);
    assert_eq!(cleaned, 1);
    assert_eq!(reassembler.active_count(), 0);
}

fn message(len: usize) -> Vec<u8> {
    (0..len).map(|i| (i % 256) as u8).collect()
}

#[test]
fn large_message_out_of_order() {
    let data = message(350);
    let packet = Packet::new(1, &data).unwrap();
    assert_eq!(packet.fragment_count(100), 4);
    let mut reassembler: Reassembler<4, 4096> = Reassembler::new(100, 5000);
    let mut done = None;
    for index in [2usize, 0, 3, 1] {
        assert_eq!(done, None);
        let piece = packet.fragment_data(index, 100).unwrap();
        let frame = Frame::new_data(index as u32, 0, 1, index as u8, 4, piece);
        done = reassembler.process_frame(&frame, 0).unwrap();
    }
    assert_eq!(done, Some(1));
    let mut out = vec![0u8; 4096];
    let len = reassembler.take_completed(1, &mut out).unwrap();
    assert_eq!(len, 350);
    assert_eq!(&out[..len], &data[..]);
    assert_eq!(
        xtransport::codec::Crc32::compute(&out[..len]),
        xtransport::codec::Crc32::compute(&data)
    );
    assert_eq!(reassembler.active_count(), 0);
    assert!(!reassembler.has_pending());
}

#[test]
fn any_order_with_duplicates_gives_the_message() {
    let data = message(1000);
    let packet = Packet::new(9, &data).unwrap();
    let count = packet.fragment_count(64);
    assert_eq!(count, 16);
    let orders: [Vec<usize>; 3] = [
        (0..count).rev().collect(),
        (0..count).map(|i| (i * 5) % count).collect(),
        (0..2 * count).map(|i| (i * 11) % count).collect(),
    ];
    for order in orders {
        let mut reassembler: Reassembler<2, 1024> = Reassembler::new(64, 5000);
        let mut completions = 0;
        for index in order {
            let piece = packet.fragment_data(index, 64).unwrap();
            let frame = Frame::new_data(0, 0, 9, index as u8, count as u8, piece);
            if reassembler.process_frame(&frame, 0).unwrap().is_some() {
                completions += 1;
            }
        }
        assert_eq!(completions, 1);
        let (bytes, len) = reassembler.get_completed_data(9).unwrap();
        assert_eq!(len, 1000);
        assert_eq!(bytes, &data[..]);
    }
}

#[test]
fn reassembly_timeout_starts_afresh() {
    let mut reassembler: Reassembler<4, 1024> = Reassembler::new(256, 100);
    let first = Frame::new_data(0, 0, 1, 0, 2, b"Hello");
    assert_eq!(reassembler.process_frame(&first, 0), Ok(None));
    assert_eq!(reassembler.active_count(), 1);
    assert_eq!(reassembler.cleanup_timeout(99), 0);
    assert_eq!(reassembler.cleanup_timeout(200), 1);
    assert_eq!(reassembler.active_count(), 0);
    let second = Frame::new_data(1, 0, 1, 1, 2, b" World");
    assert_eq!(reassembler.process_frame(&second, 210), Ok(None));
    assert_eq!(reassembler.active_count(), 1);
    assert_eq!(reassembler.missing_fragments(1), Some(vec![0]));
    assert_eq!(reassembler.missing_fragments(2), None);
}

#[test]
fn no_entry_older_than_the_timeout_stays() {
    let mut reassembler: Reassembler<4, 64> = Reassembler::new(8, 100);
    for (id, at) in [(1u16, 0u64), (2, 50), (3, 100), (4, 150)] {
        let frame = Frame::new_data(0, 0, id, 0, 2, b"x");
        reassembler.process_frame(&frame, at).unwrap();
    }
    assert_eq!(reassembler.cleanup_timeout(150), 2);
    assert_eq!(reassembler.active_count(), 2);
    assert_eq!(reassembler.missing_fragments(1), None);
    assert_eq!(reassembler.missing_fragments(2), None);
    assert_eq!(reassembler.missing_fragments(3), Some(vec![1]));
    assert_eq!(reassembler.missing_fragments(4), Some(vec![1]));
    assert_eq!(reassembler.cleanup_timeout(150), 0);
}

#[test]
fn full_reassembler_recycles_only_stale_entries() {
    let mut reassembler: Reassembler<2, 64> = Reassembler::new(8, 100);
    let a = Frame::new_data(0, 0, 1, 0, 2, b"a");
    let b = Frame::new_data(0, 0, 2, 0, 2, b"b");
    let c = Frame::new_data(0, 0, 3, 0, 2, b"c");
    assert_eq!(reassembler.process_frame(&a, 0), Ok(None));
    assert_eq!(reassembler.process_frame(&b, 50), Ok(None));
    assert_eq!(reassembler.process_frame(&c, 60), Err(Error::BufferFull));
    assert_eq!(reassembler.active_count(), 2);
    assert_eq!(reassembler.process_frame(&c, 100), Ok(None));
    assert_eq!(reassembler.active_count(), 2);
    assert_eq!(reassembler.missing_fragments(1), None);
    assert_eq!(reassembler.missing_fragments(3), Some(vec![1]));
    reassembler.free_entry(2);
    assert_eq!(reassembler.active_count(), 1);
    reassembler.free_entry(2);
    assert_eq!(reassembler.active_count(), 1);
}

#[test]
fn take_completed_says_what_is_wrong() {
    let mut reassembler: Reassembler<2, 64> = Reassembler::new(8, 100);
    let mut out = [0u8; 64];
    assert_eq!(reassembler.take_completed(1, &mut out), Err(Error::IncompleteFragment));
    let first = Frame::new_data(0, 0, 1, 0, 2, b"12345678");
    let second = Frame::new_data(0, 0, 1, 1, 2, b"9");
    reassembler.process_frame(&first, 0).unwrap();
    assert_eq!(reassembler.take_completed(1, &mut out), Err(Error::IncompleteFragment));
    assert!(reassembler.get_completed_data(1).is_none());
    assert_eq!(reassembler.process_frame(&second, 0), Ok(Some(1)));
    let mut small = [0u8; 8];
    assert_eq!(reassembler.take_completed(1, &mut small), Err(Error::BufferTooSmall));
    assert_eq!(reassembler.active_count(), 1);
    assert_eq!(reassembler.take_completed(1, &mut out), Ok(9));
    assert_eq!(&out[..9], b"123456789");
    assert_eq!(reassembler.take_completed(1, &mut out), Err(Error::IncompleteFragment));
}

#[test]
fn entry_refuses_what_does_not_fit() {
    let mut entry: ReassemblyEntry<16> = ReassemblyEntry::new();
    entry.init(5, 3, 1000);
    assert!(entry.in_use);
    assert_eq!(entry.add_fragment(3, 3, b"x", 8), Err(Error::InvalidFragmentIndex));
    assert_eq!(entry.add_fragment(2, 3, b"x", 8), Err(Error::BufferTooSmall));
    assert_eq!(entry.add_fragment(1, 3, b"12345678", 8), Ok(false));
    assert_eq!(entry.add_fragment(1, 3, b"abcdefghi", 8), Ok(false));
    assert_eq!(&entry.buffer[8..], b"12345678");
    assert_eq!(entry.received_count, 1);
    assert_eq!(entry.missing_fragments(), vec![0, 2]);
    assert!(entry.get_data().is_none());
    assert!(!entry.is_timed_out(1099, 100));
    assert!(entry.is_timed_out(1100, 100));
    assert!(!entry.is_timed_out(0, 100));
    entry.clear();
    assert!(!entry.in_use);
    assert!(!entry.is_timed_out(5000, 100));
    assert_eq!(entry.received_count, 0);
    let entry: ReassemblyEntry<16> = ReassemblyEntry::default();
    assert_eq!(entry.expected_size, None);
}
