use xtransport::codec::frame::{FrameFlags, FRAME_HEADER_SIZE};
use xtransport::codec::{Frame, FrameType};
use xtransport::error::Error;

#[test]
fn test_frame_roundtrip() {
    let payload = b"Hello, World!";
    let frame = Frame::new_data(1, 0, 100, 0, 1, payload);

    let mut buf = [0u8; 256];
    let size = frame.serialize(&mut buf).unwrap();

    let (decoded, consumed) = Frame::deserialize(&buf[..size]).unwrap();
    assert_eq!(consumed, size);
    assert_eq!(decoded.sequence, 1);
    assert_eq!(decoded.packet_id, 100);
    assert_eq!(decoded.payload, payload);
}

#[test]
fn test_ack_frame() {
    let frame = Frame::new_ack(42);

    let mut buf = [0u8; 64];
    let size = frame.serialize(&mut buf).unwrap();

    let (decoded, _) = Frame::deserialize(&buf[..size]).unwrap();
    assert_eq!(decoded.frame_type, FrameType::Ack);
    assert_eq!(decoded.ack, 42);
}

#[test]
fn test_checksum_verification() {
    let frame = Frame::new_data(1, 0, 1, 0, 1, b"test");

    let mut buf = [0u8; 64];
    let size = frame.serialize(&mut buf).unwrap();

    buf[FRAME_HEADER_SIZE] ^= 0xFF;

    let result = Frame::deserialize(&buf[..size]);
    assert!(matches!(result, Err(Error::ChecksumMismatch)));
}

#[test]
fn frame_bytes_are_laid_out_big_endian() {
    let frame = Frame::new_data(0x0102_0304, 0x0A0B_0C0D, 0x1122, 2, 5, b"xy");
    let mut buf = [0xEEu8; 32];
    assert_eq!(frame.serialize(&mut buf), Ok(26));
    assert_eq!(
        &buf[..20],
        &[
            0x01, 0x01, 0x00, 0x00, 0x01, 0x02, 0x03, 0x04, 0x0A, 0x0B, 0x0C, 0x0D, 0x11, 0x22,
            0x02, 0x05, 0x00, 0x02, 0x00, 0x00
        ]
    );
    let mut covered = buf[..20].to_vec();
    covered.extend_from_slice(b"xy");
    assert_eq!(&buf[20..24], &crc32fast::hash(&covered).to_be_bytes());
    assert_eq!(&buf[24..26], b"xy");
    assert_eq!(&buf[26..], &[0xEE; 6]);
    assert_eq!(frame.wire_size(), 26);
}

#[test]
fn every_frame_type_has_its_tag() {
    let tags = [
        (0x01, FrameType::Data),
        (0x02, FrameType::Ack),
        (0x03, FrameType::Nack),
        (0x04, FrameType::Ping),
        (0x05, FrameType::Pong),
        (0x06, FrameType::Reset),
        (0x07, FrameType::WindowUpdate),
        (0x08, FrameType::Sync),
        (0x09, FrameType::SyncAck),
        (0x0A, FrameType::Fin),
        (0x0B, FrameType::FinAck),
    ];
    for (tag, frame_type) in tags {
        assert_eq!(FrameType::from_u8(tag), Some(frame_type));
        assert_eq!(frame_type.to_u8(), tag);
        assert_eq!(frame_type.has_payload(), tag == 0x01);
        assert_eq!(frame_type.requires_ack(), tag == 0x01 || tag == 0x08 || tag == 0x0A);
    }
    assert_eq!(FrameType::from_u8(0x00), None);
    assert_eq!(FrameType::from_u8(0x0C), None);
}

#[test]
fn flags_follow_the_fragment() {
    let only = Frame::new_data(0, 0, 0, 0, 1, b"");
    assert!(only.is_first_fragment() && only.is_last_fragment() && only.is_single_fragment());
    let first = Frame::new_data(0, 0, 0, 0, 3, b"");
    assert!(first.is_first_fragment() && !first.is_last_fragment());
    let middle = Frame::new_data(0, 0, 0, 1, 3, b"");
    assert!(!middle.is_first_fragment() && !middle.is_last_fragment());
    let last = Frame::new_data(0, 0, 0, 2, 3, b"");
    assert!(!last.is_first_fragment() && last.is_last_fragment());
    assert!(!last.is_single_fragment());
    assert_eq!(last.flags.bits(), 0x02);
}

#[test]
fn flags_can_be_set_and_cleared() {
    let mut flags = FrameFlags::none();
    assert_eq!(flags, FrameFlags::default());
    flags.insert(FrameFlags::urgent());
    flags.insert(FrameFlags::encrypted());
    assert_eq!(flags.bits(), 0x14);
    assert!(flags.contains(FrameFlags::urgent()));
    assert!(!flags.contains(FrameFlags::compressed()));
    flags.remove(FrameFlags::urgent());
    assert_eq!(flags.bits(), 0x10);
    let both = FrameFlags::first_fragment().union(FrameFlags::last_fragment());
    assert_eq!(both, FrameFlags::from_bits(0x03));
    assert!(both.contains(FrameFlags::first_fragment()));
}

#[test]
fn reserved_flags_round_trip() {
    let mut frame = Frame::new_data(9, 8, 7, 0, 1, b"abc");
    frame.flags = FrameFlags::from_bits(0x1F);
    let mut buf = [0u8; 64];
    let size = frame.serialize(&mut buf).unwrap();
    let (decoded, _) = Frame::deserialize(&buf[..size]).unwrap();
    assert_eq!(decoded.flags.bits(), 0x1F);
    assert_eq!(decoded.sequence, 9);
    assert_eq!(decoded.ack, 8);
    assert_eq!(decoded.packet_id, 7);
    assert_eq!(decoded.fragment_index, 0);
    assert_eq!(decoded.total_fragments, 1);
    assert_eq!(decoded.version, 1);
    assert_eq!(decoded.payload, b"abc");
}

#[test]
fn control_frames_carry_what_they_are_given() {
    let frames = [
        (Frame::new_nack(5), FrameType::Nack, 5, 0),
        (Frame::new_ping(6), FrameType::Ping, 6, 0),
        (Frame::new_pong(7), FrameType::Pong, 7, 0),
        (Frame::new_sync(8), FrameType::Sync, 8, 0),
        (Frame::new_sync_ack(9, 10), FrameType::SyncAck, 9, 10),
        (Frame::new_fin(11), FrameType::Fin, 11, 0),
        (Frame::new_fin_ack(12, 13), FrameType::FinAck, 12, 13),
        (Frame::new_reset(14), FrameType::Reset, 14, 0),
        (Frame::new_window_update(64), FrameType::WindowUpdate, 64, 0),
    ];
    for (frame, frame_type, sequence, ack) in frames {
        let mut buf = [0u8; 24];
        assert_eq!(frame.serialize(&mut buf), Ok(24));
        let (decoded, taken) = Frame::deserialize(&buf).unwrap();
        assert_eq!(taken, 24);
        assert_eq!(decoded.frame_type, frame_type);
        assert_eq!(decoded.sequence, sequence);
        assert_eq!(decoded.ack, ack);
        assert!(decoded.payload.is_empty());
    }
}

#[test]
fn serialize_says_what_is_wrong() {
    let frame = Frame::new_data(0, 0, 0, 0, 1, b"abcd");
    let mut small = [0u8; 27];
    assert_eq!(frame.serialize(&mut small), Err(Error::BufferTooSmall));
    assert_eq!(small, [0u8; 27]);
    let big = vec![0u8; 65536];
    let frame = Frame::new_data(0, 0, 0, 0, 1, &big);
    let mut room = vec![0u8; 70000];
    assert_eq!(frame.serialize(&mut room), Err(Error::PayloadTooLarge));
    let mut small = [0u8; 30];
    assert_eq!(frame.serialize(&mut small), Err(Error::BufferTooSmall));
    let longest = vec![7u8; 65535];
    let frame = Frame::new_data(0, 0, 0, 0, 1, &longest);
    assert_eq!(frame.serialize(&mut room), Ok(65559));
    let (decoded, taken) = Frame::deserialize(&room).unwrap();
    assert_eq!(taken, 65559);
    assert_eq!(decoded.payload, &longest[..]);
}

#[test]
fn deserialize_says_what_is_wrong() {
    let frame = Frame::new_data(1, 2, 3, 0, 1, b"payload");
    let mut buf = [0u8; 64];
    let size = frame.serialize(&mut buf).unwrap();
    assert!(matches!(Frame::deserialize(&buf[..23]), Err(Error::BufferTooSmall)));
    assert!(matches!(Frame::deserialize(&buf[..size - 1]), Err(Error::BufferTooSmall)));
    let mut wrong = buf;
    wrong[0] = 2;
    assert!(matches!(Frame::deserialize(&wrong[..size]), Err(Error::VersionMismatch)));
    let mut wrong = buf;
    wrong[1] = 0x0C;
    assert!(matches!(Frame::deserialize(&wrong[..size]), Err(Error::InvalidFrame)));
    let mut wrong = buf;
    wrong[0] = 2;
    wrong[1] = 0x0C;
    assert!(matches!(Frame::deserialize(&wrong[..size]), Err(Error::VersionMismatch)));
    let mut wrong = buf;
    wrong[21] ^= 0x10;
    assert!(matches!(Frame::deserialize(&wrong[..size]), Err(Error::ChecksumMismatch)));
    let (decoded, taken) = Frame::deserialize(&buf).unwrap();
    assert_eq!(taken, size);
    assert_eq!(decoded.payload, b"payload");
}

#[test]
fn any_flipped_bit_is_noticed() {
    let frame = Frame::new_data(77, 78, 79, 1, 3, b"some payload bytes");
    let mut buf = [0u8; 64];
    let size = frame.serialize(&mut buf).unwrap();
    for at in 0..size {
        for bit in 0..8 {
            let mut flipped = buf;
            flipped[at] ^= 1 << bit;
            let result = Frame::deserialize(&flipped[..size]);
            assert!(result.is_err());
            let tested_before_the_checksum = at == 0 || at == 1 || at == 16 || at == 17;
            if !tested_before_the_checksum {
                assert!(matches!(result, Err(Error::ChecksumMismatch)));
            }
        }
    }
}

#[test]
fn validate_tests_version_index_and_length() {
    let mut frame = Frame::new_data(0, 0, 0, 2, 3, b"x");
    assert_eq!(frame.validate(), Ok(()));
    frame.fragment_index = 3;
    assert_eq!(frame.validate(), Err(Error::InvalidFragmentIndex));
    frame.version = 9;
    assert_eq!(frame.validate(), Err(Error::VersionMismatch));
    let big = vec![0u8; 65536];
    let frame = Frame::new_data(0, 0, 0, 0, 1, &big);
    assert_eq!(frame.validate(), Err(Error::PayloadTooLarge));
    assert_eq!(Frame::new_ack(1).validate(), Ok(()));
}
