use xtransport::codec::packet::OwnedPacket;
use xtransport::codec::{Packet, PacketBuffer};
use xtransport::error::Error;

#[test]
fn test_fragment_count() {
    let data = [0u8; 2500];
    let packet = Packet::new(1, &data).unwrap();

    assert_eq!(packet.fragment_count(1024), 3);

    assert_eq!(packet.fragment_count(512), 5);
}

#[test]
fn test_fragment_data() {
    let mut data = [0u8; 100];
    for i in 0..100 {
        data[i] = i as u8;
    }
    let packet = Packet::new(1, &data).unwrap();

    let frag0 = packet.fragment_data(0, 30).unwrap();
    assert_eq!(frag0.len(), 30);
    assert_eq!(frag0[0], 0);

    let frag3 = packet.fragment_data(3, 30).unwrap();
    assert_eq!(frag3.len(), 10);
    assert_eq!(frag3[0], 90);

    assert!(packet.fragment_data(4, 30).is_none());
}

#[test]
fn test_packet_buffer() {
    let mut buf: PacketBuffer<1024> = PacketBuffer::new();

    buf.write(b"Hello, ").unwrap();
    buf.write(b"World!").unwrap();

    assert_eq!(buf.len(), 13);
    assert_eq!(buf.as_slice(), b"Hello, World!");
}

#[test]
fn test_packet_buffer_write_at() {
    let mut buf: PacketBuffer<1024> = PacketBuffer::new();

    buf.write_at(10, b"World").unwrap();
    buf.write_at(0, b"Hello ").unwrap();

    assert_eq!(buf.len(), 15);
}

#[test]
fn empty_packet_is_one_empty_fragment() {
    let packet = Packet::new(3, &[]).unwrap();
    assert_eq!(packet.fragment_count(100), 1);
    assert_eq!(packet.fragment_count(0), 1);
    assert_eq!(packet.fragment_data(0, 100), Some(&[] as &[u8]));
    assert_eq!(packet.fragment_data(1, 100), None);
    assert_eq!(packet.validate(), Ok(()));
}

#[test]
fn fragments_join_to_the_message() {
    let data: Vec<u8> = (0..350u32).map(|i| (i % 256) as u8).collect();
    let packet = Packet::with_timestamp(1, &data, 99).unwrap();
    assert_eq!(packet.timestamp, 99);
    assert_eq!(packet.fragment_count(100), 4);
    let mut joined = Vec::new();
    let mut sizes = Vec::new();
    for i in 0..4 {
        let piece = packet.fragment_data(i, 100).unwrap();
        sizes.push(piece.len());
        joined.extend_from_slice(piece);
    }
    assert_eq!(sizes, vec![100, 100, 100, 50]);
    assert_eq!(joined, data);
    assert_eq!(packet.fragment_count(350), 1);
    assert_eq!(packet.fragment_count(349), 2);
    assert_eq!(packet.fragment_count(1), 350);
}

#[test]
fn packet_of_too_many_bytes_is_refused() {
    let data = vec![0u8; 65536];
    assert!(matches!(Packet::new(1, &data), Err(Error::PacketTooLarge)));
    assert!(matches!(Packet::with_timestamp(1, &data, 5), Err(Error::PacketTooLarge)));
    assert!(matches!(OwnedPacket::from_slice(1, &data), Err(Error::PacketTooLarge)));
    assert!(matches!(OwnedPacket::new(1, data), Err(Error::PacketTooLarge)));
    let data = vec![0u8; 65535];
    assert!(Packet::new(1, &data).is_ok());
    let owned = OwnedPacket::new(4, data).unwrap();
    let borrowed = owned.as_packet();
    assert_eq!(borrowed.id, 4);
    assert_eq!(borrowed.data.len(), 65535);
    let copied = OwnedPacket::from_slice(5, b"abc").unwrap();
    assert_eq!(copied.data, b"abc");
    assert_eq!(copied.timestamp, 0);
}

#[test]
fn packet_buffer_keeps_id_and_time() {
    let mut buf: PacketBuffer<8> = PacketBuffer::default();
    assert!(buf.is_empty());
    assert_eq!(buf.capacity(), 8);
    buf.set_id(12);
    buf.set_timestamp(34);
    assert_eq!(buf.write(b"abcdef"), Ok(6));
    assert_eq!(buf.remaining(), 2);
    assert_eq!(buf.write(b"ghij"), Ok(2));
    assert_eq!(buf.write(b"k"), Err(Error::BufferFull));
    assert_eq!(buf.write(b""), Ok(0));
    let packet = buf.as_packet();
    assert_eq!(packet.id, 12);
    assert_eq!(packet.timestamp, 34);
    assert_eq!(packet.data, b"abcdefgh");
    assert_eq!(buf.id(), 12);
    assert_eq!(buf.timestamp(), 34);
    buf.clear();
    assert_eq!(buf.len(), 0);
    assert_eq!(buf.id(), 0);
    assert_eq!(buf.timestamp(), 0);
}

#[test]
fn packet_buffer_write_at_and_set_len() {
    let mut buf: PacketBuffer<8> = PacketBuffer::new();
    assert_eq!(buf.write_at(6, b"xyz"), Err(Error::BufferTooSmall));
    assert_eq!(buf.len(), 0);
    assert_eq!(buf.write_at(5, b"xyz"), Ok(3));
    assert_eq!(buf.len(), 8);
    assert_eq!(buf.write_at(1, b"q"), Ok(1));
    assert_eq!(buf.len(), 8);
    assert_eq!(buf.as_slice(), &[0, b'q', 0, 0, 0, b'x', b'y', b'z']);
    assert_eq!(buf.set_len(9), Err(Error::BufferTooSmall));
    assert_eq!(buf.set_len(2), Ok(()));
    assert_eq!(buf.as_slice(), &[0, b'q']);
    buf.as_mut_slice()[0] = b'p';
    assert_eq!(buf.as_slice(), b"pq");
}
