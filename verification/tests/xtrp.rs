use xtransport::xtrp::config::{TransportConfig, HEADER_SIZE, MAGIC, MESSAGE_HEAD_SIZE, VERSION};
use xtransport::xtrp::error::{Error, ErrorKind};
use xtransport::xtrp::io::{read_progress, write_progress, Read, Write};
use xtransport::xtrp::protocol::{MessageHead, Packet, PacketHeader, PacketType};
use xtransport::xtrp::transport::{
    announced, announcement, check_ack, opening, packet_bytes, packet_count, piece_of, place_chunk,
    Opening, XTransport,
};

struct Pipe {
    incoming: Vec<u8>,
    read_at: usize,
    outgoing: Vec<u8>,
    chunk: usize,
    flushes: usize,
}

impl Pipe {
    fn new(incoming: Vec<u8>, chunk: usize) -> Pipe {
        Pipe { incoming, read_at: 0, outgoing: Vec::new(), chunk, flushes: 0 }
    }
}

impl Read for Pipe {
    fn read(&mut self, buf: &mut [u8]) -> Result<usize, Error> {
        let left = self.incoming.len() - self.read_at;
        let n = buf.len().min(left).min(self.chunk);
        buf[..n].copy_from_slice(&self.incoming[self.read_at..self.read_at + n]);
        self.read_at += n;
        Ok(n)
    }
}

impl Write for Pipe {
    fn write(&mut self, buf: &[u8]) -> Result<usize, Error> {
        let n = buf.len().min(self.chunk);
        self.outgoing.extend_from_slice(&buf[..n]);
        Ok(n)
    }

    fn flush(&mut self) -> Result<(), Error> {
        self.flushes += 1;
        Ok(())
    }
}

fn sent_by(config: TransportConfig, message: &[u8]) -> Vec<u8> {
    let mut transport = XTransport::new(Pipe::new(Vec::new(), 7), config);
    transport.send_message(message).unwrap();
    let pipe = transport.into_inner();
    assert_eq!(pipe.flushes, 1);
    pipe.outgoing
}

fn pipe_of(transport: &mut XTransport<Pipe>) -> &mut Pipe {
    transport.inner_mut()
}

#[test]
fn header_is_sixteen_little_endian_bytes() {
    let mut header = PacketHeader::new(PacketType::MessageData, 0x0102_0304, 0x0506);
    header.crc32 = 0x0708_090A;
    assert_eq!(
        header.to_bytes(),
        [0x50, 0x52, 0x54, 0x58, 0x01, 0x02, 0x04, 0x03, 0x02, 0x01, 0x06, 0x05, 0x0A, 0x09, 0x08, 0x07]
    );
    assert_eq!(PacketHeader::from_bytes(&header.to_bytes()), Ok(header));
    assert_eq!(HEADER_SIZE, 16);
    assert_eq!(MAGIC, 0x58545250);
    assert_eq!(VERSION, 1);
}

#[test]
fn header_with_wrong_magic_or_version_is_refused() {
    let mut bytes = PacketHeader::new(PacketType::Data, 1, 2).to_bytes();
    bytes[4] = 2;
    assert_eq!(PacketHeader::from_bytes(&bytes).unwrap_err().kind(), ErrorKind::InvalidVersion);
    bytes[0] = 0;
    assert_eq!(PacketHeader::from_bytes(&bytes).unwrap_err().kind(), ErrorKind::InvalidMagic);
    assert_eq!(Error::new(ErrorKind::InvalidMagic).message(), "Invalid magic number");
    assert_eq!(Error::new(ErrorKind::CrcMismatch).message(), "CRC checksum mismatch");
}

#[test]
fn packet_types_have_their_codes() {
    for (code, packet_type) in [
        (0u8, PacketType::Data),
        (1, PacketType::MessageHead),
        (2, PacketType::MessageData),
        (3, PacketType::Ack),
    ] {
        assert_eq!(PacketType::from_u8(code), Some(packet_type));
        assert_eq!(packet_type.to_u8(), code);
    }
    assert_eq!(PacketType::from_u8(4), None);
}

#[test]
fn message_head_round_trips() {
    let mut head = MessageHead::new(0x0102_0304_0506_0708, 0x1112_1314_1516_1718, 0x2122_2324);
    head.flags = 0x3132_3334;
    head.reserved = [1, 2, 3, 4, 5, 6, 7, 8];
    let bytes = head.to_bytes();
    assert_eq!(bytes.len(), MESSAGE_HEAD_SIZE);
    assert_eq!(&bytes[..8], &[8, 7, 6, 5, 4, 3, 2, 1]);
    assert_eq!(&bytes[8..16], &[0x18, 0x17, 0x16, 0x15, 0x14, 0x13, 0x12, 0x11]);
    assert_eq!(&bytes[16..20], &[0x24, 0x23, 0x22, 0x21]);
    assert_eq!(&bytes[20..24], &[0x34, 0x33, 0x32, 0x31]);
    assert_eq!(&bytes[24..], &[1, 2, 3, 4, 5, 6, 7, 8]);
    let back = MessageHead::from_bytes(&bytes).unwrap();
    assert_eq!(back.total_length, head.total_length);
    assert_eq!(back.message_id, head.message_id);
    assert_eq!(back.packet_count, head.packet_count);
    assert_eq!(back.flags, head.flags);
    assert_eq!(back.reserved, head.reserved);
}

#[test]
fn packet_carries_the_checksum_of_its_payload() {
    let packet = Packet::new(PacketType::Data, 5, b"123456789".to_vec());
    assert_eq!(packet.header.crc32, 0xCBF43926);
    assert_eq!(packet.header.length, 9);
    assert_eq!(packet.header.seq, 5);
    assert!(packet.verify_crc());
    assert!(packet.matches_checksum(0xCBF43926));
    let mut spoiled = Packet::new(PacketType::Data, 5, b"123456789".to_vec());
    spoiled.data[3] ^= 1;
    assert!(!spoiled.verify_crc());
    let stated = Packet::with_checksum(PacketType::Ack, 1, vec![1, 2], 7);
    assert_eq!(stated.header.crc32, 7);
    assert!(!stated.verify_crc());
    let bytes = packet_bytes(&packet);
    assert_eq!(&bytes[..16], &packet.header.to_bytes());
    assert_eq!(&bytes[16..], b"123456789");
}

#[test]
fn ack_must_name_the_packet_it_confirms() {
    let ack = Packet::new(PacketType::Ack, 0, 0x0A0B_0C0Du32.to_le_bytes().to_vec());
    assert!(check_ack(&ack, 0x0A0B_0C0D).is_ok());
    assert_eq!(check_ack(&ack, 1).unwrap_err().kind(), ErrorKind::InvalidPacket);
    let short = Packet::new(PacketType::Ack, 0, vec![1, 0, 0]);
    assert_eq!(check_ack(&short, 1).unwrap_err().kind(), ErrorKind::InvalidPacket);
    let data = Packet::new(PacketType::Data, 0, 1u32.to_le_bytes().to_vec());
    assert_eq!(check_ack(&data, 1).unwrap_err().kind(), ErrorKind::InvalidPacket);
}

#[test]
fn chunks_are_counted_and_placed() {
    assert_eq!(packet_count(0, 10), 0);
    assert_eq!(packet_count(1, 10), 1);
    assert_eq!(packet_count(10, 10), 1);
    assert_eq!(packet_count(11, 10), 2);
    assert_eq!(packet_count(usize::MAX, 1), usize::MAX);
    let mut result = vec![0u8; 5];
    assert_eq!(place_chunk(&mut result, 0, b"abc"), 3);
    assert_eq!(place_chunk(&mut result, 3, b"defg"), 5);
    assert_eq!(place_chunk(&mut result, 5, b"h"), 5);
    assert_eq!(result, b"abcde");
}

#[test]
fn config_leaves_room_for_the_header() {
    let config = TransportConfig::default();
    assert_eq!(config.max_payload_size, 4096 - 16);
    assert!(!config.wait_for_ack);
    let config = TransportConfig::new().with_max_frame_size(116).with_ack(true);
    assert_eq!(config.max_payload_size, 100);
    assert!(config.wait_for_ack);
    assert_eq!(TransportConfig::new().with_max_frame_size(3).max_payload_size, 0);
}

#[test]
fn small_message_is_one_data_packet() {
    let bytes = sent_by(TransportConfig::new(), b"Hello");
    let expected = packet_bytes(&Packet::new(PacketType::Data, 0, b"Hello".to_vec()));
    assert_eq!(bytes, expected);
    let mut receiver = XTransport::new(Pipe::new(bytes, 3), TransportConfig::new());
    assert_eq!(receiver.recv_message().unwrap(), b"Hello");
    assert_eq!(receiver.recv_message().unwrap_err().kind(), ErrorKind::UnexpectedEof);
}

#[test]
fn large_message_is_head_and_pieces() {
    let message: Vec<u8> = (0..350u32).map(|i| (i % 256) as u8).collect();
    let config = TransportConfig::new().with_max_frame_size(116);
    let bytes = sent_by(TransportConfig::new().with_max_frame_size(116), &message);
    let head = MessageHead::new(350, 1, 4);
    let mut expected = packet_bytes(&Packet::new(PacketType::MessageHead, 0, head.to_bytes().to_vec()));
    for (i, chunk) in message.chunks(100).enumerate() {
        expected.extend(packet_bytes(&Packet::new(PacketType::MessageData, 1 + i as u32, chunk.to_vec())));
    }
    assert_eq!(bytes, expected);
    let mut receiver = XTransport::new(Pipe::new(bytes.clone(), 11), config);
    assert_eq!(receiver.recv_message().unwrap(), message);

    let mut spoiled = bytes.clone();
    let last = spoiled.len() - 1;
    spoiled[last] ^= 0x40;
    let mut receiver = XTransport::new(Pipe::new(spoiled, 1000), TransportConfig::new());
    assert_eq!(receiver.recv_message().unwrap_err().kind(), ErrorKind::CrcMismatch);

    let mut receiver = XTransport::new(Pipe::new(bytes[16 + 32..].to_vec(), 1000), TransportConfig::new());
    assert_eq!(receiver.recv_message().unwrap_err().kind(), ErrorKind::InvalidPacket);
}

#[test]
fn confirmed_packets_wait_for_their_ack() {
    let config = TransportConfig::new().with_ack(true);
    let ack = packet_bytes(&Packet::new(PacketType::Ack, 0, 0u32.to_le_bytes().to_vec()));
    let mut sender = XTransport::new(Pipe::new(ack, 100), TransportConfig::new().with_ack(true));
    assert!(sender.send_message(b"ping").is_ok());
    let mut sender = XTransport::new(Pipe::new(Vec::new(), 100), TransportConfig::new().with_ack(true));
    assert_eq!(sender.send_message(b"ping").unwrap_err().kind(), ErrorKind::UnexpectedEof);
    let wrong = packet_bytes(&Packet::new(PacketType::Ack, 0, 9u32.to_le_bytes().to_vec()));
    let mut sender = XTransport::new(Pipe::new(wrong, 100), TransportConfig::new().with_ack(true));
    assert_eq!(sender.send_message(b"ping").unwrap_err().kind(), ErrorKind::InvalidPacket);

    let data = packet_bytes(&Packet::new(PacketType::Data, 41, b"pong".to_vec()));
    let mut receiver = XTransport::new(Pipe::new(data, 100), config);
    assert_eq!(receiver.recv_message().unwrap(), b"pong");
    let confirmed = packet_bytes(&Packet::new(PacketType::Ack, 0, 41u32.to_le_bytes().to_vec()));
    assert_eq!(pipe_of(&mut receiver).outgoing, confirmed);
}

#[test]
fn transport_reads_and_writes_as_a_channel() {
    let mut incoming = packet_bytes(&Packet::new(PacketType::Data, 0, b"abcdef".to_vec()));
    incoming.extend(packet_bytes(&Packet::new(PacketType::Data, 1, b"gh".to_vec())));
    let mut transport = XTransport::new(Pipe::new(incoming, 5), TransportConfig::new().with_max_frame_size(20));
    let mut buf = [0u8; 4];
    assert_eq!(transport.read(&mut buf).unwrap(), 4);
    assert_eq!(&buf, b"abcd");
    assert_eq!(transport.read(&mut buf).unwrap(), 2);
    assert_eq!(&buf[..2], b"ef");
    assert_eq!(transport.read(&mut buf).unwrap(), 2);
    assert_eq!(&buf[..2], b"gh");
    assert_eq!(transport.read(&mut buf).unwrap_err().kind(), ErrorKind::UnexpectedEof);
    assert_eq!(transport.write(b"").unwrap(), 0);
    assert_eq!(transport.write(b"0123456789").unwrap(), 4);
    assert!(transport.flush().is_ok());
    let sent = packet_bytes(&Packet::new(PacketType::Data, 0, b"0123".to_vec()));
    assert_eq!(pipe_of(&mut transport).outgoing, sent);
}

#[test]
fn announcement_spells_out_length_number_and_count() {
    let bytes = announcement(0x0102_0304, 0x1122_3344_5566_7788, 5);
    assert_eq!(bytes.len(), 32);
    assert_eq!(&bytes[0..8], &[0x04, 0x03, 0x02, 0x01, 0, 0, 0, 0]);
    assert_eq!(&bytes[8..16], &[0x88, 0x77, 0x66, 0x55, 0x44, 0x33, 0x22, 0x11]);
    assert_eq!(&bytes[16..20], &[5, 0, 0, 0]);
    assert_eq!(&bytes[20..32], &[0u8; 12]);
    let head = MessageHead::from_bytes(&bytes).unwrap();
    assert_eq!(head.total_length, 0x0102_0304);
    assert_eq!(head.message_id, 0x1122_3344_5566_7788);
    assert_eq!(head.packet_count, 5);
}

#[test]
fn announced_reads_back_an_announcement() {
    let bytes = announcement(350, 9, 4);
    assert_eq!(announced(&bytes).unwrap(), (350, 4));
    let mut longer = bytes.to_vec();
    longer.extend_from_slice(b"more");
    assert_eq!(announced(&longer).unwrap(), (350, 4));
    assert_eq!(announced(&bytes[..31]).unwrap_err().kind(), ErrorKind::InvalidPacket);
    assert_eq!(announced(&[]).unwrap_err().kind(), ErrorKind::InvalidPacket);
}

struct Broken;

impl Read for Broken {
    fn read(&mut self, _buf: &mut [u8]) -> Result<usize, Error> {
        Err(Error::new(ErrorKind::Other))
    }
}

impl Write for Broken {
    fn write(&mut self, _buf: &[u8]) -> Result<usize, Error> {
        Err(Error::new(ErrorKind::Other))
    }

    fn flush(&mut self) -> Result<(), Error> {
        Err(Error::new(ErrorKind::Other))
    }
}

#[test]
fn nothing_to_move_asks_nothing_of_the_channel() {
    let mut channel = Broken;
    let mut empty = [0u8; 0];
    assert!(channel.read_exact(&mut empty).is_ok());
    assert!(channel.write_all(&empty).is_ok());
    let mut one = [7u8; 1];
    assert_eq!(channel.read_exact(&mut one).unwrap_err().kind(), ErrorKind::Other);
    assert_eq!(channel.write_all(&one).unwrap_err().kind(), ErrorKind::Other);
}

#[test]
fn exact_reads_and_whole_writes_go_on_until_done() {
    let mut pipe = Pipe::new(b"abcdefg".to_vec(), 3);
    let mut buf = [0u8; 5];
    assert!(pipe.read_exact(&mut buf).is_ok());
    assert_eq!(&buf, b"abcde");
    let mut rest = [0u8; 4];
    assert_eq!(pipe.read_exact(&mut rest).unwrap_err().kind(), ErrorKind::UnexpectedEof);
    assert!(pipe.write_all(b"0123456789").is_ok());
    assert_eq!(pipe.outgoing, b"0123456789");
    let mut stuck = Pipe::new(Vec::new(), 0);
    assert_eq!(stuck.write_all(b"x").unwrap_err().kind(), ErrorKind::WriteZero);
}

#[test]
fn progress_of_one_read_and_one_write() {
    assert_eq!(read_progress(1, 4, Ok(3)), Ok(4));
    assert_eq!(read_progress(0, 4, Ok(1)), Ok(1));
    assert_eq!(read_progress(2, 4, Ok(0)).unwrap_err().kind(), ErrorKind::UnexpectedEof);
    let failed = Error::new(ErrorKind::Interrupted);
    assert_eq!(read_progress(2, 4, Err(failed)), Err(failed));
    assert_eq!(write_progress(1, 4, Ok(3)), Ok(4));
    assert_eq!(write_progress(0, 4, Ok(2)), Ok(2));
    assert_eq!(write_progress(2, 4, Ok(0)).unwrap_err().kind(), ErrorKind::WriteZero);
    assert_eq!(write_progress(2, 4, Err(failed)), Err(failed));
}

#[test]
fn corrupt_packet_is_refused_and_not_confirmed() {
    let bytes = vec![0x50, 0x52, 0x54, 0x58, 0x01, 0x00, 0, 0, 0, 0, 0x01, 0x00, 0, 0, 0, 0, 0x00];
    for confirm in [false, true] {
        let config = TransportConfig::new().with_ack(confirm);
        let mut transport = XTransport::new(Pipe::new(bytes.clone(), 100), config);
        assert_eq!(transport.recv_message().unwrap_err().kind(), ErrorKind::CrcMismatch);
        assert!(pipe_of(&mut transport).outgoing.is_empty());
        assert_eq!(pipe_of(&mut transport).read_at, 17);
    }
}

#[test]
fn packet_type_is_tested_before_the_payload_is_read() {
    let stray = PacketHeader::new(PacketType::Ack, 0, 5).to_bytes().to_vec();
    let mut transport = XTransport::new(Pipe::new(stray, 100), TransportConfig::new().with_ack(true));
    assert_eq!(transport.recv_message().unwrap_err().kind(), ErrorKind::InvalidPacket);
    assert_eq!(pipe_of(&mut transport).read_at, 16);
    assert!(pipe_of(&mut transport).outgoing.is_empty());

    let mut unknown = PacketHeader::new(PacketType::Data, 0, 5);
    unknown.pkt_type = 9;
    let mut transport = XTransport::new(Pipe::new(unknown.to_bytes().to_vec(), 100), TransportConfig::new());
    assert_eq!(transport.recv_message().unwrap_err().kind(), ErrorKind::InvalidPacket);

    let mut incoming = packet_bytes(&Packet::new(PacketType::MessageHead, 0, announcement(4, 1, 1).to_vec()));
    incoming.extend(PacketHeader::new(PacketType::Data, 1, 4).to_bytes());
    let mut transport = XTransport::new(Pipe::new(incoming, 100), TransportConfig::new().with_ack(true));
    assert_eq!(transport.recv_message().unwrap_err().kind(), ErrorKind::InvalidPacket);
    let confirmed = packet_bytes(&Packet::new(PacketType::Ack, 0, 0u32.to_le_bytes().to_vec()));
    assert_eq!(pipe_of(&mut transport).outgoing, confirmed);
    assert_eq!(pipe_of(&mut transport).read_at, 16 + 32 + 16);
}

#[test]
fn opening_and_piece_are_told_by_the_header() {
    assert_eq!(opening(&PacketHeader::new(PacketType::Data, 0, 0)), Ok(Opening::Whole));
    assert_eq!(opening(&PacketHeader::new(PacketType::MessageHead, 0, 32)), Ok(Opening::Announced));
    assert_eq!(
        opening(&PacketHeader::new(PacketType::MessageData, 0, 0)).unwrap_err().kind(),
        ErrorKind::InvalidPacket
    );
    assert_eq!(
        opening(&PacketHeader::new(PacketType::Ack, 0, 4)).unwrap_err().kind(),
        ErrorKind::InvalidPacket
    );
    let mut unknown = PacketHeader::new(PacketType::Data, 0, 0);
    unknown.pkt_type = 200;
    assert_eq!(opening(&unknown).unwrap_err().kind(), ErrorKind::InvalidPacket);
    assert_eq!(piece_of(&unknown).unwrap_err().kind(), ErrorKind::InvalidPacket);
    assert_eq!(piece_of(&PacketHeader::new(PacketType::MessageData, 3, 9)), Ok(()));
    assert_eq!(
        piece_of(&PacketHeader::new(PacketType::Data, 3, 9)).unwrap_err().kind(),
        ErrorKind::InvalidPacket
    );
}

#[test]
fn packet_checksum_is_the_crc_32_of_the_payload() {
    let mut payloads: Vec<Vec<u8>> = vec![Vec::new(), vec![0], vec![0xFF; 3], b"123456789".to_vec()];
    payloads.push((0..=255u8).collect());
    payloads.push((0..5000usize).map(|i| (i * 7 + i / 13) as u8).collect());
    for payload in payloads {
        let packet = Packet::new(PacketType::Data, 0, payload.clone());
        assert_eq!(packet.header.crc32, xtransport::codec::Crc32::compute(&payload));
        assert!(packet.verify_crc());
        if !payload.is_empty() {
            let mut spoiled = Packet::new(PacketType::Data, 0, payload.clone());
            let last = spoiled.data.len() - 1;
            spoiled.data[last] ^= 0x10;
            assert!(!spoiled.verify_crc());
        }
    }
}
