use xtransport::codec::{Frame, FrameType};
use xtransport::error::Error;
use xtransport::stream::receiver::OooSegment;
use xtransport::stream::sender::SegmentMeta;
use xtransport::stream::{Config, Duration, Instant, Receiver, Sender};
use xtransport::transport::{LoopbackTransport, NullTransport, Transport};

fn pattern(from: usize, len: usize) -> Vec<u8> {
    (from..from + len).map(|i| (i * 31 % 251) as u8).collect()
}

#[test]
fn out_of_order_bytes_come_out_in_order() {
    let config = Config::default().with_buffer_sizes(4096, 4096);
    let mut receiver = Receiver::new(1000, &config);
    let data = pattern(0, 150);
    assert_eq!(receiver.receive(1100, &data[100..150]), Ok(0));
    assert_eq!(receiver.readable_len(), 0);
    assert_eq!(receiver.receive(1050, &data[50..100]), Ok(0));
    assert!(!receiver.has_data());
    assert_eq!(receiver.receive(1000, &data[..50]), Ok(150));
    assert_eq!(receiver.readable_len(), 150);
    assert_eq!(receiver.next_expected(), 1150);
    let mut out = [0u8; 200];
    assert_eq!(receiver.read(&mut out), 150);
    assert_eq!(&out[..150], &data[..]);
    assert_eq!(receiver.readable_len(), 0);
    assert_eq!(receiver.read(&mut out), 0);
}

#[test]
fn stream_receiver_refuses_what_it_cannot_keep() {
    let config = Config::new().with_buffer_sizes(64, 64).with_max_segments(2);
    let mut receiver = Receiver::new(0xFFFF_FFF0, &config);
    assert_eq!(receiver.receive(0xFFFF_FFF0, &[]), Ok(0));
    assert_eq!(receiver.receive(5, &[]), Ok(0));
    assert_eq!(receiver.receive(0xFFFF_FFE0, b"old"), Ok(0));
    assert_eq!(receiver.receive(0xFFFF_FFF0u32.wrapping_add(64), b"far"), Err(Error::InvalidSequence));
    assert_eq!(receiver.receive(0xFFFF_FFF0u32.wrapping_add(62), b"far"), Err(Error::BufferFull));
    assert_eq!(receiver.receive(0xFFFF_FFF0, &pattern(0, 40)), Ok(40));
    assert_eq!(receiver.next_expected(), 24);
    assert_eq!(receiver.receive(24, &pattern(40, 65)), Err(Error::BufferFull));
    assert_eq!(receiver.receive(24, &pattern(40, 24)), Ok(24));
    let mut out = [0u8; 10];
    assert_eq!(receiver.read(&mut out), 10);
    assert_eq!(&out, &pattern(0, 10)[..]);
    assert_eq!(receiver.readable_len(), 54);
    assert_eq!(receiver.receive(48, &pattern(64, 10)), Ok(10));
    let mut rest = [0u8; 64];
    assert_eq!(receiver.read(&mut rest), 64);
    assert_eq!(&rest[..], &pattern(10, 64)[..]);
    receiver.reinit(7);
    assert_eq!(receiver.next_expected(), 7);
    assert!(!receiver.has_data());
}

#[test]
fn segments_ahead_are_joined_when_their_turn_comes() {
    let config = Config::new().with_buffer_sizes(256, 256).with_max_segments(2);
    let mut receiver = Receiver::new(0, &config);
    let data = pattern(0, 100);
    assert_eq!(receiver.receive(20, &data[20..40]), Ok(0));
    assert_eq!(receiver.receive(20, &data[20..40]), Ok(0));
    assert_eq!(receiver.receive(60, &data[60..80]), Ok(0));
    assert_eq!(receiver.receive(80, &data[80..100]), Ok(0));
    assert_eq!(receiver.receive(0, &data[..20]), Ok(40));
    assert_eq!(receiver.receive(40, &data[40..60]), Ok(40));
    assert_eq!(receiver.next_expected(), 80);
    assert_eq!(receiver.receive(80, &data[80..100]), Ok(20));
    let mut out = [0u8; 100];
    assert_eq!(receiver.read(&mut out), 100);
    assert_eq!(&out[..], &data[..]);
    let segment = OooSegment::new();
    assert!(!segment.in_use);
}

#[test]
fn instants_measure_spans() {
    let start = Instant::from_millis(100);
    assert!(start.elapsed_since(Instant::from_millis(150), Duration::from_millis(50)));
    assert!(!start.elapsed_since(Instant::from_millis(149), Duration::from_millis(50)));
    assert!(!start.elapsed_since(Instant::from_millis(50), Duration::from_millis(1)));
    assert!(start.elapsed_since(Instant::from_millis(50), Duration::from_millis(0)));
    assert_eq!(start.as_millis(), 100);
    assert_eq!(Duration::from_millis(7).as_millis(), 7);
}

fn segments_from(transport: &mut LoopbackTransport<4096>) -> Vec<(u32, u32, Vec<u8>)> {
    let mut bytes = vec![0u8; 4096];
    let n = transport.read(&mut bytes).unwrap_or(0);
    let mut at = 0;
    let mut segments = Vec::new();
    while at < n {
        let (frame, taken) = Frame::deserialize(&bytes[at..n]).unwrap();
        assert_eq!(frame.frame_type, FrameType::Data);
        assert_eq!((frame.packet_id, frame.fragment_index, frame.total_fragments), (0, 0, 1));
        segments.push((frame.sequence, frame.ack, frame.payload.to_vec()));
        at += taken;
    }
    segments
}

#[test]
fn stream_sender_cuts_segments() {
    let config = Config::new().with_buffer_sizes(64, 64).with_max_segment_size(10).with_max_segments(3);
    let mut sender = Sender::new(0xFFFF_FFF8, &config);
    let mut transport: LoopbackTransport<4096> = LoopbackTransport::new();
    assert_eq!(sender.mss(), 10);
    assert_eq!(sender.available(), 64);
    let data = pattern(0, 80);
    assert_eq!(sender.write(&data), 64);
    assert_eq!(sender.write(&data), 0);
    assert_eq!(sender.available(), 0);
    assert!(sender.is_window_full());
    assert_eq!(sender.pending(), 64);
    assert_eq!(sender.next_seq(), 0xFFFF_FFF8u32.wrapping_add(64));
    sender.set_ack(5);
    assert_eq!(sender.ack(), 5);
    sender.schedule_ack(Instant::from_millis(0));
    assert_eq!(sender.transmit_pending(&mut transport, Instant::from_millis(10)), Ok(30));
    assert!(!sender.should_send_ack(Instant::from_millis(1000)));
    assert_eq!(sender.in_flight(), 30);
    assert_eq!(sender.pending(), 34);
    assert_eq!(sender.send_next(), 22);
    assert_eq!(sender.transmit_pending(&mut transport, Instant::from_millis(20)), Ok(0));
    assert_eq!(
        segments_from(&mut transport),
        vec![
            (0xFFFF_FFF8, 5, data[..10].to_vec()),
            (2, 5, data[10..20].to_vec()),
            (12, 5, data[20..30].to_vec()),
        ]
    );
    assert_eq!(sender.on_ack(0xFFFF_FFF8), 0);
    assert_eq!(sender.on_ack(23), 0);
    assert_eq!(sender.on_ack(7), 15);
    assert_eq!(sender.in_flight(), 15);
    assert_eq!(sender.available(), 15);
    assert!(!sender.is_window_full());
    assert_eq!(sender.transmit_pending(&mut transport, Instant::from_millis(30)), Ok(10));
    assert_eq!(segments_from(&mut transport), vec![(22, 5, data[30..40].to_vec())]);
    assert_eq!(sender.write(&data[64..]), 15);
    assert_eq!(sender.on_ack(32), 25);
    assert_eq!(sender.transmit_pending(&mut transport, Instant::from_millis(40)), Ok(30));
    let sent = segments_from(&mut transport);
    assert_eq!(sent[0], (32, 5, data[40..50].to_vec()));
    assert_eq!(sent[2], (52, 5, data[60..70].to_vec()));
}

#[test]
fn stream_sender_sends_again_until_it_gives_up() {
    let config = Config::new().with_max_segment_size(8).with_max_retries(2);
    let mut sender = Sender::new(100, &config);
    let mut transport: LoopbackTransport<4096> = LoopbackTransport::new();
    sender.write(b"0123456789");
    assert_eq!(sender.check_timeout(Instant::from_millis(5000)), None);
    assert_eq!(sender.transmit_pending(&mut transport, Instant::from_millis(0)), Ok(10));
    let first = segments_from(&mut transport);
    assert_eq!(sender.check_timeout(Instant::from_millis(999)), None);
    assert_eq!(sender.check_timeout(Instant::from_millis(1000)), Some(100));
    assert_eq!(sender.retransmit(101, &mut transport, Instant::from_millis(1000)), Err(Error::InvalidSequence));
    assert_eq!(sender.retransmit(100, &mut transport, Instant::from_millis(1000)), Ok(8));
    assert_eq!(segments_from(&mut transport), first[..1].to_vec());
    assert_eq!(sender.check_timeout(Instant::from_millis(1000)), Some(108));
    assert_eq!(sender.retransmit(100, &mut transport, Instant::from_millis(2000)), Err(Error::MaxRetriesExceeded));
    assert_eq!(sender.on_ack(108), 8);
    assert_eq!(sender.retransmit(100, &mut transport, Instant::from_millis(2000)), Err(Error::InvalidSequence));
    sender.reset();
    assert_eq!(sender.next_seq(), 0);
    assert_eq!(sender.in_flight(), 0);
    sender.reinit(9, &config);
    assert_eq!(sender.send_next(), 9);
    let meta = SegmentMeta::new();
    assert!(!meta.in_use);
}

#[test]
fn delayed_ack_waits_for_its_time() {
    let config = Config::new().with_delayed_ack_ms(40);
    let mut sender = Sender::new(0, &config);
    assert!(!sender.should_send_ack(Instant::from_millis(1000)));
    sender.schedule_ack(Instant::from_millis(100));
    sender.schedule_ack(Instant::from_millis(120));
    assert!(!sender.should_send_ack(Instant::from_millis(139)));
    assert!(sender.should_send_ack(Instant::from_millis(140)));
    sender.clear_ack_pending();
    assert!(!sender.should_send_ack(Instant::from_millis(140)));
    let mut eager = Sender::new(0, &Config::new().with_delayed_ack_ms(0));
    eager.schedule_ack(Instant::from_millis(100));
    assert!(eager.should_send_ack(Instant::from_millis(100)));
    let mut transport = NullTransport::new();
    eager.write(b"x");
    assert_eq!(eager.transmit_pending(&mut transport, Instant::from_millis(100)), Ok(1));
    assert!(!eager.should_send_ack(Instant::from_millis(100)));
    assert_eq!(transport.bytes_written(), 25);
}

#[test]
fn segment_ahead_is_stored_wherever_the_ring_reaches() {
    let config = Config::new().with_buffer_sizes(64, 64).with_max_segments(4);
    let mut receiver = Receiver::new(0, &config);
    assert_eq!(receiver.receive(0, &[1u8; 40]), Ok(40));
    assert_eq!(receiver.receive(50, &[2u8; 60]), Err(Error::BufferFull));
    assert_eq!(receiver.receive(50, &[2u8; 30]), Ok(0));
    assert_eq!(receiver.readable_len(), 40);
    assert_eq!(receiver.next_expected(), 40);
    assert_eq!(receiver.receive(40, &[3u8; 10]), Ok(40));
    assert_eq!(receiver.readable_len(), 80);
    assert_eq!(receiver.next_expected(), 80);
    let mut out = [0u8; 100];
    assert_eq!(receiver.read(&mut out), 80);
    let mut expected = vec![2u8; 16];
    expected.extend_from_slice(&[1u8; 24]);
    expected.extend_from_slice(&[3u8; 10]);
    expected.extend_from_slice(&[2u8; 30]);
    assert_eq!(&out[..80], &expected[..]);
    assert!(!receiver.has_data());
}

#[test]
fn segments_are_stitched_only_where_they_follow_without_a_gap() {
    let config = Config::new().with_buffer_sizes(256, 256).with_max_segments(4);
    let mut receiver = Receiver::new(1000, &config);
    assert_eq!(receiver.receive(1100, &[3u8; 50]), Ok(0));
    assert_eq!(receiver.receive(1040, &[2u8; 10]), Ok(0));
    assert_eq!(receiver.receive(1000, &[1u8; 40]), Ok(50));
    assert_eq!(receiver.next_expected(), 1050);
    assert_eq!(receiver.readable_len(), 50);
    assert_eq!(receiver.receive(1050, &[4u8; 50]), Ok(100));
    assert_eq!(receiver.next_expected(), 1150);
    let mut out = [0u8; 150];
    assert_eq!(receiver.read(&mut out), 150);
    assert_eq!(&out[..40], &[1u8; 40]);
    assert_eq!(&out[40..50], &[2u8; 10]);
    assert_eq!(&out[50..100], &[4u8; 50]);
    assert_eq!(&out[100..150], &[3u8; 50]);
}

#[test]
fn stream_sender_notes_what_the_carrier_took() {
    let config = Config::new().with_buffer_sizes(64, 64).with_max_segment_size(10).with_max_segments(3);
    let mut sender = Sender::new(100, &config);
    assert_eq!(sender.write(&pattern(0, 25)), 25);
    let at = Instant::from_millis(5);
    assert_eq!(sender.note_sent(Err(Error::IoError), 0, 10, at), Err(Error::IoError));
    assert_eq!(sender.send_next(), 100);
    assert_eq!(sender.in_flight(), 0);
    sender.schedule_ack(at);
    assert_eq!(sender.note_sent(Ok(()), 0, 10, at), Ok(()));
    assert_eq!(sender.send_next(), 110);
    assert_eq!(sender.in_flight(), 10);
    assert_eq!(sender.pending(), 15);
    assert!(!sender.should_send_ack(Instant::from_millis(100_000)));
    let later = Instant::from_millis(9);
    assert_eq!(sender.note_sent_again(Err(Error::WouldBlock), 0, later), Err(Error::WouldBlock));
    assert_eq!(sender.note_sent_again(Ok(()), 0, later), Ok(()));
    assert_eq!(sender.check_timeout(later), None);
    assert_eq!(sender.check_timeout(Instant::from_millis(100_000)), Some(100));
    assert_eq!(sender.on_ack(110), 10);
    assert_eq!(sender.in_flight(), 0);
}
