use xtransport::channel::{ChannelState, Receiver, Sender};
use xtransport::codec::{Frame, FrameType};
use xtransport::config::Config;
use xtransport::error::Error;
use xtransport::transport::{LoopbackTransport, NullTransport, Transport};

#[test]
fn test_receiver_single_frame() {
    let config = Config::default();
    let mut receiver: Receiver<64, 16, 4096> = Receiver::new(&config);

    let frame = Frame::new_data(0, 0, 1, 0, 1, b"Hello");

    let result = receiver.process_frame(&frame, 0);
    assert!(result.is_ok());
    assert!(result.unwrap());
    assert!(receiver.has_data());

    let mut buf = [0u8; 32];
    let len = receiver.read(&mut buf).unwrap();
    assert_eq!(len, 5);
    assert_eq!(&buf[..5], b"Hello");
}

#[test]
fn test_sender_send_small_packet() {
    let config = Config::default();
    let mut sender: Sender<64, 2048> = Sender::new(&config);
    let mut transport: LoopbackTransport<4096> = LoopbackTransport::new();

    let result = sender.send_packet(&mut transport, b"Hello", 0);
    assert!(result.is_ok());
    assert_eq!(result.unwrap(), 1);
    assert_eq!(sender.in_flight(), 1);
}

#[test]
fn test_sender_send_large_packet() {
    let config = Config::default().with_max_frame_size(34);
    let mut sender: Sender<64, 256> = Sender::new(&config);
    let mut transport: LoopbackTransport<4096> = LoopbackTransport::new();

    let data = [0u8; 25];
    let result = sender.send_packet(&mut transport, &data, 0);
    assert!(result.is_ok());
    assert_eq!(result.unwrap(), 3);
}

#[test]
fn test_sender_ack_processing() {
    let config = Config::default();
    let mut sender: Sender<64, 2048> = Sender::new(&config);
    let mut transport: LoopbackTransport<4096> = LoopbackTransport::new();

    sender.send_packet(&mut transport, b"Hello", 0).unwrap();
    sender.send_packet(&mut transport, b"World", 0).unwrap();

    assert_eq!(sender.in_flight(), 2);

    sender.process_ack(1, 100);
    assert_eq!(sender.in_flight(), 0);
}

fn frames_from(transport: &mut LoopbackTransport<4096>) -> Vec<(FrameType, u32, u32, u16, u8, u8, Vec<u8>)> {
    let mut bytes = vec![0u8; 4096];
    let n = transport.read(&mut bytes).unwrap_or(0);
    let mut at = 0;
    let mut frames = Vec::new();
    while at < n {
        let (frame, taken) = Frame::deserialize(&bytes[at..n]).unwrap();
        frames.push((
            frame.frame_type,
            frame.sequence,
            frame.ack,
            frame.packet_id,
            frame.fragment_index,
            frame.total_fragments,
            frame.payload.to_vec(),
        ));
        at += taken;
    }
    frames
}

#[test]
fn sender_writes_one_frame_per_fragment() {
    let config = Config::default().with_max_frame_size(34);
    let mut sender: Sender<64, 256> = Sender::new(&config);
    let mut transport: LoopbackTransport<4096> = LoopbackTransport::new();
    sender.set_ack(77);
    let data: Vec<u8> = (0..25u8).collect();
    assert_eq!(sender.send_packet(&mut transport, &data, 5), Ok(3));
    assert_eq!(sender.send_packet(&mut transport, b"", 6), Ok(1));
    let frames = frames_from(&mut transport);
    assert_eq!(
        frames,
        vec![
            (FrameType::Data, 0, 77, 0, 0, 3, data[..10].to_vec()),
            (FrameType::Data, 1, 77, 0, 1, 3, data[10..20].to_vec()),
            (FrameType::Data, 2, 77, 0, 2, 3, data[20..].to_vec()),
            (FrameType::Data, 3, 77, 1, 0, 1, vec![]),
        ]
    );
    assert_eq!(sender.in_flight(), 4);
    assert_eq!(sender.stats().frames_sent, 4);
}

#[test]
fn sender_refuses_before_it_sends() {
    let config = Config::default().with_max_frame_size(34).with_window_size(2);
    let mut sender: Sender<8, 256> = Sender::new(&config);
    let mut transport = NullTransport::new();
    assert_eq!(sender.send_packet(&mut transport, &[0u8; 21], 0), Err(Error::WindowFull));
    assert_eq!(transport.bytes_written(), 0);
    assert_eq!(sender.send_packet(&mut transport, &vec![0u8; 65536], 0), Err(Error::PacketTooLarge));
    assert_eq!(sender.send_packet(&mut transport, &vec![0u8; 2560], 0), Err(Error::WindowFull));
    let wide_config = Config::default().with_max_frame_size(25).with_window_size(512);
    let mut wide: Sender<512, 32> = Sender::new(&wide_config);
    assert_eq!(wide.send_packet(&mut transport, &[0u8; 256], 0), Err(Error::PacketTooLarge));
    assert_eq!(wide.in_flight(), 0);
    assert_eq!(transport.bytes_written(), 0);
    assert!(sender.can_send());
    assert_eq!(sender.send_packet(&mut transport, &[0u8; 20], 0), Ok(2));
    assert!(!sender.can_send());
    assert_eq!(sender.send_packet(&mut transport, b"x", 0), Err(Error::WindowFull));
    assert_eq!(sender.close(&mut transport), Ok(()));
    assert_eq!(sender.state(), ChannelState::Closing);
    assert_eq!(sender.send_packet(&mut transport, b"x", 0), Err(Error::ChannelClosed));
    assert_eq!(sender.close(&mut transport), Ok(()));
    assert_eq!(transport.bytes_written(), 2 * 34 + 24);
    let mut short: Sender<8, 30> = Sender::new(&config);
    assert_eq!(short.send_packet(&mut transport, &[0u8; 10], 0), Err(Error::BufferTooSmall));
    assert_eq!(short.send_packet(&mut transport, &[0u8; 6], 0), Ok(1));
    let mut tiny: Sender<8, 16> = Sender::new(&config);
    assert_eq!(tiny.send_ack(&mut transport, 1), Err(Error::BufferTooSmall));
}

#[test]
fn sender_stops_at_a_carrier_that_fails() {
    let config = Config::default().with_max_frame_size(34);
    let mut sender: Sender<8, 64> = Sender::new(&config);
    let mut transport: LoopbackTransport<40> = LoopbackTransport::new();
    assert_eq!(sender.send_packet(&mut transport, &[1u8; 25], 0), Err(Error::IoError));
    assert_eq!(sender.in_flight(), 1);
    assert_eq!(transport.available(), 40);
}

#[test]
fn control_frames_go_out_as_they_are() {
    let config = Config::default();
    let mut sender: Sender<8, 64> = Sender::new(&config);
    let mut transport: LoopbackTransport<4096> = LoopbackTransport::new();
    sender.send_ack(&mut transport, 9).unwrap();
    sender.send_nack(&mut transport, 10).unwrap();
    assert_eq!(sender.send_ping(&mut transport, 50), Ok(0));
    sender.send_pong(&mut transport, 11).unwrap();
    sender.close(&mut transport).unwrap();
    let frames = frames_from(&mut transport);
    let heads: Vec<(FrameType, u32, u32)> = frames.iter().map(|f| (f.0, f.1, f.2)).collect();
    assert_eq!(
        heads,
        vec![
            (FrameType::Ack, 0, 9),
            (FrameType::Nack, 10, 0),
            (FrameType::Ping, 0, 0),
            (FrameType::Pong, 11, 0),
            (FrameType::Fin, 0, 0),
        ]
    );
    assert_eq!(sender.in_flight(), 0);
    sender.process_selective_ack(0, 80);
    assert_eq!(sender.stats().successful_deliveries, 1);
    sender.reset();
    assert_eq!(sender.state(), ChannelState::Open);
}

#[test]
fn lost_frame_is_sent_again() {
    let config = Config::default().with_window_size(4).with_retransmit_timeout_ms(100);
    let mut sender: Sender<4, 64> = Sender::new(&config);
    let mut transport: LoopbackTransport<4096> = LoopbackTransport::new();
    for payload in [b"zero", b"one ", b"two "] {
        assert_eq!(sender.send_packet(&mut transport, payload, 0), Ok(1));
    }
    let first = frames_from(&mut transport);
    assert_eq!(first.len(), 3);
    sender.process_ack(0, 50);
    assert_eq!(sender.in_flight(), 2);
    assert_eq!(sender.check_retransmit(&mut transport, 74), Ok(0));
    assert_eq!(sender.check_retransmit(&mut transport, 100), Ok(2));
    let again = frames_from(&mut transport);
    assert_eq!(again, first[1..].to_vec());
    assert_eq!(sender.stats().retransmissions, 2);
    assert_eq!(sender.check_retransmit(&mut transport, 150), Ok(0));

    let mut receiver: Receiver<4, 4, 64> = Receiver::new(&config);
    let mut results = Vec::new();
    for index in [0usize, 2, 2, 1] {
        let f = &first[index];
        let frame = Frame::new_data(f.1, f.2, f.3, f.4, f.5, &f.6);
        results.push(receiver.process_frame(&frame, 0));
        let mut out = [0u8; 8];
        let _ = receiver.read(&mut out);
    }
    assert_eq!(results, vec![Ok(true), Ok(true), Ok(false), Ok(true)]);
    assert_eq!(receiver.expected_sequence(), 3);
}

#[test]
fn frame_sent_too_often_is_given_up() {
    let config = Config::default().with_max_retransmit(2).with_retransmit_timeout_ms(100);
    let mut sender: Sender<4, 64> = Sender::new(&config);
    let mut transport = NullTransport::new();
    sender.send_packet(&mut transport, b"lost", 0).unwrap();
    assert_eq!(sender.check_retransmit(&mut transport, 100), Ok(1));
    assert_eq!(sender.stats().retransmissions, 1);
    assert_eq!(sender.check_retransmit(&mut transport, 299), Ok(0));
    assert_eq!(sender.check_retransmit(&mut transport, 300), Ok(0));
    assert_eq!(sender.stats().failed_frames, 1);
    assert_eq!(sender.check_retransmit(&mut transport, 1000), Ok(0));
    assert_eq!(sender.stats().failed_frames, 1);
}

#[test]
fn receiver_puts_fragments_together() {
    let config = Config::default().with_max_frame_size(34);
    let mut receiver: Receiver<16, 4, 64> = Receiver::new(&config);
    assert_eq!(receiver.state(), ChannelState::Open);
    let mut out = [0u8; 64];
    assert_eq!(receiver.read(&mut out), Err(Error::WouldBlock));
    let data: Vec<u8> = (100..125u8).collect();
    let pieces = [&data[..10], &data[10..20], &data[20..]];
    let third = Frame::new_data(2, 0, 7, 2, 3, pieces[2]);
    let first = Frame::new_data(0, 0, 7, 0, 3, pieces[0]);
    let second = Frame::new_data(1, 0, 7, 1, 3, pieces[1]);
    assert_eq!(receiver.process_frame(&third, 0), Ok(false));
    assert_eq!(receiver.missing_sequences(), vec![0, 1]);
    assert_eq!(receiver.process_frame(&first, 0), Ok(false));
    assert_eq!(receiver.process_frame(&first, 0), Ok(false));
    assert!(!receiver.has_data());
    assert_eq!(receiver.process_frame(&second, 0), Ok(true));
    assert_eq!(receiver.expected_sequence(), 3);
    let mut small = [0u8; 24];
    assert_eq!(receiver.read(&mut small), Err(Error::BufferTooSmall));
    assert_eq!(receiver.read(&mut out), Ok(25));
    assert_eq!(&out[..25], &data[..]);
    assert_eq!(receiver.read(&mut out), Err(Error::WouldBlock));
    let far = Frame::new_data(40, 0, 8, 0, 1, b"far");
    assert_eq!(receiver.process_frame(&far, 0), Err(Error::SequenceOutOfRange));
}

#[test]
fn receiver_follows_fin_and_reset() {
    let config = Config::default().with_max_frame_size(34);
    let mut receiver: Receiver<16, 4, 64> = Receiver::new(&config);
    assert_eq!(receiver.process_frame(&Frame::new_ping(0), 0), Ok(false));
    assert_eq!(receiver.state(), ChannelState::Open);
    assert_eq!(receiver.process_frame(&Frame::new_fin(0), 0), Ok(false));
    assert_eq!(receiver.state(), ChannelState::Closing);
    assert_eq!(receiver.process_frame(&Frame::new_reset(0), 0), Ok(false));
    assert_eq!(receiver.state(), ChannelState::Closed);
    assert_eq!(receiver.expected_sequence(), 0);
    receiver.reset();
    assert_eq!(receiver.state(), ChannelState::Open);
    let big = [0u8; 65];
    let frame = Frame::new_data(0, 0, 1, 0, 1, &big);
    assert_eq!(receiver.process_frame(&frame, 0), Err(Error::BufferTooSmall));
    let part = Frame::new_data(1, 0, 2, 0, 2, b"x");
    assert_eq!(receiver.process_frame(&part, 10), Ok(false));
    receiver.cleanup(10 + 5000);
    assert_eq!(receiver.process_frame(&Frame::new_data(2, 0, 2, 1, 2, b"y"), 6000), Ok(false));
}

#[test]
fn config_presets_differ_as_they_should() {
    let default = Config::default();
    assert_eq!(default, Config::new());
    assert_eq!(default.max_payload_size(), default.max_frame_size - 24);
    assert!(default.is_usable());
    let low = Config::low_latency();
    let high = Config::high_throughput();
    assert!(low.max_frame_size < default.max_frame_size);
    assert!(low.retransmit_timeout_ms < default.retransmit_timeout_ms);
    assert!(low.window_size < default.window_size);
    assert!(high.max_frame_size > default.max_frame_size);
    assert!(high.retransmit_timeout_ms > default.retransmit_timeout_ms);
    assert!(high.window_size > default.window_size);
    assert_eq!(default.with_max_frame_size(10).max_payload_size(), 0);
    assert!(!default.with_max_frame_size(24).is_usable());
    assert!(!default.with_window_size(0).is_usable());
    assert_eq!(default.with_fragment_timeout_ms(7).fragment_timeout_ms, 7);
}

#[test]
fn errors_describe_themselves() {
    assert_eq!(Error::ChecksumMismatch.message(), "checksum mismatch");
    assert_eq!(Error::WouldBlock.message(), "would block");
    assert!(Error::WouldBlock.is_transient());
    assert!(Error::WindowFull.is_transient());
    assert!(!Error::IoError.is_transient());
}

#[test]
fn many_lost_frames_are_all_noted_as_sent_again() {
    let config = Config::default()
        .with_max_frame_size(64)
        .with_window_size(128)
        .with_retransmit_timeout_ms(100);
    let mut sender: Sender<128, 64> = Sender::new(&config);
    let mut transport = NullTransport::new();
    for i in 0..100u8 {
        assert_eq!(sender.send_packet(&mut transport, &[i; 8], 0), Ok(1));
    }
    assert_eq!(sender.in_flight(), 100);
    assert_eq!(sender.check_retransmit(&mut transport, 99), Ok(0));
    assert_eq!(sender.check_retransmit(&mut transport, 100), Ok(100));
    assert_eq!(sender.stats().retransmissions, 100);
    assert_eq!(sender.check_retransmit(&mut transport, 299), Ok(0));
    assert_eq!(sender.check_retransmit(&mut transport, 300), Ok(100));
    assert_eq!(sender.stats().retransmissions, 200);
    assert_eq!(sender.in_flight(), 100);
}

#[test]
fn sent_frames_are_counted_and_wait_from_the_time_they_were_sent() {
    let config = Config::default().with_max_frame_size(34).with_retransmit_timeout_ms(100);
    let mut sender: Sender<8, 64> = Sender::new(&config);
    let mut transport: LoopbackTransport<4096> = LoopbackTransport::new();
    assert_eq!(sender.send_packet(&mut transport, &[7u8; 25], 500), Ok(3));
    assert_eq!(sender.stats().frames_sent, 3);
    assert_eq!(sender.stats().retransmissions, 0);
    assert_eq!(sender.in_flight(), 3);
    assert_eq!(transport.available(), 3 * 24 + 25);
    let _ = frames_from(&mut transport);
    let mut sink = vec![0u8; 4096];
    let _ = transport.read(&mut sink);
    assert_eq!(sender.check_retransmit(&mut transport, 599), Ok(0));
    assert_eq!(sender.check_retransmit(&mut transport, 600), Ok(3));
    assert_eq!(sender.stats().retransmissions, 3);
    assert_eq!(sender.stats().frames_sent, 3);
}

#[test]
fn what_the_carrier_answered_decides_what_is_kept() {
    let config = Config::default().with_max_frame_size(64).with_window_size(4);
    let mut sender: Sender<4, 64> = Sender::new(&config);
    let mut transport = NullTransport::new();
    assert_eq!(sender.send_ack(&mut transport, 9), Ok(()));
    assert_eq!(sender.keep_sent(Err(Error::IoError), 24, 5), Err(Error::IoError));
    assert_eq!(sender.in_flight(), 0);
    assert_eq!(sender.stats().frames_sent, 0);
    assert_eq!(sender.keep_sent(Err(Error::WouldBlock), 24, 5), Err(Error::WouldBlock));
    assert_eq!(sender.window_next(), 0);
    assert_eq!(sender.keep_sent(Ok(()), 24, 5), Ok(()));
    assert_eq!(sender.in_flight(), 1);
    assert_eq!(sender.window_next(), 1);
    assert_eq!(sender.stats().frames_sent, 1);

    assert_eq!(sender.keep_ping(Err(Error::IoError), 7, 10), Err(Error::IoError));
    assert_eq!(sender.stats().frames_sent, 1);
    assert_eq!(sender.keep_ping(Ok(()), 7, 10), Ok(7));
    assert_eq!(sender.stats().frames_sent, 2);
    assert_eq!(sender.in_flight(), 1);

    assert_eq!(sender.keep_resent(Err(Error::IoError), 0, 20), Err(Error::IoError));
    assert_eq!(sender.stats().retransmissions, 0);
    assert_eq!(sender.keep_resent(Ok(()), 0, 20), Ok(true));
    assert_eq!(sender.stats().retransmissions, 1);
    sender.note_resent(1, 30);
    assert_eq!(sender.stats().retransmissions, 2);
    assert_eq!(sender.stats().frames_sent, 2);
    assert_eq!(sender.check_retransmit(&mut transport, 1019), Ok(0));
    assert_eq!(sender.check_retransmit(&mut transport, 1020), Ok(1));
    assert_eq!(sender.stats().retransmissions, 3);
}

#[test]
fn waiting_list_that_is_full_leaves_the_frame_in_the_window() {
    let config = Config::default().with_max_frame_size(64).with_window_size(2);
    let mut sender: Sender<2, 64> = Sender::new(&config);
    let mut transport = NullTransport::new();
    assert_eq!(sender.send_ping(&mut transport, 0), Ok(0));
    assert_eq!(sender.send_ping(&mut transport, 0), Ok(0));
    assert_eq!(sender.send_ping(&mut transport, 0), Err(Error::BufferFull));
    assert_eq!(sender.send_packet(&mut transport, b"x", 0), Err(Error::BufferFull));
    assert_eq!(sender.in_flight(), 1);
    assert_eq!(sender.stats().frames_sent, 2);
}
