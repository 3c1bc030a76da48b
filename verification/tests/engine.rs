use xtransport::codec::{Frame, FrameType};
use xtransport::config::Config;
use xtransport::engine::{frame_extent, next_state, ConnectionState, Protocol, ProtocolStats};
use xtransport::error::Error;
use xtransport::transport::{LoopbackTransport, Transport};

type Engine = Protocol<16, 280, 4, 1024>;

struct Wire {
    to_server: LoopbackTransport<8192>,
    to_client: LoopbackTransport<8192>,
    broken: bool,
}

struct ClientEnd<'a>(&'a mut Wire);
struct ServerEnd<'a>(&'a mut Wire);

impl<'a> Transport for ClientEnd<'a> {
    fn read(&mut self, buf: &mut [u8]) -> Result<usize, Error> {
        self.0.to_client.read(buf)
    }

    fn write(&mut self, buf: &[u8]) -> Result<usize, Error> {
        if self.0.broken {
            return Err(Error::IoError);
        }
        self.0.to_server.write(buf)
    }

    fn flush(&mut self) -> Result<(), Error> {
        Ok(())
    }
}

impl<'a> Transport for ServerEnd<'a> {
    fn read(&mut self, buf: &mut [u8]) -> Result<usize, Error> {
        self.0.to_server.read(buf)
    }

    fn write(&mut self, buf: &[u8]) -> Result<usize, Error> {
        self.0.to_client.write(buf)
    }

    fn flush(&mut self) -> Result<(), Error> {
        Ok(())
    }
}

fn wire() -> Wire {
    Wire { to_server: LoopbackTransport::new(), to_client: LoopbackTransport::new(), broken: false }
}

fn config() -> Config {
    Config::default().with_max_frame_size(280).with_window_size(16)
}

fn frames_in(transport: &mut LoopbackTransport<8192>) -> Vec<(FrameType, u32, u32, Vec<u8>)> {
    let mut bytes = vec![0u8; 8192];
    let n = transport.read(&mut bytes).unwrap_or(0);
    let mut at = 0;
    let mut frames = Vec::new();
    while at < n {
        let (frame, taken) = Frame::deserialize(&bytes[at..n]).unwrap();
        frames.push((frame.frame_type, frame.sequence, frame.ack, frame.payload.to_vec()));
        at += taken;
    }
    transport.write(&bytes[..n]).unwrap();
    frames
}

fn connected(wire: &mut Wire) -> (Engine, Engine) {
    let mut client = Engine::new(config());
    let mut server = Engine::new(config());
    client.connect(&mut ClientEnd(wire), 0).unwrap();
    server.process_incoming(&mut ServerEnd(wire), 10).unwrap();
    server.accept(&mut ServerEnd(wire), 10).unwrap();
    client.process_incoming(&mut ClientEnd(wire), 20).unwrap();
    server.process_incoming(&mut ServerEnd(wire), 30).unwrap();
    (client, server)
}

#[test]
fn echo_round_trip() {
    let mut wire = wire();
    let mut client = Engine::new(config());
    let mut server = Engine::new(config());
    assert_eq!(client.state(), ConnectionState::Idle);

    client.connect(&mut ClientEnd(&mut wire), 0).unwrap();
    assert_eq!(client.state(), ConnectionState::Connecting);
    assert_eq!(frames_in(&mut wire.to_server), vec![(FrameType::Sync, 0, 0, vec![])]);

    assert_eq!(server.process_incoming(&mut ServerEnd(&mut wire), 10), Ok(1));
    assert_eq!(server.state(), ConnectionState::Accepting);
    server.accept(&mut ServerEnd(&mut wire), 10).unwrap();
    assert_eq!(server.state(), ConnectionState::Connected);
    assert_eq!(frames_in(&mut wire.to_client), vec![(FrameType::SyncAck, 0, 1, vec![])]);

    assert_eq!(client.process_incoming(&mut ClientEnd(&mut wire), 20), Ok(1));
    assert_eq!(client.state(), ConnectionState::Connected);
    assert_eq!(frames_in(&mut wire.to_server), vec![(FrameType::Ack, 0, 1, vec![])]);
    assert_eq!(server.process_incoming(&mut ServerEnd(&mut wire), 30), Ok(1));

    assert_eq!(client.send(&mut ClientEnd(&mut wire), b"Hello", 100), Ok(1));
    assert_eq!(frames_in(&mut wire.to_server), vec![(FrameType::Data, 1, 1, b"Hello".to_vec())]);

    let mut buf = [0u8; 1024];
    assert_eq!(server.recv(&mut ServerEnd(&mut wire), &mut buf, 110), Ok(5));
    assert_eq!(&buf[..5], b"Hello");
    assert_eq!(server.send(&mut ServerEnd(&mut wire), &buf[..5], 110), Ok(1));
    assert_eq!(frames_in(&mut wire.to_client), vec![(FrameType::Data, 1, 2, b"Hello".to_vec())]);

    let mut echoed = [0u8; 1024];
    assert!(!client.has_data());
    assert_eq!(client.recv(&mut ClientEnd(&mut wire), &mut echoed, 160), Ok(5));
    assert_eq!(&echoed[..5], b"Hello");
    assert_eq!(client.recv(&mut ClientEnd(&mut wire), &mut echoed, 170), Err(Error::WouldBlock));

    for engine in [&client, &server] {
        assert_eq!(engine.stats().packets_sent, 2);
        assert_eq!(engine.stats().packets_received, 2);
        assert_eq!(engine.stats().bytes_sent, 5);
        assert_eq!(engine.stats().bytes_received, 5);
        assert_eq!(engine.retransmissions(), 0);
    }

    assert_eq!(client.poll(&mut ClientEnd(&mut wire), 200), Ok(0));
    assert_eq!(frames_in(&mut wire.to_server), vec![(FrameType::Ack, 0, 2, vec![])]);
    assert_eq!(server.poll(&mut ServerEnd(&mut wire), 210), Ok(0));
    assert_eq!(server.poll(&mut ServerEnd(&mut wire), 5000), Ok(0));
    assert_eq!(client.poll(&mut ClientEnd(&mut wire), 5000), Ok(0));
    assert_eq!(client.stats().packets_sent, 2);
}

#[test]
fn calls_out_of_turn_are_invalid() {
    let mut wire = wire();
    let mut engine = Engine::new(config());
    assert_eq!(engine.config().max_frame_size, 280);
    assert_eq!(*engine.stats(), ProtocolStats::default());
    assert_eq!(engine.accept(&mut ClientEnd(&mut wire), 0), Err(Error::InvalidState));
    assert_eq!(engine.send(&mut ClientEnd(&mut wire), b"x", 0), Err(Error::InvalidState));
    assert_eq!(engine.close(&mut ClientEnd(&mut wire)), Err(Error::InvalidState));
    assert_eq!(engine.ping(&mut ClientEnd(&mut wire), 0), Err(Error::InvalidState));
    assert_eq!(engine.state(), ConnectionState::Idle);
    engine.connect(&mut ClientEnd(&mut wire), 0).unwrap();
    assert_eq!(engine.connect(&mut ClientEnd(&mut wire), 0), Err(Error::InvalidState));
    assert_eq!(engine.state(), ConnectionState::Connecting);
}

#[test]
fn graceful_close_goes_through_closing() {
    let mut wire = wire();
    let (mut client, mut server) = connected(&mut wire);
    client.close(&mut ClientEnd(&mut wire)).unwrap();
    assert_eq!(client.state(), ConnectionState::Closing);
    server.process_incoming(&mut ServerEnd(&mut wire), 40).unwrap();
    assert_eq!(server.state(), ConnectionState::Closing);
    client.process_incoming(&mut ClientEnd(&mut wire), 50).unwrap();
    assert_eq!(client.state(), ConnectionState::Closed);
    assert_eq!(client.send(&mut ClientEnd(&mut wire), b"x", 60), Err(Error::InvalidState));
}

#[test]
fn reset_closes_from_any_state() {
    let mut wire = wire();
    let (mut client, mut server) = connected(&mut wire);
    assert_eq!(client.reset(&mut ClientEnd(&mut wire)), Ok(()));
    assert_eq!(client.state(), ConnectionState::Closed);
    server.process_incoming(&mut ServerEnd(&mut wire), 40).unwrap();
    assert_eq!(server.state(), ConnectionState::Closed);
    for state in [
        ConnectionState::Idle,
        ConnectionState::Connecting,
        ConnectionState::Accepting,
        ConnectionState::Connected,
        ConnectionState::Closing,
        ConnectionState::Closed,
    ] {
        assert_eq!(next_state(state, FrameType::Reset), ConnectionState::Closed);
        assert_eq!(next_state(state, FrameType::Ping), state);
        assert_eq!(next_state(ConnectionState::Closed, FrameType::Sync), ConnectionState::Closed);
    }
    assert_eq!(next_state(ConnectionState::Idle, FrameType::Sync), ConnectionState::Accepting);
    assert_eq!(next_state(ConnectionState::Connected, FrameType::Sync), ConnectionState::Connected);
    assert_eq!(next_state(ConnectionState::Connecting, FrameType::SyncAck), ConnectionState::Connected);
    assert_eq!(next_state(ConnectionState::Connected, FrameType::Fin), ConnectionState::Closing);
    assert_eq!(next_state(ConnectionState::Closing, FrameType::FinAck), ConnectionState::Closed);
}

#[test]
fn broken_frames_are_counted_and_skipped() {
    let mut wire = wire();
    let (mut client, mut server) = connected(&mut wire);
    let mut buf = [0u8; 64];
    let good = Frame::new_data(1, 1, 0, 0, 1, b"good");
    let size = good.serialize(&mut buf).unwrap();
    let mut spoiled = buf;
    spoiled[size - 1] ^= 1;
    wire.to_server.write(&spoiled[..size]).unwrap();
    let mut other_version = buf;
    other_version[0] = 9;
    wire.to_server.write(&other_version[..24]).unwrap();
    let mut unknown = buf;
    unknown[1] = 0x7F;
    wire.to_server.write(&unknown[..size]).unwrap();
    wire.to_server.write(&buf[..size]).unwrap();
    wire.to_server.write(&buf[..10]).unwrap();
    let mut out = [0u8; 64];
    assert_eq!(server.recv(&mut ServerEnd(&mut wire), &mut out, 50), Ok(4));
    assert_eq!(&out[..4], b"good");
    assert_eq!(server.stats().checksum_errors, 1);
    assert_eq!(server.stats().invalid_frames, 2);
    assert_eq!(server.state(), ConnectionState::Connected);
    wire.to_server.write(&buf[10..size]).unwrap();
    assert_eq!(server.process_incoming(&mut ServerEnd(&mut wire), 60), Ok(1));
    assert!(!server.has_data());
    assert_eq!(client.state(), ConnectionState::Connected);
}

#[test]
fn failing_carrier_closes_the_connection() {
    let mut wire = wire();
    let (mut client, _server) = connected(&mut wire);
    wire.broken = true;
    assert_eq!(client.send(&mut ClientEnd(&mut wire), b"x", 50), Err(Error::IoError));
    assert_eq!(client.state(), ConnectionState::Closed);
    wire.broken = false;
    assert_eq!(client.send(&mut ClientEnd(&mut wire), b"x", 60), Err(Error::InvalidState));
}

#[test]
fn ping_is_answered_and_measures_the_round_trip() {
    let mut wire = wire();
    let (mut client, mut server) = connected(&mut wire);
    assert_eq!(client.ping(&mut ClientEnd(&mut wire), 100), Ok(1));
    server.process_incoming(&mut ServerEnd(&mut wire), 110).unwrap();
    assert_eq!(frames_in(&mut wire.to_client), vec![(FrameType::Pong, 1, 0, vec![])]);
    client.process_incoming(&mut ClientEnd(&mut wire), 140).unwrap();
    assert_eq!(client.poll(&mut ClientEnd(&mut wire), 100_000), Ok(0));
    assert_eq!(client.retransmissions(), 0);
}

#[test]
fn lost_message_is_sent_again_by_poll() {
    let mut wire = wire();
    let (mut client, mut server) = connected(&mut wire);
    client.send(&mut ClientEnd(&mut wire), b"lost", 100).unwrap();
    wire.to_server.clear();
    assert_eq!(client.poll(&mut ClientEnd(&mut wire), 1099), Ok(0));
    assert_eq!(client.poll(&mut ClientEnd(&mut wire), 1100), Ok(1));
    assert_eq!(client.retransmissions(), 1);
    let mut out = [0u8; 16];
    assert_eq!(server.recv(&mut ServerEnd(&mut wire), &mut out, 1110), Ok(4));
    assert_eq!(&out[..4], b"lost");
    server.poll(&mut ServerEnd(&mut wire), 1200).unwrap();
    client.poll(&mut ClientEnd(&mut wire), 1210).unwrap();
    assert_eq!(client.poll(&mut ClientEnd(&mut wire), 100_000), Ok(0));
    assert_eq!(client.retransmissions(), 1);
}

#[test]
fn frame_extent_reads_the_length_field() {
    let mut buf = [0u8; 64];
    let frame = Frame::new_data(7, 0, 0, 0, 1, b"abcde");
    let size = frame.serialize(&mut buf).unwrap();
    assert_eq!(size, 29);
    assert_eq!(frame_extent(&buf[..24], 280), Some(29));
    assert_eq!(frame_extent(&buf[..24], 29), Some(29));
    assert_eq!(frame_extent(&buf[..24], 28), None);
    assert_eq!(frame_extent(&buf[..24], 10), None);
    let ping = Frame::new_ping(3);
    ping.serialize(&mut buf).unwrap();
    assert_eq!(frame_extent(&buf[..24], 24), Some(24));
    buf[0] = 2;
    assert_eq!(frame_extent(&buf[..24], 280), None);
}

#[test]
fn take_message_hands_out_what_waits() {
    let mut wire = wire();
    let (mut client, mut server) = connected(&mut wire);
    let mut out = [0u8; 16];
    assert_eq!(server.take_message(&mut out), Err(Error::WouldBlock));
    assert_eq!(client.send(&mut ClientEnd(&mut wire), b"hello", 40), Ok(1));
    assert_eq!(server.process_incoming(&mut ServerEnd(&mut wire), 50), Ok(1));
    assert!(server.has_data());
    let mut short = [0u8; 3];
    assert_eq!(server.take_message(&mut short), Err(Error::BufferTooSmall));
    assert_eq!(short, [0u8; 3]);
    assert!(server.has_data());
    assert_eq!(server.stats().bytes_received, 0);
    assert_eq!(server.take_message(&mut out), Ok(5));
    assert_eq!(&out[..5], b"hello");
    assert_eq!(server.stats().bytes_received, 5);
    assert!(!server.has_data());
    assert_eq!(server.take_message(&mut out), Err(Error::WouldBlock));
}

#[test]
fn bytes_are_accepted_as_a_frame_or_counted() {
    let mut wire = wire();
    let (_client, mut server) = connected(&mut wire);
    let before = *server.stats();
    let mut buf = [0u8; 64];
    let size = Frame::new_data(1, 1, 0, 0, 1, b"good").serialize(&mut buf).unwrap();
    let mut spoiled = buf;
    spoiled[size - 1] ^= 1;
    assert_eq!(server.accept_frame(&mut ServerEnd(&mut wire), &spoiled[..size], 50), Ok(()));
    assert_eq!(server.stats().checksum_errors, before.checksum_errors + 1);
    assert_eq!(server.stats().packets_received, before.packets_received);
    assert!(!server.has_data());
    let mut other = buf;
    other[0] = 9;
    assert_eq!(server.accept_frame(&mut ServerEnd(&mut wire), &other[..size], 50), Ok(()));
    assert_eq!(server.accept_frame(&mut ServerEnd(&mut wire), &buf[..10], 50), Ok(()));
    assert_eq!(server.stats().invalid_frames, before.invalid_frames + 2);
    assert_eq!(server.accept_frame(&mut ServerEnd(&mut wire), &buf[..size], 50), Ok(()));
    assert_eq!(server.stats().packets_received, before.packets_received + 1);
    assert!(server.has_data());
    let mut out = [0u8; 8];
    assert_eq!(server.take_message(&mut out), Ok(4));
    assert_eq!(&out[..4], b"good");
}

#[test]
fn settling_sends_again_and_acknowledges() {
    let mut wire = wire();
    let (mut client, mut server) = connected(&mut wire);
    assert_eq!(client.settle(&mut ClientEnd(&mut wire), 30), Ok(0));
    assert_eq!(client.send(&mut ClientEnd(&mut wire), b"hello", 40), Ok(1));
    let first = frames_in(&mut wire.to_server);
    assert_eq!(first.len(), 1);
    let mut sink = vec![0u8; 8192];
    let _ = wire.to_server.read(&mut sink);
    assert_eq!(client.settle(&mut ClientEnd(&mut wire), 40 + 999), Ok(0));
    assert_eq!(client.settle(&mut ClientEnd(&mut wire), 40 + 1000), Ok(1));
    assert_eq!(client.retransmissions(), 1);
    assert_eq!(frames_in(&mut wire.to_server), first);
    assert_eq!(server.process_incoming(&mut ServerEnd(&mut wire), 1100), Ok(1));
    assert!(server.has_data());
}
