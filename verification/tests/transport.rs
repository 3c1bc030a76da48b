use xtransport::error::Error;
use xtransport::transport::{
    write_progress, BufferedTransport, LoopbackTransport, NullTransport, StdTransport, Transport,
};

#[test]
fn test_loopback() {
    let mut transport: LoopbackTransport<1024> = LoopbackTransport::new();

    let data = b"Hello, World!";
    let written = transport.write(data).unwrap();
    assert_eq!(written, data.len());

    let mut buf = [0u8; 32];
    let read = transport.read(&mut buf).unwrap();
    assert_eq!(read, data.len());
    assert_eq!(&buf[..read], data);
}

#[test]
fn test_null_transport() {
    let mut transport = NullTransport::new();

    let data = b"Test data";
    let written = transport.write(data).unwrap();
    assert_eq!(written, data.len());
    assert_eq!(transport.bytes_written(), data.len());

    let mut buf = [0u8; 32];
    assert!(transport.read(&mut buf).is_err());
}

#[test]
fn test_buffered_transport() {
    let inner: LoopbackTransport<1024> = LoopbackTransport::new();
    let mut transport: BufferedTransport<_, 256, 256> = BufferedTransport::new(inner);

    let data = b"Buffered test";
    transport.write(data).unwrap();
    transport.flush().unwrap();

    let mut buf = [0u8; 32];
    let n = transport.read(&mut buf).unwrap();
    assert_eq!(&buf[..n], data);
}

#[test]
fn loopback_blocks_when_empty_and_fails_when_full() {
    let mut transport: LoopbackTransport<4> = LoopbackTransport::default();
    let mut buf = [0u8; 8];
    assert_eq!(transport.read(&mut buf), Err(Error::WouldBlock));
    assert_eq!(transport.write(b"abcdef"), Ok(4));
    assert_eq!(transport.available(), 4);
    assert_eq!(transport.write(b"g"), Ok(0));
    assert_eq!(transport.write_all(b"g"), Err(Error::IoError));
    assert_eq!(transport.flush(), Ok(()));
    transport.clear();
    assert_eq!(transport.available(), 0);
    assert_eq!(transport.write_all(b"wxyz"), Ok(()));
    assert_eq!(transport.read(&mut buf[..3]), Ok(3));
    assert_eq!(&buf[..3], b"wxy");
}

#[test]
fn null_transport_counts_and_resets() {
    let mut transport = NullTransport::default();
    assert_eq!(transport.write_all(b"12345"), Ok(()));
    assert_eq!(transport.write(b""), Ok(0));
    assert_eq!(transport.bytes_written(), 5);
    assert_eq!(transport.flush(), Ok(()));
    transport.reset();
    assert_eq!(transport.bytes_written(), 0);
    let mut buf = [0u8; 1];
    assert_eq!(transport.read(&mut buf), Err(Error::WouldBlock));
}

#[test]
fn buffered_transport_holds_back_until_flush() {
    let inner: LoopbackTransport<64> = LoopbackTransport::new();
    let mut transport: BufferedTransport<_, 8, 8> = BufferedTransport::new(inner);
    assert_eq!(transport.write(b"0123456789"), Ok(8));
    assert_eq!(transport.write_buffered(), 8);
    assert_eq!(transport.inner().available(), 0);
    let mut buf = [0u8; 16];
    assert_eq!(transport.read(&mut buf), Err(Error::WouldBlock));
    assert_eq!(transport.flush(), Ok(()));
    assert_eq!(transport.write_buffered(), 0);
    assert_eq!(transport.inner().available(), 8);
    assert_eq!(transport.read(&mut buf[..3]), Ok(3));
    assert_eq!(&buf[..3], b"012");
    assert_eq!(transport.read_buffered(), 5);
    transport.inner_mut().clear();
    assert_eq!(transport.read(&mut buf), Ok(5));
    assert_eq!(&buf[..5], b"34567");
    let inner = transport.into_inner();
    assert_eq!(inner.available(), 0);
}

#[test]
fn buffered_transport_gives_up_on_a_carrier_that_takes_nothing() {
    let inner: LoopbackTransport<4> = LoopbackTransport::new();
    let mut transport: BufferedTransport<_, 8, 8> = BufferedTransport::new(inner);
    assert_eq!(transport.write(b"abcdef"), Ok(6));
    assert_eq!(transport.flush(), Err(Error::IoError));
    assert_eq!(transport.write_buffered(), 2);
    assert_eq!(transport.inner().available(), 4);
}

#[test]
fn std_transport_keeps_its_value() {
    let mut transport = StdTransport::new(vec![1u8, 2, 3]);
    assert_eq!(transport.inner(), &vec![1u8, 2, 3]);
    transport.inner_mut().push(4);
    assert_eq!(transport.into_inner(), vec![1u8, 2, 3, 4]);
}

#[test]
fn full_read_ring_leaves_the_carrier_alone() {
    let mut inner: LoopbackTransport<64> = LoopbackTransport::new();
    inner.write(b"abcd").unwrap();
    let mut transport: BufferedTransport<LoopbackTransport<64>, 4, 16> = BufferedTransport::new(inner);
    let mut none = [0u8; 0];
    assert_eq!(transport.read(&mut none), Ok(0));
    assert_eq!(transport.read_buffered(), 4);
    assert_eq!(transport.inner().available(), 0);
    transport.inner_mut().write(b"efg").unwrap();
    assert_eq!(transport.read(&mut none), Ok(0));
    assert_eq!(transport.inner().available(), 3);
    let mut buf = [0u8; 3];
    assert_eq!(transport.read(&mut buf), Ok(3));
    assert_eq!(&buf, b"abc");
    assert_eq!(transport.inner().available(), 3);
    let mut rest = [0u8; 8];
    assert_eq!(transport.read(&mut rest), Ok(4));
    assert_eq!(&rest[..4], b"defg");
    assert_eq!(transport.read(&mut rest), Err(Error::WouldBlock));
}

#[test]
fn progress_of_one_write_to_a_carrier() {
    assert_eq!(write_progress(0, 5, Ok(2)), Ok(2));
    assert_eq!(write_progress(2, 5, Ok(3)), Ok(5));
    assert_eq!(write_progress(2, 5, Ok(0)), Err(Error::IoError));
    assert_eq!(write_progress(2, 5, Err(Error::WouldBlock)), Err(Error::WouldBlock));
}

#[test]
fn writing_all_of_nothing_still_flushes() {
    let mut inner: LoopbackTransport<64> = LoopbackTransport::new();
    let mut transport: BufferedTransport<LoopbackTransport<64>, 4, 16> =
        BufferedTransport::new(LoopbackTransport::new());
    assert_eq!(transport.write(b"held"), Ok(4));
    assert_eq!(transport.inner().available(), 0);
    assert_eq!(transport.write_all(b""), Ok(()));
    assert_eq!(transport.inner().available(), 4);
    assert_eq!(inner.write_all(b"whole"), Ok(()));
    assert_eq!(inner.available(), 5);
}
