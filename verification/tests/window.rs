use xtransport::buffer::{ReceiveWindow, SendWindow, WindowEntry};
use xtransport::error::Error;

#[test]
fn test_send_window_basic() {
    let mut window: SendWindow<16, 128> = SendWindow::new(8, 0);

    assert_eq!(window.available(), 8);

    let seq = window.add_frame(&[1, 2, 3], 100).unwrap();
    assert_eq!(seq, 0);
    assert_eq!(window.in_flight(), 1);

    let seq = window.add_frame(&[4, 5, 6], 101).unwrap();
    assert_eq!(seq, 1);
    assert_eq!(window.in_flight(), 2);

    let acked = window.ack_cumulative(1);
    assert_eq!(acked, 2);
    assert_eq!(window.in_flight(), 0);
}

#[test]
fn test_send_window_full() {
    let mut window: SendWindow<4, 64> = SendWindow::new(4, 0);

    for i in 0..4 {
        window.add_frame(&[i], 0).unwrap();
    }

    assert!(window.is_full());
    assert!(window.add_frame(&[4], 0).is_err());
}

#[test]
fn test_receive_window_basic() {
    let mut window: ReceiveWindow<16> = ReceiveWindow::new(8, 0);

    assert!(window.receive(0).unwrap());
    assert!(!window.receive(0).unwrap());

    assert!(window.receive(2).unwrap());
    assert!(window.receive(1).unwrap());

    let ack = window.advance();
    assert_eq!(ack, 3);
}

#[test]
fn test_receive_window_out_of_range() {
    let mut window: ReceiveWindow<8> = ReceiveWindow::new(4, 0);

    assert!(window.receive(10).is_err());
}

#[test]
fn test_missing_sequences() {
    let mut window: ReceiveWindow<16> = ReceiveWindow::new(8, 0);

    window.receive(0).unwrap();
    window.receive(2).unwrap();
    window.receive(4).unwrap();

    let missing: heapless::Vec<u32, 16> = window.missing_sequences().into_iter().collect();
    assert!(missing.contains(&1));
    assert!(missing.contains(&3));
    assert_eq!(missing.len(), 2);
}

#[test]
fn send_window_errors_are_told_apart() {
    let mut window: SendWindow<2, 4> = SendWindow::new(2, 7);
    assert_eq!(window.add_frame(&[0; 5], 0), Err(Error::PayloadTooLarge));
    assert_eq!(window.add_frame(&[1], 0), Ok(7));
    assert_eq!(window.add_frame(&[2], 0), Ok(8));
    assert_eq!(window.add_frame(&[3], 0), Err(Error::WindowFull));
    assert_eq!(window.add_frame(&[0; 5], 0), Err(Error::WindowFull));
    assert_eq!(window.mark_retransmitted(9, 5), Err(Error::SequenceOutOfRange));
    assert_eq!(window.mark_retransmitted(8, 5), Ok(()));
    assert_eq!(window.get_entry(8).unwrap().transmit_count, 2);
    assert_eq!(window.get_entry(8).unwrap().sent_time, 5);
    assert_eq!(window.get_entry(8).unwrap().frame_data(), &[2]);
}

#[test]
fn send_window_limit_is_capped_by_slots() {
    let window: SendWindow<4, 8> = SendWindow::new(100, 0);
    assert_eq!(window.available(), 4);
    let window: SendWindow<4, 8> = SendWindow::new(3, 0);
    assert_eq!(window.available(), 3);
}

#[test]
fn in_flight_is_distance_from_base_to_next() {
    let mut window: SendWindow<8, 8> = SendWindow::new(8, 0xFFFF_FFFE);
    for i in 0..5u8 {
        window.add_frame(&[i], 0).unwrap();
        assert_eq!(
            window.next_sequence().wrapping_sub(window.base_sequence()) as usize,
            window.in_flight()
        );
    }
    assert_eq!(window.next_sequence(), 3);
    assert_eq!(window.ack_cumulative(0), 3);
    assert_eq!(window.base_sequence(), 1);
    assert_eq!(window.in_flight(), 2);
    assert_eq!(window.ack_cumulative(0xFFFF_FFF0), 0);
    assert_eq!(window.in_flight(), 2);
    assert_eq!(window.ack_cumulative(100), 2);
    assert!(window.is_empty());
    assert_eq!(window.base_sequence(), window.next_sequence());
}

#[test]
fn selective_ack_marks_without_moving() {
    let mut window: SendWindow<8, 8> = SendWindow::new(8, 0);
    for i in 0..3u8 {
        window.add_frame(&[i], 0).unwrap();
    }
    assert!(window.ack_selective(1));
    assert!(!window.ack_selective(1));
    assert!(!window.ack_selective(5));
    assert_eq!(window.base_sequence(), 0);
    assert_eq!(window.in_flight(), 3);
    assert!(window.get_entry(1).unwrap().acked);
    assert_eq!(window.ack_cumulative(2), 2);
    assert_eq!(window.in_flight(), 0);
    assert!(window.get_entry(1).is_none());
}

#[test]
fn find_retransmit_stays_inside_the_window() {
    let mut window: SendWindow<8, 8> = SendWindow::new(8, 10);
    for i in 0..4u8 {
        window.add_frame(&[i], 100 * i as u64).unwrap();
    }
    window.ack_cumulative(10);
    window.ack_selective(12);
    window.mark_retransmitted(11, 100).unwrap();
    let mut walk = window.find_retransmit(350, 100, 2);
    let mut found = Vec::new();
    while let Some((seq, exceeded)) = walk.next() {
        assert!(seq.wrapping_sub(window.base_sequence()) < window.in_flight() as u32);
        found.push((seq, exceeded));
    }
    assert_eq!(found, vec![(11, true)]);
    let mut walk = window.find_retransmit(1000, 100, 3);
    assert_eq!(walk.next(), Some((11, false)));
    assert_eq!(walk.next(), Some((13, false)));
    assert_eq!(walk.next(), None);
    assert_eq!(walk.next(), None);
}

#[test]
fn send_window_reset_forgets_frames() {
    let mut window: SendWindow<4, 8> = SendWindow::new(4, 0);
    window.add_frame(&[1], 0).unwrap();
    window.reset(40);
    assert_eq!(window.base_sequence(), 40);
    assert_eq!(window.next_sequence(), 40);
    assert!(window.is_empty());
    assert!(window.get_entry(0).is_none());
    assert_eq!(window.available(), 4);
}

#[test]
fn window_entry_starts_blank() {
    let entry: WindowEntry<8> = WindowEntry::new();
    assert!(!entry.in_use && !entry.acked);
    assert_eq!(entry.frame_data(), &[] as &[u8]);
    let entry: WindowEntry<8> = WindowEntry::default();
    assert_eq!(entry.size, 0);
}

#[test]
fn receive_window_tells_old_from_far() {
    let mut window: ReceiveWindow<8> = ReceiveWindow::new(4, 100);
    assert_eq!(window.expected_sequence(), 100);
    assert_eq!(window.highest_received(), 99);
    assert!(window.is_in_window(103));
    assert!(!window.is_in_window(104));
    assert_eq!(window.receive(99), Ok(false));
    assert_eq!(window.receive(97), Ok(false));
    assert_eq!(window.receive(96), Err(Error::SequenceOutOfRange));
    assert_eq!(window.receive(104), Err(Error::SequenceOutOfRange));
    assert_eq!(window.receive(102), Ok(true));
    assert_eq!(window.highest_received(), 102);
    assert_eq!(window.receive(101), Ok(true));
    assert_eq!(window.highest_received(), 102);
}

#[test]
fn advance_stops_at_the_first_gap() {
    let mut window: ReceiveWindow<8> = ReceiveWindow::new(8, 0xFFFF_FFFE);
    window.receive(0xFFFF_FFFE).unwrap();
    window.receive(0xFFFF_FFFF).unwrap();
    window.receive(0).unwrap();
    window.receive(2).unwrap();
    assert_eq!(window.advance(), 1);
    assert_eq!(window.expected_sequence(), 1);
    assert_eq!(window.advance(), 1);
    assert_eq!(window.missing_sequences(), vec![1]);
    window.receive(1).unwrap();
    assert_eq!(window.advance(), 3);
    assert!(window.missing_sequences().is_empty());
}

#[test]
fn lost_frame_comes_back_later() {
    let mut window: ReceiveWindow<4> = ReceiveWindow::new(4, 0);
    assert_eq!(window.receive(0), Ok(true));
    assert_eq!(window.receive(2), Ok(true));
    assert_eq!(window.receive(2), Ok(false));
    assert_eq!(window.receive(1), Ok(true));
    assert_eq!(window.advance(), 3);
}

#[test]
fn receive_window_reset_forgets_marks() {
    let mut window: ReceiveWindow<4> = ReceiveWindow::new(4, 0);
    window.receive(1).unwrap();
    window.reset(9);
    assert_eq!(window.expected_sequence(), 9);
    assert_eq!(window.highest_received(), 8);
    assert_eq!(window.receive(9), Ok(true));
    assert_eq!(window.advance(), 10);
}
