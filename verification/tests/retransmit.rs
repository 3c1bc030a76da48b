use xtransport::error::Error;
use xtransport::reliable::{PendingFrame, RetransmitManager, RetransmitStats, RetransmitTimer};

#[test]
fn test_register_and_acknowledge() {
    let mut manager: RetransmitManager<16> = RetransmitManager::with_defaults();

    manager.register(0, 100).unwrap();
    manager.register(1, 110).unwrap();

    assert_eq!(manager.pending_count(), 2);

    let rtt = manager.acknowledge(0, 150);
    assert_eq!(rtt, Some(50));
    assert_eq!(manager.pending_count(), 1);
}

#[test]
fn test_timeout_detection() {
    let mut manager: RetransmitManager<16> =
        RetransmitManager::new(3, RetransmitTimer::new(100, 1000, 2));

    manager.register(0, 0).unwrap();

    let mut timeout_count = 0;
    manager.check_timeouts(50, |_seq, _exceeded| timeout_count += 1);
    assert_eq!(timeout_count, 0);

    manager.check_timeouts(200, |seq, exceeded| {
        assert_eq!(seq, 0);
        assert!(!exceeded);
        timeout_count += 1;
    });
    assert_eq!(timeout_count, 1);
}

#[test]
fn test_max_retransmit() {
    let mut manager: RetransmitManager<16> =
        RetransmitManager::new(2, RetransmitTimer::new(100, 1000, 2));

    manager.register(0, 0).unwrap();

    manager.mark_retransmitted(0, 100).unwrap();

    manager.mark_retransmitted(0, 200).unwrap();

    let mut exceeded = false;
    manager.check_timeouts(500, |_, ex| exceeded = ex);
    assert!(exceeded);
}

#[test]
fn test_exponential_backoff() {
    let mut timer = RetransmitTimer::new(100, 1000, 2);

    assert_eq!(timer.timeout(), 100);

    timer.backoff();
    assert_eq!(timer.timeout(), 200);

    timer.backoff();
    assert_eq!(timer.timeout(), 400);

    timer.backoff();
    timer.backoff();
    timer.backoff();
    assert_eq!(timer.timeout(), 1000);
}

#[test]
fn test_cumulative_ack() {
    let mut manager: RetransmitManager<16> = RetransmitManager::with_defaults();

    manager.register(0, 100).unwrap();
    manager.register(1, 110).unwrap();
    manager.register(2, 120).unwrap();

    assert_eq!(manager.pending_count(), 3);

    manager.acknowledge_cumulative(1, 200);
    assert_eq!(manager.pending_count(), 1);

    let seqs: heapless::Vec<u32, 16> = manager.pending_sequences().into_iter().collect();
    assert_eq!(seqs.len(), 1);
    assert!(seqs.contains(&2));
}

#[test]
fn backoff_is_base_times_power_capped() {
    for factor in [0u8, 1, 2, 3] {
        let mut timer = RetransmitTimer::new(100, 5000, factor);
        for k in 1..8u32 {
            timer.backoff();
            let wanted = (100u64 * (factor as u64).pow(k)).min(5000);
            assert_eq!(timer.timeout(), wanted);
        }
        timer.reset();
        assert_eq!(timer.timeout(), 100);
    }
    let mut timer = RetransmitTimer::new(u64::MAX / 2, u64::MAX, 3);
    timer.backoff();
    assert_eq!(timer.timeout(), u64::MAX);
}

#[test]
fn acknowledgment_sets_timeout_from_round_trip() {
    let mut timer = RetransmitTimer::default_timer();
    assert_eq!(timer.timeout(), 1000);
    timer.backoff();
    assert_eq!(timer.timeout(), 2000);
    timer.update_rtt(50);
    assert_eq!(timer.timeout(), 75);
    timer.backoff();
    assert_eq!(timer.timeout(), 150);
    timer.reset();
    assert_eq!(timer.timeout(), 75);
    timer.update_rtt(u64::MAX);
    assert_eq!(timer.timeout(), u64::MAX);
    assert_eq!(RetransmitTimer::default().timeout(), 1000);
}

#[test]
fn cumulative_ack_retires_exactly_what_lies_before() {
    let mut manager: RetransmitManager<8> = RetransmitManager::with_defaults();
    let sequences = [0xFFFF_FFFEu32, 0xFFFF_FFFF, 0, 1, 2, 0x8000_0002, 5, 0x7FFF_FFFF];
    for seq in sequences {
        manager.register(seq, 100).unwrap();
    }
    manager.acknowledge_cumulative(1, 400);
    let left = manager.pending_sequences();
    for seq in sequences {
        let signed_diff = 1u32.wrapping_sub(seq) as i32;
        assert_eq!(left.contains(&seq), signed_diff < 0);
    }
    assert_eq!(left, vec![2, 5, 0x7FFF_FFFF]);
    assert_eq!(manager.pending_count(), 3);
    assert_eq!(manager.stats().successful_deliveries, 5);
    assert_eq!(manager.current_timeout(), 450);
}

#[test]
fn cumulative_ack_reaches_beyond_one_batch() {
    let mut manager: RetransmitManager<200> = RetransmitManager::with_defaults();
    for seq in 0..200u32 {
        manager.register(seq, seq as u64).unwrap();
    }
    assert_eq!(manager.register(200, 0), Err(Error::BufferFull));
    manager.acknowledge_cumulative(149, 1000);
    assert_eq!(manager.pending_count(), 50);
    let left = manager.pending_sequences();
    assert_eq!(left, (150..200u32).collect::<Vec<u32>>());
    assert_eq!(manager.stats().successful_deliveries, 150);
    assert_eq!(manager.stats().frames_sent, 200);
    assert_eq!(manager.current_timeout(), (1000 - 149) + (1000 - 149) / 2);
}

#[test]
fn max_retransmit_gives_the_frame_up() {
    let mut manager: RetransmitManager<4> =
        RetransmitManager::new(2, RetransmitTimer::new(100, 100, 2));
    manager.register(0, 0).unwrap();
    assert_eq!(manager.take_expired(99), vec![]);
    assert_eq!(manager.take_expired(100), vec![(0, false)]);
    manager.mark_retransmitted(0, 100).unwrap();
    assert_eq!(manager.pending_count(), 1);
    assert_eq!(manager.stats().retransmissions, 1);
    assert_eq!(manager.take_expired(199), vec![]);
    assert_eq!(manager.take_expired(200), vec![(0, true)]);
    assert_eq!(manager.pending_count(), 0);
    assert_eq!(manager.stats().failed_frames, 1);
    assert_eq!(manager.take_expired(1000), vec![]);
    assert_eq!(manager.mark_retransmitted(0, 300), Err(Error::SequenceOutOfRange));
}

#[test]
fn timeouts_lengthen_the_timeout_once_a_look() {
    let mut manager: RetransmitManager<4> =
        RetransmitManager::new(5, RetransmitTimer::new(100, 1000, 2));
    manager.register(1, 0).unwrap();
    manager.register(2, 0).unwrap();
    manager.register(3, 150).unwrap();
    let mut seen = Vec::new();
    let retries = manager.check_timeouts(120, |seq, exceeded| seen.push((seq, exceeded)));
    assert_eq!(retries, 2);
    assert_eq!(seen, vec![(1, false), (2, false)]);
    assert_eq!(manager.current_timeout(), 200);
    assert_eq!(manager.check_timeouts(150, |_, _| panic!("nothing is due")), 0);
    assert_eq!(manager.current_timeout(), 200);
    assert_eq!(manager.next_deadline(), Some(200));
    assert_eq!(manager.acknowledge(2, 160), Some(160));
    assert_eq!(manager.current_timeout(), 240);
    assert_eq!(manager.acknowledge(2, 160), None);
    assert_eq!(manager.next_deadline(), Some(240));
    manager.reset();
    assert_eq!(manager.pending_count(), 0);
    assert_eq!(manager.next_deadline(), None);
    assert_eq!(manager.stats().successful_deliveries, 1);
}

#[test]
fn stats_and_frames_start_empty() {
    let mut stats = RetransmitStats::new();
    assert_eq!(stats, RetransmitStats::default());
    stats.frames_sent = 4;
    stats.reset();
    assert_eq!(stats.frames_sent, 0);
    let frame = PendingFrame::new(7, 8);
    assert_eq!((frame.sequence, frame.last_sent, frame.attempts, frame.active), (7, 8, 1, true));
    let frame = PendingFrame::empty();
    assert_eq!((frame.sequence, frame.last_sent, frame.attempts, frame.active), (0, 0, 0, false));
}

#[test]
fn any_expired_frame_lengthens_the_timeout() {
    let mut manager: RetransmitManager<4> =
        RetransmitManager::new(1, RetransmitTimer::new(100, 1000, 2));
    manager.register(0, 0).unwrap();
    assert_eq!(manager.current_timeout(), 100);
    let mut seen = Vec::new();
    assert_eq!(manager.check_timeouts(100, |seq, exceeded| seen.push((seq, exceeded))), 0);
    assert_eq!(seen, vec![(0, true)]);
    assert_eq!(manager.current_timeout(), 200);
    assert_eq!(manager.stats().failed_frames, 1);
    assert_eq!(manager.pending_count(), 0);
    assert_eq!(manager.check_timeouts(5000, |_, _| ()), 0);
    assert_eq!(manager.current_timeout(), 200);
}

#[test]
fn expired_frames_come_with_their_slots() {
    let mut manager: RetransmitManager<4> =
        RetransmitManager::new(3, RetransmitTimer::new(100, 1000, 2));
    manager.register(7, 0).unwrap();
    manager.register(9, 50).unwrap();
    manager.register(11, 0).unwrap();
    let (expired, slots) = manager.take_expired_slots(100);
    assert_eq!(expired, vec![(7, false), (11, false)]);
    assert_eq!(slots, vec![0, 2]);
    assert_eq!(manager.current_timeout(), 200);
    manager.note_again(2, 100);
    assert_eq!(manager.stats().retransmissions, 1);
    assert_eq!(manager.pending_count(), 3);
    let (expired, slots) = manager.take_expired_slots(299);
    assert_eq!(expired, vec![(7, false), (9, false)]);
    assert_eq!(slots, vec![0, 1]);
    let (expired, _) = manager.take_expired_slots(500);
    assert_eq!(expired, vec![(7, false), (9, false), (11, false)]);
}

#[test]
fn slots_tell_their_sequence_numbers() {
    let mut manager: RetransmitManager<4> =
        RetransmitManager::new(3, RetransmitTimer::new(100, 1000, 2));
    manager.register(70, 0).unwrap();
    manager.register(90, 0).unwrap();
    assert_eq!(manager.sequence_at(0), 70);
    assert_eq!(manager.sequence_at(1), 90);
    manager.acknowledge(70, 10);
    manager.register(110, 20).unwrap();
    assert_eq!(manager.sequence_at(0), 110);
}
