//! Unit tests for the engine's parts: sequence arithmetic, buffers, the
//! receiver queue, the reassembly store, the RTO estimator, Reno, and the
//! error taxonomy.

use tcp_established::bytebuf::ByteBuf;
use tcp_established::congestion::Reno;
use tcp_established::errors::TcpError;
use tcp_established::reassembly::ReassemblyBuffer;
use tcp_established::receiver::Receiver;
use tcp_established::rto::RtoEstimator;
use tcp_established::seqnum::SeqNumber;
use tcp_established::wscale::scale_factor;

#[test]
fn seqnum_wrapping_arithmetic() {
    let a = SeqNumber::new(u32::MAX - 1);
    let b = a.plus(5);
    assert_eq!(b.val, 3);
    assert_eq!(b.minus(a), 5);
    assert!(a.lt(b));
    assert!(!b.lt(a));
    assert!(a.le(a));
}

#[test]
fn bytebuf_trimming() {
    let mut b = ByteBuf::from_vec(vec![0, 1, 2, 3, 4, 5, 6, 7]);
    b.adjust(2);
    assert_eq!(b.to_vec(), vec![2, 3, 4, 5, 6, 7]);
    b.trim(2);
    assert_eq!(b.to_vec(), vec![2, 3, 4, 5]);
    let front = b.split_front(3);
    assert_eq!(front.to_vec(), vec![2, 3, 4]);
    assert_eq!(b.to_vec(), vec![5]);
    assert_eq!(ByteBuf::new(0).len(), 0);
}

#[test]
fn receiver_push_pop_round_trip() {
    let mut r = Receiver::new(SeqNumber::new(42), SeqNumber::new(42));
    let payload: Vec<u8> = (0..10u8).collect();
    r.push(ByteBuf::from_vec(payload.clone()));
    assert_eq!(r.receive_next_seq_no.val, 52);
    let got = r.pop(Some(10)).expect("data ready");
    assert_eq!(got.to_vec(), payload);
    assert_eq!(r.reader_next_seq_no.val, 52);
    assert!(r.pop(None).is_none());
}

#[test]
fn receiver_pop_splits_long_head() {
    let mut r = Receiver::new(SeqNumber::new(0), SeqNumber::new(0));
    r.push(ByteBuf::from_vec((0..10u8).collect()));
    let first = r.pop(Some(4)).unwrap();
    assert_eq!(first.to_vec(), vec![0, 1, 2, 3]);
    assert_eq!(r.reader_next_seq_no.val, 4);
    let rest = r.pop(None).unwrap();
    assert_eq!(rest.to_vec(), vec![4, 5, 6, 7, 8, 9]);
    assert_eq!(r.reader_next_seq_no.val, 10);
}

#[test]
fn reassembly_insert_is_idempotent() {
    let mut store = ReassemblyBuffer::new(65535, 16);
    store.insert(100, ByteBuf::from_vec(vec![1u8; 50]));
    store.insert(100, ByteBuf::from_vec(vec![1u8; 50]));
    assert_eq!(store.len(), 1);
    store.insert(10, ByteBuf::from_vec(vec![2u8; 20]));
    store.insert(10, ByteBuf::from_vec(vec![2u8; 20]));
    assert_eq!(store.len(), 2);
}

#[test]
fn reassembly_subsume_three_adjacent() {
    let mut store = ReassemblyBuffer::new(65535, 16);
    store.insert(10, ByteBuf::from_vec(vec![1u8; 5]));
    store.insert(20, ByteBuf::from_vec(vec![2u8; 5]));
    store.insert(30, ByteBuf::from_vec(vec![3u8; 5]));
    assert_eq!(store.len(), 3);
    // One range spanning all three replaces them.
    store.insert(5, ByteBuf::from_vec(vec![9u8; 35]));
    assert_eq!(store.len(), 1);
}

#[test]
fn reassembly_cap_drops_tail() {
    let mut store = ReassemblyBuffer::new(0x10_0000, 16);
    for i in 0..17u32 {
        // 17 disjoint ranges, the 17th farthest out.
        store.insert(1 + i * 10, ByteBuf::from_vec(vec![i as u8; 5]));
    }
    assert_eq!(store.len(), 16);
}

#[test]
fn reassembly_trims_overlap() {
    let mut store = ReassemblyBuffer::new(65535, 16);
    store.insert(10, ByteBuf::from_vec(vec![1u8; 10]));
    // Overlaps the back half: only the new tail is kept.
    store.insert(15, ByteBuf::from_vec(vec![2u8; 10]));
    assert_eq!(store.len(), 2);
    let mut drained = 0;
    store.advance(10);
    while let Some(b) = store.pop_front_ready() {
        drained += b.len();
        store.advance(b.len() as u32);
    }
    assert_eq!(drained, 15);
}

#[test]
fn rto_estimator_follows_rfc6298() {
    let mut e = RtoEstimator::new();
    assert_eq!(e.rto(), 1_000_000_000);
    e.add_sample(100_000_000);
    // First sample: SRTT = R, RTTVAR = R/2, RTO clamped to the minimum.
    assert_eq!(e.srtt_ns, 100_000_000);
    assert_eq!(e.rttvar_ns, 50_000_000);
    assert_eq!(e.rto(), 1_000_000_000);
    e.add_sample(500_000_000);
    assert_eq!(e.rttvar_ns, (3 * 50_000_000) / 4 + 400_000_000 / 4);
    assert_eq!(e.srtt_ns, (7 * 100_000_000) / 8 + 500_000_000 / 8);
    e.back_off();
    let doubled = e.rto_ns;
    e.back_off();
    assert!(e.rto_ns <= 60_000_000_000);
    assert!(e.rto_ns == 2 * doubled || e.rto_ns == 60_000_000_000);
}

#[test]
fn reno_slow_start_and_fast_retransmit() {
    let mut c = Reno::new(1000);
    assert_eq!(c.get_cwnd(), 4000);
    let una = SeqNumber::new(1);
    let nxt = SeqNumber::new(1001);
    // A new ACK in slow start grows the window by one MSS.
    c.on_ack_received(una, nxt, SeqNumber::new(1001));
    assert_eq!(c.get_cwnd(), 5000);
    // Three duplicates raise the retransmit-now flag.
    c.on_ack_received(una, nxt, una);
    assert_eq!(c.get_limited_transmit_cwnd_increase(), 1000);
    c.on_ack_received(una, nxt, una);
    assert_eq!(c.get_limited_transmit_cwnd_increase(), 2000);
    assert!(!c.get_retransmit_now_flag());
    c.on_ack_received(una, nxt, una);
    assert!(c.get_retransmit_now_flag());
    assert!(c.in_fast_recovery);
    // ssthresh = max(flight / 2, 2 * mss) = 2000; cwnd = ssthresh + 3 mss.
    assert_eq!(c.ssthresh, 2000);
    assert_eq!(c.get_cwnd(), 5000);
    c.on_fast_retransmit();
    assert!(!c.get_retransmit_now_flag());
}

#[test]
fn reno_timeout_collapses_window() {
    let mut c = Reno::new(1000);
    c.on_rto(SeqNumber::new(1));
    assert_eq!(c.get_cwnd(), 1000);
    assert_eq!(c.ssthresh, 2000);
}

#[test]
fn errno_values_match_the_platform() {
    assert_eq!(TcpError::BadMessage.errno(), libc::EBADMSG);
    assert_eq!(TcpError::ConnectionReset.errno(), libc::ECONNRESET);
    assert_eq!(TcpError::BadDescriptor.errno(), libc::EBADF);
}

#[test]
fn window_scale_factor() {
    assert_eq!(scale_factor(0), 1);
    assert_eq!(scale_factor(7), 128);
    assert_eq!(scale_factor(14), 16384);
}
