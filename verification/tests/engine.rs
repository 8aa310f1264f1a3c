//! End-to-end scenarios driving the control block the way a driver would:
//! segments in through `receive`/`poll`, segments out through `outgoing`,
//! time through `advance_clock`.

use tcp_established::bytebuf::ByteBuf;
use tcp_established::ctrlblk::{ControlBlock, State};
use tcp_established::header::TcpHeader;
use tcp_established::seqnum::SeqNumber;

fn engine(irs: u32, iss: u32, recv_window: u32, ack_delay_ns: u64) -> ControlBlock {
    ControlBlock::new(
        0x0a000001, 12345, 0x0a000002, 80, true, SeqNumber::new(irs), ack_delay_ns,
        recv_window, 0, SeqNumber::new(iss), 65535, 0, 1000, None, 16, false,
    )
}

fn data_segment(cb: &ControlBlock, seq: u32, bytes: Vec<u8>) -> (TcpHeader, ByteBuf) {
    let mut h = TcpHeader::new(80, 12345);
    h.seq_num = SeqNumber::new(seq);
    h.ack = true;
    h.ack_num = cb.sender.get_unacked_seq_no();
    h.window_size = 65535;
    (h, ByteBuf::from_vec(bytes))
}

fn deliver(cb: &mut ControlBlock, seq: u32, bytes: Vec<u8>) {
    let (h, b) = data_segment(cb, seq, bytes);
    cb.receive(0x0a000002, h, b);
    let _ = cb.poll();
}

fn deliver_fin(cb: &mut ControlBlock, seq: u32) {
    let mut h = TcpHeader::new(80, 12345);
    h.seq_num = SeqNumber::new(seq);
    h.ack = true;
    h.ack_num = cb.sender.get_unacked_seq_no();
    h.fin = true;
    h.window_size = 65535;
    cb.receive(0x0a000002, h, ByteBuf::new(0));
    let _ = cb.poll();
}

fn deliver_ack(cb: &mut ControlBlock, ack: u32) {
    let mut h = TcpHeader::new(80, 12345);
    h.seq_num = SeqNumber::new(cb.receiver.receive_next_seq_no.val);
    h.ack = true;
    h.ack_num = SeqNumber::new(ack);
    h.window_size = 65535;
    cb.receive(0x0a000002, h, ByteBuf::new(0));
    let _ = cb.poll();
}

fn popped_bytes(cb: &mut ControlBlock) -> Vec<u8> {
    cb.pop(None).expect("data ready").to_vec()
}

#[test]
fn in_order_stream() {
    let mut cb = engine(1000, 1, 65535, 200_000_000);
    deliver(&mut cb, 1000, (0..100u8).collect());
    assert_eq!(cb.receiver.receive_next_seq_no.val, 1100);
    // The first segment arms the delayed-ACK timer; it fires on its own.
    cb.advance_clock(250_000_000);
    cb.poll_delayed_ack();
    let first_ack = cb.outgoing.last().expect("delayed ack emitted");
    assert_eq!(first_ack.0.ack_num.val, 1100);
    deliver(&mut cb, 1100, (0..200u8).collect());
    assert_eq!(cb.receiver.receive_next_seq_no.val, 1300);
    cb.advance_clock(600_000_000);
    cb.poll_delayed_ack();
    let second_ack = cb.outgoing.last().expect("second ack emitted");
    assert_eq!(second_ack.0.ack_num.val, 1300);
    assert_eq!(popped_bytes(&mut cb), (0..100u8).collect::<Vec<u8>>());
    assert_eq!(popped_bytes(&mut cb), (0..200u8).collect::<Vec<u8>>());
}

#[test]
fn reassembly_out_of_order() {
    let mut cb = engine(5000, 1, 65535, 200_000_000);
    deliver(&mut cb, 5100, vec![2u8; 50]);
    // Out-of-order data is acknowledged at once to help fast retransmit.
    assert_eq!(cb.outgoing.last().unwrap().0.ack_num.val, 5000);
    deliver(&mut cb, 5200, vec![3u8; 50]);
    assert_eq!(cb.receiver.receive_next_seq_no.val, 5000);
    deliver(&mut cb, 5000, vec![1u8; 100]);
    // The hole is filled: the first stored range drains, the second waits.
    assert_eq!(cb.receiver.receive_next_seq_no.val, 5150);
    assert_eq!(popped_bytes(&mut cb), vec![1u8; 100]);
    assert_eq!(popped_bytes(&mut cb), vec![2u8; 50]);
    deliver(&mut cb, 5150, vec![4u8; 50]);
    assert_eq!(cb.receiver.receive_next_seq_no.val, 5250);
    assert_eq!(popped_bytes(&mut cb), vec![4u8; 50]);
    assert_eq!(popped_bytes(&mut cb), vec![3u8; 50]);
}

#[test]
fn head_trim_delivers_only_new_tail() {
    let mut cb = engine(1000, 1, 65535, 200_000_000);
    deliver(&mut cb, 1000, (0..100u8).collect());
    assert_eq!(cb.receiver.receive_next_seq_no.val, 1100);
    // A segment spanning receive_next: bytes 1050..1150, where 1050..1100
    // duplicate what we already have.
    let bytes: Vec<u8> = (0..100u8).map(|i| 100 + i).collect();
    deliver(&mut cb, 1050, bytes);
    assert_eq!(cb.receiver.receive_next_seq_no.val, 1150);
    assert_eq!(popped_bytes(&mut cb), (0..100u8).collect::<Vec<u8>>());
    // Only the new tail (the last 50 bytes) was delivered.
    assert_eq!(
        popped_bytes(&mut cb),
        (50..100u8).map(|i| 100 + i).collect::<Vec<u8>>()
    );
}

#[test]
fn tail_trim_clears_fin_beyond_window() {
    // A 16-byte receive buffer: a 32-byte segment with FIN is cut down.
    let mut cb = engine(1000, 1, 16, 200_000_000);
    let mut h = TcpHeader::new(80, 12345);
    h.seq_num = SeqNumber::new(1000);
    h.ack = true;
    h.ack_num = cb.sender.get_unacked_seq_no();
    h.fin = true;
    h.window_size = 65535;
    cb.receive(0x0a000002, h, ByteBuf::from_vec(vec![7u8; 32]));
    let _ = cb.poll();
    assert_eq!(cb.receiver.receive_next_seq_no.val, 1016);
    // The FIN sat past the window: it was cut with the excess bytes.
    assert!(cb.receiver.fin_seq_no.is_none());
    assert_eq!(cb.get_state(), State::Established);
    assert_eq!(popped_bytes(&mut cb), vec![7u8; 16]);
}

#[test]
fn sequence_space_wrap_is_contiguous() {
    let irs: u32 = u32::MAX - 99; // receive_next = 2^32 - 100
    let mut cb = engine(irs, 1, 65535, 200_000_000);
    // seq = 2^32 - 50, len = 200: entirely ahead, stored out of order.
    deliver(&mut cb, u32::MAX - 49, vec![9u8; 200]);
    assert_eq!(cb.receiver.receive_next_seq_no.val, irs);
    // The 50 bytes in front arrive: everything drains across the wrap.
    deliver(&mut cb, irs, vec![8u8; 50]);
    assert_eq!(cb.receiver.receive_next_seq_no.val, 150);
    assert_eq!(popped_bytes(&mut cb), vec![8u8; 50]);
    assert_eq!(popped_bytes(&mut cb), vec![9u8; 200]);
}

#[test]
fn delivering_twice_equals_once() {
    let mut cb = engine(1000, 1, 65535, 200_000_000);
    deliver(&mut cb, 1000, (0..100u8).collect());
    deliver(&mut cb, 1000, (0..100u8).collect());
    assert_eq!(cb.receiver.receive_next_seq_no.val, 1100);
    assert_eq!(popped_bytes(&mut cb), (0..100u8).collect::<Vec<u8>>());
    // Nothing else was delivered.
    assert!(cb.pop(None).is_none());
}

#[test]
fn delayed_ack_fires() {
    let mut cb = engine(1000, 1, 65535, 200_000_000);
    deliver(&mut cb, 1000, vec![1u8; 10]);
    let sent_before = cb.outgoing.len();
    assert!(cb.get_receive_ack_deadline().is_some());
    cb.advance_clock(250_000_000);
    cb.poll_delayed_ack();
    assert_eq!(cb.outgoing.len(), sent_before + 1);
    let ack = cb.outgoing.last().unwrap();
    assert!(ack.0.ack);
    assert_eq!(ack.0.ack_num.val, 1010);
    assert!(cb.get_receive_ack_deadline().is_none());
}

#[test]
fn fast_retransmit_on_three_duplicates() {
    let mut cb = engine(1000, 1, 65535, 200_000_000);
    cb.push(ByteBuf::from_vec(vec![5u8; 1000])).unwrap();
    cb.background_sender();
    assert_eq!(cb.sender.get_next_seq_no().val, 1001);
    let data_seg = cb.outgoing.last().unwrap();
    assert_eq!(data_seg.0.seq_num.val, 1);
    // Three duplicate ACKs of SND.UNA = 1.
    deliver_ack(&mut cb, 1);
    deliver_ack(&mut cb, 1);
    assert!(!cb.congestion_control_watch_retransmit_now_flag());
    deliver_ack(&mut cb, 1);
    assert!(cb.congestion_control_watch_retransmit_now_flag());
    assert!(cb.congestion.in_fast_recovery);
    cb.background_retransmitter();
    // The head segment went out again and the signal was consumed.
    let resent = cb.outgoing.last().unwrap();
    assert_eq!(resent.0.seq_num.val, 1);
    assert_eq!(resent.1.as_ref().unwrap().to_vec(), vec![5u8; 1000]);
    assert!(!cb.congestion_control_watch_retransmit_now_flag());
}

#[test]
fn retransmission_timeout_backs_off() {
    let mut cb = engine(1000, 1, 65535, 200_000_000);
    cb.push(ByteBuf::from_vec(vec![6u8; 100])).unwrap();
    cb.background_sender();
    let rto_before = cb.sender.get_rto();
    cb.advance_clock(rto_before + 1);
    cb.background_retransmitter();
    let resent = cb.outgoing.last().unwrap();
    assert_eq!(resent.0.seq_num.val, 1);
    assert_eq!(cb.sender.get_rto(), 2 * rto_before);
    // The congestion window collapsed to one segment.
    assert_eq!(cb.congestion_control_get_cwnd(), 1000);
}

#[test]
fn close_from_established() {
    let mut cb = engine(1000, 500, 65535, 200_000_000);
    cb.close().unwrap();
    assert_eq!(cb.get_state(), State::FinWait1);
    cb.background_sender();
    // The FIN went out with seq = SND.NXT at close time.
    let fin_seg = cb.outgoing.last().unwrap();
    assert!(fin_seg.0.fin);
    assert_eq!(fin_seg.0.seq_num.val, 500);
    // Its acknowledgment moves us to FinWait2.
    deliver_ack(&mut cb, 501);
    assert_eq!(cb.get_state(), State::FinWait2);
    // The peer's FIN moves us to TimeWait; the poll loop reports the end.
    deliver_fin(&mut cb, 1000);
    assert_eq!(cb.get_state(), State::TimeWait);
    // After 2 * MSL the connection is closed.
    cb.advance_clock(2 * tcp_established::ctrlblk::MSL_NS + 1);
    cb.poll_time_wait();
    assert_eq!(cb.get_state(), State::Closed);
}

#[test]
fn simultaneous_close() {
    let mut cb = engine(1000, 500, 65535, 200_000_000);
    cb.close().unwrap();
    cb.background_sender();
    assert_eq!(cb.get_state(), State::FinWait1);
    // The peer's FIN arrives before the ACK of ours: Closing.
    deliver_fin(&mut cb, 1000);
    assert_eq!(cb.get_state(), State::Closing);
    // Now the ACK of our FIN arrives: TimeWait.
    deliver_ack(&mut cb, 501);
    assert_eq!(cb.get_state(), State::TimeWait);
}

#[test]
fn close_from_close_wait() {
    let mut cb = engine(1000, 500, 65535, 200_000_000);
    deliver_fin(&mut cb, 1000);
    assert_eq!(cb.get_state(), State::CloseWait);
    // The reader sees end of stream: a zero-length marker.
    let marker = cb.pop(None).unwrap();
    assert_eq!(marker.len(), 0);
    cb.close().unwrap();
    assert_eq!(cb.get_state(), State::LastAck);
    cb.background_sender();
    deliver_ack(&mut cb, 501);
    assert_eq!(cb.get_state(), State::Closed);
}

#[test]
fn close_rejected_while_closing() {
    let mut cb = engine(1000, 500, 65535, 200_000_000);
    cb.close().unwrap();
    let second = cb.close();
    assert_eq!(second.unwrap_err().errno(), 9);
}

#[test]
fn rst_tears_the_connection_down() {
    let mut cb = engine(1000, 500, 65535, 200_000_000);
    let mut h = TcpHeader::new(80, 12345);
    h.seq_num = SeqNumber::new(1000);
    h.ack = true;
    h.ack_num = SeqNumber::new(500);
    h.rst = true;
    h.window_size = 65535;
    cb.receive(0x0a000002, h, ByteBuf::new(0));
    let r = cb.poll();
    assert_eq!(r.unwrap_err().errno(), 104);
    assert_eq!(cb.get_state(), State::Closed);
}

#[test]
fn push_rejected_after_local_close() {
    let mut cb = engine(1000, 500, 65535, 200_000_000);
    cb.close().unwrap();
    let r = cb.push(ByteBuf::from_vec(vec![1u8; 4]));
    assert_eq!(r.unwrap_err().errno(), 9);
}

#[test]
fn wholly_duplicate_segment_is_acknowledged() {
    let mut cb = engine(1000, 1, 65535, 200_000_000);
    deliver(&mut cb, 1000, vec![1u8; 100]);
    let sent_before = cb.outgoing.len();
    // A segment entirely below receive_next: ACK and drop.
    deliver(&mut cb, 900, vec![9u8; 50]);
    assert_eq!(cb.receiver.receive_next_seq_no.val, 1100);
    assert!(cb.outgoing.len() > sent_before);
    assert_eq!(cb.outgoing.last().unwrap().0.ack_num.val, 1100);
}

#[test]
fn out_of_window_segment_is_acknowledged_and_dropped() {
    let mut cb = engine(1000, 1, 16, 200_000_000);
    deliver(&mut cb, 5000, vec![1u8; 8]);
    assert_eq!(cb.receiver.receive_next_seq_no.val, 1000);
    assert_eq!(cb.reassembly.len(), 0);
    assert_eq!(cb.outgoing.last().unwrap().0.ack_num.val, 1000);
}

#[test]
fn window_update_from_ack() {
    let mut cb = engine(1000, 1, 65535, 200_000_000);
    cb.push(ByteBuf::from_vec(vec![5u8; 100])).unwrap();
    cb.background_sender();
    let mut h = TcpHeader::new(80, 12345);
    h.seq_num = SeqNumber::new(1000);
    h.ack = true;
    h.ack_num = SeqNumber::new(101);
    h.window_size = 321;
    cb.receive(0x0a000002, h, ByteBuf::new(0));
    let _ = cb.poll();
    assert_eq!(cb.sender.get_unacked_seq_no().val, 101);
    assert_eq!(cb.sender.wnd, 321);
}

#[test]
fn non_ack_segment_is_dropped() {
    let mut cb = engine(1000, 1, 65535, 200_000_000);
    let mut h = TcpHeader::new(80, 12345);
    h.seq_num = SeqNumber::new(1000);
    h.ack = false;
    h.window_size = 65535;
    let r = cb.process_packet(h, ByteBuf::from_vec(vec![1u8; 10]));
    assert_eq!(r.unwrap_err().errno(), 74);
    // The segment's data was not delivered.
    assert_eq!(cb.receiver.receive_next_seq_no.val, 1000);
}

#[test]
fn ack_of_unsent_data_is_answered_and_dropped() {
    let mut cb = engine(1000, 1, 65535, 200_000_000);
    let mut h = TcpHeader::new(80, 12345);
    h.seq_num = SeqNumber::new(1000);
    h.ack = true;
    // Acknowledges data we have yet to send.
    h.ack_num = SeqNumber::new(5000);
    h.window_size = 65535;
    let r = cb.process_packet(h, ByteBuf::new(0));
    assert_eq!(r.unwrap_err().errno(), 74);
    assert_eq!(cb.sender.get_unacked_seq_no().val, 1);
    assert_eq!(cb.outgoing.last().unwrap().0.ack_num.val, 1000);
}

#[test]
fn advertised_window_shrinks_with_unread_data() {
    let mut cb = engine(1000, 1, 65535, 200_000_000);
    assert_eq!(cb.get_receive_window_size(), 65535);
    deliver(&mut cb, 1000, vec![1u8; 100]);
    assert_eq!(cb.get_receive_window_size(), 65435);
    let header = cb.tcp_header();
    assert_eq!(header.window_size, 65435 & 0xFFFF);
    let _ = cb.pop(None);
    assert_eq!(cb.get_receive_window_size(), 65535);
}
