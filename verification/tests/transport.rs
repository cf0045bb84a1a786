use hazelnet::hazel::{HazelPacket, HazelPacketOut};
use hazelnet::session::build_hello;
use hazelnet::transport::NetClient;

#[test]
fn hello_frame_bytes() {
    // the documented hello: reserved zero, version, then "oregano"
    let payload = build_hello(50458758, "oregano");
    assert_eq!(
        payload,
        vec![0x00, 0x86, 0xF0, 0x01, 0x03, 0x07, b'o', b'r', b'e', b'g', b'a', b'n', b'o']
    );
    let mut client = NetClient::new();
    let frame = client.send_hello(payload, 0);
    assert_eq!(
        frame,
        vec![
            0x08, 0x00, 0x01, 0x00, 0x86, 0xF0, 0x01, 0x03, 0x07, b'o', b'r', b'e', b'g', b'a',
            b'n', b'o'
        ]
    );
}

#[test]
fn reliable_frames_get_fresh_ack_ids() {
    let mut client = NetClient::new();
    let f1 = client.send_reliable(vec![0xAA], 0);
    let f2 = client.send_reliable(vec![0xBB], 0);
    assert_eq!(f1[0..3], [0x01, 0x00, 0x01]);
    assert_eq!(f2[0..3], [0x01, 0x00, 0x02]);
    assert!(client.is_pending(1));
    assert!(client.is_pending(2));
    assert_eq!(client.pending_count(), 2);
}

#[test]
fn acknowledge_emission() {
    // receiving reliable ack id 0x0005 emits exactly 0A 00 05 00
    let mut client = NetClient::new();
    let datagram = vec![0x01, 0x00, 0x05, 0xCA, 0xFE];
    let (packet, ack) = client.read_packet(datagram).unwrap();
    match packet {
        HazelPacket::Reliable { ack_id, data } => {
            assert_eq!(ack_id, 5);
            assert_eq!(data, vec![0xCA, 0xFE]);
        }
        other => panic!("unexpected packet {:?}", other),
    }
    assert_eq!(ack.unwrap(), vec![0x0A, 0x00, 0x05, 0x00]);
}

#[test]
fn hello_and_keepalive_are_acknowledged_once() {
    let mut client = NetClient::new();
    let (_, ack) = client.read_packet(vec![0x08, 0x00, 0x09, 0x01]).unwrap();
    assert_eq!(ack.unwrap(), vec![0x0A, 0x00, 0x09, 0x00]);
    let (_, ack) = client.read_packet(vec![0x0C, 0x00, 0x0A]).unwrap();
    assert_eq!(ack.unwrap(), vec![0x0A, 0x00, 0x0A, 0x00]);
    let (_, ack) = client.read_packet(vec![0x00, 0x42]).unwrap();
    assert!(ack.is_none());
}

#[test]
fn retransmission_after_one_second() {
    // send at t=0; nothing due before the threshold; due at t=1001 with the
    // identical bytes and a reset timer; an ack then clears the entry
    let mut client = NetClient::new();
    let frame = client.send_reliable(vec![0xAB, 0xCD], 0);
    assert!(client.is_pending(1));
    assert_eq!(client.retransmissions(999), Vec::<Vec<u8>>::new());
    let due = client.retransmissions(1001);
    assert_eq!(due, vec![frame.clone()]);
    // the timer restarted at 1001, so nothing is due again right away
    assert_eq!(client.retransmissions(1500), Vec::<Vec<u8>>::new());
    // ack id 1 arrives: the unconfirmed map empties
    let ack_datagram = vec![0x0A, 0x00, 0x01, 0x00];
    let (packet, out) = client.read_packet(ack_datagram).unwrap();
    assert_eq!(packet, HazelPacket::Acknowledge { ack_id: 1 });
    assert!(out.is_none());
    assert!(!client.is_pending(1));
    assert_eq!(client.pending_count(), 0);
    assert_eq!(client.retransmissions(5000), Vec::<Vec<u8>>::new());
}

#[test]
fn unknown_ack_is_a_no_op() {
    let mut client = NetClient::new();
    client.send_reliable(vec![0x01], 0);
    let (_, _) = client.read_packet(vec![0x0A, 0x00, 0x63, 0x00]).unwrap();
    assert!(client.is_pending(1));
    assert_eq!(client.pending_count(), 1);
}

#[test]
fn disconnect_frame_is_one_byte() {
    let client = NetClient::new();
    assert_eq!(client.send_disconnect(), vec![0x09]);
}

#[test]
fn unreliable_frames_are_untracked() {
    let mut client = NetClient::new();
    let frame = client.send_unreliable(vec![0x11, 0x22]);
    assert_eq!(frame, vec![0x00, 0x11, 0x22]);
    assert_eq!(client.pending_count(), 0);
}

#[test]
fn outbound_frames_serialize_exactly() {
    assert_eq!(
        (HazelPacketOut::KeepAlive { ack_id: 0x1234 }).serialize_bytes(),
        vec![0x0C, 0x12, 0x34]
    );
    assert_eq!(
        (HazelPacketOut::Acknowledge { ack_id: 0x1234 }).serialize_bytes(),
        vec![0x0A, 0x12, 0x34, 0x00]
    );
    assert_eq!(HazelPacketOut::Disconnect.serialize_bytes(), vec![0x09]);
}

#[test]
fn unknown_frame_kinds_are_rejected() {
    let mut client = NetClient::new();
    assert!(client.read_packet(vec![0x05, 0x00]).is_err());
    assert!(client.read_packet(vec![]).is_err());
}
