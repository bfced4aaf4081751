use pnetlink::netlink::NetlinkIterable;
use pnetlink::netlink::NetlinkPacket;
use pnetlink::netlink::NetlinkReader;
use pnetlink::netlink::NetlinkSlot;
use pnetlink::netlink::ReadOutcome;
use pnetlink::netlink::align;
use pnetlink::netlink::NLMSG_DONE;
use pnetlink::netlink::NLMSG_ERROR;
use pnetlink::netlink::NLMSG_NOOP;
use pnetlink::netlink::NLMSG_OVERRUN;
use pnetlink::route::RTM_NEWLINK;

/// Builds one wire message: header fields, then the payload bytes.
fn msg(kind: u16, flags: u16, sequence: u32, pid: u32, payload: &[u8]) -> Vec<u8> {
    let length = (16 + payload.len()) as u32;
    let mut v = Vec::new();
    v.extend_from_slice(&length.to_le_bytes());
    v.extend_from_slice(&kind.to_le_bytes());
    v.extend_from_slice(&flags.to_le_bytes());
    v.extend_from_slice(&sequence.to_le_bytes());
    v.extend_from_slice(&pid.to_le_bytes());
    v.extend_from_slice(payload);
    v
}

/// Payload of the NEWLINK message used across the reader tests: a
/// zeroed interface-info sub-header, an IFNAME attribute holding
/// "eth0\0" (9 bytes, padded to 12), and 4 bytes of trailing padding.
fn newlink_payload() -> Vec<u8> {
    let mut p = vec![0u8; 16];
    p.extend_from_slice(&[9, 0, 3, 0]);
    p.extend_from_slice(b"eth0\0");
    p.extend_from_slice(&[0, 0, 0]);
    p.extend_from_slice(&[0, 0, 0, 0]);
    assert_eq!(p.len(), 32);
    p
}

fn drain(reader: &mut NetlinkReader) -> Vec<Vec<u8>> {
    let mut out = Vec::new();
    loop {
        match reader.try_read_message() {
            ReadOutcome::Msg(slot) => out.push(slot.bytes().clone()),
            _ => return out,
        }
    }
}

#[test]
fn align_values() {
    assert_eq!(align(0), 0);
    assert_eq!(align(1), 4);
    assert_eq!(align(4), 4);
    assert_eq!(align(5), 8);
    assert_eq!(align(9), 12);
    assert_eq!(align(17), 20);
    // idempotent, never below the input, never a full word above it
    for n in 0..64usize {
        let a = align(n);
        assert_eq!(align(a), a);
        assert!(a >= n);
        assert!(a - n < 4);
        assert_eq!(a % 4, 0);
    }
}

#[test]
fn packet_decode_fields() {
    let bytes = msg(RTM_NEWLINK, 2, 0x01020304, 0xAABBCCDD, &[1, 2, 3, 4]);
    let pkt = NetlinkPacket::new(&bytes).unwrap();
    assert_eq!(pkt.get_length(), 20);
    assert_eq!(pkt.get_kind(), RTM_NEWLINK);
    assert_eq!(pkt.get_flags(), 2);
    assert_eq!(pkt.get_sequence(), 0x01020304);
    assert_eq!(pkt.get_pid(), 0xAABBCCDD);
    assert_eq!(pkt.payload().as_slice(), &[1, 2, 3, 4]);
}

#[test]
fn packet_decode_needs_full_header() {
    assert!(NetlinkPacket::new(&[0u8; 15]).is_none());
    assert!(NetlinkPacket::new(&[0u8; 16]).is_some());
}

#[test]
fn header_roundtrip() {
    let bytes = msg(RTM_NEWLINK, 0x0301, 7, 42, b"some payload bytes");
    let pkt = NetlinkPacket::new(&bytes).unwrap();
    assert_eq!(pkt.to_bytes(), bytes);
}

#[test]
fn read_three_messages() {
    let mut bytes = msg(RTM_NEWLINK, 0, 1, 0, &newlink_payload());
    assert_eq!(bytes.len(), 48);
    bytes.extend_from_slice(&msg(NLMSG_NOOP, 0, 2, 0, &[]));
    bytes.extend_from_slice(&msg(NLMSG_DONE, 0, 3, 0, &[]));
    assert_eq!(bytes.len(), 80);

    let mut reader = NetlinkReader::new();
    reader.feed(&bytes);

    let first = match reader.try_read_message() {
        ReadOutcome::Msg(slot) => slot,
        _ => panic!("expected the NEWLINK message"),
    };
    let pkt = first.get_packet();
    assert_eq!(pkt.get_kind(), RTM_NEWLINK);
    assert_eq!(pkt.get_length(), 48);
    let attrs = pnetlink::route::parse_attrs(&pkt.payload().as_slice()[16..]);
    assert_eq!(attrs.len(), 1);
    assert_eq!(attrs[0].get_rta_type(), 3);
    assert_eq!(attrs[0].payload().as_slice(), b"eth0\0");

    let second = match reader.try_read_message() {
        ReadOutcome::Msg(slot) => slot,
        _ => panic!("expected the NOOP message"),
    };
    assert_eq!(second.get_packet().get_kind(), NLMSG_NOOP);

    let third = match reader.try_read_message() {
        ReadOutcome::Msg(slot) => slot,
        _ => panic!("expected the DONE message"),
    };
    assert_eq!(third.get_packet().get_kind(), NLMSG_DONE);

    assert!(matches!(reader.try_read_message(), ReadOutcome::Finished));
    assert!(matches!(reader.try_read_message(), ReadOutcome::Finished));
}

#[test]
fn chunked_and_whole_feeds_agree() {
    let mut bytes = msg(RTM_NEWLINK, 0, 1, 0, &newlink_payload());
    bytes.extend_from_slice(&msg(NLMSG_NOOP, 0, 2, 0, &[]));
    bytes.extend_from_slice(&msg(RTM_NEWLINK, 0, 3, 0, &[0u8; 16]));

    let mut whole = NetlinkReader::new();
    whole.feed(&bytes);
    let all_at_once = drain(&mut whole);

    let mut chunked = NetlinkReader::new();
    let mut byte_by_byte: Vec<Vec<u8>> = Vec::new();
    for b in &bytes {
        chunked.feed(&[*b]);
        byte_by_byte.extend(drain(&mut chunked));
    }

    assert_eq!(all_at_once.len(), 3);
    assert_eq!(byte_by_byte, all_at_once);
}

#[test]
fn reader_starved_until_frame_complete() {
    let bytes = msg(RTM_NEWLINK, 0, 1, 0, &[0u8; 16]);
    let mut reader = NetlinkReader::new();
    assert!(matches!(reader.try_read_message(), ReadOutcome::NeedMore));
    reader.feed(&bytes[..15]);
    assert!(matches!(reader.try_read_message(), ReadOutcome::NeedMore));
    reader.feed(&bytes[15..31]);
    assert!(matches!(reader.try_read_message(), ReadOutcome::NeedMore));
    reader.feed(&bytes[31..]);
    assert!(matches!(reader.try_read_message(), ReadOutcome::Msg(_)));
    assert!(matches!(reader.try_read_message(), ReadOutcome::NeedMore));
}

#[test]
fn done_is_terminal() {
    let bytes = msg(NLMSG_DONE, 0, 9, 0, &[]);
    let mut reader = NetlinkReader::new();
    reader.feed(&bytes);
    let slot = match reader.try_read_message() {
        ReadOutcome::Msg(slot) => slot,
        _ => panic!("the DONE message itself is still yielded"),
    };
    assert_eq!(slot.get_packet().get_kind(), NLMSG_DONE);
    for _ in 0..4 {
        assert!(matches!(reader.try_read_message(), ReadOutcome::Finished));
    }
    // even fresh bytes change nothing once the reader is terminal
    reader.feed(&msg(RTM_NEWLINK, 0, 10, 0, &[0u8; 16]));
    assert!(matches!(reader.try_read_message(), ReadOutcome::Finished));
}

#[test]
fn error_is_terminal() {
    let mut bytes = msg(NLMSG_ERROR, 0, 9, 0, &[0u8; 4]);
    bytes.extend_from_slice(&msg(RTM_NEWLINK, 0, 10, 0, &[0u8; 16]));
    let mut reader = NetlinkReader::new();
    reader.feed(&bytes);
    // the error message is consumed as the terminal answer, not yielded
    assert!(matches!(reader.try_read_message(), ReadOutcome::Finished));
    for _ in 0..4 {
        assert!(matches!(reader.try_read_message(), ReadOutcome::Finished));
    }
}

#[test]
fn overrun_is_fatal() {
    let mut bytes = msg(NLMSG_OVERRUN, 0, 9, 0, &[]);
    bytes.extend_from_slice(&msg(RTM_NEWLINK, 0, 10, 0, &[0u8; 16]));
    let mut reader = NetlinkReader::new();
    reader.feed(&bytes);
    assert!(matches!(reader.try_read_message(), ReadOutcome::Overrun));
    assert!(matches!(reader.try_read_message(), ReadOutcome::Finished));
}

#[test]
fn corrupt_length_ends_parsing() {
    // a header whose declared length cannot even cover the header
    let mut bytes = 8u32.to_le_bytes().to_vec();
    bytes.extend_from_slice(&[0u8; 12]);
    let mut reader = NetlinkReader::new();
    reader.feed(&bytes);
    assert!(matches!(reader.try_read_message(), ReadOutcome::Finished));
    assert!(matches!(reader.try_read_message(), ReadOutcome::Finished));
}

#[test]
fn transport_close_ends_reader() {
    let mut reader = NetlinkReader::new();
    reader.close();
    assert!(matches!(reader.try_read_message(), ReadOutcome::Finished));
}

#[test]
fn transport_failure_ends_reader() {
    let mut reader = NetlinkReader::new();
    reader.fail();
    assert!(matches!(reader.try_read_message(), ReadOutcome::Finished));
}

#[test]
fn slot_iterator_yields_until_done() {
    let mut bytes = msg(RTM_NEWLINK, 0, 1, 0, &newlink_payload());
    bytes.extend_from_slice(&msg(NLMSG_NOOP, 0, 2, 0, &[]));
    bytes.extend_from_slice(&msg(NLMSG_DONE, 0, 3, 0, &[]));

    let mut reader = NetlinkReader::new();
    reader.feed(&bytes);
    let mut it = reader.into_iter();
    let kinds: [u16; 3] = [RTM_NEWLINK, NLMSG_NOOP, NLMSG_DONE];
    for kind in kinds {
        let slot = it.next().expect("a message should be framed");
        assert_eq!(slot.get_packet().get_kind(), kind);
    }
    assert!(it.next().is_none());
    assert!(it.next().is_none());
}

#[test]
fn iterable_walks_whole_buffer() {
    let mut bytes = msg(RTM_NEWLINK, 0, 1, 0, &newlink_payload());
    bytes.extend_from_slice(&msg(NLMSG_NOOP, 0, 2, 0, &[]));
    bytes.extend_from_slice(&msg(NLMSG_DONE, 0, 3, 0, &[]));

    let mut it = NetlinkIterable::new(&bytes);
    let mut kinds = Vec::new();
    while let Some(pkt) = it.next() {
        kinds.push(pkt.get_kind());
    }
    assert_eq!(kinds, vec![RTM_NEWLINK, NLMSG_NOOP, NLMSG_DONE]);
}

#[test]
fn iterable_stops_on_truncated_tail() {
    let mut bytes = msg(NLMSG_NOOP, 0, 1, 0, &[]);
    let second = msg(RTM_NEWLINK, 0, 2, 0, &[0u8; 16]);
    bytes.extend_from_slice(&second[..20]);

    let mut it = NetlinkIterable::new(&bytes);
    let first = it.next().expect("the complete message is yielded");
    assert_eq!(first.get_kind(), NLMSG_NOOP);
    assert!(it.next().is_none());
}

#[test]
fn parse_frames_collects_buffer() {
    let mut bytes = msg(RTM_NEWLINK, 0, 1, 0, &newlink_payload());
    bytes.extend_from_slice(&msg(NLMSG_NOOP, 0, 2, 0, &[]));
    bytes.extend_from_slice(&msg(NLMSG_DONE, 0, 3, 0, &[]));
    // a truncated fourth message is not yielded
    bytes.extend_from_slice(&msg(RTM_NEWLINK, 0, 4, 0, &[0u8; 16])[..20]);

    let frames = pnetlink::netlink::parse_frames(&bytes);
    assert_eq!(frames.len(), 3);
    assert_eq!(frames[0].get_kind(), RTM_NEWLINK);
    assert_eq!(frames[0].get_length(), 48);
    assert_eq!(frames[1].get_kind(), NLMSG_NOOP);
    assert_eq!(frames[2].get_kind(), NLMSG_DONE);
    assert_eq!(frames[2].get_sequence(), 3);
}

#[test]
fn slot_copies_bytes() {
    let bytes = msg(NLMSG_NOOP, 0, 5, 6, &[1, 2, 3, 4]);
    let slot = NetlinkSlot::new(&bytes);
    assert_eq!(slot.len(), bytes.len());
    assert_eq!(slot.bytes(), &bytes);
    let pkt = slot.get_packet();
    assert_eq!(pkt.get_kind(), NLMSG_NOOP);
    assert_eq!(pkt.get_sequence(), 5);
    assert_eq!(pkt.get_pid(), 6);
    assert_eq!(pkt.payload().as_slice(), &[1, 2, 3, 4]);
}
