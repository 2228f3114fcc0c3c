use rip_router::net::ipv4;
use rip_router::wire::{decode, encode, MalformedDatagram, RipMessage, RouteEntry};

#[test]
fn encode_exact_bytes() {
    let msg = RipMessage::new(
        ipv4(10, 0, 2, 1),
        vec![RouteEntry { network: ipv4(10, 0, 0, 0), mask: 24, metric: 1 }],
    );
    assert_eq!(encode(&msg), vec![10, 0, 2, 1, 0, 1, 10, 0, 0, 0, 24, 1]);
}

#[test]
fn encode_empty_advertisement() {
    let msg = RipMessage::new(ipv4(1, 2, 3, 4), vec![]);
    assert_eq!(encode(&msg), vec![1, 2, 3, 4, 0, 0]);
}

#[test]
fn decode_round_trip() {
    let msg = RipMessage::new(
        ipv4(10, 1, 1, 1),
        vec![
            RouteEntry { network: ipv4(192, 168, 1, 0), mask: 24, metric: 1 },
            RouteEntry { network: ipv4(10, 1, 2, 0), mask: 24, metric: 255 },
            RouteEntry { network: 0, mask: 0, metric: 7 },
        ],
    );
    let bytes = encode(&msg);
    assert_eq!(bytes.len(), 6 + 3 * 6);
    assert_eq!(decode(&bytes), Ok(msg));
}

#[test]
fn decode_too_short() {
    assert_eq!(decode(&[]), Err(MalformedDatagram::TooShort));
    assert_eq!(decode(&[10, 0, 2, 1, 0]), Err(MalformedDatagram::TooShort));
}

#[test]
fn decode_truncated_record() {
    let bytes = [10, 0, 2, 1, 0, 1, 10, 0, 0, 0, 24];
    assert_eq!(decode(&bytes), Err(MalformedDatagram::LengthMismatch));
}

#[test]
fn decode_miscounted() {
    let bytes = [10, 0, 2, 1, 0, 2, 10, 0, 0, 0, 24, 1];
    assert_eq!(decode(&bytes), Err(MalformedDatagram::LengthMismatch));
    let extra = [10, 0, 2, 1, 0, 0, 10];
    assert_eq!(decode(&extra), Err(MalformedDatagram::LengthMismatch));
}

#[test]
fn decode_prefix_over_32() {
    let bytes = [10, 0, 2, 1, 0, 1, 10, 0, 0, 0, 33, 1];
    assert_eq!(decode(&bytes), Err(MalformedDatagram::PrefixTooLong));
}
