use raptor_stream::packet::Packet;
use raptor_stream::params::{block_layout, TransmissionParameters};

#[test]
fn header_bytes_are_big_endian() {
    let p = TransmissionParameters::new(3000, 1000, 1, 1, 8);
    assert_eq!(
        p.serialize(),
        vec![0, 0, 0, 0x0b, 0xb8, 0, 0x03, 0xe8, 1, 0, 1, 8]
    );
}

#[test]
fn header_round_trip_keeps_every_field() {
    let p = TransmissionParameters::new(0xAB_CDEF_0123, 0x1234, 200, 0x0302, 16);
    let bytes = p.serialize();
    assert_eq!(bytes.len(), 12);
    assert_eq!(bytes[0], 0xAB);
    assert_eq!(bytes[4], 0x23);
    assert_eq!(TransmissionParameters::deserialize(&bytes), p);
}

#[test]
fn header_reserved_byte_is_ignored() {
    let mut bytes = TransmissionParameters::new(77, 8, 1, 1, 8).serialize();
    bytes[5] = 0xff;
    assert_eq!(
        TransmissionParameters::deserialize(&bytes),
        TransmissionParameters::new(77, 8, 1, 1, 8)
    );
}

#[test]
fn packet_size_is_id_plus_symbol() {
    let p = TransmissionParameters::new(3000, 1000, 1, 1, 8);
    assert_eq!(p.packet_size(), 1004);
    let q = TransmissionParameters::deserialize(&p.serialize());
    assert_eq!(q.packet_size(), 4 + 1000);
}

#[test]
fn packet_round_trip() {
    let packet = Packet::new(3, 0x01_0203, vec![9, 8, 7]);
    let bytes = packet.serialize();
    assert_eq!(bytes, vec![3, 1, 2, 3, 9, 8, 7]);
    let back = Packet::deserialize(&bytes, 3).unwrap();
    assert_eq!(back, packet);
}

#[test]
fn packet_of_wrong_length_is_refused() {
    assert!(Packet::deserialize(&[0, 0, 0, 1, 5], 2).is_none());
    assert!(Packet::deserialize(&[0, 0, 0], 0).is_none());
    assert!(Packet::deserialize(&[0, 0, 0, 1], 0).is_some());
}

#[test]
fn block_layout_follows_partition() {
    let p = TransmissionParameters::new(7000, 1000, 3, 1, 8);
    assert_eq!(block_layout(&p, 0), (0, 3, 3000));
    assert_eq!(block_layout(&p, 1), (3000, 2, 2000));
    assert_eq!(block_layout(&p, 2), (5000, 2, 2000));
    let q = TransmissionParameters::new(6500, 1000, 3, 1, 8);
    assert_eq!(block_layout(&q, 2), (5000, 2, 1500));
}

#[test]
fn block_layout_single_block_with_remainder() {
    let p = TransmissionParameters::new(2500, 1000, 1, 1, 8);
    assert_eq!(block_layout(&p, 0), (0, 3, 2500));
}
