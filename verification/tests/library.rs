use teltonika_avl_protocol::avl::{
    AvlIoId, AvlN1Element as GenericN1, AvlN2Element as GenericN2, AvlN4Element as GenericN4,
    AvlN8Element as GenericN8, AvlPacketHeader, AvlUdpAckResponse, AvlUdpRequest,
};
use teltonika_avl_protocol::codec8::{
    AvlDataRecord, AvlGpsElement, AvlN1Element, AvlN2Element, AvlN4Element, AvlN8Element,
    Codec8Packet, Coordinate, Priority,
};
use teltonika_avl_protocol::error::AvlError;
use teltonika_avl_protocol::{crc16, AvlCodec, StackVec};

fn plain_record(priority: Priority, n1: &[AvlN1Element]) -> AvlDataRecord {
    AvlDataRecord {
        timestamp: 0x0102030405060708,
        priority,
        gps_element: AvlGpsElement {
            longitude: Coordinate(0x0a0b0c0d),
            latitude: Coordinate(-2),
            altitude: -3,
            angle: 0x0102,
            satellites: 7,
            speed: 0x0304,
        },
        event_io_id: 9,
        total_io_count: n1.len() as u8,
        n1_elements: StackVec::from_slice(n1).unwrap(),
        n2_elements: StackVec::new(),
        n4_elements: StackVec::new(),
        n8_elements: StackVec::new(),
    }
}

fn one_record_packet() -> Codec8Packet {
    Codec8Packet {
        avl_data_records: StackVec::from_slice(&[plain_record(
            Priority::High,
            &[AvlN1Element { id: 1, value: 2 }],
        )])
        .unwrap(),
    }
}

#[test]
fn crc16_matches_the_arc_check_value() {
    assert_eq!(crc16(b"123456789"), 0xbb3d);
    assert_eq!(crc16(&[]), 0);
    assert_eq!(crc16(&[0x01]), 0xc0c1);
}

#[test]
fn priority_from_byte() {
    assert_eq!(Priority::try_from(0u8), Ok(Priority::Low));
    assert_eq!(Priority::try_from(1u8), Ok(Priority::Medium));
    assert_eq!(Priority::try_from(2u8), Ok(Priority::High));
    assert_eq!(Priority::try_from(3u8), Err(AvlError::InvalidPriority(3)));
}

#[test]
fn coordinate_bytes_are_big_endian_twos_complement() {
    let mut buf = [0u8; 6];
    assert_eq!(Coordinate(-1).encode(&mut buf), 4);
    assert_eq!(buf, [0xff, 0xff, 0xff, 0xff, 0, 0]);
    assert_eq!(Coordinate(0x12345678).encode(&mut buf), 4);
    assert_eq!(&buf[..4], &[0x12, 0x34, 0x56, 0x78]);
    assert_eq!(Coordinate::decode(&[0x80, 0, 0, 0]), Coordinate(i32::MIN));
}

#[test]
fn gps_element_layout() {
    let gps = plain_record(Priority::Low, &[]).gps_element;
    let mut buf = [0xaau8; 16];
    assert_eq!(gps.encode(&mut buf), Ok(15));
    assert_eq!(
        buf,
        [0x0a, 0x0b, 0x0c, 0x0d, 0xff, 0xff, 0xff, 0xfe, 0xff, 0xfd, 0x01, 0x02, 7, 0x03, 0x04, 0xaa]
    );
    assert_eq!(AvlGpsElement::decode(&buf), Ok(gps));
}

#[test]
fn io_element_layouts() {
    let mut buf = [0u8; 9];
    assert_eq!(AvlN1Element { id: 0x11, value: 0x22 }.encode(&mut buf), Ok(2));
    assert_eq!(&buf[..2], &[0x11, 0x22]);
    assert_eq!(AvlN1Element::decode(&buf), Ok(AvlN1Element { id: 0x11, value: 0x22 }));

    assert_eq!(AvlN2Element { id: 0x11, value: 0x2233 }.encode(&mut buf), Ok(3));
    assert_eq!(&buf[..3], &[0x11, 0x22, 0x33]);
    assert_eq!(AvlN2Element::decode(&buf), Ok(AvlN2Element { id: 0x11, value: 0x2233 }));

    assert_eq!(AvlN4Element { id: 0x11, value: 0x22334455 }.encode(&mut buf), Ok(5));
    assert_eq!(&buf[..5], &[0x11, 0x22, 0x33, 0x44, 0x55]);
    assert_eq!(AvlN4Element::decode(&buf), Ok(AvlN4Element { id: 0x11, value: 0x22334455 }));

    let n8 = AvlN8Element { id: 0x11, value: 0x2233445566778899 };
    assert_eq!(n8.encode(&mut buf), Ok(9));
    assert_eq!(buf, [0x11, 0x22, 0x33, 0x44, 0x55, 0x66, 0x77, 0x88, 0x99]);
    assert_eq!(AvlN8Element::decode(&buf), Ok(n8));
}

#[test]
fn record_size_and_recomputed_total_io_count() {
    let mut record = plain_record(Priority::Medium, &[AvlN1Element { id: 1, value: 2 }]);
    record.total_io_count = 9;
    record.n8_elements = StackVec::from_slice(&[AvlN8Element { id: 3, value: 4 }]).unwrap();
    assert_eq!(record.size(), 30 + 2 + 9);
    let mut buf = [0u8; 64];
    assert_eq!(record.encode(&mut buf), Ok(41));
    assert_eq!(buf[8], 1);
    assert_eq!(buf[25], 2);
    let (n, decoded) = AvlDataRecord::decode(&buf).unwrap();
    assert_eq!(n, 41);
    assert_eq!(decoded.total_io_count, 2);
    assert_eq!(decoded.n8_elements.len(), 1);
    assert_eq!(decoded.n8_elements[0], AvlN8Element { id: 3, value: 4 });
}

#[test]
fn record_decode_rejects_invalid_priority() {
    let record = plain_record(Priority::Low, &[]);
    let mut buf = [0u8; 40];
    record.encode(&mut buf).unwrap();
    buf[8] = 7;
    assert_eq!(AvlDataRecord::decode(&buf), Err(AvlError::InvalidPriority(7)));
    // The priority is checked before anything else is read.
    assert_eq!(AvlDataRecord::decode(&buf[..9]), Err(AvlError::InvalidPriority(7)));
}

#[test]
fn packet_data_field_length_and_codec_size() {
    let packet = one_record_packet();
    assert_eq!(packet.data_field_length(), 3 + 32);
    assert_eq!(AvlCodec::size(&packet), 12 + 3 + 32);
    let mut buf = [0u8; 64];
    assert_eq!(AvlCodec::encode(&packet, &mut buf), Ok(47));
    let (n, decoded) = <Codec8Packet as AvlCodec>::decode(&buf[..47]).unwrap();
    assert_eq!(n, 47);
    assert_eq!(decoded, packet);
}

#[test]
fn packet_decode_reports_checksum_values() {
    let packet = one_record_packet();
    let mut buf = [0u8; 64];
    let n = packet.encode(&mut buf).unwrap();
    let computed = crc16(&buf[8..n - 4]);
    buf[n - 2] ^= 0xff;
    let stored = u16::from_be_bytes([buf[n - 2], buf[n - 1]]);
    assert_eq!(
        Codec8Packet::decode(&buf[..n]),
        Err(AvlError::InvalidChecksum { expected: stored, actual: computed })
    );
}

#[test]
fn packet_decode_rejects_different_record_counts() {
    let packet = one_record_packet();
    let mut buf = [0u8; 64];
    let n = packet.encode(&mut buf).unwrap();
    let l = n - 12;
    buf[9] = 2;
    let crc = crc16(&buf[8..8 + l]);
    buf[10 + l..12 + l].copy_from_slice(&crc.to_be_bytes());
    assert_eq!(
        Codec8Packet::decode(&buf[..n]),
        Err(AvlError::InvalidDataCount { data_1_count: 2, data_2_count: 1 })
    );
}

#[test]
fn packet_decode_passes_on_record_errors() {
    let packet = one_record_packet();
    let mut buf = [0u8; 64];
    let n = packet.encode(&mut buf).unwrap();
    buf[10 + 8] = 3;
    let l = n - 12;
    let crc = crc16(&buf[8..8 + l]);
    buf[10 + l..12 + l].copy_from_slice(&crc.to_be_bytes());
    assert_eq!(Codec8Packet::decode(&buf[..n]), Err(AvlError::InvalidPriority(3)));
}

#[test]
fn ack_response_round_trip() {
    let ack = AvlUdpAckResponse { packet_id: 0xcafe, avl_packet_id: 0x12, accepted_avl_data_count: 3 };
    assert_eq!(ack.size(), 7);
    let mut buf = [0u8; 8];
    assert_eq!(ack.encode(&mut buf), Ok(7));
    assert_eq!(&buf[..7], &[0, 3, 0xca, 0xfe, 1, 0x12, 3]);
    assert_eq!(AvlUdpAckResponse::decode(&buf), Ok((7, ack)));
    let mut short = [0u8; 6];
    assert_eq!(ack.encode(&mut short), Err(AvlError::InvalidFrame));
    assert_eq!(short, [0u8; 6]);
    assert_eq!(AvlUdpAckResponse::decode(&short), Err(AvlError::InvalidFrame));
}

#[test]
fn packet_header_round_trip() {
    let imei = *b"356307042441013";
    let header = AvlPacketHeader::new(0x07, imei);
    assert_eq!(header.packet_id, 0x07);
    assert_eq!(header.imei, imei);
    assert_eq!(header.size(), 18);
    let mut buf = [0u8; 18];
    assert_eq!(header.encode(&mut buf), Ok(18));
    assert_eq!(&buf[..3], &[0x07, 0x00, 0x0f]);
    assert_eq!(&buf[3..], &imei);
    assert_eq!(AvlPacketHeader::decode(&buf), Ok((18, header)));
    assert_eq!(header.encode(&mut buf[..17]), Err(AvlError::InvalidFrame));
    assert_eq!(AvlPacketHeader::decode(&buf[..17]), Err(AvlError::InvalidFrame));
}

#[test]
fn udp_request_layout() {
    let imei = *b"123456789012345";
    let header = AvlPacketHeader::new(0x05, imei);
    let request = AvlUdpRequest { packet_id: 0xbeef, avl_packet_header: header, avl_packet: one_record_packet() };
    assert_eq!(request.size(), 23 + 47);
    let mut buf = [0xaau8; 80];
    let n = request.encode(&mut buf).unwrap();
    assert_eq!(n, request.size());
    // Packet length (what follows the two length bytes), packet id, unused byte, header.
    assert_eq!(&buf[..5], &[0, 21 + 47, 0xbe, 0xef, 0x01]);
    assert_eq!(&buf[5..8], &[0x05, 0, 0x0f]);
    assert_eq!(&buf[8..23], &imei);
    let (m, packet) = Codec8Packet::decode(&buf[23..n]).unwrap();
    assert_eq!(m, 47);
    assert_eq!(packet, request.avl_packet);
    assert!(buf[n..].iter().all(|b| *b == 0xaa));
    let mut short = [0u8; 69];
    assert_eq!(request.encode(&mut short), Err(AvlError::InvalidFrame));
    assert_eq!(short, [0u8; 69]);
}

#[test]
fn udp_request_decode_reads_id_header_and_packet() {
    let imei = *b"123456789012345";
    let packet = one_record_packet();
    let mut buf = [0u8; 80];
    buf[0] = 0xbe;
    buf[1] = 0xef;
    buf[2..20].copy_from_slice(&[&[0x05u8, 0x00, 0x0f][..], &imei[..]].concat());
    let k = packet.encode(&mut buf[20..]).unwrap();
    let (m, decoded) = AvlUdpRequest::<Codec8Packet>::decode(&buf[..20 + k]).unwrap();
    assert_eq!(m, 20 + k);
    assert_eq!(decoded.packet_id, 0xbeef);
    assert_eq!(decoded.avl_packet_header, AvlPacketHeader::new(0x05, imei));
    assert_eq!(decoded.avl_packet, packet);
    assert_eq!(AvlUdpRequest::<Codec8Packet>::decode(&buf[..19]).unwrap_err(), AvlError::InvalidFrame);
}

#[test]
fn generic_io_elements_with_two_byte_ids() {
    assert_eq!(<u8 as AvlIoId>::size(), 1);
    assert_eq!(<u16 as AvlIoId>::size(), 2);
    assert_eq!(GenericN1::<u16>::size(), 3);
    assert_eq!(GenericN2::<u16>::size(), 4);
    assert_eq!(GenericN4::<u8>::size(), 5);
    assert_eq!(GenericN8::<u16>::size(), 10);
    let mut buf = [0u8; 10];
    let e = GenericN2 { id: 0x0102u16, value: 0x0304 };
    assert_eq!(e.encode(&mut buf), Ok(4));
    assert_eq!(&buf[..4], &[1, 2, 3, 4]);
    assert_eq!(GenericN2::<u16>::decode(&buf), Ok(e));
    let e = GenericN8 { id: 0x0aaau16, value: 0x0102030405060708 };
    assert_eq!(e.encode(&mut buf), Ok(10));
    assert_eq!(buf, [0x0a, 0xaa, 1, 2, 3, 4, 5, 6, 7, 8]);
    assert_eq!(GenericN8::<u16>::decode(&buf), Ok(e));
    let e = GenericN1 { id: 0x7fu8, value: 0x80 };
    assert_eq!(e.encode(&mut buf), Ok(2));
    assert_eq!(&buf[..2], &[0x7f, 0x80]);
    assert_eq!(GenericN1::<u8>::decode(&buf), Ok(e));
    let e = GenericN4 { id: 0x01u8, value: 0xdeadbeef };
    assert_eq!(e.encode(&mut buf), Ok(5));
    assert_eq!(&buf[..5], &[1, 0xde, 0xad, 0xbe, 0xef]);
    assert_eq!(GenericN4::<u8>::decode(&buf), Ok(e));
}

#[test]
fn readme_example_round_trip() {
    let mut buf = [0; Codec8Packet::MAX_LENGTH];

    let packet = Codec8Packet {
        avl_data_records: StackVec::from_slice(&[AvlDataRecord {
            timestamp: 0x000000016b40d8ea30,
            priority: Priority::Medium,
            gps_element: AvlGpsElement {
                longitude: Coordinate(0),
                latitude: Coordinate(0),
                altitude: 0,
                angle: 0,
                satellites: 0,
                speed: 0,
            },
            event_io_id: 1,
            total_io_count: 4,
            n1_elements: StackVec::from_slice(&[AvlN1Element { id: 0x15, value: 0x03 }]).unwrap(),
            n2_elements: StackVec::from_slice(&[AvlN2Element { id: 0x42, value: 0x5e0f }])
                .unwrap(),
            n4_elements: StackVec::from_slice(&[AvlN4Element { id: 0xf1, value: 0x0000601a }])
                .unwrap(),
            n8_elements: StackVec::from_slice(&[AvlN8Element { id: 0x4e, value: 0x0 }]).unwrap(),
        }])
        .unwrap(),
    };

    let bytes_encoded = packet.encode(&mut buf).unwrap();

    let (bytes_decoded, packet_decoded) = Codec8Packet::decode(&buf[..bytes_encoded]).unwrap();

    assert_eq!(bytes_encoded, bytes_decoded);
    assert_eq!(packet, packet_decoded);
    assert!(bytes_encoded >= Codec8Packet::MIN_LENGTH);
}

#[test]
fn crc16_of_message_followed_by_its_crc_is_zero() {
    let mut msg = b"123456789".to_vec();
    let c = crc16(&msg);
    msg.push(c as u8);
    msg.push((c >> 8) as u8);
    assert_eq!(crc16(&msg), 0);
}

#[test]
fn crc16_of_zeros_is_zero() {
    assert_eq!(crc16(&[]), 0);
    assert_eq!(crc16(&[0u8; 1]), 0);
    assert_eq!(crc16(&[0u8; 17]), 0);
}

#[test]
fn crc16_of_xor_is_xor_of_crcs() {
    let a: [u8; 5] = [0x01, 0x23, 0x45, 0x67, 0x89];
    let b: [u8; 5] = [0xfe, 0xdc, 0xba, 0x98, 0x76];
    let x: Vec<u8> = a.iter().zip(b.iter()).map(|(p, q)| p ^ q).collect();
    assert_eq!(crc16(&x), crc16(&a) ^ crc16(&b));
}

#[test]
fn error_messages() {
    assert_eq!(AvlError::InvalidFrame.message(), "Invalid frame");
    assert_eq!(
        AvlError::InvalidChecksum { expected: 1, actual: 51000 }.message(),
        "Invalid checksum: expected 1, actual 51000"
    );
    assert_eq!(
        AvlError::InvalidDataCount { data_1_count: 2, data_2_count: 0 }.message(),
        "Invalid data count: data_1_count 2, data_2_count 0. data_1_count must equal data_2_count"
    );
    assert_eq!(AvlError::InvalidPriority(255).message(), "Invalid priority: 255");
    assert_eq!(
        AvlError::InvalidIoElementValueSize(10).message(),
        "Invalid IO element value size: 10"
    );
}
