use teltonika_avl_protocol::codec8::{
    AvlDataRecord, AvlGpsElement, AvlN1Element, AvlN2Element, AvlN4Element, AvlN8Element,
    Codec8Packet, Coordinate, Priority, CODEC8_TYPE_ID,
};
use teltonika_avl_protocol::error::AvlError;
use teltonika_avl_protocol::{crc16, StackVec};

/// A coordinate given in degrees, as the wire stores it (units of 1e-7 degree).
fn degrees(value: f32) -> Coordinate {
    Coordinate((value * 10000000.0f32) as i32)
}

fn zero_gps() -> AvlGpsElement {
    AvlGpsElement {
        longitude: degrees(0.0),
        latitude: degrees(0.0),
        altitude: 0,
        angle: 0,
        satellites: 0,
        speed: 0,
    }
}

fn example1() -> AvlDataRecord {
    AvlDataRecord {
        timestamp: 0x000000016b40d8ea30,
        priority: Priority::Medium,
        gps_element: zero_gps(),
        event_io_id: 1,
        total_io_count: 5,
        n1_elements: StackVec::from_slice(&[
            AvlN1Element { id: 0x15, value: 0x03 },
            AvlN1Element { id: 0x01, value: 0x01 },
        ])
        .unwrap(),
        n2_elements: StackVec::from_slice(&[AvlN2Element { id: 0x42, value: 0x5e0f }]).unwrap(),
        n4_elements: StackVec::from_slice(&[AvlN4Element { id: 0xf1, value: 0x601a }]).unwrap(),
        n8_elements: StackVec::from_slice(&[AvlN8Element { id: 0x4e, value: 0x00 }]).unwrap(),
    }
}

#[test]
fn should_encode_decode_example1_codec8_packet() {
    let mut buf = [0_u8; 256];

    let packet = Codec8Packet { avl_data_records: StackVec::from_slice(&[example1()]).unwrap() };
    let bytes_encoded = packet.encode(&mut buf).unwrap();

    assert_eq!(
        &buf[0..bytes_encoded],
        &[
            0, 0, 0, 0, // Preamble
            0, 0, 0, 0x36, // Data field length
            8,    // Codec ID
            1,    // Data 1 count
            0x00, 0x00, 0x01, 0x6b, 0x40, 0xd8, 0xea, 0x30, // Timestamp
            1,    // Priority
            0, 0, 0, 0, // GPS element - Longitude
            0, 0, 0, 0, // GPS element - Latitude
            0, 0, // GPS element - Altitude
            0, 0, // GPS element - Angle
            0, // GPS element - Satellites
            0, 0, // GPS element - Speed
            1, // Event IO ID
            5, // Total IO count
            2, // N1 elements count
            0x15, // N1 element 1 ID
            3,    // N1 element 1 value
            1,    // N1 element 2 ID
            1,    // N1 element 2 value
            1,    // N2 element count
            0x42, // N2 element ID
            0x5e, 0x0f, // N2 element value
            1,    // N4 element count
            0xf1, // N4 element ID
            0x00, 0x00, 0x60, 0x1a, // N4 element value
            1,    // N8 element count
            0x4e, // N8 element ID
            0x00, 0x00, 0x00, 0x00, 0x00, 0x00, 0x00, 0x00, // N8 element value
            1, // Data 2 count
            0, 0, 0xc7, 0xcf // CRC16
        ]
    );

    let (bytes_decoded, decoded_packet) = Codec8Packet::decode(&buf[..bytes_encoded]).unwrap();
    assert_eq!(bytes_encoded, bytes_decoded);

    assert_eq!(packet, decoded_packet);
}

fn example2() -> AvlDataRecord {
    AvlDataRecord {
        timestamp: 0x000000016b40d9ad80,
        priority: Priority::Medium,
        gps_element: zero_gps(),
        event_io_id: 1,
        total_io_count: 3,
        n1_elements: StackVec::from_slice(&[
            AvlN1Element { id: 0x15, value: 0x03 },
            AvlN1Element { id: 0x01, value: 0x01 },
        ])
        .unwrap(),
        n2_elements: StackVec::from_slice(&[AvlN2Element { id: 0x42, value: 0x5e10 }]).unwrap(),
        n4_elements: StackVec::new(),
        n8_elements: StackVec::new(),
    }
}

#[test]
fn should_encode_decode_example2_codec8_packet() {
    let mut buf = [0_u8; 256];

    let packet = Codec8Packet { avl_data_records: StackVec::from_slice(&[example2()]).unwrap() };
    let bytes_encoded = packet.encode(&mut buf).unwrap();

    assert_eq!(
        &buf[0..bytes_encoded],
        &[
            0, 0, 0, 0, // Preamble
            0, 0, 0, 0x28, // Data field length
            8,    // Codec ID
            1,    // Data 1 count
            0x00, 0x00, 0x01, 0x6b, 0x40, 0xd9, 0xad, 0x80, // Timestamp
            1,    // Priority
            0, 0, 0, 0, // GPS element - Longitude
            0, 0, 0, 0, // GPS element - Latitude
            0, 0, // GPS element - Altitude
            0, 0, // GPS element - Angle
            0, // GPS element - Satellites
            0, 0, // GPS element - Speed
            1,    // Event IO ID
            3,    // Total IO count
            2,    // N1 elements count
            0x15, // N1 element 1 ID
            3,    // N1 element 1 value
            1,    // N1 element 2 ID
            1,    // N1 element 2 value
            1,    // N2 element count
            0x42, // N2 element ID
            0x5e, 0x10, // N2 element value
            0,    // N4 element count
            0,    // N8 element count
            1,    // Data 2 count
            0, 0, 0xf2, 0x2a // CRC16
        ]
    );

    let (bytes_decoded, decoded_packet) = Codec8Packet::decode(&buf[..bytes_encoded]).unwrap();
    assert_eq!(bytes_encoded, bytes_decoded);

    assert_eq!(packet, decoded_packet);
}

fn example3() -> Codec8Packet {
    Codec8Packet {
        avl_data_records: StackVec::from_slice(&[
            AvlDataRecord {
                timestamp: 0x000000016b40d57b48,
                priority: Priority::Medium,
                gps_element: zero_gps(),
                event_io_id: 1,
                total_io_count: 1,
                n1_elements: StackVec::from_slice(&[AvlN1Element { id: 0x01, value: 0x00 }])
                    .unwrap(),
                n2_elements: StackVec::new(),
                n4_elements: StackVec::new(),
                n8_elements: StackVec::new(),
            },
            AvlDataRecord {
                timestamp: 0x000000016b40d5c198,
                priority: Priority::Medium,
                gps_element: zero_gps(),
                event_io_id: 1,
                total_io_count: 1,
                n1_elements: StackVec::from_slice(&[AvlN1Element { id: 0x01, value: 0x01 }])
                    .unwrap(),
                n2_elements: StackVec::new(),
                n4_elements: StackVec::new(),
                n8_elements: StackVec::new(),
            },
        ])
        .unwrap(),
    }
}

#[test]
fn should_encode_decode_example3_codec8_packet() {
    let mut buf = [0_u8; 256];

    let packet = example3();
    let bytes_encoded = packet.encode(&mut buf).unwrap();

    assert_eq!(
        &buf[0..bytes_encoded],
        &[
            0, 0, 0, 0, // Preamble
            0, 0, 0, 0x43, // Data field length
            8,    // Codec ID
            2,    // Data 1 count
            // Record 1
            0x00, 0x00, 0x01, 0x6b, 0x40, 0xd5, 0x7b, 0x48, // Timestamp
            1,    // Priority
            0, 0, 0, 0, // GPS element - Longitude
            0, 0, 0, 0, // GPS element - Latitude
            0, 0, // GPS element - Altitude
            0, 0, // GPS element - Angle
            0, // GPS element - Satellites
            0, 0, // GPS element - Speed
            1, // Event IO ID
            1, // Total IO count
            1, // N1 elements count
            1, // N1 element 1 ID
            0, // N1 element 1 value
            0, // N2 element count
            0, // N4 element count
            0, // N8 element count
            // Record 2
            0x00, 0x00, 0x01, 0x6b, 0x40, 0xd5, 0xc1, 0x98, // Timestamp
            1,    // Priority
            0, 0, 0, 0, // GPS element - Longitude
            0, 0, 0, 0, // GPS element - Latitude
            0, 0, // GPS element - Altitude
            0, 0, // GPS element - Angle
            0, // GPS element - Satellites
            0, 0, // GPS element - Speed
            1, // Event IO ID
            1, // Total IO count
            1, // N1 elements count
            1, // N1 element 1 ID
            1, // N1 element 1 value
            0, // N2 element count
            0, // N4 element count
            0, // N8 element count
            2, // Data 2 count
            0, 0, 0x25, 0x2c // CRC16
        ]
    );

    let (bytes_decoded, decoded_packet) = Codec8Packet::decode(&buf[..bytes_encoded]).unwrap();
    assert_eq!(bytes_encoded, bytes_decoded);

    assert_eq!(packet, decoded_packet);
}

fn sample_frame_with_io() -> AvlDataRecord {
    AvlDataRecord {
        timestamp: 0x000000016b40d8ea30,
        priority: Priority::Medium,
        gps_element: zero_gps(),
        event_io_id: 1,
        total_io_count: 4,
        n1_elements: StackVec::from_slice(&[AvlN1Element { id: 0x15, value: 0x03 }]).unwrap(),
        n2_elements: StackVec::from_slice(&[AvlN2Element { id: 0x42, value: 0x5e0f }]).unwrap(),
        n4_elements: StackVec::from_slice(&[AvlN4Element { id: 0xf1, value: 0x0000601a }])
            .unwrap(),
        n8_elements: StackVec::from_slice(&[AvlN8Element { id: 0x4e, value: 0x0 }]).unwrap(),
    }
}

fn sample_frame_without_io() -> AvlDataRecord {
    AvlDataRecord {
        timestamp: 0x000000016b40d8ea30,
        priority: Priority::Low,
        gps_element: AvlGpsElement {
            longitude: degrees(10.1234),
            latitude: degrees(-33.9230),
            altitude: 5,
            angle: 15,
            satellites: 5,
            speed: 22,
        },
        event_io_id: 2,
        total_io_count: 0,
        n1_elements: StackVec::new(),
        n2_elements: StackVec::new(),
        n4_elements: StackVec::new(),
        n8_elements: StackVec::new(),
    }
}

#[test]
fn codec8_encodes_packet_header_and_crc_correctly() {
    let packet = Codec8Packet {
        avl_data_records: StackVec::from_slice(&[sample_frame_without_io()]).unwrap(),
    };

    let mut buf = [0_u8; 256];
    let bytes_written = packet.encode(&mut buf).unwrap();

    assert_eq!(bytes_written, 45);
    assert_eq!(&buf[0..4], &[0, 0, 0, 0]);
    assert_eq!(u32::from_be_bytes(buf[4..8].try_into().unwrap()), 33);
    assert_eq!(buf[8], CODEC8_TYPE_ID);
    assert_eq!(buf[9], 1);
    assert_eq!(buf[40], 1);

    let expected_crc = crc16(&buf[8..41]);
    let actual_crc = u16::from_be_bytes(buf[43..45].try_into().unwrap());
    assert_eq!(actual_crc, expected_crc);
}

#[test]
fn codec8_round_trip_encode_decode_preserves_payload() {
    let packet = Codec8Packet {
        avl_data_records: StackVec::from_slice(&[sample_frame_with_io(), sample_frame_without_io()])
            .unwrap(),
    };

    let mut encoded = [0_u8; 512];
    let encoded_len = packet.encode(&mut encoded).unwrap();

    let (bytes_decoded, decoded) = Codec8Packet::decode(&encoded[..encoded_len]).unwrap();
    assert_eq!(decoded.avl_data_records.len(), 2);

    let mut re_encoded = [0_u8; 512];
    let re_encoded_len = decoded.encode(&mut re_encoded).unwrap();

    assert_eq!(encoded_len, re_encoded_len);
    assert_eq!(&encoded[..encoded_len], &re_encoded[..re_encoded_len]);
    assert_eq!(bytes_decoded, encoded_len);
}

#[test]
fn codec8_decode_rejects_invalid_checksum() {
    let packet = Codec8Packet {
        avl_data_records: StackVec::from_slice(&[sample_frame_with_io()]).unwrap(),
    };

    let mut encoded = [0_u8; 512];
    let encoded_len = packet.encode(&mut encoded).unwrap();

    // Corrupt checksum while keeping payload untouched.
    encoded[encoded_len - 1] ^= 0x01;

    let result = Codec8Packet::decode(&encoded[..encoded_len]);
    assert!(matches!(result, Err(AvlError::InvalidChecksum { .. })));
}
