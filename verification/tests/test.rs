use packet_utils::{
    buf_to_uint, checksum_add, checksum_xor, find_valid_packets, has_valid_checksum, ChecksumType,
    Endian,
};

fn create_random_bytes(size: usize) -> Vec<u8> {
    let mut buf: Vec<u8> = Vec::with_capacity(size);
    for _ in 0..buf.capacity() {
        buf.push(rand::random::<u8>());
    }
    buf
}

/// A well-formed packet for the framing used by the scanner tests:
/// 3-byte header, a type byte, the inner length byte at index 4, the payload,
/// and a trailing XOR checksum over everything before it. The total length is
/// the inner length plus 6.
fn make_xor_packet(header: &[u8], type_byte: u8, payload: &[u8]) -> Vec<u8> {
    let mut p: Vec<u8> = Vec::new();
    p.extend_from_slice(header);
    p.push(type_byte);
    p.push(payload.len() as u8);
    p.extend_from_slice(payload);
    let mut cs: u8 = 0;
    for b in &p {
        cs ^= *b;
    }
    p.push(cs);
    p
}

#[test]
fn test_checksum_xor() {
    let buf = create_random_bytes(100);
    let mut checksum_correct: u8 = 0;
    for elem in &buf {
        checksum_correct ^= *elem;
    }
    assert_eq!(checksum_correct, checksum_xor(&buf));
}

#[test]
fn test_checksum_add() {
    let buf = create_random_bytes(100);
    let mut checksum_correct: u64 = 0;
    for elem in &buf {
        checksum_correct += *elem as u64;
    }
    checksum_correct &= 0xFFFF;
    assert_eq!(checksum_correct, checksum_add(&buf, 2));
}

#[test]
fn test_valid_checksum_xor() {
    let mut buf = create_random_bytes(100);
    let mut checksum_correct: u8 = 0;
    for elem in &buf {
        checksum_correct ^= *elem;
    }
    buf.push(checksum_correct);
    assert!(has_valid_checksum(&buf, ChecksumType::XOR { offset: 0 }));
}

#[test]
fn test_valid_checksum_add() {
    let mut buf: Vec<u8> = vec![0xFF, 0xFE, 0x86, 0x11, 0xD9];
    // Checksum = 0x36D
    buf.push(0x03);
    buf.push(0x6D);
    assert!(has_valid_checksum(
        &buf,
        ChecksumType::ADD {
            size: 2,
            offset: 0,
            endian: Endian::Big,
        }
    ));

    let mut buf: Vec<u8> = vec![0xFF, 0xFE, 0x86, 0x11, 0xD9];
    buf.push(0x6D);
    buf.push(0x03);
    assert!(has_valid_checksum(
        &buf,
        ChecksumType::ADD {
            size: 2,
            offset: 0,
            endian: Endian::Little,
        }
    ));
}

#[test]
fn test_checksum_xor_exact() {
    assert_eq!(checksum_xor(&[]), 0);
    assert_eq!(checksum_xor(&[0x12, 0x34]), 0x26);
    assert_eq!(checksum_xor(&[0xAB]), 0xAB);
}

#[test]
fn test_checksum_add_exact() {
    // 0xFF + 0xFE + 0x86 + 0x11 + 0xD9 = 0x36D, truncated to 2 bytes.
    assert_eq!(checksum_add(&[0xFF, 0xFE, 0x86, 0x11, 0xD9], 2), 0x036D);
    // Truncation to a single byte keeps only the low 8 bits of the sum.
    assert_eq!(checksum_add(&[0xFF, 0xFF, 0xFF], 1), 0xFD);
    assert_eq!(checksum_add(&[], 2), 0);
    // A width of 8 bytes keeps the whole 64-bit sum.
    assert_eq!(checksum_add(&[1, 2, 3], 8), 6);
}

#[test]
fn test_xor_append_validates() {
    // Appending a buffer's XOR checksum always yields a valid sequence.
    let body: Vec<u8> = vec![0x01, 0x02, 0x03, 0xF0];
    let mut buf = body.clone();
    buf.push(checksum_xor(&body));
    assert!(has_valid_checksum(&buf, ChecksumType::XOR { offset: 0 }));
}

#[test]
fn test_buf_to_uint_endianness() {
    assert_eq!(buf_to_uint(&[0x01, 0x02], Endian::Big), 0x0102);
    assert_eq!(buf_to_uint(&[0x01, 0x02], Endian::Little), 0x0201);
    assert_eq!(buf_to_uint(&[], Endian::Big), 0);
    assert_eq!(buf_to_uint(&[], Endian::Little), 0);
    let all_ones = [0xFFu8; 8];
    assert_eq!(buf_to_uint(&all_ones, Endian::Big), u64::MAX);
    assert_eq!(buf_to_uint(&all_ones, Endian::Little), u64::MAX);
}

#[test]
fn test_invalid_checksum_configs() {
    // An additive width of 0 or more than 8 bytes never validates.
    let buf: Vec<u8> = vec![0x00, 0x00, 0x00];
    assert!(!has_valid_checksum(
        &buf,
        ChecksumType::ADD {
            size: 0,
            offset: 0,
            endian: Endian::Big,
        }
    ));
    assert!(!has_valid_checksum(
        &buf,
        ChecksumType::ADD {
            size: 9,
            offset: 0,
            endian: Endian::Big,
        }
    ));
    // An offset reaching past the checksum field never validates.
    assert!(!has_valid_checksum(
        &buf,
        ChecksumType::ADD {
            size: 2,
            offset: 2,
            endian: Endian::Big,
        }
    ));
    // XOR over an empty buffer, or with an offset past the last byte.
    assert!(!has_valid_checksum(&[], ChecksumType::XOR { offset: 0 }));
    assert!(!has_valid_checksum(&[0x05], ChecksumType::XOR { offset: 1 }));
}

#[test]
fn test_single_packet_round_trip() {
    let header: Vec<u8> = vec![0x73, 0x6E, 0x70];
    let packet = make_xor_packet(&header, 0x01, &[0x10, 0x20, 0x30, 0x40, 0x50]);
    let (packets, remainder) =
        find_valid_packets(&packet, &header, 4, 6, ChecksumType::XOR { offset: 0 });
    assert_eq!(packets.len(), 1);
    assert_eq!(packets[0], &packet[..]);
    assert!(remainder.is_empty());
}

#[test]
fn test_find_two_packets_back_to_back() {
    let header: Vec<u8> = vec![0x73, 0x6E, 0x70];
    let a = make_xor_packet(&header, 0x01, &[0x10, 0x20, 0x30, 0x40, 0x50]);
    let b = make_xor_packet(&header, 0x02, &[0x11, 0x22, 0x33]);
    assert_eq!(a.len(), 5 + 6);
    assert_eq!(b.len(), 3 + 6);
    let mut buf = a.clone();
    buf.extend_from_slice(&b);
    let (packets, remainder) =
        find_valid_packets(&buf, &header, 4, 6, ChecksumType::XOR { offset: 0 });
    assert_eq!(packets.len(), 2);
    assert_eq!(packets[0], &a[..]);
    assert_eq!(packets[1], &b[..]);
    assert!(remainder.is_empty());
}

#[test]
fn test_find_with_junk_and_corruption() {
    let header: Vec<u8> = vec![0x73, 0x6E, 0x70];
    let a = make_xor_packet(&header, 0x01, &[0x10, 0x20, 0x30, 0x40, 0x50]);
    let b = make_xor_packet(&header, 0x02, &[0x11, 0x22, 0x33]);

    // Junk bytes between the two packets hide neither of them.
    let mut buf = a.clone();
    buf.extend_from_slice(&[0x00, 0xFF]);
    buf.extend_from_slice(&b);
    let (packets, _) = find_valid_packets(&buf, &header, 4, 6, ChecksumType::XOR { offset: 0 });
    assert_eq!(packets.len(), 2);
    assert_eq!(packets[0], &a[..]);
    assert_eq!(packets[1], &b[..]);

    // Corrupting the first packet's checksum drops only that packet.
    let mut corrupted = buf.clone();
    corrupted[a.len() - 1] ^= 0x01;
    let (packets, _) =
        find_valid_packets(&corrupted, &header, 4, 6, ChecksumType::XOR { offset: 0 });
    assert_eq!(packets.len(), 1);
    assert_eq!(packets[0], &corrupted[a.len() + 2..]);
}

#[test]
fn test_truncated_tail_remainder() {
    // The only header-byte match leaves fewer bytes than the header needs:
    // nothing is found and that truncated tail is the remainder.
    let header: Vec<u8> = vec![0x73, 0x6E, 0x70];
    let buf: Vec<u8> = vec![0x00, 0x73];
    let (packets, remainder) =
        find_valid_packets(&buf, &header, 4, 6, ChecksumType::XOR { offset: 0 });
    assert!(packets.is_empty());
    assert_eq!(remainder, &[0x73]);
}

#[test]
fn test_no_header_byte_discards_tail() {
    let header: Vec<u8> = vec![0x73, 0x6E, 0x70];
    let buf: Vec<u8> = vec![0x01, 0x02, 0x03];
    let (packets, remainder) =
        find_valid_packets(&buf, &header, 4, 6, ChecksumType::XOR { offset: 0 });
    assert!(packets.is_empty());
    assert!(remainder.is_empty());
}

#[test]
fn test_rescan_remainder() {
    let header: Vec<u8> = vec![0x73, 0x6E, 0x70];
    let a = make_xor_packet(&header, 0x01, &[0x10, 0x20, 0x30, 0x40, 0x50]);
    let mut buf = a.clone();
    // A truncated next packet: only the first two header bytes arrived.
    buf.extend_from_slice(&[0x73, 0x6E]);
    let (packets, remainder) =
        find_valid_packets(&buf, &header, 4, 6, ChecksumType::XOR { offset: 0 });
    assert_eq!(packets.len(), 1);
    assert_eq!(packets[0], &a[..]);
    assert_eq!(remainder, &[0x73, 0x6E]);

    // Scanning the remainder again, with the same parameters, finds nothing.
    let (again, leftover) =
        find_valid_packets(remainder, &header, 4, 6, ChecksumType::XOR { offset: 0 });
    assert!(again.is_empty());
    assert_eq!(leftover, remainder);
}
