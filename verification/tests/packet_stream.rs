use lidar_ld19::packet::{crc8, crc8_update, decode_packet, is_packet, HEADER, PACKET_LEN};
use lidar_ld19::port_buffer::PortBuffer;
use lidar_ld19::Point;

/// A packet with the given angles and readings, with a correct checksum.
fn packet(start: u16, end: u16, readings: &[(u16, u8); 12]) -> Vec<u8> {
    let mut p = vec![HEADER, 0x2C, 0x10, 0x0E];
    p.extend_from_slice(&start.to_le_bytes());
    for &(dist, conf) in readings.iter() {
        p.extend_from_slice(&dist.to_le_bytes());
        p.push(conf);
    }
    p.extend_from_slice(&end.to_le_bytes());
    p.extend_from_slice(&1234u16.to_le_bytes());
    let c = crc8(&p);
    p.push(c);
    assert_eq!(p.len(), PACKET_LEN);
    p
}

fn readings() -> [(u16, u8); 12] {
    let mut r = [(0u16, 0u8); 12];
    for i in 0..12 {
        r[i] = (1000 + 10 * i as u16, 200);
    }
    r[3].1 = 5;
    r
}

#[test]
fn crc_matches_polynomial_table() {
    assert_eq!(crc8(&[]), 0x00);
    assert_eq!(crc8(&[0x01]), 0x4D);
    assert_eq!(crc8(&[0x02]), 0x9A);
    assert_eq!(crc8(&[0x03]), 0xD7);
    assert_eq!(crc8(&[0x04]), 0x79);
    assert_eq!(crc8_update(0, 0x07), 0xAE);
    assert_eq!(crc8(&[0x01, 0x02]), crc8_update(0x4D, 0x02));
}

#[test]
fn well_formed_packet_is_accepted() {
    let p = packet(1000, 2100, &readings());
    assert!(is_packet(&p));
    let mut bad = p.clone();
    bad[10] ^= 0x01;
    assert!(!is_packet(&bad));
    let mut bad_head = p.clone();
    bad_head[0] = 0x55;
    assert!(!is_packet(&bad_head));
    let mut bad_len = p.clone();
    bad_len[1] = 0x2D;
    let c = crc8(&bad_len[..46]);
    bad_len[46] = c;
    assert!(!is_packet(&bad_len));
    assert!(!is_packet(&p[..46]));
}

#[test]
fn decoding_interpolates_directions_and_drops_weak_readings() {
    let p = packet(1000, 2100, &readings());
    let mut out = Vec::new();
    decode_packet(&p, 10, &mut out);
    assert_eq!(out.len(), 12);
    for (i, pt) in out.iter().enumerate() {
        assert_eq!(pt.dir, 1000 + 100 * i as u16);
        if i == 3 {
            assert_eq!(pt.len, 0);
        } else {
            assert_eq!(pt.len, 1000 + 10 * i as u16);
        }
    }
    let mut all = Vec::new();
    decode_packet(&p, 0, &mut all);
    assert_eq!(all[3], Point { len: 1030, dir: 1300 });
}

#[test]
fn decoding_wraps_past_a_full_turn() {
    // from 359.00 to 1.20 degrees: the sweep is 220 hundredths, 20 per step
    let p = packet(35900, 120, &readings());
    let mut out = Vec::new();
    decode_packet(&p, 0, &mut out);
    assert_eq!(out[0].dir, 35900);
    assert_eq!(out[4].dir, 35980);
    assert_eq!(out[5].dir, 0);
    assert_eq!(out[11].dir, 120);
    // an uneven sweep is divided with rounding down
    let q = packet(0, 100, &readings());
    let mut out = Vec::new();
    decode_packet(&q, 0, &mut out);
    assert_eq!(out[11].dir, 99);
}

#[test]
fn a_packet_received_in_pieces_is_decoded_once() {
    let p = packet(1000, 2100, &readings());
    let mut buf = PortBuffer::new();
    assert!(buf.receive(&p[..20]).is_empty());
    assert!(buf.receive(&p[20..46]).is_empty());
    let pts = buf.receive(&p[46..]);
    assert_eq!(pts.len(), 12);
    assert_eq!(pts[0], Point { len: 1000, dir: 1000 });
    let again = buf.receive(&[]);
    assert!(again.is_empty());
}

#[test]
fn chunking_does_not_change_the_points() {
    let mut stream = vec![0x11, 0x54, 0x22];
    stream.extend(packet(1000, 2100, &readings()));
    stream.extend(packet(2200, 3300, &readings()));
    stream.extend([0x54, 0x01]);
    let mut whole = PortBuffer::new();
    let all = whole.receive(&stream);
    for chunk in [1usize, 5, 13, 47, 100] {
        let mut b = PortBuffer::new();
        let mut pts = Vec::new();
        for piece in stream.chunks(chunk) {
            pts.extend(b.receive(piece));
        }
        assert_eq!(pts, all);
    }
}

#[test]
fn garbage_before_a_packet_is_skipped() {
    let mut stream = vec![0x00u8; 100];
    for (i, b) in stream.iter_mut().enumerate() {
        *b = (i % 50) as u8; // never the head byte
    }
    let p = packet(1000, 2100, &readings());
    stream.extend(&p);
    let mut buf = PortBuffer::new();
    let pts = buf.receive(&stream);
    let mut expected = Vec::new();
    decode_packet(&p, 0, &mut expected);
    assert_eq!(pts, expected);
}

#[test]
fn a_stray_head_byte_is_resynchronised() {
    let p = packet(1000, 2100, &readings());
    let mut stream = vec![0x54, 0x01, 0x02];
    stream.extend(&p);
    let mut buf = PortBuffer::new();
    let pts = buf.receive(&stream);
    assert_eq!(pts.len(), 12);
    assert_eq!(pts[11], Point { len: 1110, dir: 2100 });
}

#[test]
fn back_to_back_packets_are_both_decoded() {
    let mut stream = packet(1000, 2100, &readings());
    stream.extend(packet(2200, 3300, &readings()));
    let mut buf = PortBuffer::new();
    let pts = buf.receive(&stream);
    assert_eq!(pts.len(), 24);
    assert_eq!(pts[12].dir, 2200);
}

#[test]
fn confidence_floor_is_applied_to_later_packets() {
    let p = packet(1000, 2100, &readings());
    let mut buf = PortBuffer::new();
    *buf.min_confidence_mut() = 10;
    let pts = buf.receive(&p);
    assert_eq!(pts[3].len, 0);
    assert_eq!(pts[4].len, 1040);
    assert_eq!(*buf.min_confidence_mut(), 10);
}
