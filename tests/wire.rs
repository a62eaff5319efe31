use tactom::{decode_frame, encode_frame, equal_spaced_evs, write_chunks, Ev, WireProtocol, WriteDiscipline, END_GLYPH};

#[test]
fn frame_of_four_trigger_glyph() {
    let g = equal_spaced_evs(&[3, 6, 5, 8], 30);
    let f = encode_frame(&g, WireProtocol::ExitC1);
    assert_eq!(
        f,
        vec![
            0xC0, 0x03, 0x00, 0x00, 0x06, 0x00, 0x1E, 0x05, 0x00, 0x3C, 0x08, 0x00, 0x5A, 0x0C, 0x00,
            0x78, 0xC1
        ]
    );
}

#[test]
fn frame_timestamps_are_big_endian() {
    let g = vec![Ev::new(0x1234, 7), Ev::new(0xFFFF, END_GLYPH)];
    let f = encode_frame(&g, WireProtocol::ExitF5);
    assert_eq!(f, vec![0xC0, 7, 0x12, 0x34, 12, 0xFF, 0xFF, 0xF5]);
}

#[test]
fn frame_of_nothing_is_delimiters() {
    assert_eq!(encode_frame(&[], WireProtocol::ExitC1), vec![0xC0, 0xC1]);
    assert_eq!(encode_frame(&[], WireProtocol::ExitF5), vec![0xC0, 0xF5]);
}

#[test]
fn protocol_delimiters() {
    assert_eq!(WireProtocol::ExitC1.enter_byte(), 0xC0);
    assert_eq!(WireProtocol::ExitF5.enter_byte(), 0xC0);
    assert_eq!(WireProtocol::ExitC1.exit_byte(), 0xC1);
    assert_eq!(WireProtocol::ExitF5.exit_byte(), 0xF5);
}

#[test]
fn frame_round_trip() {
    let g = vec![Ev::new(0, 0), Ev::new(255, 11), Ev::new(256, 0xC1), Ev::new(65535, END_GLYPH)];
    for p in [WireProtocol::ExitC1, WireProtocol::ExitF5] {
        let f = encode_frame(&g, p);
        assert_eq!(decode_frame(&f, p), Some(g.clone()));
    }
}

#[test]
fn decode_rejects_malformed_frames() {
    let f = encode_frame(&equal_spaced_evs(&[1, 2], 30), WireProtocol::ExitC1);
    assert_eq!(decode_frame(&f, WireProtocol::ExitF5), None);
    assert_eq!(decode_frame(&f[..f.len() - 1], WireProtocol::ExitC1), None);
    assert_eq!(decode_frame(&[0xC0], WireProtocol::ExitC1), None);
    assert_eq!(decode_frame(&[0xC1, 0xC1], WireProtocol::ExitC1), None);
    assert_eq!(decode_frame(&[0xC0, 1, 0, 0xC1], WireProtocol::ExitC1), None);
    assert_eq!(decode_frame(&[0xC0, 0xC1], WireProtocol::ExitC1), Some(vec![]));
}

#[test]
fn bulk_write_is_one_chunk() {
    let f = vec![0xC0, 1, 0, 0, 0xC1];
    assert_eq!(write_chunks(&f, WriteDiscipline::Bulk), vec![f.clone()]);
}

#[test]
fn paced_write_is_one_chunk_per_byte() {
    let f = vec![0xC0, 1, 0, 0, 0xC1];
    assert_eq!(
        write_chunks(&f, WriteDiscipline::Paced),
        vec![vec![0xC0], vec![1], vec![0], vec![0], vec![0xC1]]
    );
    assert!(write_chunks(&[], WriteDiscipline::Paced).is_empty());
}
