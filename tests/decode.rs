use source13_dem::demo::{frame, frames, header, HEADER_LEN};
use source13_dem::text::{pathstr, FIELD_LEN};
use source13_dem::wire::{le_u32, signature, take};
use source13_dem::{demo, DecodeError};

const SIGNATURE: &[u8] = b"HL2DEMO\0";

fn field(text: &[u8]) -> Vec<u8> {
    let mut f = text.to_vec();
    f.resize(FIELD_LEN, 0);
    f
}

fn header_bytes(names: [&[u8]; 4], playback_frames: u32) -> Vec<u8> {
    let mut b = SIGNATURE.to_vec();
    b.extend_from_slice(&1u32.to_le_bytes());
    b.extend_from_slice(&1u32.to_le_bytes());
    for n in names.iter() {
        b.extend_from_slice(&field(n));
    }
    b.extend_from_slice(&0.0f32.to_le_bytes());
    b.extend_from_slice(&0u32.to_le_bytes());
    b.extend_from_slice(&playback_frames.to_le_bytes());
    b.extend_from_slice(&0u32.to_le_bytes());
    b
}

fn frame_bytes(server: u32, client: u32, payload: &[u8]) -> Vec<u8> {
    let mut b = Vec::new();
    b.extend_from_slice(&server.to_le_bytes());
    b.extend_from_slice(&client.to_le_bytes());
    b.extend_from_slice(&(payload.len() as u32).to_le_bytes());
    b.extend_from_slice(payload);
    b
}

#[test]
fn decodes_single_frame_recording() {
    let mut buf = header_bytes([b"", b"", b"", b""], 1);
    buf.extend_from_slice(&frame_bytes(10, 10, &[0xAA, 0xBB, 0xCC]));
    let (rest, d) = demo(&buf).expect("decodes");
    assert_eq!(d.header.playback_frames, 1);
    assert_eq!(d.header.demo_protocol, 1);
    assert_eq!(d.header.network_protocol, 1);
    assert_eq!(d.header.server_name, "");
    assert_eq!(d.frames.len(), 1);
    assert_eq!(d.frames[0].server_frame, 10);
    assert_eq!(d.frames[0].client_frame, 10);
    assert_eq!(d.frames[0].sub_packet_size, 3);
    assert_eq!(d.frames[0].buffer, vec![0xAA, 0xBB, 0xCC]);
    assert!(rest.is_empty());
}

#[test]
fn frame_count_and_payload_sizes_match_header() {
    let mut buf = header_bytes([b"srv", b"cli", b"map", b"dir"], 3);
    buf.extend_from_slice(&frame_bytes(1, 2, &[]));
    buf.extend_from_slice(&frame_bytes(3, 4, &[7; 5]));
    buf.extend_from_slice(&frame_bytes(5, 6, &[9; 300]));
    let (rest, d) = demo(&buf).expect("decodes");
    assert!(rest.is_empty());
    assert_eq!(d.frames.len(), d.header.playback_frames as usize);
    for f in d.frames.iter() {
        assert_eq!(f.buffer.len(), f.sub_packet_size as usize);
    }
    assert_eq!(d.frames[1].server_frame, 3);
    assert_eq!(d.frames[1].buffer, vec![7; 5]);
    assert_eq!(d.frames[2].client_frame, 6);
}

#[test]
fn zero_frames_gives_empty_sequence() {
    let buf = header_bytes([b"", b"", b"", b""], 0);
    let (rest, d) = demo(&buf).expect("decodes");
    assert!(d.frames.is_empty());
    assert!(rest.is_empty());
}

#[test]
fn trailing_bytes_are_returned() {
    let mut buf = header_bytes([b"", b"", b"", b""], 1);
    buf.extend_from_slice(&frame_bytes(1, 1, &[1, 2]));
    buf.extend_from_slice(&[0xDE, 0xAD]);
    let (rest, d) = demo(&buf).expect("decodes");
    assert_eq!(d.frames.len(), 1);
    assert_eq!(rest, &[0xDE, 0xAD][..]);
}

#[test]
fn short_buffers_are_incomplete() {
    let full = header_bytes([b"a", b"b", b"c", b"d"], 0);
    for len in [0usize, 1, 3, 8, 12, 16, 300, HEADER_LEN - 1] {
        assert_eq!(demo(&full[..len]).err(), Some(DecodeError::Incomplete), "len {}", len);
    }
}

#[test]
fn wrong_signature_is_malformed() {
    let mut buf = header_bytes([b"", b"", b"", b""], 0);
    buf[0] = b'X';
    assert_eq!(demo(&buf).err(), Some(DecodeError::MalformedFraming));
    let mut buf = header_bytes([b"", b"", b"", b""], 0);
    buf[7] = b'!';
    assert_eq!(demo(&buf).err(), Some(DecodeError::MalformedFraming));
    assert_eq!(demo(b"HL3DEMO\0").err(), Some(DecodeError::MalformedFraming));
    assert_eq!(demo(b"ABC").err(), Some(DecodeError::MalformedFraming));
}

#[test]
fn text_field_stops_at_first_null() {
    let mut region = b"abcde".to_vec();
    region.push(0);
    region.extend_from_slice(b"ignored");
    let buf = header_bytes([&region, b"client", b"map", b"dir"], 0);
    let (_, d) = demo(&buf).expect("decodes");
    assert_eq!(d.header.server_name, "abcde");
    assert_eq!(d.header.client_name, "client");
    assert_eq!(d.header.map_name, "map");
    assert_eq!(d.header.game_directory, "dir");
}

#[test]
fn pathstr_consumes_whole_field() {
    let mut input = field(b"abcde\0xyz");
    input.extend_from_slice(&[1, 2, 3]);
    let (rest, text) = pathstr(&input).expect("decodes");
    assert_eq!(text, "abcde");
    assert_eq!(rest, &[1, 2, 3][..]);
    assert_eq!(pathstr(&input[..FIELD_LEN - 1]).err(), Some(DecodeError::Incomplete));
}

#[test]
fn text_field_without_null_uses_whole_region() {
    let region = vec![b'q'; FIELD_LEN];
    let (rest, text) = pathstr(&region).expect("decodes");
    assert_eq!(text.len(), FIELD_LEN);
    assert!(text.chars().all(|c| c == 'q'));
    assert!(rest.is_empty());
}

#[test]
fn invalid_text_is_replaced() {
    let buf = header_bytes([&[b'a', 0xFF, b'b'], b"", b"", b""], 0);
    let (_, d) = demo(&buf).expect("decodes");
    assert_eq!(d.header.server_name, "a\u{FFFD}b");
}

#[test]
fn decoding_twice_gives_equal_results() {
    let mut buf = header_bytes([b"s", b"c", b"m", b"g"], 2);
    buf.extend_from_slice(&frame_bytes(1, 2, &[3, 4]));
    buf.extend_from_slice(&frame_bytes(5, 6, &[]));
    let (r1, d1) = demo(&buf).expect("decodes");
    let (r2, d2) = demo(&buf).expect("decodes");
    assert_eq!(d1, d2);
    assert_eq!(r1, r2);
}

#[test]
fn missing_frame_is_incomplete() {
    let mut buf = header_bytes([b"", b"", b"", b""], 2);
    buf.extend_from_slice(&frame_bytes(1, 1, &[1]));
    assert_eq!(demo(&buf).err(), Some(DecodeError::Incomplete));
}

#[test]
fn short_payload_is_incomplete() {
    let mut buf = header_bytes([b"", b"", b"", b""], 1);
    let mut rec = frame_bytes(1, 1, &[1, 2, 3, 4]);
    rec.pop();
    buf.extend_from_slice(&rec);
    assert_eq!(demo(&buf).err(), Some(DecodeError::Incomplete));
}

#[test]
fn huge_declared_payload_is_incomplete() {
    let mut rec = Vec::new();
    rec.extend_from_slice(&1u32.to_le_bytes());
    rec.extend_from_slice(&2u32.to_le_bytes());
    rec.extend_from_slice(&u32::MAX.to_le_bytes());
    rec.extend_from_slice(&[0; 16]);
    assert_eq!(frame(&rec).err(), Some(DecodeError::Incomplete));
}

#[test]
fn frame_shorter_than_counters_is_incomplete() {
    assert_eq!(frame(&[1, 2, 3]).err(), Some(DecodeError::Incomplete));
    assert_eq!(frame(&[0; 11]).err(), Some(DecodeError::Incomplete));
}

#[test]
fn frames_decodes_in_order() {
    let mut buf = frame_bytes(1, 2, &[9]);
    buf.extend_from_slice(&frame_bytes(3, 4, &[8, 7]));
    let (rest, fs) = frames(&buf, 2).expect("decodes");
    assert!(rest.is_empty());
    assert_eq!(fs.len(), 2);
    assert_eq!(fs[0].server_frame, 1);
    assert_eq!(fs[1].buffer, vec![8, 7]);
    assert_eq!(frames(&buf, 3).err(), Some(DecodeError::Incomplete));
    let (rest, fs) = frames(&buf, 1).expect("decodes");
    assert_eq!(fs.len(), 1);
    assert_eq!(rest.len(), 14);
}

#[test]
fn header_fields_are_little_endian() {
    let mut buf = header_bytes([b"", b"", b"", b""], 0);
    buf[8..12].copy_from_slice(&[0x78, 0x56, 0x34, 0x12]);
    buf[1056..1060].copy_from_slice(&1.5f32.to_le_bytes());
    buf[1060..1064].copy_from_slice(&[1, 0, 0, 0x80]);
    buf[1068..1072].copy_from_slice(&[0xFF, 0xFF, 0xFF, 0xFF]);
    let (rest, h) = header(&buf).expect("decodes");
    assert!(rest.is_empty());
    assert_eq!(h.demo_protocol, 0x1234_5678);
    assert_eq!(f32::from_bits(h.playback_time_bits), 1.5);
    assert_eq!(h.playback_ticks, 0x8000_0001);
    assert_eq!(h.signon_length, u32::MAX);
}

#[test]
fn primitives_report_short_input() {
    assert_eq!(le_u32(&[1, 2, 3]).err(), Some(DecodeError::Incomplete));
    let (rest, v) = le_u32(&[1, 0, 0, 0, 5]).expect("reads");
    assert_eq!(v, 1);
    assert_eq!(rest, &[5][..]);
    assert_eq!(take(&[1, 2], 3).err(), Some(DecodeError::Incomplete));
    let (rest, taken) = take(&[1, 2, 3], 2).expect("takes");
    assert_eq!(taken, &[1, 2][..]);
    assert_eq!(rest, &[3][..]);
    assert_eq!(signature(b"HL2D").err(), Some(DecodeError::Incomplete));
    assert_eq!(signature(b"HL2X").err(), Some(DecodeError::MalformedFraming));
    assert_eq!(signature(b"HL2DEMO\0rest").ok(), Some(&b"rest"[..]));
}
