use bpf_fs_events::record::decode;
use bpf_fs_events::record::DecodeError;
use bpf_fs_events::record::RawEvent;
use bpf_fs_events::record::BUF_CAP;
use bpf_fs_events::record::NAME_OFFSET_COUNT;
use bpf_fs_events::record::RECORD_SIZE;

fn wire_block(
    ts: u64,
    pid: u32,
    effect: u8,
    ptype: u8,
    buf_len: u16,
    gid: u16,
    payload: &[u8],
) -> Vec<u8> {
    let mut out = Vec::new();
    out.extend_from_slice(&ts.to_le_bytes());
    out.extend_from_slice(&pid.to_le_bytes());
    out.push(effect);
    out.push(ptype);
    out.extend_from_slice(&buf_len.to_le_bytes());
    out.extend_from_slice(&gid.to_le_bytes());
    let mut buf = payload.to_vec();
    buf.resize(BUF_CAP, 0);
    out.extend_from_slice(&buf);
    out.resize(RECORD_SIZE, 0);
    out
}

#[test]
fn decode_reads_every_field() {
    let mut block = wire_block(0x0102_0304_0506_0708, 4242, 1, 2, 3, 7, b"abc");
    // Two boundary slots at the right edge of the offsets area.
    block[RECORD_SIZE - 2] = 9;
    block[RECORD_SIZE - 4] = 11;
    let ev = decode(&block).expect("well-formed block decodes");
    assert_eq!(ev.timestamp, 0x0102_0304_0506_0708);
    assert_eq!(ev.pid, 4242);
    assert_eq!(ev.effect_type, 1);
    assert_eq!(ev.path_type, 2);
    assert_eq!(ev.buf_len, 3);
    assert_eq!(ev.event_group_id, 7);
    assert_eq!(&ev.buf[..3], b"abc");
    assert_eq!(ev.buf.len(), BUF_CAP);
    assert_eq!(ev.name_offsets.len(), NAME_OFFSET_COUNT);
    assert_eq!(ev.name_offsets[NAME_OFFSET_COUNT - 1], 9);
    assert_eq!(ev.name_offsets[NAME_OFFSET_COUNT - 2], 11);
}

#[test]
fn decode_rejects_wrong_length() {
    assert!(matches!(decode(&[0u8; 10]), Err(DecodeError::WrongLength)));
    assert!(matches!(decode(&vec![0u8; RECORD_SIZE + 1]), Err(DecodeError::WrongLength)));
}

#[test]
fn decode_rejects_unknown_effect() {
    let block = wire_block(0, 0, 6, 0, 0, 0, b"");
    assert!(matches!(decode(&block), Err(DecodeError::UnknownEffect)));
}

#[test]
fn decode_rejects_oversized_buf_len() {
    let block = wire_block(0, 0, 0, 0, (BUF_CAP as u16) + 1, 0, b"");
    assert!(matches!(decode(&block), Err(DecodeError::OversizedBuf)));
}

fn array_event(buf: &[u8], ends_leaf_first: &[u16]) -> RawEvent {
    let mut padded = buf.to_vec();
    let buf_len = padded.len() as u16;
    padded.resize(BUF_CAP, 0);
    let mut name_offsets = vec![0u16; NAME_OFFSET_COUNT];
    let n = ends_leaf_first.len();
    for (k, &e) in ends_leaf_first.iter().enumerate() {
        name_offsets[NAME_OFFSET_COUNT - n + k] = e;
    }
    RawEvent {
        timestamp: 0,
        pid: 0,
        effect_type: 0,
        path_type: 1,
        buf_len,
        event_group_id: 0,
        buf: padded,
        name_offsets,
    }
}

#[test]
fn array_offsets_reorder_to_path_order() {
    // Buffer "abcdef" split as ab | cd | ef, end offsets right-aligned,
    // nearest leaf first.
    let ev = array_event(b"abcdef", &[6, 4, 2]);
    assert_eq!(ev.reordered_name_offsets(), vec![(0, 2), (2, 4), (4, 6)]);
    assert_eq!(ev.reordered_buf_to_string(), "/ab/cd/ef");
}

#[test]
fn array_single_component_path() {
    // A path of one component: its end offset is the only slot.
    let ev = array_event(b"etc", &[3]);
    assert_eq!(ev.reordered_name_offsets(), vec![(0, 3)]);
    assert_eq!(ev.reordered_buf_to_string(), "/etc");
}

#[test]
fn array_bad_boundary_dropped_alone() {
    // The slot pair (4, 2) spans backwards and is dropped on its own; the
    // boundaries around it still yield their components.
    let ev = array_event(b"abcdef", &[6, 2, 4]);
    assert_eq!(ev.reordered_name_offsets(), vec![(0, 4), (2, 6)]);
    assert_eq!(ev.reordered_buf_to_string(), "/abcd/cdef");
}

#[test]
fn array_no_boundaries_gives_empty_path() {
    let ev = array_event(b"abcdef", &[]);
    assert_eq!(ev.reordered_name_offsets(), vec![]);
    assert_eq!(ev.reordered_buf_to_string(), "");
}

#[test]
fn component_bytes_decode_as_utf8() {
    let mut ev = array_event(b"caf\xc3\xa9", &[]);
    ev.buf_len = 5;
    assert_eq!(ev.buf_to_string().as_deref(), Some("caf\u{00e9}"));
    let mut bad = array_event(&[0xff, 0x00], &[]);
    bad.buf_len = 1;
    assert!(bad.buf_to_string().is_none());
}
