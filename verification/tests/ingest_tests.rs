use bpf_fs_events::event::EffectType;
use bpf_fs_events::event::PathType;
use bpf_fs_events::ingest::ArrayPartialPaths;
use bpf_fs_events::ingest::IngestCore;
use bpf_fs_events::ingest::PartialPaths;
use bpf_fs_events::record::RawEvent;
use bpf_fs_events::record::BUF_CAP;
use bpf_fs_events::record::NAME_OFFSET_COUNT;

fn rec(effect: u8, ptype: u8, gid: u16, comp: &[u8], ts: u64, pid: u32) -> RawEvent {
    let mut buf = comp.to_vec();
    assert!(buf.len() <= BUF_CAP);
    let buf_len = buf.len() as u16;
    buf.resize(BUF_CAP, 0);
    RawEvent {
        timestamp: ts,
        pid,
        effect_type: effect,
        path_type: ptype,
        buf_len,
        event_group_id: gid,
        buf,
        name_offsets: vec![0u16; NAME_OFFSET_COUNT],
    }
}

fn cont(gid: u16, comp: &str) -> RawEvent {
    rec(4, 6, gid, comp.as_bytes(), 0, 0)
}

fn assoc(gid: u16) -> RawEvent {
    rec(5, 6, gid, b"", 0, 0)
}

#[test]
fn simple_create_ringbuf() {
    // One group: leaf-first components "x", "etc", then the terminal record.
    let mut fr = PartialPaths::new();
    assert!(fr.continue_with(&cont(1, "x")).is_none());
    assert!(fr.continue_with(&cont(1, "etc")).is_none());
    let ev = fr.continue_with(&rec(0, 1, 1, b"", 1000, 10)).expect("terminal record emits");
    assert_eq!(ev.path_name, "/etc/x");
    assert!(ev.associated.is_none());
    assert_eq!(ev.timestamp, 1000);
    assert_eq!(ev.pid, 10);
    assert_eq!(ev.path_type, PathType::File);
    assert_eq!(ev.effect_type, EffectType::Create);
    assert_eq!(
        bpf_fs_events::event_parsing::event_to_string(ev),
        "@ 1000 create file pid:10\n> /etc/x"
    );
}

#[test]
fn rename_with_association() {
    let mut fr = PartialPaths::new();
    assert!(fr.continue_with(&cont(2, "a")).is_none());
    assert!(fr.continue_with(&cont(2, "d")).is_none());
    assert!(fr.continue_with(&assoc(2)).is_none());
    assert!(fr.continue_with(&cont(2, "b")).is_none());
    assert!(fr.continue_with(&cont(2, "d")).is_none());
    let ev = fr.continue_with(&rec(1, 1, 2, b"", 2000, 11)).expect("terminal record emits");
    assert_eq!(ev.path_name, "/d/a");
    assert_eq!(ev.associated.as_deref(), Some("/d/b"));
    assert_eq!(ev.effect_type, EffectType::Rename);
}

#[test]
fn group_reset_discards_partial_state() {
    // The "x" fragment belongs to group 3 and is discarded when group 4 begins.
    let mut fr = PartialPaths::new();
    assert!(fr.continue_with(&cont(3, "x")).is_none());
    assert!(fr.continue_with(&cont(4, "y")).is_none());
    let ev = fr.continue_with(&rec(0, 0, 4, b"", 3000, 12)).expect("terminal record emits");
    assert_eq!(ev.path_name, "/y");
    assert_eq!(ev.path_type, PathType::Dir);
    assert!(ev.associated.is_none());
}

#[test]
fn association_only_group() {
    // Components after the association record build the partner path; no
    // event leaves before the terminal record.
    let mut fr = PartialPaths::new();
    assert!(fr.continue_with(&assoc(7)).is_none());
    assert!(fr.continue_with(&cont(7, "X")).is_none());
    assert!(fr.continue_with(&cont(7, "Y")).is_none());
    assert!(fr.continue_with(&cont(7, "Z")).is_none());
    let ev = fr.continue_with(&rec(0, 1, 7, b"", 1, 2)).expect("terminal record emits");
    assert_eq!(ev.associated.as_deref(), Some("/Z/Y/X"));
    assert_eq!(ev.effect_type, EffectType::Create);
}

#[test]
fn terminal_without_components_yields_root() {
    let mut fr = PartialPaths::new();
    let ev = fr.continue_with(&rec(3, 1, 9, b"", 5, 6)).expect("terminal record emits");
    assert_eq!(ev.path_name, "/");
    assert_eq!(ev.effect_type, EffectType::Delete);
}

#[test]
fn emitted_events_never_carry_markers() {
    // A terminal record tagged with the continuation path type is exposed
    // as unknown.
    let mut fr = PartialPaths::new();
    assert!(fr.continue_with(&cont(5, "f")).is_none());
    let ev = fr.continue_with(&rec(2, 6, 5, b"", 7, 8)).expect("terminal record emits");
    assert_eq!(ev.path_type, PathType::Unknown);
    assert_eq!(ev.effect_type, EffectType::Link);
    assert!(ev.path_name.starts_with('/'));
}

#[test]
fn invalid_utf8_component_dropped() {
    // A continuation whose bytes are not UTF-8 contributes nothing; the
    // rest of the path survives.
    let mut fr = PartialPaths::new();
    assert!(fr.continue_with(&rec(4, 6, 6, &[0xff, 0xfe], 0, 0)).is_none());
    assert!(fr.continue_with(&cont(6, "ok")).is_none());
    let ev = fr.continue_with(&rec(0, 1, 6, b"", 9, 9)).expect("terminal record emits");
    assert_eq!(ev.path_name, "/ok");
}

#[test]
fn non_ascii_component_decoded() {
    let mut fr = PartialPaths::new();
    assert!(fr.continue_with(&cont(8, "f\u{00e9}")).is_none());
    let ev = fr.continue_with(&rec(0, 1, 8, b"", 1, 1)).expect("terminal record emits");
    assert_eq!(ev.path_name, "/f\u{00e9}");
}

#[test]
fn ingest_core_queue_is_fifo() {
    let mut core = IngestCore::new();
    let bytes_a = encode_record(&rec(0, 1, 1, b"", 10, 1));
    let bytes_b = encode_record(&rec(3, 0, 2, b"", 20, 2));
    assert_eq!(core.on_record_bytes(&bytes_a), 0);
    assert_eq!(core.on_record_bytes(&bytes_b), 0);
    let first = core.take_event().expect("first event queued");
    let second = core.take_event().expect("second event queued");
    assert_eq!(first.timestamp, 10);
    assert_eq!(second.timestamp, 20);
    assert!(core.take_event().is_none());
}

#[test]
fn ingest_core_drops_bad_bytes_and_continues() {
    // A malformed block is dropped and the status stays zero: delivery
    // goes on, and later records still come through.
    let mut core = IngestCore::new();
    assert_eq!(core.on_record_bytes(&[0u8; 7]), 0);
    assert!(core.take_event().is_none());
    let bytes = encode_record(&rec(0, 1, 1, b"", 10, 1));
    assert_eq!(core.on_record_bytes(&bytes), 0);
    assert_eq!(core.take_event().expect("later record delivers").timestamp, 10);
}

#[test]
fn empty_component_dropped() {
    // An empty continuation component would only leave a stray separator;
    // it is dropped and the path has no trailing slash.
    let mut fr = PartialPaths::new();
    assert!(fr.continue_with(&cont(11, "")).is_none());
    assert!(fr.continue_with(&cont(11, "a")).is_none());
    assert!(fr.continue_with(&cont(11, "")).is_none());
    let ev = fr.continue_with(&rec(0, 1, 11, b"", 4, 5)).expect("terminal record emits");
    assert_eq!(ev.path_name, "/a");
}

#[test]
fn array_mode_association_then_create() {
    let mut fr = ArrayPartialPaths::new();
    let partner = array_rec(5, 1, b"ab", &[2], 0, 0);
    assert!(fr.continue_with(&partner).is_none());
    let ev = fr.continue_with(&array_rec(1, 1, b"cd", &[2], 30, 3)).expect("emits");
    assert_eq!(ev.path_name, "/cd");
    assert_eq!(ev.associated.as_deref(), Some("/ab"));
    assert_eq!(ev.effect_type, EffectType::Rename);
    // The parked partner is consumed: the next event has none.
    let ev2 = fr.continue_with(&array_rec(0, 1, b"ef", &[2], 31, 3)).expect("emits");
    assert!(ev2.associated.is_none());
}

fn array_rec(effect: u8, ptype: u8, buf: &[u8], ends_leaf_first: &[u16], ts: u64, pid: u32) -> RawEvent {
    let mut ev = rec(effect, ptype, 0, buf, ts, pid);
    // End offsets sit right-aligned, nearest leaf first.
    let n = ends_leaf_first.len();
    for (k, &e) in ends_leaf_first.iter().enumerate() {
        ev.name_offsets[NAME_OFFSET_COUNT - n + k] = e;
    }
    ev
}

fn encode_record(ev: &RawEvent) -> Vec<u8> {
    let mut out = Vec::new();
    out.extend_from_slice(&ev.timestamp.to_le_bytes());
    out.extend_from_slice(&ev.pid.to_le_bytes());
    out.push(ev.effect_type);
    out.push(ev.path_type);
    out.extend_from_slice(&ev.buf_len.to_le_bytes());
    out.extend_from_slice(&ev.event_group_id.to_le_bytes());
    out.extend_from_slice(&ev.buf);
    for o in &ev.name_offsets {
        out.extend_from_slice(&o.to_le_bytes());
    }
    out
}
