use bpf_fs_events::event::EffectType;
use bpf_fs_events::event::Event;
use bpf_fs_events::event::PathType;
use bpf_fs_events::event_parsing::event_str;
use bpf_fs_events::event_parsing::event_to_bytes;
use bpf_fs_events::event_parsing::event_to_string;
use bpf_fs_events::event_parsing::parse_event_str;

fn sample(associated: Option<&str>) -> Event {
    Event {
        path_name: "/etc/x".to_string(),
        associated: associated.map(|s| s.to_string()),
        timestamp: 1000,
        pid: 10,
        path_type: PathType::File,
        effect_type: EffectType::Create,
    }
}

#[test]
fn renders_simple_create() {
    assert_eq!(event_to_string(sample(None)), "@ 1000 create file pid:10\n> /etc/x");
}

#[test]
fn renders_partner_line() {
    let ev = Event {
        path_name: "/d/a".to_string(),
        associated: Some("/d/b".to_string()),
        timestamp: 2000,
        pid: 11,
        path_type: PathType::File,
        effect_type: EffectType::Rename,
    };
    assert_eq!(event_to_string(ev), "@ 2000 rename file pid:11\n> /d/a\n> /d/b");
}

#[test]
fn renders_unexpected_variants() {
    let ev = Event {
        path_name: "/p".to_string(),
        associated: None,
        timestamp: 1,
        pid: 2,
        path_type: PathType::Unknown,
        effect_type: EffectType::Delete,
    };
    assert_eq!(event_to_string(ev), "@ 1 delete unexpected:unknown pid:2\n> /p");
}

#[test]
fn event_str_matches_event_to_string() {
    assert_eq!(event_str(sample(None)), event_to_string(sample(None)));
}

#[test]
fn bytes_are_the_utf8_text() {
    assert_eq!(event_to_bytes(sample(None)), event_to_string(sample(None)).into_bytes());
}

#[test]
fn parse_recovers_simple_event() {
    let text = event_to_string(sample(None));
    let back = parse_event_str(&text).expect("rendering parses");
    assert_eq!(back.path_name, "/etc/x");
    assert!(back.associated.is_none());
    assert_eq!(back.timestamp, 1000);
    assert_eq!(back.pid, 10);
    assert_eq!(back.path_type, PathType::File);
    assert_eq!(back.effect_type, EffectType::Create);
}

#[test]
fn parse_recovers_partner_path() {
    let ev = Event {
        path_name: "/a b/c".to_string(),
        associated: Some("/space d/e".to_string()),
        timestamp: u64::MAX,
        pid: u32::MAX,
        path_type: PathType::Symlink,
        effect_type: EffectType::Link,
    };
    let back = parse_event_str(&event_to_string(ev)).expect("rendering parses");
    assert_eq!(back.path_name, "/a b/c");
    assert_eq!(back.associated.as_deref(), Some("/space d/e"));
    assert_eq!(back.timestamp, u64::MAX);
    assert_eq!(back.pid, u32::MAX);
    assert_eq!(back.path_type, PathType::Symlink);
    assert_eq!(back.effect_type, EffectType::Link);
}

#[test]
fn parse_recovers_unexpected_words() {
    let ev = Event {
        path_name: "/p".to_string(),
        associated: None,
        timestamp: 3,
        pid: 4,
        path_type: PathType::Unknown,
        effect_type: EffectType::Delete,
    };
    let back = parse_event_str(&event_to_string(ev)).expect("rendering parses");
    assert_eq!(back.path_type, PathType::Unknown);
    assert_eq!(back.effect_type, EffectType::Delete);
}

#[test]
fn parse_rejects_malformed_text() {
    assert!(parse_event_str("").is_none());
    assert!(parse_event_str("no header").is_none());
    assert!(parse_event_str("@ 10 create file pid:1").is_none());
    assert!(parse_event_str("@ 10 create file pid:1\nmissing marker").is_none());
    assert!(parse_event_str("@ ten create file pid:1\n> /p").is_none());
    assert!(parse_event_str("@ 10 made_up file pid:1\n> /p").is_none());
    assert!(parse_event_str("@ 10 create file pid:99999999999\n> /p").is_none());
}
