use bpf_fs_events::fanout::broadcast_plan;
use bpf_fs_events::fanout::Subscribers;
use bpf_fs_events::server_core::memlock_target;
use bpf_fs_events::server_core::parse_pid;
use bpf_fs_events::server_core::plan_takeover;
use bpf_fs_events::server_core::takeover_outcome;
use bpf_fs_events::server_core::TakeoverStep;
use bpf_fs_events::text::parse_u64;
use bpf_fs_events::text::u64_to_string;

#[test]
fn broadcast_reaches_every_subscriber() {
    let mut subs: Subscribers<u32> = Subscribers::new();
    subs.push_accepted(100);
    subs.push_accepted(200);
    subs.push_accepted(300);
    let msg = b"@ 1 create file pid:2\n> /p".to_vec();
    let plan = broadcast_plan(&subs, &msg);
    assert_eq!(plan.len(), 3);
    for m in &plan {
        assert_eq!(m, &msg);
    }
}

#[test]
fn prune_keeps_other_subscribers() {
    // Dropping the broken subscriber leaves the healthy ones, in order,
    // and the next broadcast still addresses each of them.
    let mut subs: Subscribers<u32> = Subscribers::new();
    subs.push_accepted(100);
    subs.push_accepted(200);
    subs.push_accepted(300);
    let removed = subs.remove_at(1);
    assert_eq!(removed, 200);
    assert_eq!(subs.len(), 2);
    assert_eq!(*subs.get(0), 100);
    assert_eq!(*subs.get(1), 300);
    let plan = broadcast_plan(&subs, &b"event".to_vec());
    assert_eq!(plan.len(), 2);
}

#[test]
fn pid_file_takeover_plan() {
    assert_eq!(plan_takeover(Some("1234")), TakeoverStep::SignalOwner(1234));
    assert_eq!(plan_takeover(Some("not a pid")), TakeoverStep::IgnorePidFile);
    assert_eq!(plan_takeover(Some("")), TakeoverStep::IgnorePidFile);
    assert_eq!(plan_takeover(Some("-5")), TakeoverStep::IgnorePidFile);
    assert_eq!(plan_takeover(Some("99999999999")), TakeoverStep::IgnorePidFile);
    assert_eq!(plan_takeover(None), TakeoverStep::IgnorePidFile);
}

#[test]
fn pid_parsing_bounds() {
    assert_eq!(parse_pid("0"), Some(0));
    assert_eq!(parse_pid("2147483647"), Some(i32::MAX));
    assert_eq!(parse_pid("2147483648"), None);
    assert_eq!(parse_pid("12a"), None);
}

#[test]
fn takeover_proceeds_unless_live_owner_stays() {
    assert!(takeover_outcome(true, false));
    assert!(takeover_outcome(false, true));
    assert!(!takeover_outcome(false, false));
}

#[test]
fn memlock_target_capped_at_128_mib() {
    assert_eq!(memlock_target(1024), 1024);
    assert_eq!(memlock_target(128 << 20), 128 << 20);
    assert_eq!(memlock_target(u64::MAX), 128 << 20);
}

#[test]
fn decimal_codec_round_trips() {
    assert_eq!(u64_to_string(0), "0");
    assert_eq!(u64_to_string(90210), "90210");
    assert_eq!(u64_to_string(u64::MAX), "18446744073709551615");
    assert_eq!(parse_u64("0"), Some(0));
    assert_eq!(parse_u64("18446744073709551615"), Some(u64::MAX));
    assert_eq!(parse_u64("18446744073709551616"), None);
    assert_eq!(parse_u64(""), None);
    assert_eq!(parse_u64("12 3"), None);
}
