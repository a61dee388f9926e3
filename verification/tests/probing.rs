use lethal_potato::config::Arguments;
use lethal_potato::messages::{ScanMessage, ThreadMessage};
use lethal_potato::probe::{
    classify_probe, reprobe_timeout, truncate_banner, worker_messages, ProbeOutcome,
};

#[test]
fn failed_connect_is_closed_both_times() {
    // probing the same closed port twice yields closed twice
    let first = classify_probe(false, false, None);
    let second = classify_probe(false, false, None);
    assert!(matches!(first, ProbeOutcome::Closed));
    assert!(matches!(second, ProbeOutcome::Closed));
}

#[test]
fn failed_reprobe_is_closed_despite_first_success() {
    assert!(matches!(classify_probe(true, false, None), ProbeOutcome::Closed));
}

#[test]
fn open_without_banner() {
    assert!(matches!(classify_probe(true, true, None), ProbeOutcome::Open));
    assert!(matches!(classify_probe(true, true, Some(String::new())), ProbeOutcome::Open));
}

#[test]
fn open_with_banner_text() {
    match classify_probe(true, true, Some("nginx".to_string())) {
        ProbeOutcome::OpenWithBanner(text) => assert_eq!(text, "nginx"),
        other => panic!("expected a banner, got {:?}", other),
    }
}

#[test]
fn closed_port_sends_one_heartbeat() {
    let msgs = worker_messages(ProbeOutcome::Closed, true, 81);
    assert_eq!(msgs.len(), 1);
    assert!(matches!(msgs[0], ScanMessage::Heartbeat));
}

#[test]
fn open_port_sends_its_number() {
    let msgs = worker_messages(ProbeOutcome::Open, true, 8080);
    assert_eq!(msgs.len(), 1);
    assert!(matches!(msgs[0], ScanMessage::PortOpen(8080)));
}

#[test]
fn banner_is_sent_only_when_enabled() {
    let with = worker_messages(ProbeOutcome::OpenWithBanner("hi".to_string()), true, 80);
    assert_eq!(with.len(), 2);
    assert!(matches!(with[0], ScanMessage::PortOpen(80)));
    match &with[1] {
        ScanMessage::Banner(port, data) => {
            assert_eq!(*port, 80);
            assert_eq!(data, "hi");
        },
        other => panic!("expected a banner message, got {:?}", other),
    }
    let without = worker_messages(ProbeOutcome::OpenWithBanner("hi".to_string()), false, 80);
    assert_eq!(without.len(), 1);
    assert!(matches!(without[0], ScanMessage::PortOpen(80)));
}

#[test]
fn empty_banner_is_not_sent() {
    let msgs = worker_messages(ProbeOutcome::OpenWithBanner(String::new()), true, 80);
    assert_eq!(msgs.len(), 1);
}

#[test]
fn banners_are_truncated_to_the_limit() {
    assert_eq!(truncate_banner("hello world", 5), "hello");
    assert_eq!(truncate_banner("hi", 10), "hi");
    assert_eq!(truncate_banner("abc", 0), "");
    assert_eq!(truncate_banner("", 4), "");
}

#[test]
fn reprobe_doubles_the_timeout() {
    assert_eq!(reprobe_timeout(300), 600);
    assert_eq!(reprobe_timeout(0), 0);
}

#[test]
fn thread_message_names() {
    assert_eq!(Arguments::validate_thread_message("PORT"), ThreadMessage::OpenPort);
    assert_eq!(Arguments::validate_thread_message("BANNER"), ThreadMessage::Banner);
    assert_eq!(Arguments::validate_thread_message("0"), ThreadMessage::KeepAlive);
    assert_eq!(Arguments::validate_thread_message(""), ThreadMessage::KeepAlive);
    assert_eq!(Arguments::validate_thread_message("port"), ThreadMessage::KeepAlive);
}
