use lethal_potato::coordinator::{Coordinator, IDLE_THRESHOLD};
use lethal_potato::messages::ScanMessage;

#[test]
fn drains_after_threshold_timeouts() {
    let mut c = Coordinator::new();
    for n in 0..IDLE_THRESHOLD {
        assert!(!c.is_drained(), "drained too early after {} timeouts", n);
        c.on_timeout();
    }
    assert!(c.is_drained());
}

#[test]
fn heartbeats_count_as_idle_receives() {
    let mut c = Coordinator::new();
    for _ in 0..IDLE_THRESHOLD {
        c.on_message(ScanMessage::Heartbeat);
    }
    assert!(c.is_drained());
}

#[test]
fn results_do_not_advance_the_idle_counter() {
    let mut c = Coordinator::new();
    for _ in 0..9 {
        c.on_timeout();
    }
    for _ in 0..100 {
        c.on_message(ScanMessage::PortOpen(80));
    }
    assert!(!c.is_drained());
    c.on_timeout();
    assert!(c.is_drained());
}

#[test]
fn loopback_style_collection_reports_the_open_port() {
    // the coordinator's view of a scan of three ports where only 9000 is open
    let mut c = Coordinator::new();
    c.on_message(ScanMessage::Heartbeat);
    c.on_message(ScanMessage::PortOpen(9000));
    c.on_message(ScanMessage::Heartbeat);
    let report = c.finalize("127.0.0.1".to_string());
    assert_eq!(report.ports, vec![9000]);
    assert!(report.banner_response.is_empty());
}

#[test]
fn finalize_sorts_and_deduplicates() {
    let mut c = Coordinator::new();
    for p in [80u16, 22, 443, 80, 22] {
        c.on_message(ScanMessage::PortOpen(p));
    }
    let report = c.finalize("10.0.0.1".to_string());
    assert_eq!(report.ports, vec![22, 80, 443]);
    assert_eq!(report.host, "10.0.0.1");
    assert_eq!(report.ip, "V4");
    assert_eq!(report.protocol, "TCP");
}

#[test]
fn report_order_is_independent_of_arrival_order() {
    let mut first = Coordinator::new();
    for p in [443u16, 22, 80] {
        first.on_message(ScanMessage::PortOpen(p));
    }
    let mut second = Coordinator::new();
    for p in [80u16, 443, 22, 443] {
        second.on_message(ScanMessage::PortOpen(p));
    }
    let a = first.finalize("h".to_string());
    let b = second.finalize("h".to_string());
    assert_eq!(a.ports, b.ports);
    assert_eq!(a.ports, vec![22, 80, 443]);
}

#[test]
fn banners_are_kept_in_arrival_order() {
    let mut c = Coordinator::new();
    c.on_message(ScanMessage::PortOpen(80));
    c.on_message(ScanMessage::Banner(80, "apache".to_string()));
    c.on_message(ScanMessage::PortOpen(22));
    c.on_message(ScanMessage::Banner(22, "ssh".to_string()));
    let report = c.finalize("h".to_string());
    assert_eq!(report.banner_response.len(), 2);
    assert_eq!(report.banner_response[0].port, 80);
    assert_eq!(report.banner_response[0].data, "apache");
    assert_eq!(report.banner_response[1].port, 22);
    assert_eq!(report.banner_response[1].data, "ssh");
}
