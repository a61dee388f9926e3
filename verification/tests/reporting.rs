use lethal_potato::config::{ArgumentSettings, Arguments, Flags, OperatingSystem};
use lethal_potato::coordinator::Coordinator;
use lethal_potato::json::{encode_report, parse_report};
use lethal_potato::messages::ScanMessage;
use lethal_potato::report::{build_output_path, BannerResponse, FileOutput};

#[test]
fn empty_report_document() {
    let r = FileOutput::new();
    assert_eq!(
        encode_report(&r),
        "{\"host\":\"\",\"ip\":\"V4\",\"protocol\":\"TCP\",\"ports\":[],\"banner_response\":[]}"
    );
}

#[test]
fn report_document_lists_ports_and_banners() {
    let mut r = FileOutput::new();
    r.host = "127.0.0.1".to_string();
    r.ports = vec![22, 80, 443];
    r.banner_response = vec![BannerResponse { port: 80, data: "nginx".to_string() }];
    let s = encode_report(&r);
    assert_eq!(
        s,
        "{\"host\":\"127.0.0.1\",\"ip\":\"V4\",\"protocol\":\"TCP\",\"ports\":[22,80,443],\
         \"banner_response\":[{\"port\":80,\"data\":\"nginx\"}]}"
    );
}

#[test]
fn report_round_trips_to_the_same_sorted_set() {
    // ports received out of order round-trip as the sorted set
    let mut c = Coordinator::new();
    for p in [80u16, 22, 443] {
        c.on_message(ScanMessage::PortOpen(p));
    }
    let report = c.finalize("127.0.0.1".to_string());
    assert_eq!(report.ports, vec![22, 80, 443]);
    let doc = encode_report(&report);
    let back = parse_report(&doc).expect("the encoder's document parses");
    assert_eq!(back.ports, vec![22, 80, 443]);
    assert_eq!(back.host, "127.0.0.1");
    assert_eq!(back.ip, "V4");
    assert_eq!(back.protocol, "TCP");
    assert!(back.banner_response.is_empty());
    // and the round trip is stable
    assert_eq!(encode_report(&back), doc);
}

#[test]
fn banners_round_trip_with_escapes() {
    let mut r = FileOutput::new();
    r.host = "h".to_string();
    r.ports = vec![80];
    r.banner_response = vec![BannerResponse {
        port: 80,
        data: "line\r\nwith \"quotes\" and \\slash".to_string(),
    }];
    let doc = encode_report(&r);
    let back = parse_report(&doc).expect("escaped banner parses");
    assert_eq!(back.banner_response.len(), 1);
    assert_eq!(back.banner_response[0].port, 80);
    assert_eq!(back.banner_response[0].data, "line\r\nwith \"quotes\" and \\slash");
    assert_eq!(encode_report(&back), doc);
}

#[test]
fn document_is_valid_json_for_an_outside_parser() {
    let mut r = FileOutput::new();
    r.host = "10.0.0.1".to_string();
    r.ports = vec![22, 8080];
    r.banner_response = vec![BannerResponse { port: 22, data: "ssh\n".to_string() }];
    let doc = encode_report(&r);
    let v: serde_json::Value = serde_json::from_str(&doc).expect("outside parser accepts it");
    assert_eq!(v["host"].as_str(), Some("10.0.0.1"));
    assert_eq!(v["ip"].as_str(), Some("V4"));
    assert_eq!(v["protocol"].as_str(), Some("TCP"));
    assert_eq!(v["ports"][0].as_u64(), Some(22));
    assert_eq!(v["ports"][1].as_u64(), Some(8080));
    assert_eq!(v["banner_response"][0]["port"].as_u64(), Some(22));
    assert_eq!(v["banner_response"][0]["data"].as_str(), Some("ssh\n"));
}

#[test]
fn malformed_documents_are_rejected() {
    assert!(parse_report("").is_none());
    assert!(parse_report("{}").is_none());
    assert!(parse_report("{\"host\":\"\"}").is_none());
    // trailing garbage
    let doc = encode_report(&FileOutput::new());
    let mut with_tail = doc.clone();
    with_tail.push(' ');
    assert!(parse_report(&with_tail).is_none());
}

#[test]
fn output_path_on_linux() {
    let stamp = "2024-01-02 03:04:05.123456 UTC";
    let p = build_output_path("/cur", "out", &OperatingSystem::Linux, stamp).unwrap();
    assert_eq!(p, "out/20240102 03-04-0-output.json");
    let p = build_output_path("/cur", "out/", &OperatingSystem::Linux, stamp).unwrap();
    assert_eq!(p, "out/20240102 03-04-0-output.json");
}

#[test]
fn output_path_on_windows_joins_the_current_directory() {
    let stamp = "2024-01-02 03:04:05.123456 UTC";
    let p = build_output_path("C:\\cur", "out", &OperatingSystem::Windows, stamp).unwrap();
    assert_eq!(p, "C:\\cur\\out\\20240102 03-04-0-output.json");
}

#[test]
fn output_path_now_uses_the_clock() {
    let p = lethal_potato::report::output_path_now("/cur", "out", &OperatingSystem::Linux)
        .expect("a path on linux");
    assert!(p.starts_with("out/"));
    assert!(p.ends_with("-output.json"));
    // directory, 16 timestamp characters, suffix
    assert_eq!(p.len(), "out/".len() + 16 + "-output.json".len());
    assert!(
        lethal_potato::report::output_path_now("/cur", "out", &OperatingSystem::Unknown).is_none()
    );
}

#[test]
fn no_output_path_on_an_unknown_system() {
    let stamp = "2024-01-02 03:04:05.123456 UTC";
    assert!(build_output_path("/cur", "out", &OperatingSystem::Unknown, stamp).is_none());
}

#[test]
fn settings_classify_the_operating_system() {
    assert_eq!(ArgumentSettings::from_os_name("linux").os, OperatingSystem::Linux);
    assert_eq!(ArgumentSettings::from_os_name("windows").os, OperatingSystem::Windows);
    assert_eq!(ArgumentSettings::from_os_name("macos").os, OperatingSystem::Unknown);
    assert!(!ArgumentSettings::from_os_name("linux").is_valid_output_path);
}

#[test]
fn flags_snapshot() {
    let mut f = Flags::new();
    assert!(!f.debug && !f.verbose && !f.banner_grab);
    assert_eq!(f.timeout, 0);
    assert_eq!(f.banner_len, 0);
    f.set_flags(true, 250, true, true, 64);
    assert!(f.debug && f.verbose && f.banner_grab);
    assert_eq!(f.timeout, 250);
    assert_eq!(f.banner_len, 64);
}

#[test]
fn single_thread_decision() {
    let mut a = Arguments {
        ip: "127.0.0.1".to_string(),
        ports: None,
        debug: false,
        output: None,
        verbose: false,
        timeout: 300,
        threads: 0,
        banner_grab: false,
        banner_len: 256,
    };
    assert!(a.single_threaded(100));
    a.threads = 1;
    assert!(a.single_threaded(100));
    a.threads = 101;
    assert!(a.single_threaded(100));
    a.threads = 100;
    assert!(!a.single_threaded(100));
    a.threads = 2;
    assert!(!a.single_threaded(100));
}

#[test]
fn fresh_values() {
    let b = BannerResponse::new();
    assert_eq!(b.port, 0);
    assert_eq!(b.data, "");
    let f = FileOutput::new();
    assert_eq!(f.ip, "V4");
    assert_eq!(f.protocol, "TCP");
    assert!(f.ports.is_empty() && f.banner_response.is_empty());
    let ip = lethal_potato::ports::IpData::new();
    assert_eq!((ip.a, ip.b, ip.c, ip.d), (0, 0, 0, 0));
    assert!(ip.ports.is_empty());
}
