use nets::dashboard::Dashboard;
use nets::ipaddr::IpAddress;
use nets::ports::PortProcess;
use nets::scanner::LanDevice;
use nets::tables::{
    clamp_scroll, empty_lan_row, empty_port_row, filter_ports, header_spans, lan_row,
    port_matches, port_row, protocol_kind, text_matches, ProtocolKind,
};

fn port(pid: u32, name: &str, proto: &str, local: [u8; 4], lport: u16) -> PortProcess {
    PortProcess {
        pid,
        process_name: name.to_string(),
        local_addr: IpAddress::V4(local),
        local_port: lport,
        remote_addr: Some(IpAddress::V4([0, 0, 0, 0])),
        remote_port: Some(0),
        protocol: proto.to_string(),
    }
}

fn sample() -> Vec<PortProcess> {
    vec![
        port(812, "sshd", "TCP", [0, 0, 0, 0], 22),
        port(70001, "python3", "TCP", [127, 0, 0, 1], 2222),
        port(77, "systemd-resolve", "UDP", [127, 0, 0, 53], 53),
    ]
}

#[test]
fn numeric_filter_is_exact_port() {
    let p = sample();
    assert!(port_matches(&p[0], "22"));
    assert!(!port_matches(&p[1], "22"));
    assert_eq!(filter_ports(&p, Some("22")), vec![0]);
    assert_eq!(filter_ports(&p, Some("+53")), vec![2]);
    assert_eq!(filter_ports(&p, Some("9")), Vec::<usize>::new());
}

#[test]
fn text_filter_ignores_case() {
    let p = sample();
    assert_eq!(filter_ports(&p, Some("SSH")), vec![0]);
    assert_eq!(filter_ports(&p, Some("tcp")), vec![0, 1]);
    assert_eq!(filter_ports(&p, Some("127.0")), vec![1, 2]);
    assert_eq!(filter_ports(&p, Some("70001")), vec![1]);
    assert_eq!(filter_ports(&p, Some("222")), Vec::<usize>::new());
    assert_eq!(filter_ports(&p, Some("2222")), vec![1]);
    assert_eq!(filter_ports(&p, Some("nothing")), Vec::<usize>::new());
    assert_eq!(filter_ports(&p, Some("D-R")), vec![2]);
    assert_eq!(filter_ports(&p, Some("-53")), Vec::<usize>::new());
    assert_eq!(filter_ports(&p, Some("")), vec![0, 1, 2]);
    assert_eq!(filter_ports(&p, None), vec![0, 1, 2]);
}

#[test]
fn text_match_uses_given_lowercase_forms() {
    let p = port(5, "Nginx", "TCP", [1, 2, 3, 4], 8080);
    let c = |s: &str| s.chars().collect::<Vec<char>>();
    assert!(text_matches(&p, &c("ngi"), &c("nginx"), &c("tcp")));
    assert!(!text_matches(&p, &c("ngi"), &c("Nginx"), &c("tcp")));
    assert!(text_matches(&p, &c("2.3"), &c("x"), &c("y")));
    assert!(text_matches(&p, &c("808"), &c("x"), &c("y")));
    assert!(!text_matches(&p, &c("zz"), &c("x"), &c("y")));
}

#[test]
fn port_rows() {
    let mut p = port(812, "sshd", "TCP", [0, 0, 0, 0], 22);
    assert_eq!(port_row(&p), vec!["812", "sshd", "TCP", "0.0.0.0:22", "0.0.0.0:0"]);
    p.remote_port = None;
    assert_eq!(port_row(&p)[4], "-");
    p.local_addr = IpAddress::V6([0, 0, 0, 0, 0, 0, 0, 1]);
    assert_eq!(port_row(&p)[3], "::1:22");
    assert_eq!(empty_port_row(), vec!["-", "-", "-", "-", "-"]);
}

#[test]
fn lan_rows() {
    let d = LanDevice { ip: IpAddress::V4([192, 168, 1, 1]), mac: Some("aa:bb".to_string()), vendor: None };
    assert_eq!(lan_row(&d), vec!["192.168.1.1", "aa:bb", "-"]);
    let d = LanDevice { ip: IpAddress::V4([10, 0, 0, 1]), mac: None, vendor: Some("router".to_string()) };
    assert_eq!(lan_row(&d), vec!["10.0.0.1", "-", "router"]);
    assert_eq!(empty_lan_row(), vec!["-", "No devices found", "-"]);
}

#[test]
fn protocol_kinds() {
    assert_eq!(protocol_kind(&"TCP".to_string()), ProtocolKind::Tcp);
    assert_eq!(protocol_kind(&"UDP".to_string()), ProtocolKind::Udp);
    assert_eq!(protocol_kind(&"tcp".to_string()), ProtocolKind::Other);
}

#[test]
fn scroll_is_clamped_to_last_page() {
    assert_eq!(clamp_scroll(5, 10, 8), 5);
    assert_eq!(clamp_scroll(7, 10, 8), 5);
    assert_eq!(clamp_scroll(3, 2, 20), 0);
    assert_eq!(clamp_scroll(100, 10, 2), 10);
    assert_eq!(clamp_scroll(0, 0, 0), 0);
    assert_eq!(clamp_scroll(usize::MAX, 1000, 103), 900);
}

#[test]
fn header_texts() {
    assert_eq!(
        header_spans(3, 2, Some("10.0.0.5".to_string()), Some("box".to_string())),
        vec![
            " Ports: 3  Devices: 2  ",
            "IP: 10.0.0.5  ",
            "Host: box  ",
            "Press 'q' to quit | '/' to filter",
        ]
    );
    assert_eq!(
        header_spans(0, 0, None, Some("h".to_string())),
        vec![" Ports: 0  Devices: 0  ", "Host: h  ", "Press 'q' to quit | '/' to filter"]
    );
}

#[test]
fn command_line_port_filter_keeps_that_port() {
    let p = sample();
    let d = Dashboard::new(Some(22));
    let f = d.effective_filter();
    assert_eq!(f.as_deref(), Some("22"));
    assert_eq!(filter_ports(&p, f.as_deref()), vec![0]);
    let d = Dashboard::new(Some(53));
    assert_eq!(filter_ports(&p, d.effective_filter().as_deref()), vec![2]);
}
