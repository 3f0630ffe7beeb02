use nets::ipaddr::IpAddress;
use nets::scanner::{local_identity, parse_arp_table, scan_lan, LanDevice};

const ARP: &str = "IP address       HW type     Flags       HW address            Mask     Device\n\
192.168.1.1      0x1         0x2         aa:bb:cc:dd:ee:ff     *        eth0\n\
192.168.1.50     0x1         0x0         00:00:00:00:00:00     *        eth0\n\
bogus            0x1         0x2         11:22:33:44:55:66     *        eth0\n\
10.0.0.2 0x1\n\
fe80::1          0x1         0x2         01:02:03:04:05:06     *        eth1\n";

#[test]
fn arp_table_entries() {
    let e = parse_arp_table(ARP);
    assert_eq!(
        e,
        vec![
            (IpAddress::V4([192, 168, 1, 1]), "aa:bb:cc:dd:ee:ff".to_string()),
            (IpAddress::V6([0xfe80, 0, 0, 0, 0, 0, 0, 1]), "01:02:03:04:05:06".to_string()),
        ]
    );
}

#[test]
fn arp_header_line_is_skipped() {
    let e = parse_arp_table("192.168.1.1 0x1 0x2 aa:bb:cc:dd:ee:ff * eth0\n");
    assert!(e.is_empty());
    assert!(parse_arp_table("").is_empty());
    let e = parse_arp_table("h\r\n10.1.1.1 0x1 0x2 a:b\r\n");
    assert_eq!(e, vec![(IpAddress::V4([10, 1, 1, 1]), "a:b".to_string())]);
}

#[test]
fn lan_devices_arp_then_interfaces() {
    let ifs = vec![IpAddress::V4([127, 0, 0, 1]), IpAddress::V6([0, 0, 0, 0, 0, 0, 0, 1])];
    let d = scan_lan(Some(ARP), Some(&ifs));
    assert_eq!(d.len(), 4);
    assert_eq!(d[0].mac.as_deref(), Some("aa:bb:cc:dd:ee:ff"));
    assert_eq!(d[2].ip, IpAddress::V4([127, 0, 0, 1]));
    assert_eq!(d[2].mac, None);
    assert!(d.iter().all(|x| x.vendor.is_none()));
    assert!(scan_lan(None, None).is_empty());
    assert_eq!(scan_lan(None, Some(&ifs)).len(), 2);
}

#[test]
fn header_identity_is_first_interface() {
    let ifs = vec![IpAddress::V4([127, 0, 0, 1]), IpAddress::V4([10, 0, 0, 5])];
    let mut d = scan_lan(Some(ARP), Some(&ifs));
    d[2].vendor = Some("localhost".to_string());
    assert_eq!(
        local_identity(&d),
        (Some("127.0.0.1".to_string()), Some("localhost".to_string()))
    );
    let only_arp = scan_lan(Some(ARP), None);
    assert_eq!(local_identity(&only_arp), (None, None));
    let v6 = vec![LanDevice { ip: IpAddress::V6([0xfe80, 0, 0, 0, 0, 0, 0, 9]), mac: None, vendor: None }];
    assert_eq!(local_identity(&v6), (Some("fe80::9".to_string()), None));
}

#[test]
fn devices_clone_and_debug() {
    let d = LanDevice { ip: IpAddress::V4([10, 0, 0, 1]), mac: Some("aa".to_string()), vendor: None };
    let c = d.clone();
    assert_eq!(c.ip, d.ip);
    assert_eq!(c.mac, d.mac);
    assert!(format!("{:?}", c).contains("LanDevice"));
}
