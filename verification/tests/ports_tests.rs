use nets::ipaddr::IpAddress;
use nets::ports::{
    entry_to_portproc, find_pid_by_inode, list_ports, tcp_entry_to_portproc, udp_entry_to_portproc,
    NetEntry, ProcessSockets,
};

fn entry(port: u16, inode: u64) -> NetEntry {
    NetEntry {
        local_addr: IpAddress::V4([127, 0, 0, 1]),
        local_port: port,
        remote_addr: IpAddress::V4([0, 0, 0, 0]),
        remote_port: 0,
        inode,
    }
}

fn procs() -> Vec<ProcessSockets> {
    vec![
        ProcessSockets { pid: 10, name: "init".to_string(), socket_inodes: vec![1, 2] },
        ProcessSockets { pid: 20, name: "sshd".to_string(), socket_inodes: vec![3, 4] },
        ProcessSockets { pid: 30, name: "dup".to_string(), socket_inodes: vec![4] },
        ProcessSockets { pid: -1, name: "odd".to_string(), socket_inodes: vec![9] },
    ]
}

#[test]
fn entry_records_before_owner_is_known() {
    let p = tcp_entry_to_portproc(&entry(22, 12345));
    assert_eq!(p.pid, 12345);
    assert_eq!(p.process_name, "?");
    assert_eq!(p.protocol, "TCP");
    assert_eq!(p.local_port, 22);
    assert_eq!(p.local_addr, IpAddress::V4([127, 0, 0, 1]));
    assert_eq!(p.remote_addr, Some(IpAddress::V4([0, 0, 0, 0])));
    assert_eq!(p.remote_port, Some(0));
    let u = udp_entry_to_portproc(&entry(53, 7));
    assert_eq!(u.protocol, "UDP");
    let o = entry_to_portproc(&entry(1, 0x1_0000_0005), "SCTP");
    assert_eq!(o.pid, 5);
    assert_eq!(o.protocol, "SCTP");
}

#[test]
fn owner_is_first_process_holding_the_socket() {
    let ps = procs();
    assert_eq!(find_pid_by_inode(&ps, 4), Some((20, "sshd".to_string())));
    assert_eq!(find_pid_by_inode(&ps, 1), Some((10, "init".to_string())));
    assert_eq!(find_pid_by_inode(&ps, 99), None);
    assert_eq!(find_pid_by_inode(&[], 1), None);
}

#[test]
fn ports_list_tcp_then_udp_with_owners() {
    let ps = procs();
    let tcp = vec![entry(22, 3), entry(80, 50)];
    let udp = vec![entry(53, 9)];
    let r = list_ports(Some(&tcp), Some(&udp), &ps);
    assert_eq!(r.len(), 3);
    assert_eq!((r[0].pid, r[0].process_name.as_str(), r[0].protocol.as_str()), (20, "sshd", "TCP"));
    assert_eq!((r[1].pid, r[1].process_name.as_str(), r[1].local_port), (50, "?", 80));
    assert_eq!((r[2].pid, r[2].process_name.as_str(), r[2].protocol.as_str()), (u32::MAX, "odd", "UDP"));
}

#[test]
fn unreadable_tables_contribute_nothing() {
    let udp = vec![entry(53, 9)];
    let r = list_ports(None, Some(&udp), &[]);
    assert_eq!(r.len(), 1);
    assert_eq!(r[0].pid, 9);
    assert_eq!(r[0].process_name, "?");
    assert!(list_ports(None, None, &procs()).is_empty());
}

#[test]
fn udp_records_follow_tcp_records() {
    let ps = procs();
    let tcp = vec![entry(22, 3)];
    let udp = vec![entry(53, 1), entry(67, 77)];
    let r = list_ports(Some(&tcp), Some(&udp), &ps);
    assert_eq!(r.len(), 3);
    assert_eq!((r[1].pid, r[1].protocol.as_str(), r[1].local_port), (10, "UDP", 53));
    assert_eq!((r[2].pid, r[2].process_name.as_str(), r[2].local_port), (77, "?", 67));
}

#[test]
fn port_records_clone_and_debug() {
    let p = tcp_entry_to_portproc(&entry(22, 5));
    let c = p.clone();
    assert_eq!((c.pid, c.process_name.as_str(), c.local_port), (5, "?", 22));
    assert!(format!("{:?}", c).contains("PortProcess"));
}
