//! Listening ports and the processes that own them.
//!
//! The socket tables and the process table are read elsewhere and handed in
//! as plain values; this module turns socket entries into port records and
//! finds each socket's owning process.
use vstd::prelude::*;
use crate::ipaddr::IpAddress;

verus! {

/// A socket bound to a port, with the process that owns it.
#[derive(Clone, Debug)]
pub struct PortProcess {
    pub pid: u32,
    pub process_name: String,
    pub local_addr: IpAddress,
    pub local_port: u16,
    pub remote_addr: Option<IpAddress>,
    pub remote_port: Option<u16>,
    pub protocol: String,
}

/// What is read of one entry of a socket table (TCP or UDP).
pub struct NetEntry {
    pub local_addr: IpAddress,
    pub local_port: u16,
    pub remote_addr: IpAddress,
    pub remote_port: u16,
    pub inode: u64,
}

/// A process with the inodes of the sockets among its open file descriptors,
/// in descriptor order. `name` is the process's command name, or `"?"` where it
/// could not be read.
pub struct ProcessSockets {
    pub pid: i32,
    pub name: String,
    pub socket_inodes: Vec<u64>,
}

pub open spec fn tcp_name() -> Seq<char> {
    seq!['T', 'C', 'P']
}

pub open spec fn udp_name() -> Seq<char> {
    seq!['U', 'D', 'P']
}

pub open spec fn unknown_name() -> Seq<char> {
    seq!['?']
}

/// `p` is the record of entry `e` before its owner is known: the inode stands
/// in for the pid (cut to 32 bits), the name is `"?"`.
pub open spec fn is_entry_record(p: PortProcess, e: NetEntry, proto: Seq<char>) -> bool {
    &&& p.pid == e.inode as u32
    &&& p.process_name@ == unknown_name()
    &&& p.local_addr == e.local_addr
    &&& p.local_port == e.local_port
    &&& p.remote_addr == Some(e.remote_addr)
    &&& p.remote_port == Some(e.remote_port)
    &&& p.protocol@ == proto
}

/// The first process (in table order) that holds a socket with this inode:
/// its pid and name.
pub open spec fn owner(procs: Seq<ProcessSockets>, inode: u64) -> Option<(i32, Seq<char>)>
    decreases procs.len(),
{
    if procs.len() == 0 {
        None
    } else if procs[0].socket_inodes@.contains(inode) {
        Some((procs[0].pid, procs[0].name@))
    } else {
        owner(procs.drop_first(), inode)
    }
}

/// `p` is the record of entry `e`: the entry's record, with the pid and name of
/// the owning process where there is one.
pub open spec fn is_port_record(
    p: PortProcess,
    e: NetEntry,
    proto: Seq<char>,
    procs: Seq<ProcessSockets>,
) -> bool {
    &&& p.local_addr == e.local_addr
    &&& p.local_port == e.local_port
    &&& p.remote_addr == Some(e.remote_addr)
    &&& p.remote_port == Some(e.remote_port)
    &&& p.protocol@ == proto
    &&& match owner(procs, e.inode) {
        Some((pid, name)) => p.pid == pid as u32 && p.process_name@ == name,
        None => p.pid == e.inode as u32 && p.process_name@ == unknown_name(),
    }
}

/// The record of a socket entry for the given protocol, before its owner is
/// known.
pub fn entry_to_portproc(entry: &NetEntry, proto: &str) -> (p: PortProcess)
    ensures
        is_entry_record(p, *entry, proto@),
{
    let name = "?".to_owned();
    proof {
        reveal_strlit("?");
        assert(name@ =~= unknown_name());
    }
    PortProcess {
        pid: entry.inode as u32,
        process_name: name,
        local_addr: entry.local_addr,
        local_port: entry.local_port,
        remote_addr: Some(entry.remote_addr),
        remote_port: Some(entry.remote_port),
        protocol: proto.to_owned(),
    }
}

/// The record of a TCP socket entry, before its owner is known.
pub fn tcp_entry_to_portproc(entry: &NetEntry) -> (p: PortProcess)
    ensures
        is_entry_record(p, *entry, tcp_name()),
{
    proof {
        reveal_strlit("TCP");
        assert("TCP"@ =~= tcp_name());
    }
    entry_to_portproc(entry, "TCP")
}

/// The record of a UDP socket entry, before its owner is known.
pub fn udp_entry_to_portproc(entry: &NetEntry) -> (p: PortProcess)
    ensures
        is_entry_record(p, *entry, udp_name()),
{
    proof {
        reveal_strlit("UDP");
        assert("UDP"@ =~= udp_name());
    }
    entry_to_portproc(entry, "UDP")
}

fn holds_inode(inodes: &Vec<u64>, inode: u64) -> (b: bool)
    ensures
        b == inodes@.contains(inode),
{
    let mut i: usize = 0;
    while i < inodes.len()
        invariant
            i <= inodes@.len(),
            forall|k: int| 0 <= k < i ==> inodes@[k] != inode,
        decreases inodes@.len() - i,
    {
        if inodes[i] == inode {
            assert(inodes@[i as int] == inode);
            return true;
        }
        i = i + 1;
    }
    false
}

/// The pid and name of the first process that holds a socket with this inode.
pub fn find_pid_by_inode(procs: &[ProcessSockets], inode: u64) -> (r: Option<(i32, String)>)
    ensures
        match r {
            Some((pid, name)) => owner(procs@, inode) == Some((pid, name@)),
            None => owner(procs@, inode) is None,
        },
{
    let mut i: usize = 0;
    assert(procs@.subrange(0, procs@.len() as int) == procs@);
    while i < procs.len()
        invariant
            i <= procs@.len(),
            owner(procs@, inode) == owner(procs@.subrange(i as int, procs@.len() as int), inode),
        decreases procs@.len() - i,
    {
        let ghost rest = procs@.subrange(i as int, procs@.len() as int);
        assert(rest[0] == procs@[i as int]);
        if holds_inode(&procs[i].socket_inodes, inode) {
            return Some((procs[i].pid, procs[i].name.clone()));
        }
        assert(rest.drop_first() == procs@.subrange(i + 1, procs@.len() as int));
        i = i + 1;
    }
    None
}

/// The record of a socket entry with its owner filled in.
fn port_record(entry: &NetEntry, proto: &str, procs: &[ProcessSockets]) -> (p: PortProcess)
    ensures
        is_port_record(p, *entry, proto@, procs@),
{
    let mut p = entry_to_portproc(entry, proto);
    match find_pid_by_inode(procs, entry.inode) {
        Some((pid, name)) => {
            p.pid = pid as u32;
            p.process_name = name;
        },
        None => {},
    }
    p
}

/// All listening ports: the TCP entries in order, then the UDP entries in
/// order, each with the pid and name of its owning process where one holds the
/// socket. A table that could not be read (`None`) contributes nothing.
pub fn list_ports(
    tcp: Option<&Vec<NetEntry>>,
    udp: Option<&Vec<NetEntry>>,
    procs: &[ProcessSockets],
) -> (r: Vec<PortProcess>)
    ensures
        ({
            let t = match tcp {
                Some(v) => v@,
                None => Seq::<NetEntry>::empty(),
            };
            let u = match udp {
                Some(v) => v@,
                None => Seq::<NetEntry>::empty(),
            };
            &&& r@.len() == t.len() + u.len()
            &&& forall|i: int| 0 <= i < t.len() ==> is_port_record(#[trigger] r@[i], t[i], tcp_name(), procs@)
            &&& forall|j: int|
                t.len() <= j < r@.len() ==> is_port_record(#[trigger] r@[j], u[j - t.len()], udp_name(), procs@)
        }),
{
    proof {
        reveal_strlit("TCP");
        reveal_strlit("UDP");
        assert("TCP"@ =~= tcp_name());
        assert("UDP"@ =~= udp_name());
    }
    let mut results: Vec<PortProcess> = Vec::new();
    let ghost t = match tcp {
        Some(v) => v@,
        None => Seq::<NetEntry>::empty(),
    };
    let ghost u = match udp {
        Some(v) => v@,
        None => Seq::<NetEntry>::empty(),
    };
    match tcp {
        Some(entries) => {
            let mut i: usize = 0;
            while i < entries.len()
                invariant
                    t == entries@,
                    i <= entries@.len(),
                    results@.len() == i,
                    "TCP"@ == tcp_name(),
                    forall|k: int| 0 <= k < i ==> is_port_record(#[trigger] results@[k], t[k], tcp_name(), procs@),
                decreases entries@.len() - i,
            {
                let p = port_record(&entries[i], "TCP", procs);
                results.push(p);
                i = i + 1;
            }
        },
        None => {},
    }
    let n = results.len();
    assert(n == t.len());
    match udp {
        Some(entries) => {
            let mut i: usize = 0;
            while i < entries.len()
                invariant
                    u == entries@,
                    i <= entries@.len(),
                    results@.len() == n + i,
                    n == t.len(),
                    "UDP"@ == udp_name(),
                    forall|k: int| 0 <= k < n ==> is_port_record(#[trigger] results@[k], t[k], tcp_name(), procs@),
                    forall|k: int| n <= k < n + i ==> is_port_record(#[trigger] results@[k], u[k - n], udp_name(), procs@),
                decreases entries@.len() - i,
            {
                let p = port_record(&entries[i], "UDP", procs);
                results.push(p);
                i = i + 1;
            }
        },
        None => {},
    }
    results
}

} // verus!
