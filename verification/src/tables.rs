//! What the dashboard's tables and header show: which ports pass the filter,
//! the text of each row, the scroll offset, and the header statistics.
use vstd::prelude::*;
use crate::ipaddr::{ip_text, push_ip};
use crate::ports::PortProcess;
use crate::scanner::LanDevice;
use crate::text::{
    chars_of, contains, contains_chars, decimal, law_port_numeral_parses, lowercase, parse_u16,
    parse_u16_spec, push_decimal, push_str, to_lowercase,
};

verus! {

/// How a protocol is highlighted.
#[derive(Clone, Copy, Debug, PartialEq, Eq)]
pub enum ProtocolKind {
    Tcp,
    Udp,
    Other,
}

/// The views of a row of texts.
pub open spec fn string_views(v: Seq<String>) -> Seq<Seq<char>> {
    v.map_values(|s: String| s@)
}

/// A filter text that is not a port number matches a port when the lowercased
/// filter occurs in the lowercased process name, the pid, the lowercased
/// protocol, the local address or the local port.
pub open spec fn text_match(
    p: PortProcess,
    needle: Seq<char>,
    name_lower: Seq<char>,
    proto_lower: Seq<char>,
) -> bool {
    ||| contains(name_lower, needle)
    ||| contains(decimal(p.pid as nat), needle)
    ||| contains(proto_lower, needle)
    ||| contains(ip_text(p.local_addr), needle)
    ||| contains(decimal(p.local_port as nat), needle)
}

/// Whether a port passes the filter text `f`: a filter that reads as a port
/// number keeps exactly the ports with that local port; any other filter is
/// matched as text (see `text_match`), ignoring case.
pub open spec fn port_matches_spec(p: PortProcess, f: Seq<char>) -> bool {
    match parse_u16_spec(f) {
        Some(port) => p.local_port == port,
        None => text_match(p, lowercase(f), lowercase(p.process_name@), lowercase(p.protocol@)),
    }
}

/// Whether a port passes an optional filter: with no filter every port does.
pub open spec fn filter_keeps(p: PortProcess, filter: Option<Seq<char>>) -> bool {
    match filter {
        Some(f) => port_matches_spec(p, f),
        None => true,
    }
}

/// The indices of the ports that pass the filter, in order.
pub open spec fn matching_indices(ports: Seq<PortProcess>, filter: Option<Seq<char>>) -> Seq<usize>
    decreases ports.len(),
{
    if ports.len() == 0 {
        Seq::<usize>::empty()
    } else {
        let r = matching_indices(ports.drop_last(), filter);
        if filter_keeps(ports.last(), filter) {
            r.push((ports.len() - 1) as usize)
        } else {
            r
        }
    }
}

/// The text test of a port, given the lowercased filter, process name and
/// protocol (see `text_match`).
pub fn text_matches(
    p: &PortProcess,
    needle: &[char],
    name_lower: &[char],
    proto_lower: &[char],
) -> (b: bool)
    ensures
        b == text_match(*p, needle@, name_lower@, proto_lower@),
{
    if contains_chars(name_lower, needle) {
        return true;
    }
    let mut pid = String::new();
    push_decimal(&mut pid, p.pid as u64);
    if contains_chars(chars_of(pid.as_str()).as_slice(), needle) {
        return true;
    }
    if contains_chars(proto_lower, needle) {
        return true;
    }
    let mut addr = String::new();
    push_ip(&mut addr, &p.local_addr);
    if contains_chars(chars_of(addr.as_str()).as_slice(), needle) {
        return true;
    }
    let mut port = String::new();
    push_decimal(&mut port, p.local_port as u64);
    contains_chars(chars_of(port.as_str()).as_slice(), needle)
}

/// Whether a port passes the filter text (see `port_matches_spec`).
pub fn port_matches(p: &PortProcess, filter: &str) -> (b: bool)
    ensures
        b == port_matches_spec(*p, filter@),
{
    let f = chars_of(filter);
    match parse_u16(f.as_slice()) {
        Some(port) => p.local_port == port,
        None => {
            let needle = to_lowercase(filter);
            let name = to_lowercase(p.process_name.as_str());
            let proto = to_lowercase(p.protocol.as_str());
            text_matches(
                p,
                chars_of(needle.as_str()).as_slice(),
                chars_of(name.as_str()).as_slice(),
                chars_of(proto.as_str()).as_slice(),
            )
        },
    }
}

/// The indices of the ports that pass the filter, in order (see
/// `matching_indices`).
pub fn filter_ports(ports: &[PortProcess], filter: Option<&str>) -> (r: Vec<usize>)
    ensures
        r@ == matching_indices(
            ports@,
            match filter {
                Some(f) => Some(f@),
                None => None,
            },
        ),
{
    let ghost fv = match filter {
        Some(f) => Some(f@),
        None => None,
    };
    let mut r: Vec<usize> = Vec::new();
    let mut i: usize = 0;
    while i < ports.len()
        invariant
            i <= ports@.len(),
            fv == match filter {
                Some(f) => Some(f@),
                None => None::<Seq<char>>,
            },
            r@ == matching_indices(ports@.take(i as int), fv),
        decreases ports@.len() - i,
    {
        let keep = match filter {
            Some(f) => port_matches(&ports[i], f),
            None => true,
        };
        proof {
            assert(ports@.take(i + 1).drop_last() == ports@.take(i as int));
            assert(ports@.take(i + 1).last() == ports@[i as int]);
        }
        if keep {
            r.push(i);
        }
        i = i + 1;
    }
    assert(ports@.take(ports@.len() as int) == ports@);
    r
}

/// The protocol's highlight: TCP, UDP, or another.
pub fn protocol_kind(protocol: &String) -> (k: ProtocolKind)
    ensures
        k == if protocol@ == "TCP"@ {
            ProtocolKind::Tcp
        } else if protocol@ == "UDP"@ {
            ProtocolKind::Udp
        } else {
            ProtocolKind::Other
        },
{
    if *protocol == "TCP".to_owned() {
        ProtocolKind::Tcp
    } else if *protocol == "UDP".to_owned() {
        ProtocolKind::Udp
    } else {
        ProtocolKind::Other
    }
}

/// An address and port written `address:port`.
pub open spec fn endpoint_text(a: crate::ipaddr::IpAddress, port: u16) -> Seq<char> {
    ip_text(a) + seq![':'] + decimal(port as nat)
}

/// The remote end of a port: `address:port` when both are known, else `-`.
pub open spec fn remote_text(p: PortProcess) -> Seq<char> {
    match (p.remote_addr, p.remote_port) {
        (Some(a), Some(port)) => endpoint_text(a, port),
        _ => "-"@,
    }
}

/// The cells of a port's row: pid, process name, protocol, local end, remote
/// end.
pub open spec fn port_row_spec(p: PortProcess) -> Seq<Seq<char>> {
    seq![
        decimal(p.pid as nat),
        p.process_name@,
        p.protocol@,
        endpoint_text(p.local_addr, p.local_port),
        remote_text(p),
    ]
}

fn endpoint_string(a: &crate::ipaddr::IpAddress, port: u16) -> (s: String)
    ensures
        s@ == endpoint_text(*a, port),
{
    let mut s = String::new();
    push_ip(&mut s, a);
    s.push(':');
    push_decimal(&mut s, port as u64);
    assert(s@ =~= endpoint_text(*a, port));
    s
}

/// The texts of a port's row (see `port_row_spec`).
pub fn port_row(p: &PortProcess) -> (r: Vec<String>)
    ensures
        string_views(r@) == port_row_spec(*p),
{
    let mut pid = String::new();
    push_decimal(&mut pid, p.pid as u64);
    let remote = match (&p.remote_addr, &p.remote_port) {
        (Some(a), Some(port)) => endpoint_string(a, *port),
        _ => "-".to_owned(),
    };
    let r = vec![
        pid,
        p.process_name.clone(),
        p.protocol.clone(),
        endpoint_string(&p.local_addr, p.local_port),
        remote,
    ];
    assert(string_views(r@) =~= port_row_spec(*p));
    r
}

/// The row shown when no port passes the filter.
pub fn empty_port_row() -> (r: Vec<String>)
    ensures
        string_views(r@) == seq!["-"@, "-"@, "-"@, "-"@, "-"@],
{
    let r = vec!["-".to_owned(), "-".to_owned(), "-".to_owned(), "-".to_owned(), "-".to_owned()];
    assert(string_views(r@) =~= seq!["-"@, "-"@, "-"@, "-"@, "-"@]);
    r
}

/// An optional text, or `-`.
pub open spec fn or_dash(o: Option<String>) -> Seq<char> {
    match o {
        Some(s) => s@,
        None => "-"@,
    }
}

/// The cells of a device's row: address, hardware address, host name.
pub open spec fn lan_row_spec(d: LanDevice) -> Seq<Seq<char>> {
    seq![ip_text(d.ip), or_dash(d.mac), or_dash(d.vendor)]
}

fn or_dash_string(o: &Option<String>) -> (s: String)
    ensures
        s@ == or_dash(*o),
{
    match o {
        Some(s) => s.clone(),
        None => "-".to_owned(),
    }
}

/// The texts of a device's row (see `lan_row_spec`).
pub fn lan_row(d: &LanDevice) -> (r: Vec<String>)
    ensures
        string_views(r@) == lan_row_spec(*d),
{
    let mut ip = String::new();
    push_ip(&mut ip, &d.ip);
    let r = vec![ip, or_dash_string(&d.mac), or_dash_string(&d.vendor)];
    assert(string_views(r@) =~= lan_row_spec(*d));
    r
}

/// The row shown when no device was found.
pub fn empty_lan_row() -> (r: Vec<String>)
    ensures
        string_views(r@) == seq!["-"@, "No devices found"@, "-"@],
{
    let r = vec!["-".to_owned(), "No devices found".to_owned(), "-".to_owned()];
    assert(string_views(r@) =~= seq!["-"@, "No devices found"@, "-"@]);
    r
}

/// The largest scroll offset that still fills the table: the number of rows
/// beyond those that fit below the header and borders (three lines).
pub open spec fn max_scroll(len: nat, area_height: nat) -> nat {
    let visible = if area_height > 3 {
        area_height - 3
    } else {
        0
    };
    if len > visible {
        (len - visible) as nat
    } else {
        0
    }
}

/// The scroll offset shown: the requested one, at most `max_scroll`.
pub fn clamp_scroll(scroll: usize, len: usize, area_height: u16) -> (r: usize)
    ensures
        r as nat == if scroll as nat <= max_scroll(len as nat, area_height as nat) {
            scroll as nat
        } else {
            max_scroll(len as nat, area_height as nat)
        },
{
    let visible: usize = if area_height > 3 {
        (area_height - 3) as usize
    } else {
        0
    };
    let max: usize = if len > visible {
        len - visible
    } else {
        0
    };
    if scroll <= max {
        scroll
    } else {
        max
    }
}

/// The header's statistics, one text per span: the counts, then the local
/// address and host name where known, then the key help.
pub open spec fn header_spans_spec(
    port_count: nat,
    device_count: nat,
    local_ip: Option<Seq<char>>,
    local_host: Option<Seq<char>>,
) -> Seq<Seq<char>> {
    let counts = " Ports: "@ + decimal(port_count) + "  Devices: "@ + decimal(device_count)
        + "  "@;
    let with_ip = match local_ip {
        Some(ip) => seq![counts, "IP: "@ + ip + "  "@],
        None => seq![counts],
    };
    let with_host = match local_host {
        Some(h) => with_ip.push("Host: "@ + h + "  "@),
        None => with_ip,
    };
    with_host.push("Press 'q' to quit | '/' to filter"@)
}

/// The texts of the header's statistics (see `header_spans_spec`).
pub fn header_spans(
    port_count: usize,
    device_count: usize,
    local_ip: Option<String>,
    local_host: Option<String>,
) -> (r: Vec<String>)
    ensures
        string_views(r@) == header_spans_spec(
            port_count as nat,
            device_count as nat,
            crate::scanner::opt_view(local_ip),
            crate::scanner::opt_view(local_host),
        ),
{
    let mut counts = String::new();
    push_str(&mut counts, " Ports: ");
    push_decimal(&mut counts, port_count as u64);
    push_str(&mut counts, "  Devices: ");
    push_decimal(&mut counts, device_count as u64);
    push_str(&mut counts, "  ");
    let mut r: Vec<String> = Vec::new();
    r.push(counts);
    let ghost first = r@;
    match local_ip {
        Some(ip) => {
            let mut s = String::new();
            push_str(&mut s, "IP: ");
            push_str(&mut s, ip.as_str());
            push_str(&mut s, "  ");
            r.push(s);
        },
        None => {},
    }
    match local_host {
        Some(h) => {
            let mut s = String::new();
            push_str(&mut s, "Host: ");
            push_str(&mut s, h.as_str());
            push_str(&mut s, "  ");
            r.push(s);
        },
        None => {},
    }
    r.push("Press 'q' to quit | '/' to filter".to_owned());
    proof {
        let ipv = crate::scanner::opt_view(local_ip);
        let hv = crate::scanner::opt_view(local_host);
        assert(string_views(r@) =~= header_spans_spec(
            port_count as nat,
            device_count as nat,
            ipv,
            hv,
        ));
    }
    r
}


/// The filter made from a port given on the command line keeps exactly the
/// ports with that local port.
pub proof fn law_port_number_filter(x: PortProcess, port: u16)
    ensures
        port_matches_spec(x, decimal(port as nat)) == (x.local_port == port),
{
    law_port_numeral_parses(port);
}

/// Without a filter every port is shown, in order.
pub proof fn law_no_filter_keeps_all(ports: Seq<PortProcess>)
    requires
        ports.len() <= usize::MAX,
    ensures
        matching_indices(ports, None) == Seq::new(ports.len(), |i: int| i as usize),
    decreases ports.len(),
{
    if ports.len() > 0 {
        law_no_filter_keeps_all(ports.drop_last());
        assert(Seq::new(ports.drop_last().len(), |i: int| i as usize).push(
            (ports.len() - 1) as usize,
        ) =~= Seq::new(ports.len(), |i: int| i as usize));
    } else {
        assert(matching_indices(ports, None) =~= Seq::new(ports.len(), |i: int| i as usize));
    }
}

/// The filtered table shows exactly the ports that pass the filter, each once,
/// in their order.
pub proof fn law_filter_exact(ports: Seq<PortProcess>, filter: Option<Seq<char>>)
    requires
        ports.len() <= usize::MAX,
    ensures
        forall|k: int|
            0 <= k < matching_indices(ports, filter).len() ==> #[trigger] matching_indices(
                ports,
                filter,
            )[k] < ports.len() && filter_keeps(ports[matching_indices(ports, filter)[k] as int], filter),
        forall|k: int, l: int|
            0 <= k < l < matching_indices(ports, filter).len() ==> #[trigger] matching_indices(
                ports,
                filter,
            )[k] < #[trigger] matching_indices(ports, filter)[l],
        forall|i: int|
            0 <= i < ports.len() && filter_keeps(#[trigger] ports[i], filter) ==> matching_indices(
                ports,
                filter,
            ).contains(i as usize),
    decreases ports.len(),
{
    if ports.len() > 0 {
        let q = ports.drop_last();
        law_filter_exact(q, filter);
        let r = matching_indices(q, filter);
        let n = (ports.len() - 1) as usize;
        assert forall|k: int| 0 <= k < r.len() implies #[trigger] r[k] < n && ports[r[k] as int]
            == q[r[k] as int] by {}
        assert forall|i: int|
            0 <= i < ports.len() && filter_keeps(#[trigger] ports[i], filter) implies matching_indices(
            ports,
            filter,
        ).contains(i as usize) by {
            if i < ports.len() - 1 {
                assert(q[i] == ports[i]);
                assert(r.contains(i as usize));
                let k = choose|k: int| 0 <= k < r.len() && r[k] == i as usize;
                if filter_keeps(ports.last(), filter) {
                    assert(r.push(n)[k] == i as usize);
                }
            } else {
                assert(matching_indices(ports, filter).last() == i as usize);
            }
        }
    }
}


/// Whether a port passes a filter does not depend on its remote end: two ports
/// that differ only in remote address and remote port pass the same filters.
pub proof fn law_filter_ignores_remote(
    p: PortProcess,
    q: PortProcess,
    f: Seq<char>,
)
    requires
        q.pid == p.pid,
        q.process_name@ == p.process_name@,
        q.protocol@ == p.protocol@,
        q.local_addr == p.local_addr,
        q.local_port == p.local_port,
    ensures
        port_matches_spec(q, f) == port_matches_spec(p, f),
        filter_keeps(q, Some(f)) == filter_keeps(p, Some(f)),
{
}

/// A filter that is not a port number keeps a port only when the lowercased
/// filter occurs in one of its lowercased name, its pid, its lowercased
/// protocol, its local address or its local port; and it keeps every port in
/// which it occurs in one of them.
pub proof fn law_text_filter_fields(p: PortProcess, f: Seq<char>)
    requires
        parse_u16_spec(f) is None,
    ensures
        port_matches_spec(p, f) <==> (contains(lowercase(p.process_name@), lowercase(f))
            || contains(decimal(p.pid as nat), lowercase(f)) || contains(
            lowercase(p.protocol@),
            lowercase(f),
        ) || contains(ip_text(p.local_addr), lowercase(f)) || contains(
            decimal(p.local_port as nat),
            lowercase(f),
        )),
{
}

/// The header's spans: the counts first and the key help last; in between the
/// local address when one is given, whatever the host name, and then the host
/// name when one is given, whatever the address.
pub proof fn law_header_spans(
    port_count: nat,
    device_count: nat,
    local_ip: Option<Seq<char>>,
    local_host: Option<Seq<char>>,
)
    ensures
        ({
            let r = header_spans_spec(port_count, device_count, local_ip, local_host);
            &&& r.len() == 2 + (if local_ip is Some {
                1int
            } else {
                0int
            }) + (if local_host is Some {
                1int
            } else {
                0int
            })
            &&& r[0] == " Ports: "@ + decimal(port_count) + "  Devices: "@ + decimal(device_count)
                + "  "@
            &&& r[r.len() - 1] == "Press 'q' to quit | '/' to filter"@
            &&& (local_ip matches Some(ip) ==> r[1] == "IP: "@ + ip + "  "@)
            &&& (local_host matches Some(h) ==> r[r.len() - 2] == "Host: "@ + h + "  "@)
        }),
{
}

} // verus!
