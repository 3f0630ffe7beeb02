//! Devices on the local network: the kernel's ARP table and the machine's own
//! interface addresses.
use vstd::prelude::*;
use crate::ipaddr::{ip_text, parse_ip, parse_ip_spec, push_ip, IpAddress, IpView};
use crate::text::{chars_eq, chars_of, lines, lines_of, split_words, string_from, views, words};

verus! {

/// A device seen on the local network. `vendor` holds the device's host name
/// where a reverse lookup found one.
#[derive(Clone, Debug)]
pub struct LanDevice {
    pub ip: IpAddress,
    pub mac: Option<String>,
    pub vendor: Option<String>,
}

/// The view of an optional text.
pub open spec fn opt_view(o: Option<String>) -> Option<Seq<char>> {
    match o {
        Some(s) => Some(s@),
        None => None,
    }
}

/// The hardware address the ARP table shows for an incomplete entry.
pub open spec fn no_mac() -> Seq<char> {
    seq!['0', '0', ':', '0', '0', ':', '0', '0', ':', '0', '0', ':', '0', '0', ':', '0', '0']
}

/// The address and hardware address of one line of the ARP table: its first
/// and fourth whitespace-separated fields, when the line has at least four,
/// the first reads as an IP address, and the fourth is not the all-zero
/// hardware address.
pub open spec fn arp_entry(line: Seq<char>) -> Option<(IpView, Seq<char>)> {
    let t = words(line);
    if t.len() >= 4 && parse_ip_spec(t[0]) is Some && t[3] != no_mac() {
        Some((parse_ip_spec(t[0])->0, t[3]))
    } else {
        None
    }
}

/// The entries of the given lines, in order.
pub open spec fn arp_entries(ls: Seq<Seq<char>>) -> Seq<(IpView, Seq<char>)>
    decreases ls.len(),
{
    if ls.len() == 0 {
        Seq::<(IpView, Seq<char>)>::empty()
    } else {
        let r = arp_entries(ls.drop_last());
        match arp_entry(ls.last()) {
            Some(e) => r.push(e),
            None => r,
        }
    }
}

/// The entries of an ARP table text: every line but the first (the header).
pub open spec fn arp_table(text: Seq<char>) -> Seq<(IpView, Seq<char>)> {
    let ls = lines(text);
    if ls.len() == 0 {
        Seq::<(IpView, Seq<char>)>::empty()
    } else {
        arp_entries(ls.drop_first())
    }
}

/// The views of parsed entries.
pub open spec fn entry_views(r: Seq<(IpAddress, String)>) -> Seq<(IpView, Seq<char>)> {
    r.map_values(|e: (IpAddress, String)| (e.0@, e.1@))
}

/// The entry of one line (see `arp_entry`).
fn parse_arp_line(line: &[char]) -> (r: Option<(IpAddress, String)>)
    ensures
        match r {
            Some(e) => arp_entry(line@) == Some((e.0@, e.1@)),
            None => arp_entry(line@) is None,
        },
{
    let parts = split_words(line);
    if parts.len() < 4 {
        return None;
    }
    assert(views(parts@)[0] == parts@[0]@);
    assert(views(parts@)[3] == parts@[3]@);
    let ip = parse_ip(parts[0].as_slice());
    match ip {
        None => None,
        Some(a) => {
            let zero: Vec<char> = vec!['0', '0', ':', '0', '0', ':', '0', '0', ':', '0', '0', ':', '0', '0', ':', '0', '0'];
            assert(zero@ =~= no_mac());
            if chars_eq(parts[3].as_slice(), zero.as_slice()) {
                None
            } else {
                proof {
                    assert(words(line@)[3] == parts@[3]@);
                    assert(words(line@)[0] == parts@[0]@);
                }
                let mac = string_from(parts[3].as_slice());
                assert(arp_entry(line@) == Some((a@, mac@)));
                Some((a, mac))
            }
        },
    }
}

/// The entries of an ARP table text (see `arp_table`): address and hardware
/// address of every line after the header that names a device.
pub fn parse_arp_table(text: &str) -> (r: Vec<(IpAddress, String)>)
    ensures
        entry_views(r@) == arp_table(text@),
{
    let chars = chars_of(text);
    let ls = lines_of(chars.as_slice());
    let mut out: Vec<(IpAddress, String)> = Vec::new();
    if ls.len() == 0 {
        assert(entry_views(out@) =~= arp_table(text@));
        return out;
    }
    let ghost rest = lines(text@).drop_first();
    let mut i: usize = 1;
    assert(rest.take(0) =~= Seq::<Seq<char>>::empty());
    while i < ls.len()
        invariant
            1 <= i <= ls@.len(),
            views(ls@) == lines(text@),
            rest == lines(text@).drop_first(),
            entry_views(out@) == arp_entries(rest.take(i - 1)),
        decreases ls@.len() - i,
    {
        assert(views(ls@)[i as int] == ls@[i as int]@);
        let e = parse_arp_line(ls[i].as_slice());
        let ghost before = out@;
        proof {
            assert(rest.take(i as int).drop_last() == rest.take(i - 1));
            assert(rest.take(i as int).last() == ls@[i as int]@);
        }
        match e {
            Some(x) => {
                out.push(x);
                assert(entry_views(out@) =~= entry_views(before).push((x.0@, x.1@)));
            },
            None => {},
        }
        i = i + 1;
    }
    assert(rest.take(i - 1) == rest);
    out
}

/// The devices of the local network: one for each ARP table entry, in order,
/// with its hardware address; then one for each interface address, in order,
/// without one. No device has a host name yet. A source that could not be read
/// (`None`) contributes nothing.
pub fn scan_lan(arp_text: Option<&str>, interfaces: Option<&Vec<IpAddress>>) -> (r: Vec<LanDevice>)
    ensures
        ({
            let a = match arp_text {
                Some(t) => arp_table(t@),
                None => Seq::<(IpView, Seq<char>)>::empty(),
            };
            let f = match interfaces {
                Some(v) => v@,
                None => Seq::<IpAddress>::empty(),
            };
            &&& r@.len() == a.len() + f.len()
            &&& forall|i: int|
                0 <= i < a.len() ==> (#[trigger] r@[i]).ip@ == a[i].0 && opt_view(r@[i].mac) == Some(
                    a[i].1,
                ) && r@[i].vendor is None
            &&& forall|j: int|
                a.len() <= j < r@.len() ==> (#[trigger] r@[j]).ip == f[j - a.len()] && r@[j].mac is None
                    && r@[j].vendor is None
        }),
{
    let mut devices: Vec<LanDevice> = Vec::new();
    let ghost a = match arp_text {
        Some(t) => arp_table(t@),
        None => Seq::<(IpView, Seq<char>)>::empty(),
    };
    match arp_text {
        Some(t) => {
            let entries = parse_arp_table(t);
            let mut k: usize = 0;
            while k < entries.len()
                invariant
                    entry_views(entries@) == a,
                    k <= entries@.len(),
                    devices@.len() == k,
                    forall|i: int|
                        0 <= i < k ==> (#[trigger] devices@[i]).ip@ == a[i].0 && opt_view(
                            devices@[i].mac,
                        ) == Some(a[i].1) && devices@[i].vendor is None,
                decreases entries@.len() - k,
            {
                assert(entry_views(entries@)[k as int] == (entries@[k as int].0@, entries@[k as int].1@));
                let ip = entries[k].0;
                let mac = entries[k].1.clone();
                devices.push(LanDevice { ip, mac: Some(mac), vendor: None });
                k = k + 1;
            }
        },
        None => {},
    }
    let m = devices.len();
    match interfaces {
        Some(v) => {
            let mut j: usize = 0;
            while j < v.len()
                invariant
                    j <= v@.len(),
                    devices@.len() == m + j,
                    m == a.len(),
                    forall|i: int|
                        0 <= i < m ==> (#[trigger] devices@[i]).ip@ == a[i].0 && opt_view(
                            devices@[i].mac,
                        ) == Some(a[i].1) && devices@[i].vendor is None,
                    forall|i: int|
                        m <= i < m + j ==> (#[trigger] devices@[i]).ip == v@[i - m] && devices@[i].mac is None
                            && devices@[i].vendor is None,
                decreases v@.len() - j,
            {
                devices.push(LanDevice { ip: v[j], mac: None, vendor: None });
                j = j + 1;
            }
        },
        None => {},
    }
    devices
}

/// The first device without a hardware address (an interface of this
/// machine), if any.
pub open spec fn first_local(devices: Seq<LanDevice>) -> Option<int>
    decreases devices.len(),
{
    if devices.len() == 0 {
        None
    } else if devices[0].mac is None {
        Some(0)
    } else {
        match first_local(devices.drop_first()) {
            Some(k) => Some(k + 1),
            None => None,
        }
    }
}

/// The address text and host name shown in the header: those of the first
/// device without a hardware address, or neither.
pub fn local_identity(devices: &[LanDevice]) -> (r: (Option<String>, Option<String>))
    ensures
        match first_local(devices@) {
            Some(k) => opt_view(r.0) == Some(ip_text(devices@[k].ip)) && opt_view(r.1) == opt_view(
                devices@[k].vendor,
            ),
            None => r.0 is None && r.1 is None,
        },
{
    let mut i: usize = 0;
    assert(devices@.subrange(0, devices@.len() as int) == devices@);
    while i < devices.len()
        invariant
            i <= devices@.len(),
            first_local(devices@) == match first_local(
                devices@.subrange(i as int, devices@.len() as int),
            ) {
                Some(k) => Some(k + i),
                None => None,
            },
        decreases devices@.len() - i,
    {
        let ghost rest = devices@.subrange(i as int, devices@.len() as int);
        assert(rest[0] == devices@[i as int]);
        if devices[i].mac.is_none() {
            let mut s = String::new();
            push_ip(&mut s, &devices[i].ip);
            assert(s@ =~= ip_text(devices@[i as int].ip));
            let host = match &devices[i].vendor {
                Some(v) => Some(v.clone()),
                None => None,
            };
            return (Some(s), host);
        }
        assert(rest.drop_first() == devices@.subrange(i + 1, devices@.len() as int));
        i = i + 1;
    }
    (None, None)
}


proof fn lemma_words_nonempty(s: Seq<char>)
    requires
        s.len() > 0,
        !crate::text::is_white_space(s.last()),
    ensures
        words(s).len() > 0,
    decreases s.len(),
{
    if s.len() >= 2 && !crate::text::is_white_space(s[s.len() - 2]) {
        assert(s.drop_last().last() == s[s.len() - 2]);
        lemma_words_nonempty(s.drop_last());
    }
}

proof fn lemma_words_shape(s: Seq<char>)
    ensures
        forall|i: int| 0 <= i < words(s).len() ==> #[trigger] words(s)[i].len() > 0,
    decreases s.len(),
{
    if s.len() > 0 {
        lemma_words_shape(s.drop_last());
        let w = words(s.drop_last());
        let r = words(s);
        let c = s.last();
        assert forall|i: int| 0 <= i < r.len() implies #[trigger] r[i].len() > 0 by {
            if crate::text::is_white_space(c) {
                assert(r[i] == w[i]);
            } else if s.len() >= 2 && !crate::text::is_white_space(s[s.len() - 2]) {
                assert(s.drop_last().last() == s[s.len() - 2]);
                lemma_words_nonempty(s.drop_last());
                if i < w.len() - 1 {
                    assert(r[i] == w[i]);
                } else {
                    assert(r[i] == w.last().push(c));
                }
            } else {
                if i < w.len() {
                    assert(r[i] == w[i]);
                } else {
                    assert(r[i] == seq![c]);
                }
            }
        }
    }
}

proof fn lemma_arp_entries_shape(ls: Seq<Seq<char>>)
    ensures
        forall|i: int|
            0 <= i < arp_entries(ls).len() ==> #[trigger] arp_entries(ls)[i].1 != no_mac()
                && arp_entries(ls)[i].1.len() > 0,
    decreases ls.len(),
{
    if ls.len() > 0 {
        lemma_arp_entries_shape(ls.drop_last());
        lemma_words_shape(ls.last());
        let prev = arp_entries(ls.drop_last());
        let r = arp_entries(ls);
        assert forall|i: int| 0 <= i < r.len() implies #[trigger] r[i].1 != no_mac() && r[i].1.len()
            > 0 by {
            if i < prev.len() {
                assert(r[i] == prev[i]);
            } else {
                let t = words(ls.last());
                assert(t[3].len() > 0);
            }
        }
    }
}

/// Every device read from the ARP table has a hardware address, never the
/// all-zero one of an incomplete entry.
pub proof fn law_arp_devices_have_mac(text: Seq<char>)
    ensures
        forall|i: int|
            0 <= i < arp_table(text).len() ==> #[trigger] arp_table(text)[i].1 != no_mac()
                && arp_table(text)[i].1.len() > 0,
{
    let ls = lines(text);
    if ls.len() > 0 {
        lemma_arp_entries_shape(ls.drop_first());
    }
}

/// The devices listed as `scan_lan` lists them: `a` ARP devices, all with a
/// hardware address, followed by interface devices without one.
pub open spec fn lan_layout(devices: Seq<LanDevice>, arp_count: nat) -> bool {
    &&& arp_count <= devices.len()
    &&& forall|i: int| 0 <= i < arp_count ==> (#[trigger] devices[i]).mac is Some
    &&& forall|i: int| arp_count <= i < devices.len() ==> (#[trigger] devices[i]).mac is None
}

/// The header shows the first interface address of the machine: in a device
/// list laid out as `scan_lan` lays it out, the first device without a
/// hardware address is the first interface device, when there is one.
pub proof fn law_local_is_first_interface(devices: Seq<LanDevice>, arp_count: nat)
    requires
        lan_layout(devices, arp_count),
    ensures
        first_local(devices) == if arp_count < devices.len() {
            Some(arp_count as int)
        } else {
            None
        },
    decreases arp_count,
{
    if devices.len() > 0 && arp_count > 0 {
        let rest = devices.drop_first();
        assert(lan_layout(rest, (arp_count - 1) as nat)) by {
            assert forall|i: int| 0 <= i < arp_count - 1 implies (#[trigger] rest[i]).mac is Some by {
                assert(rest[i] == devices[i + 1]);
            }
            assert forall|i: int| arp_count - 1 <= i < rest.len() implies (#[trigger] rest[i]).mac is None by {
                assert(rest[i] == devices[i + 1]);
            }
        }
        law_local_is_first_interface(rest, (arp_count - 1) as nat);
    }
}


/// Whether a line of the ARP table names a device, and which, depends only on
/// its first and fourth fields: two lines with at least four fields each that
/// agree on those two give the same entry, whatever their other fields (type,
/// flags, mask, device).
pub proof fn law_arp_entry_fields(l1: Seq<char>, l2: Seq<char>)
    requires
        words(l1).len() >= 4,
        words(l2).len() >= 4,
        words(l1)[0] == words(l2)[0],
        words(l1)[3] == words(l2)[3],
    ensures
        arp_entry(l1) == arp_entry(l2),
{
}

/// A line with at least four fields whose first reads as an IP address and
/// whose fourth is not the all-zero hardware address names that device; a
/// line with fewer fields, an unreadable address or the all-zero hardware
/// address names none.
pub proof fn law_arp_entry_when(line: Seq<char>)
    ensures
        arp_entry(line) is Some <==> (words(line).len() >= 4 && parse_ip_spec(words(line)[0]) is Some
            && words(line)[3] != no_mac()),
        arp_entry(line) is Some ==> arp_entry(line)->0 == (
            parse_ip_spec(words(line)[0])->0,
            words(line)[3],
        ),
{
}

} // verus!
