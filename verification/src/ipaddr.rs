//! IP addresses: their textual form (as the standard `Display` of IP addresses
//! writes it) and the parsing of addresses from text (as `str::parse::<IpAddr>`
//! accepts them).
use vstd::prelude::*;
use crate::text::{
    all_digits, decimal, digit_char, digit_value, digits_value, hex, is_digit, join_on,
    lemma_decimal_canonical, lemma_decimal_digits, lemma_digit_char, lemma_split_join,
    lemma_split_on_concat, lemma_split_on_len, lemma_split_on_single, push_decimal, push_hex,
    split_chars, split_on, views,
};

verus! {

/// An IPv4 address by its four octets, or an IPv6 address by its eight 16-bit
/// segments (most significant first).
#[derive(Clone, Copy, Debug, PartialEq, Eq)]
pub enum IpAddress {
    V4([u8; 4]),
    V6([u16; 8]),
}

/// The mathematical value of an address: its octets or its segments.
pub enum IpView {
    V4(Seq<u8>),
    V6(Seq<u16>),
}

impl View for IpAddress {
    type V = IpView;

    open spec fn view(&self) -> IpView {
        match *self {
            IpAddress::V4(o) => IpView::V4(o@),
            IpAddress::V6(g) => IpView::V6(g@),
        }
    }
}

/// Dotted-decimal text of four octets.
pub open spec fn ipv4_text(o: Seq<u8>) -> Seq<char> {
    decimal(o[0] as nat) + seq!['.'] + decimal(o[1] as nat) + seq!['.'] + decimal(o[2] as nat)
        + seq!['.'] + decimal(o[3] as nat)
}

/// Segments in lowercase hexadecimal, separated by `':'`.
pub open spec fn hex_join(g: Seq<u16>) -> Seq<char>
    decreases g.len(),
{
    if g.len() == 0 {
        Seq::<char>::empty()
    } else if g.len() == 1 {
        hex(g[0] as nat)
    } else {
        hex_join(g.drop_last()) + seq![':'] + hex(g.last() as nat)
    }
}

/// Positions `a .. a + l` of `g` all hold zero.
pub open spec fn zero_run(g: Seq<u16>, a: int, l: int) -> bool {
    &&& 0 <= a
    &&& 0 <= l
    &&& a + l <= g.len()
    &&& forall|k: int| a <= k < a + l ==> g[k] == 0
}

/// `(a, l)` is the first of the longest runs of zero segments (`(0, 0)` when
/// there is no zero).
pub open spec fn first_longest_zero_run(g: Seq<u16>, a: int, l: int) -> bool {
    &&& zero_run(g, a, l)
    &&& forall|a2: int, l2: int| #[trigger] zero_run(g, a2, l2) ==> l2 <= l
    &&& forall|a2: int| 0 <= a2 < a ==> !#[trigger] zero_run(g, a2, l)
}

/// The first longest run of zero segments of `g`.
pub open spec fn longest_zero_run(g: Seq<u16>) -> (int, int) {
    choose|p: (int, int)| first_longest_zero_run(g, p.0, p.1)
}

/// Whether `g` is an IPv4-mapped IPv6 address (`::ffff:a.b.c.d`).
pub open spec fn is_ipv4_mapped(g: Seq<u16>) -> bool {
    &&& g[0] == 0
    &&& g[1] == 0
    &&& g[2] == 0
    &&& g[3] == 0
    &&& g[4] == 0
    &&& g[5] == 0xffff
}

/// The four octets carried in the last two segments.
pub open spec fn mapped_octets(g: Seq<u16>) -> Seq<u8> {
    seq![(g[6] / 256) as u8, (g[6] % 256) as u8, (g[7] / 256) as u8, (g[7] % 256) as u8]
}

/// The text of an IPv6 address: an IPv4-mapped address as `::ffff:` and the
/// dotted IPv4 form; otherwise the segments in hexadecimal, where the first of
/// the longest runs of zero segments is written `::` when it is longer than one.
pub open spec fn ipv6_text(g: Seq<u16>) -> Seq<char> {
    if is_ipv4_mapped(g) {
        seq![':', ':', 'f', 'f', 'f', 'f', ':'] + ipv4_text(mapped_octets(g))
    } else {
        let r = longest_zero_run(g);
        if r.1 > 1 {
            hex_join(g.subrange(0, r.0)) + seq![':', ':'] + hex_join(g.subrange(r.0 + r.1, 8))
        } else {
            hex_join(g)
        }
    }
}

/// The text of an address, as `IpAddr`'s `Display` writes it.
pub open spec fn ip_text(a: IpAddress) -> Seq<char> {
    match a {
        IpAddress::V4(o) => ipv4_text(o@),
        IpAddress::V6(g) => ipv6_text(g@),
    }
}

/// The first longest zero run is unique.
pub proof fn lemma_first_longest_unique(g: Seq<u16>, a: int, l: int, b: int, m: int)
    requires
        first_longest_zero_run(g, a, l),
        first_longest_zero_run(g, b, m),
    ensures
        a == b && l == m,
{
    assert(l <= m);
    assert(m <= l);
    if a < b {
        assert(!zero_run(g, a, m));
    }
    if b < a {
        assert(!zero_run(g, b, l));
    }
}

/// Appends the dotted-decimal text of `o`.
pub fn push_ipv4(s: &mut String, o: [u8; 4])
    ensures
        final(s)@ == old(s)@ + ipv4_text(o@),
{
    push_decimal(s, o[0] as u64);
    s.push('.');
    push_decimal(s, o[1] as u64);
    s.push('.');
    push_decimal(s, o[2] as u64);
    s.push('.');
    push_decimal(s, o[3] as u64);
    assert(s@ =~= old(s)@ + ipv4_text(o@));
}

/// Appends segments `from .. to` of `g` in hexadecimal, separated by `':'`.
fn push_hex_join(s: &mut String, g: &[u16; 8], from: usize, to: usize)
    requires
        from <= to <= 8,
    ensures
        final(s)@ == old(s)@ + hex_join(g@.subrange(from as int, to as int)),
{
    let mut i: usize = from;
    while i < to
        invariant
            from <= i <= to <= 8,
            s@ == old(s)@ + hex_join(g@.subrange(from as int, i as int)),
        decreases to - i,
    {
        let ghost before = s@;
        if i > from {
            s.push(':');
        }
        push_hex(s, g[i] as u64);
        proof {
            let sub = g@.subrange(from as int, i + 1);
            assert(sub.drop_last() == g@.subrange(from as int, i as int));
            assert(sub.last() == g@[i as int]);
            if i > from {
                assert(hex_join(sub) == hex_join(sub.drop_last()) + seq![':'] + hex(
                    sub.last() as nat,
                ));
                assert(s@ =~= old(s)@ + hex_join(sub));
            } else {
                assert(sub.len() == 1);
                assert(s@ =~= old(s)@ + hex_join(sub));
            }
        }
        i = i + 1;
    }
}

/// Finds the first longest run of zero segments.
fn find_longest_zero_run(g: &[u16; 8]) -> (r: (usize, usize))
    ensures
        first_longest_zero_run(g@, r.0 as int, r.1 as int),
{
    let mut best_start: usize = 0;
    let mut best_len: usize = 0;
    let mut cur_len: usize = 0;
    let mut i: usize = 0;
    while i < 8
        invariant
            i <= 8,
            g@.len() == 8,
            cur_len <= i,
            best_start + best_len <= i,
            zero_run(g@, best_start as int, best_len as int),
            forall|a2: int, l2: int|
                #[trigger] zero_run(g@, a2, l2) && a2 + l2 <= i ==> l2 <= best_len,
            forall|a2: int| 0 <= a2 < best_start ==> !#[trigger] zero_run(g@, a2, best_len as int),
            zero_run(g@, i - cur_len, cur_len as int),
            cur_len < i ==> g@[i - cur_len - 1] != 0,
        decreases 8 - i,
    {
        if g[i] == 0 {
            cur_len = cur_len + 1;
            if cur_len > best_len {
                best_start = i + 1 - cur_len;
                best_len = cur_len;
            }
        } else {
            cur_len = 0;
        }
        i = i + 1;
        proof {
            assert forall|a2: int, l2: int|
                #[trigger] zero_run(g@, a2, l2) && a2 + l2 <= i implies l2 <= best_len by {
                if a2 + l2 == i && l2 > 0 {
                    if l2 > cur_len {
                        assert(g@[i - cur_len - 1] == 0);
                    }
                } else if l2 > 0 {
                    assert(a2 + l2 <= i - 1);
                }
            }
        }
    }
    assert forall|a2: int, l2: int| #[trigger] zero_run(g@, a2, l2) implies l2 <= best_len by {
        assert(a2 + l2 <= 8);
    }
    (best_start, best_len)
}

/// Appends the text of an IPv6 address (see `ipv6_text`).
pub fn push_ipv6(s: &mut String, g: [u16; 8])
    ensures
        final(s)@ == old(s)@ + ipv6_text(g@),
{
    if g[0] == 0 && g[1] == 0 && g[2] == 0 && g[3] == 0 && g[4] == 0 && g[5] == 0xffff {
        s.push(':');
        s.push(':');
        s.push('f');
        s.push('f');
        s.push('f');
        s.push('f');
        s.push(':');
        let o: [u8; 4] = [(g[6] / 256) as u8, (g[6] % 256) as u8, (g[7] / 256) as u8, (g[7] % 256) as u8];
        assert(o@ =~= mapped_octets(g@));
        push_ipv4(s, o);
        assert(s@ =~= old(s)@ + ipv6_text(g@));
    } else {
        let (a, l) = find_longest_zero_run(&g);
        proof {
            let r = longest_zero_run(g@);
            assert(first_longest_zero_run(g@, r.0, r.1));
            lemma_first_longest_unique(g@, a as int, l as int, r.0, r.1);
        }
        if l > 1 {
            push_hex_join(s, &g, 0, a);
            s.push(':');
            s.push(':');
            push_hex_join(s, &g, a + l, 8);
            assert(s@ =~= old(s)@ + ipv6_text(g@));
        } else {
            push_hex_join(s, &g, 0, 8);
            assert(g@.subrange(0, 8) == g@);
        }
    }
}

/// Appends the text of an address (see `ip_text`).
pub fn push_ip(s: &mut String, a: &IpAddress)
    ensures
        final(s)@ == old(s)@ + ip_text(*a),
{
    match a {
        IpAddress::V4(o) => push_ipv4(s, *o),
        IpAddress::V6(g) => push_ipv6(s, *g),
    }
}

/// The text of an address, as `to_string` writes an `IpAddr`.
pub fn ip_to_string(a: &IpAddress) -> (s: String)
    ensures
        s@ == ip_text(*a),
{
    let mut s = String::new();
    push_ip(&mut s, a);
    assert(s@ =~= ip_text(*a));
    s
}


pub open spec fn is_hex_digit(c: char) -> bool {
    is_digit(c) || ('a' <= c && c <= 'f') || ('A' <= c && c <= 'F')
}

pub open spec fn hex_digit_value(c: char) -> nat {
    if is_digit(c) {
        digit_value(c)
    } else if 'a' <= c && c <= 'f' {
        (c as int - 87) as nat
    } else {
        (c as int - 55) as nat
    }
}

/// The value of a run of hexadecimal digits.
pub open spec fn hex_value(d: Seq<char>) -> nat
    decreases d.len(),
{
    if d.len() == 0 {
        0
    } else {
        hex_value(d.drop_last()) * 16 + hex_digit_value(d.last())
    }
}

pub open spec fn all_hex_digits(d: Seq<char>) -> bool {
    forall|i: int| 0 <= i < d.len() ==> is_hex_digit(#[trigger] d[i])
}

/// A decimal octet of an IPv4 address: one to three digits, no leading zero,
/// at most 255.
pub open spec fn dec_octet(p: Seq<char>) -> Option<u8> {
    if 1 <= p.len() <= 3 && all_digits(p) && !(p.len() > 1 && p[0] == '0') && digits_value(p)
        <= 255 {
        Some(digits_value(p) as u8)
    } else {
        None
    }
}

/// A segment of an IPv6 address: one to four hexadecimal digits (either case,
/// leading zeros allowed).
pub open spec fn hex_group(p: Seq<char>) -> Option<u16> {
    if 1 <= p.len() <= 4 && all_hex_digits(p) {
        Some(hex_value(p) as u16)
    } else {
        None
    }
}

/// What `str::parse::<Ipv4Addr>` accepts: four decimal octets separated by dots.
pub open spec fn parse_ipv4_spec(s: Seq<char>) -> Option<Seq<u8>> {
    let p = split_on(s, '.');
    if p.len() == 4 && dec_octet(p[0]) is Some && dec_octet(p[1]) is Some && dec_octet(p[2]) is Some
        && dec_octet(p[3]) is Some {
        Some(
            seq![
                dec_octet(p[0])->0,
                dec_octet(p[1])->0,
                dec_octet(p[2])->0,
                dec_octet(p[3])->0,
            ],
        )
    } else {
        None
    }
}

/// Every part is a hexadecimal segment; their values.
pub open spec fn hex_groups(parts: Seq<Seq<char>>) -> Option<Seq<u16>> {
    if forall|i: int| 0 <= i < parts.len() ==> #[trigger] hex_group(parts[i]) is Some {
        Some(Seq::new(parts.len(), |i: int| hex_group(parts[i])->0))
    } else {
        None
    }
}

/// The two segments that carry four octets.
pub open spec fn octet_segments(o: Seq<u8>) -> Seq<u16> {
    seq![(o[0] * 256 + o[1]) as u16, (o[2] * 256 + o[3]) as u16]
}

/// Parts after a `::` (or a whole address): hexadecimal segments, of which the
/// last may instead be a dotted IPv4 address that counts for two segments.
pub open spec fn tail_groups(parts: Seq<Seq<char>>) -> Option<Seq<u16>> {
    if parts.len() == 0 {
        Some(Seq::<u16>::empty())
    } else {
        match (hex_groups(parts.drop_last()), hex_group(parts.last()), parse_ipv4_spec(
            parts.last(),
        )) {
            (Some(h), Some(v), _) => Some(h.push(v)),
            (Some(h), None, Some(o)) => Some(h + octet_segments(o)),
            _ => None,
        }
    }
}

/// The first position of `"::"` in `s`.
pub open spec fn first_double_colon(s: Seq<char>) -> Option<int>
    decreases s.len(),
{
    if s.len() < 2 {
        None
    } else {
        match first_double_colon(s.drop_last()) {
            Some(k) => Some(k),
            None => if s[s.len() - 2] == ':' && s[s.len() - 1] == ':' {
                Some(s.len() - 2)
            } else {
                None
            },
        }
    }
}

/// The parts of a piece of an IPv6 address between `::` and an end: none
/// when the piece is empty, else its `':'`-separated parts.
pub open spec fn colon_parts(s: Seq<char>) -> Seq<Seq<char>> {
    if s.len() == 0 {
        Seq::<Seq<char>>::empty()
    } else {
        split_on(s, ':')
    }
}

/// What `str::parse::<Ipv6Addr>` accepts. Without `::`: eight hexadecimal
/// segments, or six and a dotted IPv4 address. With `::` (its first
/// occurrence): hexadecimal segments before it, segments after it (the last of
/// which may be a dotted IPv4 address counting for two), at most seven in all,
/// the `::` standing for the zero segments in between.
pub open spec fn parse_ipv6_spec(s: Seq<char>) -> Option<Seq<u16>> {
    match first_double_colon(s) {
        None => {
            let p = split_on(s, ':');
            if p.len() == 8 {
                hex_groups(p)
            } else if p.len() == 7 {
                match (hex_groups(p.take(6)), parse_ipv4_spec(p[6])) {
                    (Some(h), Some(o)) => Some(h + octet_segments(o)),
                    _ => None,
                }
            } else {
                None
            }
        },
        Some(k) => {
            match (
                hex_groups(colon_parts(s.subrange(0, k))),
                tail_groups(colon_parts(s.subrange(k + 2, s.len() as int))),
            ) {
                (Some(h), Some(t)) => if h.len() + t.len() <= 7 {
                    Some(h + Seq::new((8 - h.len() - t.len()) as nat, |i: int| 0u16) + t)
                } else {
                    None
                },
                _ => None,
            }
        },
    }
}

/// What `str::parse::<IpAddr>` gives for `s`: the IPv4 reading when there is
/// one, else the IPv6 reading, else none.
pub open spec fn parse_ip_spec(s: Seq<char>) -> Option<IpView> {
    match parse_ipv4_spec(s) {
        Some(o) => Some(IpView::V4(o)),
        None => match parse_ipv6_spec(s) {
            Some(g) => Some(IpView::V6(g)),
            None => None,
        },
    }
}

/// Reads a decimal octet (see `dec_octet`).
fn parse_octet(p: &[char]) -> (r: Option<u8>)
    ensures
        r == dec_octet(p@),
{
    let n = p.len();
    if n < 1 || n > 3 {
        return None;
    }
    if n > 1 && p[0] == '0' {
        return None;
    }
    let mut acc: u32 = 0;
    let mut i: usize = 0;
    while i < n
        invariant
            i <= n <= 3,
            n == p@.len(),
            acc < 1000,
            (i == 0 ==> acc == 0),
            (i == 1 ==> acc < 10),
            (i == 2 ==> acc < 100),
            all_digits(p@.take(i as int)),
            acc == digits_value(p@.take(i as int)),
        decreases n - i,
    {
        let c = p[i];
        if !('0' <= c && c <= '9') {
            assert(!is_digit(p@[i as int]));
            return None;
        }
        proof {
            assert(p@.take(i + 1).drop_last() == p@.take(i as int));
            assert(p@.take(i + 1).last() == c);
        }
        acc = acc * 10 + ((c as u32) - 48);
        i = i + 1;
        assert(all_digits(p@.take(i as int)));
    }
    assert(p@.take(n as int) == p@);
    if acc > 255 {
        None
    } else {
        Some(acc as u8)
    }
}

fn hex_digit(c: char) -> (r: Option<u32>)
    ensures
        r is Some <==> is_hex_digit(c),
        r is Some ==> r->0 == hex_digit_value(c) && r->0 < 16,
{
    if '0' <= c && c <= '9' {
        Some((c as u32) - 48)
    } else if 'a' <= c && c <= 'f' {
        Some((c as u32) - 87)
    } else if 'A' <= c && c <= 'F' {
        Some((c as u32) - 55)
    } else {
        None
    }
}

/// Reads a hexadecimal segment (see `hex_group`).
fn parse_hex_group(p: &[char]) -> (r: Option<u16>)
    ensures
        r == hex_group(p@),
{
    let n = p.len();
    if n < 1 || n > 4 {
        return None;
    }
    let mut acc: u32 = 0;
    let mut i: usize = 0;
    while i < n
        invariant
            i <= n <= 4,
            n == p@.len(),
            (i == 0 ==> acc == 0),
            (i == 1 ==> acc < 16),
            (i == 2 ==> acc < 256),
            (i == 3 ==> acc < 4096),
            (i == 4 ==> acc < 65536),
            all_hex_digits(p@.take(i as int)),
            acc == hex_value(p@.take(i as int)),
        decreases n - i,
    {
        let d = hex_digit(p[i]);
        match d {
            None => {
                assert(!is_hex_digit(p@[i as int]));
                return None;
            },
            Some(v) => {
                proof {
                    assert(p@.take(i + 1).drop_last() == p@.take(i as int));
                    assert(p@.take(i + 1).last() == p@[i as int]);
                }
                acc = acc * 16 + v;
                i = i + 1;
                assert(all_hex_digits(p@.take(i as int)));
            },
        }
    }
    assert(p@.take(n as int) == p@);
    Some(acc as u16)
}

/// Reads a dotted IPv4 address (see `parse_ipv4_spec`).
pub fn parse_ipv4(s: &[char]) -> (r: Option<[u8; 4]>)
    ensures
        match r {
            Some(o) => parse_ipv4_spec(s@) == Some(o@),
            None => parse_ipv4_spec(s@) is None,
        },
{
    let parts = split_chars(s, '.');
    if parts.len() != 4 {
        return None;
    }
    assert(views(parts@)[0] == parts@[0]@);
    assert(views(parts@)[1] == parts@[1]@);
    assert(views(parts@)[2] == parts@[2]@);
    assert(views(parts@)[3] == parts@[3]@);
    let a = parse_octet(parts[0].as_slice());
    let b = parse_octet(parts[1].as_slice());
    let c = parse_octet(parts[2].as_slice());
    let d = parse_octet(parts[3].as_slice());
    match (a, b, c, d) {
        (Some(a), Some(b), Some(c), Some(d)) => {
            let o: [u8; 4] = [a, b, c, d];
            assert(o@ =~= seq![a, b, c, d]);
            Some(o)
        },
        _ => None,
    }
}


/// The first `"::"` lies inside the text.
pub proof fn lemma_first_double_colon_bounds(s: Seq<char>)
    ensures
        first_double_colon(s) matches Some(k) ==> 0 <= k && k + 2 <= s.len() && s[k] == ':' && s[k
            + 1] == ':',
    decreases s.len(),
{
    if s.len() >= 2 {
        lemma_first_double_colon_bounds(s.drop_last());
    }
}

proof fn lemma_first_double_colon_extend(s: Seq<char>, j: int, k: int)
    requires
        0 <= j <= s.len(),
        first_double_colon(s.take(j)) == Some(k),
    ensures
        first_double_colon(s) == Some(k),
    decreases s.len() - j,
{
    if j < s.len() {
        assert(s.take(j + 1).drop_last() == s.take(j));
        lemma_first_double_colon_extend(s, j + 1, k);
    } else {
        assert(s.take(j) == s);
    }
}

/// The first position of `"::"` (see `first_double_colon`).
fn find_double_colon(s: &[char]) -> (r: Option<usize>)
    ensures
        match r {
            Some(k) => first_double_colon(s@) == Some(k as int) && k + 2 <= s@.len(),
            None => first_double_colon(s@) is None,
        },
{
    proof {
        lemma_first_double_colon_bounds(s@);
    }
    let n = s.len();
    let mut j: usize = 0;
    while j < n
        invariant
            j <= n,
            n == s@.len(),
            first_double_colon(s@.take(j as int)) is None,
        decreases n - j,
    {
        let ghost t = s@.take(j + 1);
        assert(t.drop_last() == s@.take(j as int));
        if j >= 1 && s[j - 1] == ':' && s[j] == ':' {
            assert(first_double_colon(t) == Some(j - 1));
            proof {
                lemma_first_double_colon_extend(s@, j + 1, j - 1);
            }
            return Some(j - 1);
        }
        j = j + 1;
    }
    assert(s@.take(n as int) == s@);
    None
}

/// Characters `a .. b` of `s`.
fn sub_chars(s: &[char], a: usize, b: usize) -> (r: Vec<char>)
    requires
        a <= b <= s@.len(),
    ensures
        r@ == s@.subrange(a as int, b as int),
{
    let mut r: Vec<char> = Vec::new();
    let mut i: usize = a;
    while i < b
        invariant
            a <= i <= b <= s@.len(),
            r@ == s@.subrange(a as int, i as int),
        decreases b - i,
    {
        r.push(s[i]);
        i = i + 1;
    }
    r
}

/// The parts of a piece of an IPv6 address (see `colon_parts`).
fn colon_parts_of(s: &[char]) -> (r: Vec<Vec<char>>)
    ensures
        views(r@) == colon_parts(s@),
{
    if s.len() == 0 {
        let r: Vec<Vec<char>> = Vec::new();
        assert(views(r@) =~= colon_parts(s@));
        r
    } else {
        split_chars(s, ':')
    }
}

/// Reads parts `from .. to` as hexadecimal segments (see `hex_groups`).
fn parse_hex_groups(parts: &Vec<Vec<char>>, from: usize, to: usize) -> (r: Option<Vec<u16>>)
    requires
        from <= to <= parts@.len(),
    ensures
        match r {
            Some(v) => hex_groups(views(parts@).subrange(from as int, to as int)) == Some(v@),
            None => hex_groups(views(parts@).subrange(from as int, to as int)) is None,
        },
{
    let ghost ps = views(parts@).subrange(from as int, to as int);
    let mut out: Vec<u16> = Vec::new();
    let mut i: usize = from;
    while i < to
        invariant
            from <= i <= to <= parts@.len(),
            ps == views(parts@).subrange(from as int, to as int),
            out@.len() == i - from,
            forall|k: int| 0 <= k < i - from ==> #[trigger] hex_group(ps[k]) == Some(out@[k]),
        decreases to - i,
    {
        assert(ps[i - from] == parts@[i as int]@);
        match parse_hex_group(parts[i].as_slice()) {
            None => {
                assert(hex_group(ps[i - from]) is None);
                return None;
            },
            Some(v) => {
                out.push(v);
            },
        }
        i = i + 1;
    }
    assert(forall|k: int| 0 <= k < ps.len() ==> #[trigger] hex_group(ps[k]) is Some);
    assert(out@ =~= Seq::new(ps.len(), |k: int| hex_group(ps[k])->0));
    Some(out)
}

/// Reads the parts after `::` (see `tail_groups`).
fn parse_tail_groups(parts: &Vec<Vec<char>>) -> (r: Option<Vec<u16>>)
    ensures
        match r {
            Some(v) => tail_groups(views(parts@)) == Some(v@),
            None => tail_groups(views(parts@)) is None,
        },
{
    let n = parts.len();
    if n == 0 {
        let v: Vec<u16> = Vec::new();
        assert(v@ =~= Seq::<u16>::empty());
        return Some(v);
    }
    let ghost ps = views(parts@);
    assert(ps.subrange(0, n - 1) == ps.drop_last());
    assert(ps.last() == parts@[n - 1]@);
    let head = parse_hex_groups(parts, 0, n - 1);
    match head {
        None => None,
        Some(h) => {
            let last = parse_hex_group(parts[n - 1].as_slice());
            match last {
                Some(v) => {
                    let mut h = h;
                    h.push(v);
                    Some(h)
                },
                None => match parse_ipv4(parts[n - 1].as_slice()) {
                    Some(o) => {
                        let mut h = h;
                        let ghost h0 = h@;
                        h.push(((o[0] as u16) * 256 + o[1] as u16));
                        h.push(((o[2] as u16) * 256 + o[3] as u16));
                        assert(h@ =~= h0 + octet_segments(o@));
                        Some(h)
                    },
                    None => None,
                },
            }
        },
    }
}

/// Reads an IPv6 address (see `parse_ipv6_spec`).
pub fn parse_ipv6(s: &[char]) -> (r: Option<[u16; 8]>)
    ensures
        match r {
            Some(g) => parse_ipv6_spec(s@) == Some(g@),
            None => parse_ipv6_spec(s@) is None,
        },
{
    match find_double_colon(s) {
        None => {
            let parts = split_chars(s, ':');
            let n = parts.len();
            if n == 8 {
                assert(views(parts@).subrange(0, 8) == views(parts@));
                match parse_hex_groups(&parts, 0, 8) {
                    Some(v) => {
                        let g: [u16; 8] = [v[0], v[1], v[2], v[3], v[4], v[5], v[6], v[7]];
                        assert(g@ =~= v@);
                        Some(g)
                    },
                    None => None,
                }
            } else if n == 7 {
                assert(views(parts@).subrange(0, 6) == views(parts@).take(6));
                assert(views(parts@)[6] == parts@[6]@);
                match (parse_hex_groups(&parts, 0, 6), parse_ipv4(parts[6].as_slice())) {
                    (Some(v), Some(o)) => {
                        let g: [u16; 8] = [
                            v[0],
                            v[1],
                            v[2],
                            v[3],
                            v[4],
                            v[5],
                            ((o[0] as u16) * 256 + o[1] as u16),
                            ((o[2] as u16) * 256 + o[3] as u16),
                        ];
                        assert(g@ =~= v@ + octet_segments(o@));
                        Some(g)
                    },
                    _ => None,
                }
            } else {
                None
            }
        },
        Some(k) => {
            let n = s.len();
            let head = sub_chars(s, 0, k);
            let tail = sub_chars(s, k + 2, n);
            let hp = colon_parts_of(head.as_slice());
            let tp = colon_parts_of(tail.as_slice());
            assert(views(hp@).subrange(0, hp@.len() as int) == views(hp@));
            match (parse_hex_groups(&hp, 0, hp.len()), parse_tail_groups(&tp)) {
                (Some(h), Some(t)) => {
                    if h.len() > 7 || t.len() > 7 - h.len() {
                        return None;
                    }
                    let mut g: [u16; 8] = [0u16; 8];
                    let hl = h.len();
                    let tl = t.len();
                    let mut i: usize = 0;
                    while i < hl
                        invariant
                            i <= hl,
                            hl == h@.len(),
                            hl + tl <= 7,
                            forall|x: int| 0 <= x < i ==> g@[x] == h@[x],
                            forall|x: int| i <= x < 8 ==> g@[x] == 0,
                        decreases hl - i,
                    {
                        g[i] = h[i];
                        i = i + 1;
                    }
                    let mut j: usize = 0;
                    while j < tl
                        invariant
                            j <= tl,
                            tl == t@.len(),
                            hl == h@.len(),
                            hl + tl <= 7,
                            forall|x: int| 0 <= x < hl ==> g@[x] == h@[x],
                            forall|x: int| hl <= x < 8 - tl ==> g@[x] == 0,
                            forall|x: int| 0 <= x < j ==> g@[8 - tl + x] == t@[x],
                        decreases tl - j,
                    {
                        g[8 - tl + j] = t[j];
                        j = j + 1;
                    }
                    let ghost z = Seq::new((8 - hl - tl) as nat, |x: int| 0u16);
                    assert(g@ =~= h@ + z + t@);
                    Some(g)
                },
                _ => None,
            }
        },
    }
}

/// Reads an IP address from text (see `parse_ip_spec`).
pub fn parse_ip(s: &[char]) -> (r: Option<IpAddress>)
    ensures
        match r {
            Some(a) => parse_ip_spec(s@) == Some(a@),
            None => parse_ip_spec(s@) is None,
        },
{
    match parse_ipv4(s) {
        Some(o) => Some(IpAddress::V4(o)),
        None => match parse_ipv6(s) {
            Some(g) => Some(IpAddress::V6(g)),
            None => None,
        },
    }
}


/// The numeral of an octet reads back as that octet.
pub proof fn lemma_dec_octet_of_decimal(o: u8)
    ensures
        dec_octet(decimal(o as nat)) == Some(o),
        forall|i: int| 0 <= i < decimal(o as nat).len() ==> is_digit(#[trigger] decimal(o as nat)[i]),
{
    lemma_decimal_digits(o as nat);
}

proof fn lemma_no_dot(o: u8)
    ensures
        forall|i: int|
            0 <= i < decimal(o as nat).len() ==> #[trigger] decimal(o as nat)[i] != '.',
        split_on(decimal(o as nat), '.') == seq![decimal(o as nat)],
{
    lemma_dec_octet_of_decimal(o);
    assert forall|i: int| 0 <= i < decimal(o as nat).len() implies #[trigger] decimal(
        o as nat,
    )[i] != '.' by {
        assert(is_digit(decimal(o as nat)[i]));
    }
    lemma_split_on_single(decimal(o as nat), '.');
}

/// The dotted-decimal text of an IPv4 address reads back as that address.
pub proof fn law_ipv4_text_parses(o: Seq<u8>)
    requires
        o.len() == 4,
    ensures
        parse_ipv4_spec(ipv4_text(o)) == Some(o),
{
    let d0 = decimal(o[0] as nat);
    let d1 = decimal(o[1] as nat);
    let d2 = decimal(o[2] as nat);
    let d3 = decimal(o[3] as nat);
    lemma_no_dot(o[0]);
    lemma_no_dot(o[1]);
    lemma_no_dot(o[2]);
    lemma_no_dot(o[3]);
    lemma_dec_octet_of_decimal(o[0]);
    lemma_dec_octet_of_decimal(o[1]);
    lemma_dec_octet_of_decimal(o[2]);
    lemma_dec_octet_of_decimal(o[3]);
    let a = d0 + seq!['.'] + d1;
    let b = a + seq!['.'] + d2;
    lemma_split_on_concat(d0, d1, '.');
    lemma_split_on_concat(a, d2, '.');
    lemma_split_on_concat(b, d3, '.');
    assert(ipv4_text(o) == b + seq!['.'] + d3);
    let p = split_on(ipv4_text(o), '.');
    assert(p =~= seq![d0, d1, d2, d3]);
    assert(seq![o[0], o[1], o[2], o[3]] =~= o);
}

/// An accepted IPv4 text is exactly the text written for the address it reads
/// as: the dotted-decimal form of an address is unique.
pub proof fn law_ipv4_parse_canonical(s: Seq<char>)
    requires
        parse_ipv4_spec(s) is Some,
    ensures
        ipv4_text(parse_ipv4_spec(s)->0) == s,
{
    let p = split_on(s, '.');
    lemma_split_join(s, '.');
    let o = parse_ipv4_spec(s)->0;
    assert forall|i: int| 0 <= i < 4 implies decimal(o[i] as nat) == #[trigger] p[i] by {
        lemma_decimal_canonical(p[i]);
    }
    let p1 = p.drop_last().drop_last().drop_last();
    let p2 = p.drop_last().drop_last();
    let p3 = p.drop_last();
    assert(p1 =~= seq![p[0]]);
    assert(p2 =~= seq![p[0], p[1]]);
    assert(p3 =~= seq![p[0], p[1], p[2]]);
    assert(join_on(p1, '.') == p[0]);
    assert(join_on(p2, '.') == p[0] + seq!['.'] + p[1]);
    assert(join_on(p3, '.') == p[0] + seq!['.'] + p[1] + seq!['.'] + p[2]);
    assert(join_on(p, '.') == p[0] + seq!['.'] + p[1] + seq!['.'] + p[2] + seq!['.'] + p[3]);
    assert(join_on(p, '.') =~= ipv4_text(o));
}


proof fn lemma_hex_digit_char(d: nat)
    requires
        d < 16,
    ensures
        is_hex_digit(digit_char(d)),
        hex_digit_value(digit_char(d)) == d,
        digit_char(d) != ':',
        digit_char(d) != '.',
{
    lemma_digit_char(d);
}

/// The hexadecimal numeral of `n` is a run of one to four (for a segment)
/// hexadecimal digits whose value is `n`.
pub proof fn lemma_hex_shape(n: nat)
    ensures
        hex(n).len() >= 1,
        all_hex_digits(hex(n)),
        hex_value(hex(n)) == n,
        n < 16 ==> hex(n).len() == 1,
        n < 256 ==> hex(n).len() <= 2,
        n < 4096 ==> hex(n).len() <= 3,
        n < 65536 ==> hex(n).len() <= 4,
    decreases n,
{
    lemma_hex_digit_char(n % 16);
    if n < 16 {
        assert(hex(n).drop_last() =~= Seq::<char>::empty());
        assert(hex_value(hex(n).drop_last()) == 0);
    } else {
        lemma_hex_shape(n / 16);
        let d = hex(n);
        assert(d.drop_last() == hex(n / 16));
        assert(d.last() == digit_char(n % 16));
        assert(hex_value(d) == hex_value(hex(n / 16)) * 16 + hex_digit_value(d.last()));
        assert(n == (n / 16) * 16 + n % 16);
        assert forall|i: int| 0 <= i < d.len() implies is_hex_digit(#[trigger] d[i]) by {
            if i < d.len() - 1 {
                assert(d[i] == hex(n / 16)[i]);
            }
        }
    }
}

/// A segment's numeral reads back as that segment.
proof fn lemma_hex_group_of_hex(v: u16)
    ensures
        hex_group(hex(v as nat)) == Some(v),
{
    lemma_hex_shape(v as nat);
}

/// No character of a hexadecimal numeral is a colon or a dot.
proof fn lemma_hex_no_sep(n: nat)
    ensures
        forall|i: int| 0 <= i < hex(n).len() ==> #[trigger] hex(n)[i] != ':' && hex(n)[i] != '.',
{
    lemma_hex_shape(n);
    assert forall|i: int| 0 <= i < hex(n).len() implies #[trigger] hex(n)[i] != ':' && hex(n)[i]
        != '.' by {
        assert(is_hex_digit(hex(n)[i]));
    }
}

/// The segments' numerals joined with colons: no dot, no two colons in a row,
/// a hexadecimal digit at each end, and cut at the colons it gives back the
/// numerals.
proof fn lemma_hex_join_shape(g: Seq<u16>)
    ensures
        hex_join(g).len() == 0 <==> g.len() == 0,
        forall|i: int| 0 <= i < hex_join(g).len() ==> #[trigger] hex_join(g)[i] != '.',
        forall|i: int|
            0 <= i < hex_join(g).len() - 1 ==> !(#[trigger] hex_join(g)[i] == ':' && hex_join(g)[i
                + 1] == ':'),
        g.len() > 0 ==> hex_join(g)[0] != ':' && hex_join(g).last() != ':',
        g.len() > 0 ==> split_on(hex_join(g), ':') == g.map_values(|v: u16| hex(v as nat)),
    decreases g.len(),
{
    if g.len() == 1 {
        lemma_hex_shape(g[0] as nat);
        lemma_hex_no_sep(g[0] as nat);
        lemma_split_on_single(hex(g[0] as nat), ':');
        assert(seq![hex(g[0] as nat)] =~= g.map_values(|v: u16| hex(v as nat)));
    } else if g.len() > 1 {
        let init = g.drop_last();
        let x = hex_join(init);
        let y = hex(g.last() as nat);
        lemma_hex_join_shape(init);
        lemma_hex_shape(g.last() as nat);
        lemma_hex_no_sep(g.last() as nat);
        let t = hex_join(g);
        assert(t == x + seq![':'] + y);
        assert forall|i: int| 0 <= i < t.len() implies #[trigger] t[i] != '.' by {
            if i < x.len() {
                assert(t[i] == x[i]);
            } else if i > x.len() {
                assert(t[i] == y[i - x.len() - 1]);
            }
        }
        assert forall|i: int| 0 <= i < t.len() - 1 implies !(#[trigger] t[i] == ':' && t[i + 1]
            == ':') by {
            if i < x.len() - 1 {
                assert(t[i] == x[i] && t[i + 1] == x[i + 1]);
            } else if i == x.len() - 1 {
                assert(t[i] == x.last());
            } else if i == x.len() {
                assert(t[i + 1] == y[0]);
            } else {
                assert(t[i] == y[i - x.len() - 1]);
            }
        }
        assert(t[0] == x[0]);
        assert(t.last() == y.last());
        lemma_split_on_concat(x, y, ':');
        lemma_split_on_single(y, ':');
        assert(g.map_values(|v: u16| hex(v as nat)) =~= init.map_values(|v: u16| hex(v as nat))
            + seq![y]);
    }
}

/// Numerals of segments read back as those segments.
proof fn lemma_hex_groups_of_hex(g: Seq<u16>)
    ensures
        hex_groups(g.map_values(|v: u16| hex(v as nat))) == Some(g),
{
    let parts = g.map_values(|v: u16| hex(v as nat));
    assert forall|i: int| 0 <= i < parts.len() implies #[trigger] hex_group(parts[i]) == Some(g[i]) by {
        lemma_hex_group_of_hex(g[i]);
    }
    assert(Seq::new(parts.len(), |i: int| hex_group(parts[i])->0) =~= g);
}

proof fn lemma_first_double_colon_none(s: Seq<char>)
    requires
        forall|i: int| 0 <= i < s.len() - 1 ==> !(#[trigger] s[i] == ':' && s[i + 1] == ':'),
    ensures
        first_double_colon(s) is None,
    decreases s.len(),
{
    if s.len() >= 2 {
        let t = s.drop_last();
        assert forall|i: int| 0 <= i < t.len() - 1 implies !(#[trigger] t[i] == ':' && t[i + 1]
            == ':') by {
            assert(t[i] == s[i] && t[i + 1] == s[i + 1]);
        }
        lemma_first_double_colon_none(t);
        assert(!(s[s.len() - 2] == ':' && s[s.len() - 1] == ':'));
    }
}

/// In `x + "::" + y`, where `x` has no two colons in a row and does not end in
/// one, the first `::` is the one after `x`.
proof fn lemma_first_double_colon_after(x: Seq<char>, y: Seq<char>)
    requires
        forall|i: int| 0 <= i < x.len() - 1 ==> !(#[trigger] x[i] == ':' && x[i + 1] == ':'),
        x.len() > 0 ==> x.last() != ':',
    ensures
        first_double_colon(x + seq![':', ':'] + y) == Some(x.len() as int),
{
    let s = x + seq![':', ':'] + y;
    let n = x.len() as int;
    lemma_first_double_colon_none(x);
    assert(s.take(x.len() as int) =~= x);
    assert(s.take(n + 1).drop_last() =~= x);
    if x.len() >= 1 {
        assert(s.take(n + 1)[n - 1] == x.last());
    }
    assert(first_double_colon(s.take(n + 1)) is None);
    assert(s.take(n + 2).drop_last() =~= s.take(n + 1));
    assert(first_double_colon(s.take(n + 2)) == Some(x.len() as int));
    lemma_first_double_colon_extend(s, n + 2, x.len() as int);
}

/// A text without a dot is not an IPv4 address.
proof fn lemma_no_dot_not_ipv4(s: Seq<char>)
    requires
        forall|i: int| 0 <= i < s.len() ==> #[trigger] s[i] != '.',
    ensures
        parse_ipv4_spec(s) is None,
{
    lemma_split_on_single(s, '.');
}

proof fn lemma_ipv4_text_no_colon(o: Seq<u8>)
    requires
        o.len() == 4,
    ensures
        forall|i: int| 0 <= i < ipv4_text(o).len() ==> #[trigger] ipv4_text(o)[i] != ':',
        ipv4_text(o).len() > 4,
{
    lemma_dec_octet_of_decimal(o[0]);
    lemma_dec_octet_of_decimal(o[1]);
    lemma_dec_octet_of_decimal(o[2]);
    lemma_dec_octet_of_decimal(o[3]);
    let t = ipv4_text(o);
    let d0 = decimal(o[0] as nat);
    let d1 = decimal(o[1] as nat);
    let d2 = decimal(o[2] as nat);
    let d3 = decimal(o[3] as nat);
    assert forall|i: int| 0 <= i < t.len() implies #[trigger] t[i] != ':' by {
        let a = d0.len() as int;
        let b = a + 1 + d1.len();
        let c = b + 1 + d2.len();
        if i < a {
            assert(t[i] == d0[i] && is_digit(d0[i]));
        } else if i == a || i == b || i == c {
        } else if i < b {
            assert(t[i] == d1[i - a - 1] && is_digit(d1[i - a - 1]));
        } else if i < c {
            assert(t[i] == d2[i - b - 1] && is_digit(d2[i - b - 1]));
        } else {
            assert(t[i] == d3[i - c - 1] && is_digit(d3[i - c - 1]));
        }
    }
}

/// The text of an IPv4-mapped IPv6 address reads back as that address.
proof fn lemma_mapped_text_parses(g: Seq<u16>)
    requires
        g.len() == 8,
        is_ipv4_mapped(g),
    ensures
        parse_ip_spec(ipv6_text(g)) == Some(IpView::V6(g)),
{
    let mo = mapped_octets(g);
    let v4 = ipv4_text(mo);
    let ff = seq!['f', 'f', 'f', 'f'];
    let t = ipv6_text(g);
    assert(t =~= seq![':', ':'] + (ff + seq![':'] + v4));
    // not an IPv4 address: its first dotted piece starts with a colon
    let first = seq![':', ':', 'f', 'f', 'f', 'f', ':'] + decimal(mo[0] as nat);
    let rest = decimal(mo[1] as nat) + seq!['.'] + decimal(mo[2] as nat) + seq!['.'] + decimal(
        mo[3] as nat,
    );
    assert(t =~= first + seq!['.'] + rest);
    lemma_split_on_concat(first, rest, '.');
    lemma_dec_octet_of_decimal(mo[0]);
    assert forall|i: int| 0 <= i < first.len() implies #[trigger] first[i] != '.' by {
        if i >= 7 {
            assert(first[i] == decimal(mo[0] as nat)[i - 7]);
            assert(is_digit(decimal(mo[0] as nat)[i - 7]));
        }
    }
    lemma_split_on_single(first, '.');
    lemma_split_on_len(rest, '.');
    assert(split_on(t, '.')[0] == first);
    assert(!is_digit(first[0]));
    assert(dec_octet(first) is None);
    assert(parse_ipv4_spec(t) is None);
    // the IPv6 reading
    lemma_first_double_colon_after(Seq::<char>::empty(), ff + seq![':'] + v4);
    assert(Seq::<char>::empty() + seq![':', ':'] + (ff + seq![':'] + v4) =~= t);
    assert(t.subrange(0, 0) =~= Seq::<char>::empty());
    let tail = t.subrange(2, t.len() as int);
    assert(tail =~= ff + seq![':'] + v4);
    lemma_ipv4_text_no_colon(mo);
    assert forall|i: int| 0 <= i < ff.len() implies #[trigger] ff[i] != ':' by {}
    lemma_split_on_single(ff, ':');
    lemma_split_on_single(v4, ':');
    lemma_split_on_concat(ff, v4, ':');
    let parts = colon_parts(tail);
    assert(parts =~= seq![ff, v4]);
    assert(parts.drop_last() =~= seq![ff]);
    lemma_hex_group_of_hex(0xffff);
    assert(hex(0xffff) =~= ff) by {
        lemma_digit_char(15);
        reveal_with_fuel(hex, 4);
    }
    assert(hex_group(ff) == Some(0xffffu16));
    assert(hex_groups(seq![ff]) == Some(seq![0xffffu16])) by {
        assert(Seq::new(1, |i: int| hex_group(seq![ff][i])->0) =~= seq![0xffffu16]);
    }
    assert(hex_group(v4) is None);
    law_ipv4_text_parses(mo);
    assert(tail_groups(parts) == Some(seq![0xffffu16] + octet_segments(mo)));
    assert(hex_groups(colon_parts(t.subrange(0, 0))) == Some(Seq::<u16>::empty())) by {
        assert(colon_parts(t.subrange(0, 0)) =~= Seq::<Seq<char>>::empty());
        assert(Seq::new(0, |i: int| hex_group(Seq::<Seq<char>>::empty()[i])->0) =~= Seq::<u16>::empty());
    }
    assert(octet_segments(mo) =~= seq![g[6], g[7]]);
    assert(Seq::<u16>::empty() + Seq::new(5, |i: int| 0u16) + (seq![0xffffu16] + octet_segments(mo)) =~= g);
}


/// One step of the scan for the first longest zero run, as a proof: from the
/// state after `i` segments to the end.
proof fn lemma_zero_run_scan(g: Seq<u16>, i: int, bs: int, bl: int, cl: int) -> (r: (int, int))
    requires
        g.len() == 8,
        0 <= i <= 8,
        0 <= cl <= i,
        0 <= bs,
        0 <= bl,
        bs + bl <= i,
        zero_run(g, bs, bl),
        forall|a2: int, l2: int| #[trigger] zero_run(g, a2, l2) && a2 + l2 <= i ==> l2 <= bl,
        forall|a2: int| 0 <= a2 < bs ==> !#[trigger] zero_run(g, a2, bl),
        zero_run(g, i - cl, cl),
        cl < i ==> g[i - cl - 1] != 0,
    ensures
        first_longest_zero_run(g, r.0, r.1),
    decreases 8 - i,
{
    if i == 8 {
        assert forall|a2: int, l2: int| #[trigger] zero_run(g, a2, l2) implies l2 <= bl by {
            assert(a2 + l2 <= 8);
        }
        (bs, bl)
    } else {
        let (nbs, nbl, ncl) = if g[i] == 0 {
            let c = cl + 1;
            if c > bl {
                (i + 1 - c, c, c)
            } else {
                (bs, bl, c)
            }
        } else {
            (bs, bl, 0)
        };
        assert forall|a2: int, l2: int|
            #[trigger] zero_run(g, a2, l2) && a2 + l2 <= i + 1 implies l2 <= nbl by {
            if a2 + l2 == i + 1 && l2 > 0 {
                if l2 > ncl {
                    assert(g[i - ncl] == 0);
                }
            } else if l2 > 0 {
                assert(a2 + l2 <= i);
            }
        }
        lemma_zero_run_scan(g, i + 1, nbs, nbl, ncl)
    }
}

/// Every address has a first longest zero run.
proof fn lemma_longest_zero_run(g: Seq<u16>)
    requires
        g.len() == 8,
    ensures
        first_longest_zero_run(g, longest_zero_run(g).0, longest_zero_run(g).1),
{
    let r = lemma_zero_run_scan(g, 0, 0, 0, 0);
    assert(first_longest_zero_run(g, r.0, r.1));
}

/// The text of an IPv6 address that is not IPv4-mapped reads back as that
/// address.
proof fn lemma_unmapped_text_parses(g: Seq<u16>)
    requires
        g.len() == 8,
        !is_ipv4_mapped(g),
    ensures
        parse_ip_spec(ipv6_text(g)) == Some(IpView::V6(g)),
{
    lemma_longest_zero_run(g);
    let r = longest_zero_run(g);
    let a = r.0;
    let l = r.1;
    let t = ipv6_text(g);
    if l > 1 {
        let hg = g.subrange(0, a);
        let tg = g.subrange(a + l, 8);
        let h = hex_join(hg);
        let tt = hex_join(tg);
        lemma_hex_join_shape(hg);
        lemma_hex_join_shape(tg);
        assert(t == h + seq![':', ':'] + tt);
        assert forall|i: int| 0 <= i < t.len() implies #[trigger] t[i] != '.' by {
            if i < h.len() {
                assert(t[i] == h[i]);
            } else if i >= h.len() + 2 {
                assert(t[i] == tt[i - h.len() - 2]);
            }
        }
        lemma_no_dot_not_ipv4(t);
        lemma_first_double_colon_after(h, tt);
        assert(t.subrange(0, h.len() as int) =~= h);
        assert(t.subrange(h.len() as int + 2, t.len() as int) =~= tt);
        let hparts = colon_parts(h);
        assert(hex_groups(hparts) == Some(hg)) by {
            if a == 0 {
                assert(hparts =~= Seq::<Seq<char>>::empty());
                assert(Seq::new(0, |i: int| hex_group(hparts[i])->0) =~= hg);
            } else {
                lemma_hex_groups_of_hex(hg);
            }
        }
        let tparts = colon_parts(tt);
        assert(tail_groups(tparts) == Some(tg)) by {
            if a + l == 8 {
                assert(tparts =~= Seq::<Seq<char>>::empty());
                assert(tg =~= Seq::<u16>::empty());
            } else {
                let m = tg.map_values(|v: u16| hex(v as nat));
                assert(tparts == m);
                assert(m.drop_last() =~= tg.drop_last().map_values(|v: u16| hex(v as nat)));
                lemma_hex_groups_of_hex(tg.drop_last());
                lemma_hex_group_of_hex(tg.last());
                assert(m.last() == hex(tg.last() as nat));
                assert(tg.drop_last().push(tg.last()) =~= tg);
            }
        }
        assert(hg + Seq::new((8 - hg.len() - tg.len()) as nat, |i: int| 0u16) + tg =~= g);
    } else {
        assert(g.subrange(0, 8) =~= g);
        lemma_hex_join_shape(g);
        assert(t == hex_join(g));
        lemma_no_dot_not_ipv4(t);
        lemma_first_double_colon_none(t);
        lemma_hex_groups_of_hex(g);
    }
}

/// The text of an address (as `Display` writes it) reads back (as
/// `str::parse::<IpAddr>` reads it) as the same address.
pub proof fn law_ip_text_parses(a: IpAddress)
    ensures
        parse_ip_spec(ip_text(a)) == Some(a@),
{
    match a {
        IpAddress::V4(o) => {
            law_ipv4_text_parses(o@);
        },
        IpAddress::V6(g) => {
            if is_ipv4_mapped(g@) {
                lemma_mapped_text_parses(g@);
            } else {
                lemma_unmapped_text_parses(g@);
            }
        },
    }
}

} // verus!
