//! IP addresses as plain integers, and the standard textual forms in which
//! they are read.
use crate::chars::{slice_chars, split_chars, split_on, views};
use crate::text_out::{num_text, push_num};
use vstd::prelude::*;

verus! {

/// An IPv4 address: its four octets as one big-endian 32-bit number.
#[derive(Clone, Copy, Debug, PartialEq, Eq, Structural, PartialOrd, Ord, Hash)]
pub struct Ipv4Addr {
    pub bits: u32,
}

/// An IPv6 address: its eight segments as one big-endian 128-bit number.
#[derive(Clone, Copy, Debug, PartialEq, Eq, Structural, PartialOrd, Ord, Hash)]
pub struct Ipv6Addr {
    pub bits: u128,
}

/// An IPv4 or IPv6 address. Every IPv4 address orders before every IPv6 one.
#[derive(Clone, Copy, Debug, PartialEq, Eq, Structural, PartialOrd, Ord, Hash)]
pub enum IpAddr {
    V4(Ipv4Addr),
    V6(Ipv6Addr),
}

/// The text given was not an IP address.
#[derive(Clone, Copy, Debug, PartialEq, Eq, Structural)]
pub struct AddrParseError;

pub open spec fn octets_value(a: int, b: int, c: int, d: int) -> int {
    ((a * 256 + b) * 256 + c) * 256 + d
}

/// The number whose base-65536 digits are `s`, most significant first.
pub open spec fn segments_value(s: Seq<int>) -> int
    decreases s.len(),
{
    if s.len() == 0 {
        0
    } else {
        segments_value(s.drop_last()) * 65536 + s.last()
    }
}

impl Ipv4Addr {
    /// The address `a.b.c.d`.
    pub fn new(a: u8, b: u8, c: u8, d: u8) -> (r: Ipv4Addr)
        ensures
            r.bits == octets_value(a as int, b as int, c as int, d as int),
    {
        let x1: u32 = a as u32 * 256 + b as u32;
        assert(x1 < 65536);
        let x2: u32 = x1 * 256 + c as u32;
        assert(x2 < 16777216) by (nonlinear_arith)
            requires
                x1 < 65536,
                x2 == x1 * 256 + c,
                c < 256,
        ;
        let x3: u32 = x2 * 256 + d as u32;
        Ipv4Addr { bits: x3 }
    }
}

/// One more 16-bit segment shifted in at the low end.
fn shift_in_segment(x: u128, s: u16) -> (r: u128)
    requires
        x < 0x1_0000_0000_0000_0000_0000_0000_0000,
    ensures
        r == x * 65536 + s,
        x < 0x1_0000_0000_0000_0000_0000_0000 ==> r < 0x1_0000_0000_0000_0000_0000_0000_0000,
        x < 0x1_0000_0000_0000_0000_0000 ==> r < 0x1_0000_0000_0000_0000_0000_0000,
        x < 0x1_0000_0000_0000_0000 ==> r < 0x1_0000_0000_0000_0000_0000,
        x < 0x1_0000_0000_0000 ==> r < 0x1_0000_0000_0000_0000,
        x < 0x1_0000_0000 ==> r < 0x1_0000_0000_0000,
        x < 0x1_0000 ==> r < 0x1_0000_0000,
{
    assert(x * 65536 + s < 0x1_0000_0000_0000_0000_0000_0000_0000_0000) by (nonlinear_arith)
        requires
            x < 0x1_0000_0000_0000_0000_0000_0000_0000,
            s < 65536,
    ;
    assert(x < 0x1_0000_0000_0000_0000_0000_0000 ==> x * 65536 + s
        < 0x1_0000_0000_0000_0000_0000_0000_0000) by (nonlinear_arith)
        requires
            s < 65536,
    ;
    assert(x < 0x1_0000_0000_0000_0000_0000 ==> x * 65536 + s
        < 0x1_0000_0000_0000_0000_0000_0000) by (nonlinear_arith)
        requires
            s < 65536,
    ;
    assert(x < 0x1_0000_0000_0000_0000 ==> x * 65536 + s < 0x1_0000_0000_0000_0000_0000)
        by (nonlinear_arith)
        requires
            s < 65536,
    ;
    assert(x < 0x1_0000_0000_0000 ==> x * 65536 + s < 0x1_0000_0000_0000_0000)
        by (nonlinear_arith)
        requires
            s < 65536,
    ;
    assert(x < 0x1_0000_0000 ==> x * 65536 + s < 0x1_0000_0000_0000) by (nonlinear_arith)
        requires
            s < 65536,
    ;
    assert(x < 0x1_0000 ==> x * 65536 + s < 0x1_0000_0000) by (nonlinear_arith)
        requires
            s < 65536,
    ;
    x * 65536 + s as u128
}

impl Ipv6Addr {
    /// The address with segments `a:b:c:d:e:f:g:h`.
    pub fn new(a: u16, b: u16, c: u16, d: u16, e: u16, f: u16, g: u16, h: u16) -> (r: Ipv6Addr)
        ensures
            r.bits == segments_value(
                seq![a as int, b as int, c as int, d as int, e as int, f as int, g as int, h as int],
            ),
    {
        let x: u128 = shift_in_segment(a as u128, b);
        let x = shift_in_segment(x, c);
        let x = shift_in_segment(x, d);
        let x = shift_in_segment(x, e);
        let x = shift_in_segment(x, f);
        let x = shift_in_segment(x, g);
        let x = shift_in_segment(x, h);
        proof {
            let (a, b, c, d, e, f, g, h) = (
                a as int,
                b as int,
                c as int,
                d as int,
                e as int,
                f as int,
                g as int,
                h as int,
            );
            assert(seq![a, b, c, d, e, f, g, h].drop_last() == seq![a, b, c, d, e, f, g]);
            assert(seq![a, b, c, d, e, f, g].drop_last() == seq![a, b, c, d, e, f]);
            assert(seq![a, b, c, d, e, f].drop_last() == seq![a, b, c, d, e]);
            assert(seq![a, b, c, d, e].drop_last() == seq![a, b, c, d]);
            assert(seq![a, b, c, d].drop_last() == seq![a, b, c]);
            assert(seq![a, b, c].drop_last() == seq![a, b]);
            assert(seq![a, b].drop_last() == seq![a]);
            assert(seq![a].drop_last() == Seq::<int>::empty());
            reveal_with_fuel(segments_value, 9);
        }
        Ipv6Addr { bits: x }
    }
}

/// The position of an address in the order of all addresses: IPv4 ones
/// first, by value, then IPv6 ones, by value.
pub open spec fn addr_key(a: IpAddr) -> int {
    match a {
        IpAddr::V4(x) => x.bits as int,
        IpAddr::V6(x) => 0x1_0000_0000 + x.bits as int,
    }
}

impl IpAddr {
    /// Whether `self` orders strictly before `other`.
    pub fn orders_before(&self, other: &IpAddr) -> (r: bool)
        ensures
            r == (addr_key(*self) < addr_key(*other)),
    {
        match (self, other) {
            (IpAddr::V4(x), IpAddr::V4(y)) => x.bits < y.bits,
            (IpAddr::V4(_), IpAddr::V6(_)) => true,
            (IpAddr::V6(_), IpAddr::V4(_)) => false,
            (IpAddr::V6(x), IpAddr::V6(y)) => x.bits < y.bits,
        }
    }

    /// Whether both are the same address.
    pub fn same_as(&self, other: &IpAddr) -> (r: bool)
        ensures
            r == (*self == *other),
    {
        match (self, other) {
            (IpAddr::V4(x), IpAddr::V4(y)) => x.bits == y.bits,
            (IpAddr::V6(x), IpAddr::V6(y)) => x.bits == y.bits,
            _ => false,
        }
    }
}

/// Distinct addresses have distinct positions in the order.
pub proof fn lemma_addr_key_injective(a: IpAddr, b: IpAddr)
    ensures
        addr_key(a) == addr_key(b) ==> a == b,
{
}

// ---- digits ----
pub open spec fn digit_value(c: char, base: int) -> Option<int> {
    let v = if '0' <= c && c <= '9' {
        c as int - '0' as int
    } else if 'a' <= c && c <= 'f' {
        c as int - 'a' as int + 10
    } else if 'A' <= c && c <= 'F' {
        c as int - 'A' as int + 10
    } else {
        base
    };
    if v < base {
        Some(v)
    } else {
        None
    }
}

pub open spec fn all_digits(s: Seq<char>, base: int) -> bool {
    forall|i: int| 0 <= i < s.len() ==> (#[trigger] digit_value(s[i], base)) is Some
}

/// The number written by the digits `s` in `base`, most significant first.
pub open spec fn digits_value(s: Seq<char>, base: int) -> int
    decreases s.len(),
{
    if s.len() == 0 {
        0
    } else {
        digits_value(s.drop_last(), base) * base + digit_value(s.last(), base)->0
    }
}

/// A decimal octet as an IPv4 address writes it: one to three digits, no
/// leading zero, at most 255.
pub open spec fn dec_octet(p: Seq<char>) -> bool {
    1 <= p.len() <= 3 && all_digits(p, 10) && (p.len() > 1 ==> p[0] != '0') && digits_value(p, 10)
        <= 255
}

/// A group of an IPv6 address: one to four hexadecimal digits.
pub open spec fn hex_group(p: Seq<char>) -> bool {
    1 <= p.len() <= 4 && all_digits(p, 16)
}

/// The IPv4 address that `s` writes as a dotted quad, if any.
pub open spec fn ipv4_value(s: Seq<char>) -> Option<Ipv4Addr> {
    let p = split_on(s, '.');
    if p.len() == 4 && dec_octet(p[0]) && dec_octet(p[1]) && dec_octet(p[2]) && dec_octet(p[3]) {
        Some(
            Ipv4Addr {
                bits: octets_value(
                    digits_value(p[0], 10),
                    digits_value(p[1], 10),
                    digits_value(p[2], 10),
                    digits_value(p[3], 10),
                ) as u32,
            },
        )
    } else {
        None
    }
}

pub open spec fn all_hex_groups(parts: Seq<Seq<char>>) -> bool {
    forall|i: int| 0 <= i < parts.len() ==> #[trigger] hex_group(parts[i])
}

pub open spec fn group_values(parts: Seq<Seq<char>>) -> Seq<int> {
    parts.map_values(|p: Seq<char>| digits_value(p, 16))
}

/// Groups that may end in an embedded IPv4 address.
pub open spec fn tail_ok(parts: Seq<Seq<char>>) -> bool {
    parts.len() == 0 || all_hex_groups(parts) || (all_hex_groups(parts.drop_last())
        && ipv4_value(parts.last()) is Some)
}

/// The segments that such groups stand for; an embedded IPv4 address stands
/// for two.
pub open spec fn tail_values(parts: Seq<Seq<char>>) -> Seq<int> {
    if parts.len() == 0 || all_hex_groups(parts) {
        group_values(parts)
    } else {
        let v = ipv4_value(parts.last())->0.bits as int;
        group_values(parts.drop_last()) + seq![v / 65536, v % 65536]
    }
}

/// The groups of a colon-separated text; none for the empty text.
pub open spec fn groups_of(s: Seq<char>) -> Seq<Seq<char>> {
    if s.len() == 0 {
        Seq::empty()
    } else {
        split_on(s, ':')
    }
}

/// The first position at or after `i` where `::` stands in `s`.
pub open spec fn double_colon_from(s: Seq<char>, i: int) -> Option<int>
    decreases s.len() - i,
{
    if i < 0 || i + 1 >= s.len() {
        None
    } else if s[i] == ':' && s[i + 1] == ':' {
        Some(i)
    } else {
        double_colon_from(s, i + 1)
    }
}

/// The eight segments of the IPv6 address that `s` writes, if any: groups
/// separated by `:`, at most one `::` standing for one or more zero segments,
/// and optionally an IPv4 address in place of the last two segments.
pub open spec fn ipv6_segments(s: Seq<char>) -> Option<Seq<int>> {
    match double_colon_from(s, 0) {
        Some(k) => {
            let hp = groups_of(s.take(k));
            let tp = groups_of(s.skip(k + 2));
            if all_hex_groups(hp) && tail_ok(tp) && hp.len() + tail_values(tp).len() <= 7 {
                Some(
                    group_values(hp) + Seq::new(
                        (8 - hp.len() - tail_values(tp).len()) as nat,
                        |i: int| 0int,
                    ) + tail_values(tp),
                )
            } else {
                None
            }
        },
        None => {
            let p = split_on(s, ':');
            if tail_ok(p) && tail_values(p).len() == 8 {
                Some(tail_values(p))
            } else {
                None
            }
        },
    }
}

/// The address that `s` writes, if any: a dotted quad, else an IPv6 address.
pub open spec fn ip_value(s: Seq<char>) -> Option<IpAddr> {
    match ipv4_value(s) {
        Some(a) => Some(IpAddr::V4(a)),
        None => match ipv6_segments(s) {
            Some(x) => Some(IpAddr::V6(Ipv6Addr { bits: segments_value(x) as u128 })),
            None => None,
        },
    }
}

pub open spec fn pow16(n: nat) -> int
    decreases n,
{
    if n == 0 {
        1
    } else {
        16 * pow16((n - 1) as nat)
    }
}

pub open spec fn ints(s: Seq<u16>) -> Seq<int> {
    s.map_values(|x: u16| x as int)
}

fn digit_of(c: char, base: u32) -> (r: Option<u32>)
    requires
        base == 10 || base == 16,
    ensures
        (r is Some) == (digit_value(c, base as int) is Some),
        r is Some ==> r->0 as int == digit_value(c, base as int)->0,
{
    let v: u32 = if '0' <= c && c <= '9' {
        c as u32 - '0' as u32
    } else if 'a' <= c && c <= 'f' {
        c as u32 - 'a' as u32 + 10
    } else if 'A' <= c && c <= 'F' {
        c as u32 - 'A' as u32 + 10
    } else {
        base
    };
    if v < base {
        Some(v)
    } else {
        None
    }
}

/// Reads the digits `p` in `base`, of which there must be one to `max`.
fn read_number(p: &Vec<char>, base: u32, max: usize) -> (r: Option<u32>)
    requires
        base == 10 || base == 16,
        1 <= max <= 4,
    ensures
        (r is Some) == (1 <= p@.len() <= max && all_digits(p@, base as int)),
        r is Some ==> r->0 as int == digits_value(p@, base as int),
        r is Some ==> r->0 < 65536,
{
    if p.len() == 0 || p.len() > max {
        return None;
    }
    let mut acc: u32 = 0;
    let mut i: usize = 0;
    assert(p@.take(0) =~= Seq::<char>::empty());
    while i < p.len()
        invariant
            base == 10 || base == 16,
            i <= p@.len() <= 4,
            acc as int == digits_value(p@.take(i as int), base as int),
            acc + 1 <= pow16(i as nat),
            all_digits(p@.take(i as int), base as int),
        decreases p@.len() - i,
    {
        let d = digit_of(p[i], base);
        match d {
            None => {
                assert(!all_digits(p@, base as int)) by {
                    assert(digit_value(p@[i as int], base as int) is None);
                }
                return None;
            },
            Some(d) => {
                assert(acc * base + d + 1 <= 16 * pow16(i as nat)) by (nonlinear_arith)
                    requires
                        acc + 1 <= pow16(i as nat),
                        base <= 16,
                        d < base,
                ;
                assert(pow16(i as nat) <= 4096) by {
                    reveal_with_fuel(pow16, 5);
                }
                let ghost pre = p@.take(i as int);
                acc = acc * base + d;
                i += 1;
                assert(p@.take(i as int).drop_last() =~= pre);
                assert(all_digits(p@.take(i as int), base as int)) by {
                    assert forall|j: int| 0 <= j < i implies (#[trigger] digit_value(
                        p@.take(i as int)[j],
                        base as int,
                    )) is Some by {
                        if j < i - 1 {
                            assert(p@.take(i as int)[j] == pre[j]);
                        }
                    }
                }
            },
        }
    }
    assert(p@.take(p@.len() as int) =~= p@);
    assert(pow16(4) == 65536) by {
        reveal_with_fuel(pow16, 5);
    }
    assert(pow16(i as nat) <= 65536) by {
        reveal_with_fuel(pow16, 5);
    }
    Some(acc)
}

fn read_octet(p: &Vec<char>) -> (r: Option<u8>)
    ensures
        (r is Some) == dec_octet(p@),
        r is Some ==> r->0 as int == digits_value(p@, 10),
{
    match read_number(p, 10, 3) {
        None => None,
        Some(v) => {
            if p.len() > 1 && p[0] == '0' {
                None
            } else if v > 255 {
                None
            } else {
                Some(v as u8)
            }
        },
    }
}

/// Reads a dotted quad.
pub fn parse_ipv4_chars(v: &Vec<char>) -> (r: Option<Ipv4Addr>)
    ensures
        r == ipv4_value(v@),
{
    let parts = split_chars(v, '.');
    if parts.len() != 4 {
        return None;
    }
    proof {
        assert(views(parts@)[0] == parts@[0]@);
        assert(views(parts@)[1] == parts@[1]@);
        assert(views(parts@)[2] == parts@[2]@);
        assert(views(parts@)[3] == parts@[3]@);
    }
    let a = read_octet(&parts[0]);
    let b = read_octet(&parts[1]);
    let c = read_octet(&parts[2]);
    let d = read_octet(&parts[3]);
    match (a, b, c, d) {
        (Some(a), Some(b), Some(c), Some(d)) => Some(Ipv4Addr::new(a, b, c, d)),
        _ => None,
    }
}

/// The values of the first `n` groups, if all are hexadecimal groups.
fn hex_values(parts: &Vec<Vec<char>>, n: usize) -> (r: Option<Vec<u16>>)
    requires
        n <= parts@.len(),
    ensures
        (r is Some) == all_hex_groups(views(parts@).take(n as int)),
        r is Some ==> ints(r->0@) == group_values(views(parts@).take(n as int)),
{
    let mut out: Vec<u16> = Vec::new();
    let mut i: usize = 0;
    while i < n
        invariant
            n <= parts@.len(),
            i <= n,
            all_hex_groups(views(parts@).take(i as int)),
            ints(out@) == group_values(views(parts@).take(i as int)),
        decreases n - i,
    {
        assert(views(parts@)[i as int] == parts@[i as int]@);
        match read_number(&parts[i], 16, 4) {
            None => {
                assert(!hex_group(views(parts@).take(n as int)[i as int]));
                return None;
            },
            Some(x) => {
                let ghost prev = out@;
                let ghost pre = views(parts@).take(i as int);
                out.push(x as u16);
                i += 1;
                let ghost now = views(parts@).take(i as int);
                assert(ints(out@) =~= ints(prev).push(x as int));
                assert(now =~= pre.push(parts@[i - 1]@));
                assert(group_values(now) =~= group_values(pre).push(digits_value(parts@[i - 1]@, 16)));
                assert(all_hex_groups(now)) by {
                    assert forall|j: int| 0 <= j < now.len() implies #[trigger] hex_group(now[j]) by {
                        if j < pre.len() {
                            assert(now[j] == pre[j]);
                        }
                    }
                }
            },
        }
    }
    Some(out)
}

/// The segments that groups stand for, if they may end an address.
fn tail_segments(parts: &Vec<Vec<char>>) -> (r: Option<Vec<u16>>)
    ensures
        (r is Some) == tail_ok(views(parts@)),
        r is Some ==> ints(r->0@) == tail_values(views(parts@)),
{
    let n = parts.len();
    assert(views(parts@).take(n as int) =~= views(parts@));
    if n == 0 {
        let e: Vec<u16> = Vec::new();
        assert(ints(e@) =~= tail_values(views(parts@)));
        return Some(e);
    }
    match hex_values(parts, n) {
        Some(x) => Some(x),
        None => {
            assert(views(parts@).take(n - 1) =~= views(parts@).drop_last());
            assert(views(parts@)[n - 1] == parts@[n - 1]@);
            match hex_values(parts, n - 1) {
                None => None,
                Some(x) => match parse_ipv4_chars(&parts[n - 1]) {
                    None => None,
                    Some(a) => {
                        let mut x = x;
                        x.push((a.bits / 65536) as u16);
                        x.push((a.bits % 65536) as u16);
                        assert(ints(x@) =~= tail_values(views(parts@)));
                        Some(x)
                    },
                },
            }
        },
    }
}

fn double_colon_pos(v: &Vec<char>) -> (r: Option<usize>)
    ensures
        r is None ==> double_colon_from(v@, 0) is None,
        r is Some ==> double_colon_from(v@, 0) == Some(r->0 as int) && r->0 + 1 < v@.len(),
{
    let mut i: usize = 0;
    while i < v.len() && i + 1 < v.len()
        invariant
            i <= v@.len(),
            double_colon_from(v@, 0) == double_colon_from(v@, i as int),
        decreases v@.len() - i,
    {
        if v[i] == ':' && v[i + 1] == ':' {
            return Some(i);
        }
        i += 1;
    }
    None
}

fn groups_chars(v: &Vec<char>) -> (r: Vec<Vec<char>>)
    ensures
        views(r@) == groups_of(v@),
{
    if v.len() == 0 {
        let e: Vec<Vec<char>> = Vec::new();
        assert(views(e@) =~= groups_of(v@));
        e
    } else {
        split_chars(v, ':')
    }
}

fn segments_address(s: &Vec<u16>) -> (r: Ipv6Addr)
    requires
        s@.len() == 8,
    ensures
        r.bits == segments_value(ints(s@)),
{
    assert(ints(s@) =~= seq![
        s@[0] as int,
        s@[1] as int,
        s@[2] as int,
        s@[3] as int,
        s@[4] as int,
        s@[5] as int,
        s@[6] as int,
        s@[7] as int,
    ]);
    Ipv6Addr::new(s[0], s[1], s[2], s[3], s[4], s[5], s[6], s[7])
}

/// Reads an IPv6 address.
pub fn parse_ipv6_chars(v: &Vec<char>) -> (r: Option<Ipv6Addr>)
    ensures
        (r is Some) == (ipv6_segments(v@) is Some),
        r is Some ==> r->0.bits == segments_value(ipv6_segments(v@)->0),
{
    match double_colon_pos(v) {
        Some(k) => {
            let n = v.len();
            let h = slice_chars(v, 0, k);
            let t = slice_chars(v, k + 2, n);
            assert(h@ =~= v@.take(k as int));
            assert(t@ =~= v@.skip(k + 2));
            let hp = groups_chars(&h);
            let tp = groups_chars(&t);
            assert(views(hp@).take(hp@.len() as int) =~= views(hp@));
            let hv = hex_values(&hp, hp.len());
            let tv = tail_segments(&tp);
            match (hv, tv) {
                (Some(a), Some(b)) => {
                    if a.len() <= 7 && b.len() <= 7 - a.len() {
                        let mut a = a;
                        let z: usize = 8 - a.len() - b.len();
                        let ghost head = ints(a@);
                        let mut j: usize = 0;
                        while j < z
                            invariant
                                j <= z,
                                ints(a@) == head + Seq::new(j as nat, |i: int| 0int),
                            decreases z - j,
                        {
                            let ghost prev = a@;
                            a.push(0);
                            j += 1;
                            assert(ints(a@) =~= ints(prev).push(0));
                            assert(ints(a@) =~= head + Seq::new(j as nat, |i: int| 0int));
                        }
                        let mut j: usize = 0;
                        let ghost mid = ints(a@);
                        while j < b.len()
                            invariant
                                j <= b@.len(),
                                ints(a@) == mid + ints(b@).take(j as int),
                            decreases b@.len() - j,
                        {
                            let ghost prev = a@;
                            a.push(b[j]);
                            j += 1;
                            assert(ints(a@) =~= ints(prev).push(b@[j - 1] as int));
                            assert(ints(a@) =~= mid + ints(b@).take(j as int));
                        }
                        assert(ints(b@).take(b@.len() as int) =~= ints(b@));
                        Some(segments_address(&a))
                    } else {
                        None
                    }
                },
                _ => None,
            }
        },
        None => {
            let p = split_chars(v, ':');
            match tail_segments(&p) {
                Some(x) => {
                    if x.len() == 8 {
                        Some(segments_address(&x))
                    } else {
                        None
                    }
                },
                None => None,
            }
        },
    }
}

impl IpAddr {
    /// Reads an address from its characters.
    pub fn parse_chars(v: &Vec<char>) -> (r: Result<IpAddr, AddrParseError>)
        ensures
            r is Ok <==> ip_value(v@) is Some,
            r is Ok ==> ip_value(v@) == Some(r->Ok_0),
    {
        match parse_ipv4_chars(v) {
            Some(a) => Ok(IpAddr::V4(a)),
            None => match parse_ipv6_chars(v) {
                Some(a) => Ok(IpAddr::V6(a)),
                None => Err(AddrParseError),
            },
        }
    }

    /// Reads an address in one of its standard textual forms: a dotted quad,
    /// or IPv6 groups with at most one `::` and an optional trailing IPv4 part.
    pub fn parse(s: &str) -> (r: Result<IpAddr, AddrParseError>)
        ensures
            r is Ok <==> ip_value(s@) is Some,
            r is Ok ==> ip_value(s@) == Some(r->Ok_0),
    {
        let v = crate::chars::chars_of(s);
        IpAddr::parse_chars(&v)
    }
}

/// A dotted quad: the four octets of `bits` in decimal.
pub open spec fn ipv4_text(bits: int) -> Seq<char> {
    num_text((bits / 16777216) as nat, 10) + seq!['.'] + num_text(((bits / 65536) % 256) as nat, 10)
        + seq!['.'] + num_text(((bits / 256) % 256) as nat, 10) + seq!['.'] + num_text(
        (bits % 256) as nat,
        10,
    )
}

/// 65536 to the power `7 - i`: what segment `i` of an IPv6 address is worth.
pub open spec fn segment_weight(i: int) -> int {
    if i == 0 {
        0x1_0000_0000_0000_0000_0000_0000_0000
    } else if i == 1 {
        0x1_0000_0000_0000_0000_0000_0000
    } else if i == 2 {
        0x1_0000_0000_0000_0000_0000
    } else if i == 3 {
        0x1_0000_0000_0000_0000
    } else if i == 4 {
        0x1_0000_0000_0000
    } else if i == 5 {
        0x1_0000_0000
    } else if i == 6 {
        0x1_0000
    } else {
        1
    }
}

/// The eight segments of an IPv6 address, most significant first.
pub open spec fn segments_of(bits: int) -> Seq<int> {
    Seq::new(8, |i: int| (bits / segment_weight(i)) % 65536)
}

/// The length of the run of zeros that ends just before position `i`.
pub open spec fn zeros_before(s: Seq<int>, i: int) -> int
    decreases i,
{
    if i <= 0 || s[i - 1] != 0 {
        0
    } else {
        zeros_before(s, i - 1) + 1
    }
}

/// The start and length of the first longest run of zeros among the first
/// `n` elements of `s`.
pub open spec fn longest_zeros(s: Seq<int>, n: int) -> (int, int)
    decreases n,
{
    if n <= 0 {
        (0, 0)
    } else {
        let b = longest_zeros(s, n - 1);
        let z = zeros_before(s, n);
        if z > b.1 {
            (n - z, z)
        } else {
            b
        }
    }
}

/// The segments in hexadecimal, separated by colons.
pub open spec fn hex_join(s: Seq<int>) -> Seq<char>
    decreases s.len(),
{
    if s.len() == 0 {
        Seq::empty()
    } else if s.len() == 1 {
        num_text(s[0] as nat, 16)
    } else {
        hex_join(s.drop_last()) + seq![':'] + num_text(s.last() as nat, 16)
    }
}

/// The standard text of an IPv6 address: an IPv4-mapped address as
/// `::ffff:` and a dotted quad; else the segments in hexadecimal, with the
/// first longest run of two or more zero segments written as `::`.
pub open spec fn ipv6_text(bits: int) -> Seq<char> {
    let s = segments_of(bits);
    if s[0] == 0 && s[1] == 0 && s[2] == 0 && s[3] == 0 && s[4] == 0 && s[5] == 0xffff {
        seq![':', ':', 'f', 'f', 'f', 'f', ':'] + ipv4_text(s[6] * 65536 + s[7])
    } else {
        let (start, len) = longest_zeros(s, 8);
        if len > 1 {
            hex_join(s.take(start)) + seq![':', ':'] + hex_join(s.skip(start + len))
        } else {
            hex_join(s)
        }
    }
}

pub open spec fn ip_text(a: IpAddr) -> Seq<char> {
    match a {
        IpAddr::V4(x) => ipv4_text(x.bits as int),
        IpAddr::V6(x) => ipv6_text(x.bits as int),
    }
}

fn push_ipv4(out: &mut String, bits: u32)
    ensures
        final(out)@ == old(out)@ + ipv4_text(bits as int),
{
    proof {
        reveal_strlit(".");
    }
    push_num(out, bits / 16777216, 10);
    out.append(".");
    push_num(out, (bits / 65536) % 256, 10);
    out.append(".");
    push_num(out, (bits / 256) % 256, 10);
    out.append(".");
    push_num(out, bits % 256, 10);
    assert(final(out)@ =~= old(out)@ + ipv4_text(bits as int));
}

fn ipv6_segments_vec(bits: u128) -> (r: Vec<u32>)
    ensures
        r@.len() == 8,
        forall|i: int| 0 <= i < 8 ==> r@[i] as int == #[trigger] segments_of(bits as int)[i],
        forall|i: int| 0 <= i < 8 ==> r@[i] < 65536,
{
    let weights: [u128; 8] = [
        0x1_0000_0000_0000_0000_0000_0000_0000,
        0x1_0000_0000_0000_0000_0000_0000,
        0x1_0000_0000_0000_0000_0000,
        0x1_0000_0000_0000_0000,
        0x1_0000_0000_0000,
        0x1_0000_0000,
        0x1_0000,
        1,
    ];
    let mut r: Vec<u32> = Vec::new();
    let mut i: usize = 0;
    while i < 8
        invariant
            i <= 8,
            r@.len() == i,
            forall|k: int| 0 <= k < 8 ==> weights@[k] == segment_weight(k),
            forall|k: int| 0 <= k < i ==> r@[k] as int == #[trigger] segments_of(bits as int)[k],
            forall|k: int| 0 <= k < i ==> r@[k] < 65536,
        decreases 8 - i,
    {
        let w = weights[i];
        assert(w == segment_weight(i as int));
        assert(w > 0);
        r.push(((bits / w) % 65536) as u32);
        i += 1;
    }
    r
}

fn push_hex_join(out: &mut String, s: &Vec<u32>, lo: usize, hi: usize)
    requires
        lo <= hi <= s@.len(),
    ensures
        final(out)@ == old(out)@ + hex_join(ints32(s@).subrange(lo as int, hi as int)),
{
    let ghost start = out@;
    let mut i: usize = lo;
    assert(ints32(s@).subrange(lo as int, lo as int) =~= Seq::<int>::empty());
    assert(out@ =~= start + hex_join(ints32(s@).subrange(lo as int, lo as int)));
    while i < hi
        invariant
            lo <= i <= hi <= s@.len(),
            out@ == start + hex_join(ints32(s@).subrange(lo as int, i as int)),
        decreases hi - i,
    {
        let ghost sub = ints32(s@).subrange(lo as int, i as int + 1);
        let ghost before = out@;
        assert(sub.drop_last() =~= ints32(s@).subrange(lo as int, i as int));
        assert(sub.last() == s@[i as int] as int);
        if i > lo {
            proof {
                reveal_strlit(":");
            }
            out.append(":");
            assert(out@ =~= before + seq![':']);
        }
        let ghost mid = out@;
        push_num(out, s[i], 16);
        assert(out@ == mid + num_text(sub.last() as nat, 16));
        proof {
            if i == lo {
                assert(sub[0] == s@[lo as int]);
                assert(hex_join(sub) == num_text(sub[0] as nat, 16));
            } else {
                assert(hex_join(sub) == hex_join(sub.drop_last()) + seq![':'] + num_text(
                    sub.last() as nat,
                    16,
                ));
            }
        }
        i += 1;
        assert(out@ =~= start + hex_join(sub));
    }
}

pub open spec fn ints32(s: Seq<u32>) -> Seq<int> {
    s.map_values(|x: u32| x as int)
}

fn push_ipv6(out: &mut String, bits: u128)
    ensures
        final(out)@ == old(out)@ + ipv6_text(bits as int),
{
    let s = ipv6_segments_vec(bits);
    let ghost ss = segments_of(bits as int);
    assert(ints32(s@) =~= ss);
    if s[0] == 0 && s[1] == 0 && s[2] == 0 && s[3] == 0 && s[4] == 0 && s[5] == 0xffff {
        proof {
            reveal_strlit("::ffff:");
        }
        out.append("::ffff:");
        push_ipv4(out, s[6] * 65536 + s[7]);
        assert(final(out)@ =~= old(out)@ + ipv6_text(bits as int));
        return;
    }
    let mut best_start: usize = 0;
    let mut best_len: usize = 0;
    let mut cur_len: usize = 0;
    let mut i: usize = 0;
    while i < 8
        invariant
            i <= 8,
            s@.len() == 8,
            ints32(s@) == ss,
            cur_len == zeros_before(ss, i as int),
            cur_len <= i,
            (best_start as int, best_len as int) == longest_zeros(ss, i as int),
            best_start + best_len <= i,
        decreases 8 - i,
    {
        if s[i] == 0 {
            cur_len += 1;
        } else {
            cur_len = 0;
        }
        i += 1;
        if cur_len > best_len {
            best_start = i - cur_len;
            best_len = cur_len;
        }
    }
    if best_len > 1 {
        proof {
            reveal_strlit("::");
        }
        push_hex_join(out, &s, 0, best_start);
        out.append("::");
        push_hex_join(out, &s, best_start + best_len, 8);
        assert(ss.take(best_start as int) =~= ss.subrange(0, best_start as int));
        assert(ss.skip(best_start + best_len) =~= ss.subrange(best_start + best_len, 8));
    } else {
        push_hex_join(out, &s, 0, 8);
        assert(ss =~= ss.subrange(0, 8));
    }
    assert(final(out)@ =~= old(out)@ + ipv6_text(bits as int));
}

/// Appends the standard text of `a` to `out`.
pub fn push_ip(out: &mut String, a: &IpAddr)
    ensures
        final(out)@ == old(out)@ + ip_text(*a),
{
    match a {
        IpAddr::V4(x) => push_ipv4(out, x.bits),
        IpAddr::V6(x) => push_ipv6(out, x.bits),
    }
}

impl IpAddr {
    /// The standard text of the address.
    pub fn to_text(&self) -> (r: String)
        ensures
            r@ == ip_text(*self),
    {
        let mut out = String::new();
        push_ip(&mut out, self);
        assert(out@ =~= ip_text(*self));
        out
    }
}

} // verus!
