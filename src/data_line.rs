//! Records: one address and the aliases that stand for it, the rules an
//! alias must follow, and the grammar of a record's text.
use crate::address::{
    addr_key, ip_value, ipv4_value, parse_ipv4_chars, AddrParseError, IpAddr, Ipv4Addr,
};
use crate::text_order::{insert_sorted, string_texts, strictly_sorted};
use crate::address::{ip_text, push_ip};
use crate::chars::{
    chars_of, find_space, range_texts, slice_chars, space_from, trim, trim_bounds, word_ranges,
    words,
};
use vstd::prelude::*;

verus! {

/// The characters that may not stand in an alias: those that cannot stand
/// in the host of a URL.
pub open spec fn is_forbidden(c: char) -> bool {
    c == '\0' || c == '\t' || c == '\n' || c == '\r' || c == ' ' || c == '#' || c == '%' || c
        == '/' || c == ':' || c == '?' || c == '@' || c == '[' || c == '\\' || c == ']'
}

pub fn is_forbidden_char(c: char) -> (r: bool)
    ensures
        r == is_forbidden(c),
{
    c == '\0' || c == '\t' || c == '\n' || c == '\r' || c == ' ' || c == '#' || c == '%' || c
        == '/' || c == ':' || c == '?' || c == '@' || c == '[' || c == '\\' || c == ']'
}

/// The first position at or after `i` of a forbidden character in `t`.
pub open spec fn forbidden_from(t: Seq<char>, i: int) -> Option<int>
    decreases t.len() - i,
{
    if i < 0 || i >= t.len() {
        None
    } else if is_forbidden(t[i]) {
        Some(i)
    } else {
        forbidden_from(t, i + 1)
    }
}

/// Why a record's text was refused, as the contracts speak of it.
pub enum DataError {
    NoInternalSpace,
    HostWasIp(Ipv4Addr),
    BadHost(char, Seq<char>),
    BadIp(Seq<char>),
}

/// Error parsing the data of a line.
#[derive(Clone, Debug, PartialEq, Eq)]
pub enum DataParseError {
    /// The data had no white space between the address and the aliases.
    NoInternalSpace,
    /// An alias was an IPv4 address.
    HostWasIp(Ipv4Addr),
    /// An alias held a forbidden character: the first one, and the alias.
    BadHost(char, String),
    /// The address did not parse: the reason, and the address's text.
    BadIp(AddrParseError, String),
}

impl View for DataParseError {
    type V = DataError;

    open spec fn view(&self) -> DataError {
        match self {
            DataParseError::NoInternalSpace => DataError::NoInternalSpace,
            DataParseError::HostWasIp(a) => DataError::HostWasIp(*a),
            DataParseError::BadHost(c, h) => DataError::BadHost(*c, h@),
            DataParseError::BadIp(_, s) => DataError::BadIp(s@),
        }
    }
}

/// Why `t` may not be an alias, if it may not: its first forbidden character,
/// else its being a dotted-quad IPv4 address.
pub open spec fn alias_error(t: Seq<char>) -> Option<DataError> {
    match forbidden_from(t, 0) {
        Some(i) => Some(DataError::BadHost(t[i], t)),
        None => match ipv4_value(t) {
            Some(a) => Some(DataError::HostWasIp(a)),
            None => None,
        },
    }
}

pub open spec fn valid_alias(t: Seq<char>) -> bool {
    alias_error(t) is None
}

/// The first refusal among the aliases `ws[i..]`, in order.
pub open spec fn first_alias_error(ws: Seq<Seq<char>>, i: int) -> Option<DataError>
    decreases ws.len() - i,
{
    if i < 0 || i >= ws.len() {
        None
    } else {
        match alias_error(ws[i]) {
            Some(e) => Some(e),
            None => first_alias_error(ws, i + 1),
        }
    }
}

/// What the data portion `s` of a line stands for: after trimming, the text
/// up to the first white space is the address, and the words after it are
/// the aliases, each checked in order.
pub open spec fn parse_data(s: Seq<char>) -> Result<(IpAddr, Seq<Seq<char>>), DataError> {
    let t = trim(s);
    match space_from(t, 0) {
        None => Err(DataError::NoInternalSpace),
        Some(k) => match ip_value(t.take(k)) {
            None => Err(DataError::BadIp(t.take(k))),
            Some(a) => match first_alias_error(words(t.skip(k)), 0) {
                Some(e) => Err(e),
                None => Ok((a, words(t.skip(k)))),
            },
        },
    }
}

/// Data from a line of a hosts file: an address and its aliases.
#[derive(Clone, Debug, PartialEq, Eq, PartialOrd, Ord)]
pub struct DataLine {
    ip: IpAddr,
    hosts: Vec<String>,
}

impl View for DataLine {
    type V = (IpAddr, Seq<Seq<char>>);

    closed spec fn view(&self) -> (IpAddr, Seq<Seq<char>>) {
        (self.ip, string_texts(self.hosts@))
    }
}

pub open spec fn all_valid_aliases(hs: Seq<Seq<char>>) -> bool {
    forall|i: int| 0 <= i < hs.len() ==> #[trigger] valid_alias(hs[i])
}

/// Checks one alias.
pub fn check_alias(t: &str) -> (r: Result<(), DataParseError>)
    ensures
        r is Ok <==> alias_error(t@) is None,
        r is Err ==> alias_error(t@) == Some(r->Err_0@),
{
    let v = chars_of(t);
    let mut i: usize = 0;
    while i < v.len()
        invariant
            v@ == t@,
            i <= v@.len(),
            forbidden_from(v@, 0) == forbidden_from(v@, i as int),
        decreases v@.len() - i,
    {
        if is_forbidden_char(v[i]) {
            return Err(DataParseError::BadHost(v[i], t.to_owned()));
        }
        i += 1;
    }
    match parse_ipv4_chars(&v) {
        Some(a) => Err(DataParseError::HostWasIp(a)),
        None => Ok(()),
    }
}

impl DataLine {
    pub closed spec fn wf(&self) -> bool {
        all_valid_aliases(string_texts(self.hosts@))
    }

    /// Creates a record from an address and aliases that are valid.
    pub fn from_raw(ip: IpAddr, hosts: Vec<String>) -> (r: DataLine)
        requires
            all_valid_aliases(string_texts(hosts@)),
        ensures
            r@ == (ip, string_texts(hosts@)),
            r.wf(),
    {
        DataLine { ip, hosts }
    }

    /// The address.
    pub fn ip(&self) -> (r: IpAddr)
        ensures
            r == self@.0,
    {
        self.ip
    }

    /// The aliases, in order.
    pub fn hosts(&self) -> (r: &Vec<String>)
        ensures
            string_texts(r@) == self@.1,
    {
        &self.hosts
    }

    /// Parses the data portion of a line.
    pub fn parse(s: &str) -> (r: Result<DataLine, DataParseError>)
        ensures
            match r {
                Ok(d) => parse_data(s@) == Ok::<_, DataError>(d@) && d.wf(),
                Err(e) => parse_data(s@) == Err::<(IpAddr, Seq<Seq<char>>), _>(e@),
            },
    {
        let v = chars_of(s);
        let (lo, hi) = trim_bounds(&v, 0, v.len());
        assert(v@.subrange(0, v@.len() as int) =~= s@);
        let t = slice_chars(&v, lo, hi);
        let ghost tt = trim(s@);
        assert(t@ == tt);
        let k = match find_space(&t) {
            None => {
                return Err(DataParseError::NoInternalSpace);
            },
            Some(k) => k,
        };
        let addr = slice_chars(&t, 0, k);
        assert(addr@ =~= tt.take(k as int));
        let addr_text = s.substring_char(lo, lo + k);
        assert(addr_text@ =~= addr@);
        let ip = match IpAddr::parse_chars(&addr) {
            Err(e) => {
                return Err(DataParseError::BadIp(e, addr_text.to_owned()));
            },
            Ok(ip) => ip,
        };
        let n = t.len();
        let ranges = word_ranges(&t, k, n);
        let ghost ws = words(tt.skip(k as int));
        assert(t@.subrange(k as int, n as int) =~= tt.skip(k as int));
        let mut hosts: Vec<String> = Vec::new();
        let mut j: usize = 0;
        assert(parse_data(s@) == match first_alias_error(ws, 0) {
            Some(e) => Err(e),
            None => Ok((ip, ws)),
        });
        while j < ranges.len()
            invariant
                parse_data(s@) == match first_alias_error(ws, 0) {
                    Some(e) => Err(e),
                    None => Ok((ip, ws)),
                },
                t@ == tt,
                tt == s@.subrange(lo as int, hi as int),
                lo <= hi <= s@.len(),
                n == t@.len(),
                range_texts(t@, ranges@) == ws,
                forall|i: int|
                    0 <= i < ranges@.len() ==> k <= (#[trigger] ranges@[i]).0 <= ranges@[i].1 <= n,
                j <= ranges@.len(),
                string_texts(hosts@) == ws.take(j as int),
                first_alias_error(ws, 0) == first_alias_error(ws, j as int),
            decreases ranges@.len() - j,
        {
            let (a, b) = ranges[j];
            assert(ws[j as int] == t@.subrange(a as int, b as int));
            let word = s.substring_char(lo + a, lo + b);
            assert(word@ =~= ws[j as int]);
            match check_alias(word) {
                Err(e) => {
                    assert(first_alias_error(ws, j as int) == Some(e@));
                    return Err(e);
                },
                Ok(()) => {},
            }
            let ghost prev = hosts@;
            hosts.push(word.to_owned());
            j += 1;
            assert(string_texts(hosts@) =~= string_texts(prev).push(word@));
            assert(ws.take(j as int) =~= ws.take(j - 1).push(ws[j - 1]));
        }
        assert(ws.take(j as int) =~= ws);
        proof {
            lemma_no_alias_error(ws);
        }
        Ok(DataLine { ip, hosts })
    }
}

/// Aliases none of which is refused are all valid.
pub proof fn lemma_no_alias_error(ws: Seq<Seq<char>>)
    requires
        first_alias_error(ws, 0) is None,
    ensures
        all_valid_aliases(ws),
{
    assert forall|i: int| 0 <= i < ws.len() implies #[trigger] valid_alias(ws[i]) by {
        lemma_first_alias_error_none(ws, 0, i);
    }
}

proof fn lemma_first_alias_error_none(ws: Seq<Seq<char>>, from: int, i: int)
    requires
        0 <= from <= i < ws.len(),
        first_alias_error(ws, from) is None,
    ensures
        valid_alias(ws[i]),
    decreases i - from,
{
    if from < i {
        lemma_first_alias_error_none(ws, from + 1, i);
    }
}

/// Some record has the address `a`.
pub open spec fn has_address(rs: Seq<(IpAddr, Seq<Seq<char>>)>, a: IpAddr) -> bool {
    exists|i: int| 0 <= i < rs.len() && rs[i].0 == a
}

/// Every alias that some record gives to the address `a`.
pub open spec fn aliases_for(rs: Seq<(IpAddr, Seq<Seq<char>>)>, a: IpAddr) -> Set<Seq<char>> {
    Set::new(|h: Seq<char>| exists|i: int| 0 <= i < rs.len() && rs[i].0 == a && rs[i].1.contains(h))
}

/// `out` is the minified form of `input`: one record per address of
/// `input`, ordered by address, each with every alias that `input` gives to
/// that address, once, in lexicographic order.
pub open spec fn minified(
    input: Seq<(IpAddr, Seq<Seq<char>>)>,
    out: Seq<(IpAddr, Seq<Seq<char>>)>,
) -> bool {
    &&& forall|i: int, j: int|
        0 <= i < j < out.len() ==> addr_key(#[trigger] out[i].0) < addr_key(#[trigger] out[j].0)
    &&& forall|a: IpAddr| has_address(input, a) <==> has_address(out, a)
    &&& forall|k: int|
        0 <= k < out.len() ==> strictly_sorted(#[trigger] out[k].1) && out[k].1.to_set()
            == aliases_for(input, out[k].0)
}

pub open spec fn lines_view(v: Seq<DataLine>) -> Seq<(IpAddr, Seq<Seq<char>>)> {
    v.map_values(|d: DataLine| d@)
}

pub open spec fn all_wf(v: Seq<DataLine>) -> bool {
    forall|i: int| 0 <= i < v.len() ==> (#[trigger] v[i]).wf()
}

/// Adds `a` to the addresses `ips`, kept strictly increasing, unless it is there.
fn insert_address(ips: &mut Vec<IpAddr>, a: IpAddr)
    requires
        forall|i: int, j: int|
            0 <= i < j < old(ips)@.len() ==> addr_key(#[trigger] old(ips)@[i]) < addr_key(
                #[trigger] old(ips)@[j],
            ),
    ensures
        forall|i: int, j: int|
            0 <= i < j < final(ips)@.len() ==> addr_key(#[trigger] final(ips)@[i]) < addr_key(
                #[trigger] final(ips)@[j],
            ),
        forall|b: IpAddr| final(ips)@.contains(b) <==> (old(ips)@.contains(b) || b == a),
{
    let ghost old_v = ips@;
    let mut p: usize = 0;
    while p < ips.len() && ips[p].orders_before(&a)
        invariant
            ips@ == old_v,
            p <= ips@.len(),
            forall|i: int| 0 <= i < p ==> addr_key(#[trigger] old_v[i]) < addr_key(a),
        decreases ips@.len() - p,
    {
        p += 1;
    }
    if p < ips.len() && ips[p].same_as(&a) {
        assert forall|b: IpAddr| ips@.contains(b) <==> (old_v.contains(b) || b == a) by {
            if b == a {
                assert(ips@[p as int] == b);
            }
        }
        return;
    }
    proof {
        if p < old_v.len() {
            assert(addr_key(a) < addr_key(old_v[p as int])) by {
                crate::address::lemma_addr_key_injective(a, old_v[p as int]);
            }
        }
    }
    ips.insert(p, a);
    proof {
        let nv = ips@;
        assert(nv =~= old_v.insert(p as int, a));
        assert forall|i: int, j: int| 0 <= i < j < nv.len() implies addr_key(#[trigger] nv[i])
            < addr_key(#[trigger] nv[j]) by {
            if j < p {
            } else if j == p {
            } else if i < p {
                assert(nv[j] == old_v[j - 1]);
                assert(nv[i] == old_v[i]);
            } else if i == p {
                assert(nv[j] == old_v[j - 1]);
                if j - 1 > p {
                    assert(addr_key(old_v[p as int]) < addr_key(old_v[j - 1]));
                }
            } else {
                assert(nv[j] == old_v[j - 1]);
                assert(nv[i] == old_v[i - 1]);
            }
        }
        assert forall|b: IpAddr| nv.contains(b) <==> (old_v.contains(b) || b == a) by {
            if nv.contains(b) {
                let i = choose|i: int| 0 <= i < nv.len() && nv[i] == b;
                if i < p {
                    assert(old_v[i] == b);
                } else if i > p {
                    assert(old_v[i - 1] == b);
                }
            }
            if old_v.contains(b) {
                let i = choose|i: int| 0 <= i < old_v.len() && old_v[i] == b;
                if i < p {
                    assert(nv[i] == b);
                } else {
                    assert(nv[i + 1] == b);
                }
            }
            if b == a {
                assert(nv[p as int] == b);
            }
        }
    }
}

proof fn lemma_has_address_step(rs: Seq<(IpAddr, Seq<Seq<char>>)>, i: int, b: IpAddr)
    requires
        0 <= i < rs.len(),
    ensures
        has_address(rs.take(i + 1), b) <==> (has_address(rs.take(i), b) || rs[i].0 == b),
{
    let p = rs.take(i);
    let q = rs.take(i + 1);
    if has_address(q, b) {
        let j = choose|j: int| 0 <= j < q.len() && q[j].0 == b;
        if j < i {
            assert(p[j].0 == b);
        }
    }
    if has_address(p, b) {
        let j = choose|j: int| 0 <= j < p.len() && p[j].0 == b;
        assert(q[j].0 == b);
    }
    if rs[i].0 == b {
        assert(q[i].0 == b);
    }
}

proof fn lemma_aliases_for_step(rs: Seq<(IpAddr, Seq<Seq<char>>)>, i: int, a: IpAddr)
    requires
        0 <= i < rs.len(),
    ensures
        aliases_for(rs.take(i + 1), a) == if rs[i].0 == a {
            aliases_for(rs.take(i), a).union(rs[i].1.to_set())
        } else {
            aliases_for(rs.take(i), a)
        },
{
    let p = rs.take(i);
    let q = rs.take(i + 1);
    assert forall|h: Seq<char>| aliases_for(q, a).contains(h) <==> (aliases_for(p, a).contains(h)
        || (rs[i].0 == a && rs[i].1.contains(h))) by {
        if aliases_for(q, a).contains(h) {
            let j = choose|j: int| 0 <= j < q.len() && q[j].0 == a && q[j].1.contains(h);
            if j < i {
                assert(p[j] == q[j]);
            }
        }
        if aliases_for(p, a).contains(h) {
            let j = choose|j: int| 0 <= j < p.len() && p[j].0 == a && p[j].1.contains(h);
            assert(q[j] == p[j]);
        }
        if rs[i].0 == a && rs[i].1.contains(h) {
            assert(q[i] == rs[i]);
        }
    }
    if rs[i].0 == a {
        assert(aliases_for(q, a) =~= aliases_for(p, a).union(rs[i].1.to_set()));
    } else {
        assert(aliases_for(q, a) =~= aliases_for(p, a));
    }
}

proof fn lemma_take_one_more(t: Seq<Seq<char>>, j: int)
    requires
        0 <= j < t.len(),
    ensures
        t.take(j + 1).to_set() == t.take(j).to_set().insert(t[j]),
{
    let p = t.take(j);
    let q = t.take(j + 1);
    assert forall|x: Seq<char>| q.contains(x) <==> (p.contains(x) || x == t[j]) by {
        if q.contains(x) {
            let m = choose|m: int| 0 <= m < q.len() && q[m] == x;
            if m < j {
                assert(p[m] == x);
            }
        }
        if p.contains(x) {
            let m = choose|m: int| 0 <= m < p.len() && p[m] == x;
            assert(q[m] == x);
        }
        if x == t[j] {
            assert(q[j] == x);
        }
    }
    assert(q.to_set() =~= p.to_set().insert(t[j]));
}

/// Every alias of the minified group of `a` from records whose aliases are valid.
proof fn lemma_aliases_for_valid(rs: Seq<(IpAddr, Seq<Seq<char>>)>, a: IpAddr, h: Seq<char>)
    requires
        forall|i: int| 0 <= i < rs.len() ==> all_valid_aliases(#[trigger] rs[i].1),
        aliases_for(rs, a).contains(h),
    ensures
        valid_alias(h),
{
    let j = choose|j: int| 0 <= j < rs.len() && rs[j].0 == a && rs[j].1.contains(h);
    assert(all_valid_aliases(rs[j].1));
    let k = choose|k: int| 0 <= k < rs[j].1.len() && rs[j].1[k] == h;
    assert(valid_alias(rs[j].1[k]));
}

/// Merges records by address: afterwards `lines` holds one record per
/// address, ordered by address, each with all the aliases that the records
/// gave that address, deduplicated and ordered.
pub fn minify_lines(lines: &mut Vec<DataLine>)
    requires
        all_wf(old(lines)@),
    ensures
        minified(lines_view(old(lines)@), lines_view(final(lines)@)),
        all_wf(final(lines)@),
{
    let ghost input = lines_view(lines@);
    let n = lines.len();
    assert forall|i: int| 0 <= i < input.len() implies all_valid_aliases(#[trigger] input[i].1) by {
        assert(lines@[i].wf());
    }
    let mut ips: Vec<IpAddr> = Vec::new();
    let mut i: usize = 0;
    while i < n
        invariant
            n == lines@.len(),
            input == lines_view(lines@),
            i <= n,
            forall|x: int, y: int|
                0 <= x < y < ips@.len() ==> addr_key(#[trigger] ips@[x]) < addr_key(
                    #[trigger] ips@[y],
                ),
            forall|b: IpAddr| ips@.contains(b) <==> has_address(input.take(i as int), b),
        decreases n - i,
    {
        insert_address(&mut ips, lines[i].ip);
        proof {
            assert forall|b: IpAddr| ips@.contains(b) <==> has_address(
                input.take(i + 1),
                b,
            ) by {
                lemma_has_address_step(input, i as int, b);
            }
        }
        i += 1;
    }
    assert(input.take(n as int) =~= input);
    let mut out: Vec<DataLine> = Vec::new();
    let mut k: usize = 0;
    while k < ips.len()
        invariant
            n == lines@.len(),
            input == lines_view(lines@),
            forall|i: int| 0 <= i < input.len() ==> all_valid_aliases(#[trigger] input[i].1),
            forall|x: int, y: int|
                0 <= x < y < ips@.len() ==> addr_key(#[trigger] ips@[x]) < addr_key(
                    #[trigger] ips@[y],
                ),
            forall|b: IpAddr| ips@.contains(b) <==> has_address(input, b),
            k <= ips@.len(),
            out@.len() == k,
            forall|x: int| 0 <= x < k ==> (#[trigger] out@[x])@.0 == ips@[x],
            forall|x: int|
                0 <= x < k ==> strictly_sorted((#[trigger] out@[x])@.1) && out@[x]@.1.to_set()
                    == aliases_for(input, ips@[x]),
            all_wf(out@),
        decreases ips@.len() - k,
    {
        let a = ips[k];
        let mut g: Vec<String> = Vec::new();
        let mut i: usize = 0;
        assert(aliases_for(input.take(0), a) =~= Set::<Seq<char>>::empty());
        assert(string_texts(g@).to_set() =~= Set::<Seq<char>>::empty());
        while i < n
            invariant
                n == lines@.len(),
                input == lines_view(lines@),
                i <= n,
                strictly_sorted(string_texts(g@)),
                string_texts(g@).to_set() == aliases_for(input.take(i as int), a),
            decreases n - i,
        {
            let line = &lines[i];
            assert(input[i as int] == line@);
            if line.ip.same_as(&a) {
                let hs = &line.hosts;
                let mut j: usize = 0;
                let ghost base = aliases_for(input.take(i as int), a);
                assert(string_texts(hs@).take(0).to_set() =~= Set::<Seq<char>>::empty());
                assert(base.union(Set::<Seq<char>>::empty()) =~= base);
                while j < hs.len()
                    invariant
                        strictly_sorted(string_texts(g@)),
                        j <= hs@.len(),
                        string_texts(g@).to_set() == base.union(
                            string_texts(hs@).take(j as int).to_set(),
                        ),
                    decreases hs@.len() - j,
                {
                    insert_sorted(&mut g, hs[j].clone());
                    proof {
                        let t = string_texts(hs@);
                        assert(t.take(j + 1) =~= t.take(j as int).push(t[j as int]));
                        lemma_take_one_more(t, j as int);
                        assert(string_texts(g@).to_set() =~= base.union(
                            t.take(j + 1).to_set(),
                        ));
                    }
                    j += 1;
                }
                assert(string_texts(hs@).take(hs@.len() as int) =~= string_texts(hs@));
            }
            proof {
                lemma_aliases_for_step(input, i as int, a);
            }
            i += 1;
        }
        assert(input.take(n as int) =~= input);
        proof {
            assert forall|q: int| 0 <= q < string_texts(g@).len() implies #[trigger] valid_alias(
                string_texts(g@)[q],
            ) by {
                assert(string_texts(g@).to_set().contains(string_texts(g@)[q]));
                lemma_aliases_for_valid(input, a, string_texts(g@)[q]);
            }
        }
        let d = DataLine { ip: a, hosts: g };
        let ghost prev = out@;
        out.push(d);
        assert forall|x: int| 0 <= x < out@.len() implies (#[trigger] out@[x]).wf() by {
            if x < prev.len() {
                assert(out@[x] == prev[x]);
            }
        }
        k += 1;
    }
    lines.clear();
    lines.append(&mut out);
    proof {
        let ov = lines_view(lines@);
        assert(ov.len() == ips@.len());
        assert forall|x: int| 0 <= x < ov.len() implies ov[x].0 == ips@[x] by {}
        assert forall|b: IpAddr| has_address(input, b) <==> has_address(ov, b) by {
            if has_address(ov, b) {
                let x = choose|x: int| 0 <= x < ov.len() && ov[x].0 == b;
                assert(ips@[x] == b);
                assert(ips@.contains(b));
            }
            if has_address(input, b) {
                assert(ips@.contains(b));
                let x = choose|x: int| 0 <= x < ips@.len() && ips@[x] == b;
                assert(ov[x].0 == b);
            }
        }
        assert forall|x: int, y: int| 0 <= x < y < ov.len() implies addr_key(#[trigger] ov[x].0)
            < addr_key(#[trigger] ov[y].0) by {
            assert(ov[x].0 == ips@[x]);
            assert(ov[y].0 == ips@[y]);
        }
    }
}

/// Records that all have one address minify to one record of that address.
proof fn lemma_minify_one_address(
    input: Seq<(IpAddr, Seq<Seq<char>>)>,
    out: Seq<(IpAddr, Seq<Seq<char>>)>,
    a: IpAddr,
)
    requires
        input.len() > 0,
        forall|i: int| 0 <= i < input.len() ==> (#[trigger] input[i]).0 == a,
        minified(input, out),
    ensures
        out.len() == 1,
        out[0].0 == a,
        strictly_sorted(out[0].1),
        out[0].1.to_set() == aliases_for(input, a),
{
    assert(has_address(input, a)) by {
        assert(input[0].0 == a);
    }
    assert(has_address(out, a));
    assert forall|k: int| 0 <= k < out.len() implies (#[trigger] out[k]).0 == a by {
        assert(has_address(out, out[k].0));
        assert(has_address(input, out[k].0));
    }
    if out.len() > 1 {
        assert(addr_key(out[0].0) < addr_key(out[1].0));
        assert(out[0].0 == a && out[1].0 == a);
    }
}

proof fn lemma_sorted_no_duplicates(hs: Seq<Seq<char>>)
    requires
        strictly_sorted(hs),
    ensures
        hs.no_duplicates(),
{
    assert forall|i: int, j: int| 0 <= i < hs.len() && 0 <= j < hs.len() && i != j implies hs[i]
        != hs[j] by {
        if i < j {
            assert(crate::text_order::text_lt(hs[i], hs[j]));
        } else {
            assert(crate::text_order::text_lt(hs[j], hs[i]));
        }
        crate::text_order::lemma_text_lt_irreflexive(hs[i]);
    }
}

/// Minifying a record listed twice gives that record once, with its aliases
/// deduplicated (and ordered).
pub proof fn lemma_minify_repeated(
    r: (IpAddr, Seq<Seq<char>>),
    out: Seq<(IpAddr, Seq<Seq<char>>)>,
)
    requires
        minified(seq![r, r], out),
    ensures
        out.len() == 1,
        out[0].0 == r.0,
        out[0].1.to_set() == r.1.to_set(),
        out[0].1.no_duplicates(),
        strictly_sorted(out[0].1),
{
    let input = seq![r, r];
    lemma_minify_one_address(input, out, r.0);
    assert forall|h: Seq<char>| aliases_for(input, r.0).contains(h) <==> r.1.contains(h) by {
        if r.1.contains(h) {
            assert(input[0].1.contains(h));
        }
    }
    assert(aliases_for(input, r.0) =~= r.1.to_set());
    lemma_sorted_no_duplicates(out[0].1);
}

/// Minifying two records of one address with disjoint aliases gives one
/// record whose aliases are the union of theirs, deduplicated and ordered.
pub proof fn lemma_minify_disjoint(
    r1: (IpAddr, Seq<Seq<char>>),
    r2: (IpAddr, Seq<Seq<char>>),
    out: Seq<(IpAddr, Seq<Seq<char>>)>,
)
    requires
        r1.0 == r2.0,
        r1.1.to_set().disjoint(r2.1.to_set()),
        minified(seq![r1, r2], out),
    ensures
        out.len() == 1,
        out[0].0 == r1.0,
        out[0].1.to_set() == r1.1.to_set().union(r2.1.to_set()),
        out[0].1.no_duplicates(),
        strictly_sorted(out[0].1),
{
    let input = seq![r1, r2];
    lemma_minify_one_address(input, out, r1.0);
    assert forall|h: Seq<char>| aliases_for(input, r1.0).contains(h) <==> (r1.1.contains(h)
        || r2.1.contains(h)) by {
        if r1.1.contains(h) {
            assert(input[0].1.contains(h));
        }
        if r2.1.contains(h) {
            assert(input[1].1.contains(h));
        }
    }
    assert(aliases_for(input, r1.0) =~= r1.1.to_set().union(r2.1.to_set()));
    lemma_sorted_no_duplicates(out[0].1);
}

proof fn lemma_forbidden_from_some(t: Seq<char>, i: int, j: int)
    requires
        0 <= i <= j < t.len(),
        is_forbidden(t[j]),
    ensures
        forbidden_from(t, i) is Some,
        i <= forbidden_from(t, i)->0 <= j,
        is_forbidden(t[forbidden_from(t, i)->0]),
        forall|k: int| i <= k < forbidden_from(t, i)->0 ==> !is_forbidden(#[trigger] t[k]),
    decreases j - i,
{
    if !is_forbidden(t[i]) {
        lemma_forbidden_from_some(t, i + 1, j);
    }
}

proof fn lemma_forbidden_from_none(t: Seq<char>, i: int)
    requires
        0 <= i <= t.len(),
        forall|k: int| i <= k < t.len() ==> !is_forbidden(#[trigger] t[k]),
    ensures
        forbidden_from(t, i) is None,
    decreases t.len() - i,
{
    if i < t.len() {
        lemma_forbidden_from_none(t, i + 1);
    }
}

/// An alias that holds a forbidden character is refused, with the first
/// forbidden character it holds and the alias itself.
pub proof fn lemma_forbidden_char_rejected(t: Seq<char>, j: int)
    requires
        0 <= j < t.len(),
        is_forbidden(t[j]),
    ensures
        exists|m: int|
            0 <= m <= j && alias_error(t) == Some(DataError::BadHost(#[trigger] t[m], t))
                && is_forbidden(t[m]) && forall|k: int| 0 <= k < m ==> !is_forbidden(#[trigger] t[k]),
{
    lemma_forbidden_from_some(t, 0, j);
    let m = forbidden_from(t, 0)->0;
    assert(alias_error(t) == Some(DataError::BadHost(t[m], t)));
}

/// An alias that is a dotted-quad IPv4 address is refused with that address.
pub proof fn lemma_ipv4_alias_rejected(t: Seq<char>)
    requires
        ipv4_value(t) is Some,
    ensures
        alias_error(t) == Some(DataError::HostWasIp(ipv4_value(t)->0)),
{
    let p = crate::chars::split_on(t, '.');
    assert forall|k: int| 0 <= k < t.len() implies !is_forbidden(#[trigger] t[k]) by {
        if t[k] != '.' {
            crate::chars::lemma_split_on_covers(t, '.', k);
            let (a, b) = choose|a: int, b: int|
                0 <= a < p.len() && 0 <= b < p[a].len() && (#[trigger] crate::chars::split_on(
                    t,
                    '.',
                )[a][b]) == t[k];
            assert(crate::address::dec_octet(p[a]));
            assert(crate::address::digit_value(p[a][b], 10) is Some);
        }
    }
    lemma_forbidden_from_none(t, 0);
}

/// The aliases, each after one space.
pub open spec fn aliases_text(hs: Seq<Seq<char>>) -> Seq<char>
    decreases hs.len(),
{
    if hs.len() == 0 {
        Seq::empty()
    } else {
        aliases_text(hs.drop_last()) + seq![' '] + hs.last()
    }
}

/// How a record is written: the address, a space, then each alias after a
/// space, so that two spaces separate the address from the first alias.
pub open spec fn record_text(r: (IpAddr, Seq<Seq<char>>)) -> Seq<char> {
    ip_text(r.0) + seq![' '] + aliases_text(r.1)
}

impl DataLine {
    /// Appends the text of the record to `out`.
    pub fn push_text(&self, out: &mut String)
        ensures
            final(out)@ == old(out)@ + record_text(self@),
    {
        let ghost start = out@;
        push_ip(out, &self.ip);
        proof {
            reveal_strlit(" ");
        }
        out.append(" ");
        let ghost head = out@;
        let ghost hs = string_texts(self.hosts@);
        let mut i: usize = 0;
        assert(hs.take(0) =~= Seq::<Seq<char>>::empty());
        assert(head =~= head + aliases_text(hs.take(0)));
        while i < self.hosts.len()
            invariant
                hs == string_texts(self.hosts@),
                i <= hs.len(),
                out@ == head + aliases_text(hs.take(i as int)),
            decreases hs.len() - i,
        {
            proof {
                reveal_strlit(" ");
            }
            out.append(" ");
            out.append(self.hosts[i].as_str());
            i += 1;
            assert(hs.take(i as int).drop_last() =~= hs.take(i - 1));
            assert(out@ =~= head + aliases_text(hs.take(i as int)));
        }
        assert(hs.take(i as int) =~= hs);
        assert(out@ =~= start + record_text(self@));
    }

    /// The text of the record.
    pub fn to_text(&self) -> (r: String)
        ensures
            r@ == record_text(self@),
    {
        let mut out = String::new();
        self.push_text(&mut out);
        assert(out@ =~= record_text(self@));
        out
    }
}

/// The alias and address pairs of a record, one per alias, in order.
pub open spec fn record_pairs(r: (IpAddr, Seq<Seq<char>>)) -> Seq<(Seq<char>, IpAddr)> {
    r.1.map_values(|h: Seq<char>| (h, r.0))
}

pub open spec fn pair_texts(v: Seq<(String, IpAddr)>) -> Seq<(Seq<char>, IpAddr)> {
    v.map_values(|p: (String, IpAddr)| (p.0@, p.1))
}

impl DataLine {
    /// The alias and address pairs of the record, one per alias, in order.
    pub fn pairs(&self) -> (r: Vec<(String, IpAddr)>)
        ensures
            pair_texts(r@) == record_pairs(self@),
    {
        let mut out: Vec<(String, IpAddr)> = Vec::new();
        let mut i: usize = 0;
        while i < self.hosts.len()
            invariant
                i <= self.hosts@.len(),
                pair_texts(out@) == record_pairs(self@).take(i as int),
            decreases self.hosts@.len() - i,
        {
            let ghost prev = out@;
            let h = self.hosts[i].clone();
            assert(h@ == string_texts(self.hosts@)[i as int]);
            out.push((h, self.ip));
            i += 1;
            assert(pair_texts(out@) =~= pair_texts(prev).push((h@, self.ip)));
            assert(pair_texts(out@) =~= record_pairs(self@).take(i as int));
        }
        assert(record_pairs(self@).take(i as int) =~= record_pairs(self@));
        out
    }

    /// The alias and address pairs of the record, consuming it.
    pub fn into_pairs(self) -> (r: Vec<(String, IpAddr)>)
        ensures
            pair_texts(r@) == record_pairs(self@),
    {
        self.pairs()
    }
}

impl std::str::FromStr for DataLine {
    type Err = DataParseError;

    fn from_str(s: &str) -> Result<DataLine, DataParseError> {
        DataLine::parse(s)
    }
}

impl DataParseError {
    /// A short description of the kind of error.
    pub fn description(&self) -> (r: &'static str)
        ensures
            r@ == match self {
                DataParseError::NoInternalSpace => "line had no space between IP and hosts"@,
                DataParseError::HostWasIp(_) => "an IP was given where a domain should have been"@,
                DataParseError::BadHost(_, _) => "a host was invalid because it contains an invalid character"@,
                DataParseError::BadIp(_, _) => "could not parse IP"@,
            },
    {
        match self {
            DataParseError::NoInternalSpace => "line had no space between IP and hosts",
            DataParseError::HostWasIp(_) => "an IP was given where a domain should have been",
            DataParseError::BadHost(_, _) => "a host was invalid because it contains an invalid character",
            DataParseError::BadIp(_, _) => "could not parse IP",
        }
    }
}

} // verus!
