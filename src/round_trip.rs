//! Written records read back as themselves.
use crate::address::{
    all_digits, all_hex_groups, dec_octet, digit_value, digits_value, double_colon_from,
    group_values, groups_of, hex_group, hex_join, ip_text, ip_value, ipv4_text, ipv4_value,
    ipv6_segments, ipv6_text, longest_zeros, octets_value, segment_weight, segments_of,
    segments_value, tail_ok, tail_values, zeros_before, IpAddr, Ipv4Addr, Ipv6Addr,
};
use crate::chars::{is_space, space_from, split_on, trim, trim_end, trim_start, words};
use crate::data_line::{
    aliases_text, all_valid_aliases, first_alias_error, parse_data, record_text, valid_alias,
};
use crate::text_out::{digit_char, num_text};
use vstd::prelude::*;

verus! {

// ---- words ----
proof fn lemma_words_append(x: Seq<char>, w: Seq<char>)
    requires
        w.len() > 0,
        forall|i: int| 0 <= i < w.len() ==> !is_space(#[trigger] w[i]),
    ensures
        words(x + seq![' '] + w) == words(x).push(w),
    decreases w.len(),
{
    let s = x + seq![' '] + w;
    assert(s.drop_last() =~= x + seq![' '] + w.drop_last());
    assert(s.last() == w.last());
    assert(!is_space(w[w.len() - 1]));
    if w.len() == 1 {
        let xs = x.push(' ');
        assert(x + seq![' '] + w.drop_last() =~= xs);
        assert(xs.drop_last() =~= x);
        assert(xs.last() == ' ');
        assert(is_space(' '));
        assert(words(xs) == words(x));
        assert(s[s.len() - 2] == ' ');
        assert(words(s) == words(xs).push(seq![w.last()]));
        assert(w =~= seq![w.last()]);
    } else {
        let w2 = w.drop_last();
        assert forall|i: int| 0 <= i < w2.len() implies !is_space(#[trigger] w2[i]) by {
            assert(w2[i] == w[i]);
        }
        lemma_words_append(x, w2);
        assert(s[s.len() - 2] == w[w.len() - 2]);
        assert(!is_space(w[w.len() - 2]));
        let pw = words(x).push(w2);
        assert(words(s) == pw.drop_last().push(pw.last().push(w.last())));
        assert(pw.drop_last() =~= words(x));
        assert(w2.push(w.last()) =~= w);
    }
}

pub open spec fn plain_words(ws: Seq<Seq<char>>) -> bool {
    forall|j: int|
        0 <= j < ws.len() ==> (#[trigger] ws[j]).len() > 0 && forall|i: int|
            0 <= i < ws[j].len() ==> !is_space(#[trigger] ws[j][i])
}

proof fn lemma_words_aliases(p: Seq<char>, ws: Seq<Seq<char>>)
    requires
        plain_words(ws),
    ensures
        words(p + aliases_text(ws)) == words(p) + ws,
    decreases ws.len(),
{
    if ws.len() == 0 {
        assert(p + aliases_text(ws) =~= p);
        assert(words(p) + ws =~= words(p));
    } else {
        let ws2 = ws.drop_last();
        assert(plain_words(ws2)) by {
            assert forall|j: int| 0 <= j < ws2.len() implies (#[trigger] ws2[j]).len() > 0 by {
                assert(ws2[j] == ws[j]);
            }
        }
        lemma_words_aliases(p, ws2);
        let w = ws.last();
        assert(w == ws[ws.len() - 1]);
        lemma_words_append(p + aliases_text(ws2), w);
        assert(p + aliases_text(ws) =~= (p + aliases_text(ws2)) + seq![' '] + w);
        assert(words(p) + ws =~= (words(p) + ws2).push(w));
    }
}

/// The words of a text are non-empty and hold no white space.
proof fn lemma_words_plain(s: Seq<char>)
    ensures
        plain_words(words(s)),
        s.len() > 0 && !is_space(s.last()) ==> words(s).len() > 0 && words(s).last().last()
            == s.last(),
    decreases s.len(),
{
    if s.len() > 0 {
        let t = s.drop_last();
        lemma_words_plain(t);
        let w = words(t);
        let c = s.last();
        if is_space(c) {
        } else if s.len() >= 2 && !is_space(s[s.len() - 2]) {
            assert(t.last() == s[s.len() - 2]);
            let nw = w.drop_last().push(w.last().push(c));
            assert forall|j: int| 0 <= j < nw.len() implies (#[trigger] nw[j]).len() > 0 && forall|
                i: int,
            | 0 <= i < nw[j].len() ==> !is_space(#[trigger] nw[j][i]) by {
                if j < nw.len() - 1 {
                    assert(nw[j] == w[j]);
                } else {
                    assert(nw[j] == w[w.len() - 1].push(c));
                }
            }
        } else {
            let nw = w.push(seq![c]);
            assert forall|j: int| 0 <= j < nw.len() implies (#[trigger] nw[j]).len() > 0 && forall|
                i: int,
            | 0 <= i < nw[j].len() ==> !is_space(#[trigger] nw[j][i]) by {
                if j < nw.len() - 1 {
                    assert(nw[j] == w[j]);
                }
            }
        }
    }
}

proof fn lemma_no_error_if_valid(ws: Seq<Seq<char>>, i: int)
    requires
        0 <= i <= ws.len(),
        all_valid_aliases(ws),
    ensures
        first_alias_error(ws, i) is None,
    decreases ws.len() - i,
{
    if i < ws.len() {
        assert(valid_alias(ws[i]));
        lemma_no_error_if_valid(ws, i + 1);
    }
}

proof fn lemma_alias_error_some(ws: Seq<Seq<char>>, i: int, j: int)
    requires
        0 <= i <= j < ws.len(),
        !valid_alias(ws[j]),
    ensures
        first_alias_error(ws, i) is Some,
    decreases j - i,
{
    if i < j && valid_alias(ws[i]) {
        lemma_alias_error_some(ws, i + 1, j);
    }
}

proof fn lemma_space_from_after(s: Seq<char>, k: int, i: int)
    requires
        0 <= i <= k < s.len(),
        forall|m: int| 0 <= m < k ==> !is_space(#[trigger] s[m]),
        is_space(s[k]),
    ensures
        space_from(s, i) == Some(k),
    decreases k - i,
{
    if i < k {
        lemma_space_from_after(s, k, i + 1);
    }
}

/// What an address is written as: non-empty, without white space, and read
/// back as the same address.
pub open spec fn text_reads_back(a: IpAddr) -> bool {
    &&& ip_text(a).len() > 0
    &&& forall|i: int| 0 <= i < ip_text(a).len() ==> !is_space(#[trigger] ip_text(a)[i])
    &&& ip_value(ip_text(a)) == Some(a)
}

/// What parsing gave: a non-empty list of valid aliases without white space.
proof fn lemma_parsed_aliases(s: Seq<char>)
    requires
        parse_data(s) is Ok,
    ensures
        parse_data(s)->Ok_0.1.len() > 0,
        plain_words(parse_data(s)->Ok_0.1),
        all_valid_aliases(parse_data(s)->Ok_0.1),
{
    let t = trim(s);
    let k = space_from(t, 0)->0;
    let ws = parse_data(s)->Ok_0.1;
    assert(ws == words(t.skip(k)));
    lemma_space_from_facts(t, 0);
    lemma_trim_facts(s);
    lemma_words_plain(t.skip(k));
    assert(t.skip(k).last() == t.last());
    assert forall|j: int| 0 <= j < ws.len() implies #[trigger] valid_alias(ws[j]) by {
        if !valid_alias(ws[j]) {
            lemma_alias_error_some(ws, 0, j);
        }
    }
}

/// The text of a record with aliases is its own trimmed form.
proof fn lemma_record_text_trimmed(a: IpAddr, ws: Seq<Seq<char>>)
    requires
        ws.len() > 0,
        plain_words(ws),
        text_reads_back(a),
    ensures
        trim(record_text((a, ws))) == record_text((a, ws)),
{
    let ip = ip_text(a);
    let r = record_text((a, ws));
    let ws2 = ws.drop_last();
    assert(aliases_text(ws) =~= aliases_text(ws2) + seq![' '] + ws.last());
    assert(r.last() == ws.last().last());
    assert(ws.last() == ws[ws.len() - 1]);
    assert(!is_space(r.last()));
    assert(r[0] == ip[0]);
    assert(trim_start(r) == r);
    assert(trim_end(r) == r);
}

/// A record that parsing gave, once written, parses as itself, provided its
/// address is written as text that reads back as that address.
#[verifier::rlimit(40)]
proof fn lemma_record_round_trip(s: Seq<char>)
    requires
        parse_data(s) is Ok,
        text_reads_back(parse_data(s)->Ok_0.0),
    ensures
        parse_data(record_text(parse_data(s)->Ok_0)) == parse_data(s),
{
    let (a, ws) = parse_data(s)->Ok_0;
    lemma_parsed_aliases(s);
    let ip = ip_text(a);
    let r = record_text((a, ws));
    lemma_record_text_trimmed(a, ws);
    assert(r =~= ip + (seq![' '] + aliases_text(ws)));
    lemma_space_from_after(r, ip.len() as int, 0);
    assert(r.take(ip.len() as int) =~= ip);
    assert(r.skip(ip.len() as int) =~= seq![' '] + aliases_text(ws));
    lemma_words_aliases(seq![' '], ws);
    let sp = seq![' '];
    assert(sp.drop_last() =~= Seq::<char>::empty());
    assert(sp.last() == ' ');
    assert(is_space(' '));
    assert(words(Seq::<char>::empty()) =~= Seq::<Seq<char>>::empty());
    assert(words(sp) =~= Seq::<Seq<char>>::empty());
    assert(words(seq![' ']) + ws =~= ws);
    lemma_no_error_if_valid(ws, 0);
}

proof fn lemma_space_from_facts(t: Seq<char>, i: int)
    requires
        0 <= i,
        space_from(t, i) is Some,
    ensures
        i <= space_from(t, i)->0 < t.len(),
        is_space(t[space_from(t, i)->0]),
    decreases t.len() - i,
{
    if i < t.len() && !is_space(t[i]) {
        lemma_space_from_facts(t, i + 1);
    }
}

proof fn lemma_trim_end_facts(s: Seq<char>)
    ensures
        trim_end(s).len() > 0 ==> !is_space(trim_end(s).last()),
        trim_end(s).len() > 0 ==> trim_end(s)[0] == s[0],
    decreases s.len(),
{
    if s.len() > 0 && is_space(s.last()) {
        lemma_trim_end_facts(s.drop_last());
    }
}

proof fn lemma_trim_facts(s: Seq<char>)
    ensures
        trim(s).len() > 0 ==> !is_space(trim(s).last()),
{
    lemma_trim_end_facts(trim_start(s));
}

// ---- numbers ----
proof fn lemma_digit_char(d: int, base: int)
    requires
        0 <= d < base,
        base == 10 || base == 16,
    ensures
        digit_value(digit_char(d), base) == Some(d),
        digit_char(d) == '0' <==> d == 0,
{
    if d < 10 {
        assert(('0' as int + d) as char as int == '0' as int + d);
    } else {
        assert(('a' as int + d - 10) as char as int == 'a' as int + d - 10);
    }
}

/// A digit is no separator and no white space.
proof fn lemma_digit_plain(c: char, base: int)
    requires
        digit_value(c, base) is Some,
        base == 10 || base == 16,
    ensures
        c != ':' && c != '.' && !is_space(c),
{
}

proof fn lemma_num_text(n: nat, base: nat)
    requires
        base == 10 || base == 16,
    ensures
        num_text(n, base).len() > 0,
        all_digits(num_text(n, base), base as int),
        digits_value(num_text(n, base), base as int) == n,
        n > 0 ==> num_text(n, base)[0] != '0',
        n < base ==> num_text(n, base).len() == 1,
        n < base * base ==> num_text(n, base).len() <= 2,
        n < base * base * base ==> num_text(n, base).len() <= 3,
        n < base * base * base * base ==> num_text(n, base).len() <= 4,
    decreases n,
{
    let b = base as int;
    if n < base {
        lemma_digit_char(n as int, b);
        let t = num_text(n, base);
        assert(t.drop_last() =~= Seq::<char>::empty());
        assert(t.last() == digit_char(n as int));
        assert(digits_value(Seq::<char>::empty(), b) == 0);
        assert(digits_value(t, b) == digits_value(t.drop_last(), b) * b + digit_value(t.last(), b)->0);
        assert(all_digits(t, b)) by {
            assert forall|i: int| 0 <= i < t.len() implies (#[trigger] digit_value(t[i], b)) is Some by {
                assert(i == 0);
            }
        }
    } else {
        let q = n / base;
        let r = n % base;
        assert(n == q * base + r && 0 <= r < base && q < n && q > 0) by (nonlinear_arith)
            requires
                n >= base,
                base >= 2,
                q == n / base,
                r == n % base,
        ;
        lemma_num_text(q, base);
        lemma_digit_char(r as int, b);
        let pre = num_text(q, base);
        let t = num_text(n, base);
        assert(t == pre.push(digit_char(r as int)));
        assert(t.drop_last() =~= pre);
        assert(t.last() == digit_char(r as int));
        assert(digits_value(t, b) == digits_value(pre, b) * b + r);
        assert(all_digits(t, b)) by {
            assert forall|i: int| 0 <= i < t.len() implies (#[trigger] digit_value(t[i], b)) is Some by {
                if i < pre.len() {
                    assert(t[i] == pre[i]);
                }
            }
        }
        assert(t[0] == pre[0]);
        assert(n < base * base ==> q < base) by (nonlinear_arith)
            requires
                n == q * base + r,
                0 <= r,
                base >= 2,
        ;
        assert(n < base * base * base ==> q < base * base) by (nonlinear_arith)
            requires
                n == q * base + r,
                0 <= r,
                base >= 2,
        ;
        assert(n < base * base * base * base ==> q < base * base * base) by (nonlinear_arith)
            requires
                n == q * base + r,
                0 <= r,
                base >= 2,
        ;
    }
}

proof fn lemma_num_text_plain(n: nat, base: nat)
    requires
        base == 10 || base == 16,
    ensures
        forall|i: int|
            0 <= i < num_text(n, base).len() ==> #[trigger] num_text(n, base)[i] != ':'
                && num_text(n, base)[i] != '.' && !is_space(num_text(n, base)[i]),
{
    lemma_num_text(n, base);
    assert forall|i: int| 0 <= i < num_text(n, base).len() implies #[trigger] num_text(n, base)[i]
        != ':' && num_text(n, base)[i] != '.' && !is_space(num_text(n, base)[i]) by {
        assert(digit_value(num_text(n, base)[i], base as int) is Some);
        lemma_digit_plain(num_text(n, base)[i], base as int);
    }
}

/// An octet written in decimal reads back as a decimal octet of that value.
proof fn lemma_octet_text(n: nat)
    requires
        n < 256,
    ensures
        dec_octet(num_text(n, 10)),
        digits_value(num_text(n, 10), 10) == n,
{
    lemma_num_text(n, 10);
    if n == 0 {
        assert(num_text(n, 10).len() == 1);
    }
}

// ---- IPv4 ----
proof fn lemma_octets(x: int)
    requires
        0 <= x < 0x1_0000_0000,
    ensures
        octets_value(x / 16777216, (x / 65536) % 256, (x / 256) % 256, x % 256) == x,
        x / 16777216 < 256,
{
    let q1 = x / 256;
    let q2 = q1 / 256;
    let q3 = q2 / 256;
    vstd::arithmetic::div_mod::lemma_fundamental_div_mod(x, 256);
    vstd::arithmetic::div_mod::lemma_fundamental_div_mod(q1, 256);
    vstd::arithmetic::div_mod::lemma_fundamental_div_mod(q2, 256);
    vstd::arithmetic::div_mod::lemma_div_denominator(x, 256, 256);
    vstd::arithmetic::div_mod::lemma_div_denominator(x, 65536, 256);
    assert(q2 == x / 65536);
    assert(q3 == x / 16777216);
    assert(x / 16777216 < 256) by (nonlinear_arith)
        requires
            0 <= x < 0x1_0000_0000,
    ;
}

pub open spec fn dotted(ta: Seq<char>, tb: Seq<char>, tc: Seq<char>, td: Seq<char>) -> Seq<char> {
    ta + seq!['.'] + tb + seq!['.'] + tc + seq!['.'] + td
}

pub open spec fn no_char(t: Seq<char>, c: char) -> bool {
    forall|i: int| 0 <= i < t.len() ==> #[trigger] t[i] != c
}

pub open spec fn no_space(t: Seq<char>) -> bool {
    forall|i: int| 0 <= i < t.len() ==> !is_space(#[trigger] t[i])
}

proof fn lemma_dotted_split(ta: Seq<char>, tb: Seq<char>, tc: Seq<char>, td: Seq<char>)
    requires
        no_char(ta, '.'),
        no_char(tb, '.'),
        no_char(tc, '.'),
        no_char(td, '.'),
    ensures
        split_on(dotted(ta, tb, tc, td), '.') == seq![ta, tb, tc, td],
{
    assert(dotted(ta, tb, tc, td) =~= ta + seq!['.'] + (tb + seq!['.'] + (tc + seq!['.'] + td)));
    crate::chars::lemma_split_on_no_sep(ta, '.');
    crate::chars::lemma_split_on_no_sep(tb, '.');
    crate::chars::lemma_split_on_no_sep(tc, '.');
    crate::chars::lemma_split_on_no_sep(td, '.');
    crate::chars::lemma_split_on_join(tc, '.', td);
    crate::chars::lemma_split_on_join(tb, '.', tc + seq!['.'] + td);
    crate::chars::lemma_split_on_join(ta, '.', tb + seq!['.'] + (tc + seq!['.'] + td));
    assert(seq![ta] + (seq![tb] + (seq![tc] + seq![td])) =~= seq![ta, tb, tc, td]);
}

proof fn lemma_join_plain(x: Seq<char>, sep: char, y: Seq<char>)
    requires
        no_char(x, ':'),
        no_char(y, ':'),
        no_space(x),
        no_space(y),
        sep != ':',
        !is_space(sep),
    ensures
        no_char(x + seq![sep] + y, ':'),
        no_space(x + seq![sep] + y),
{
    let t = x + seq![sep] + y;
    assert forall|i: int| 0 <= i < t.len() implies #[trigger] t[i] != ':' && !is_space(t[i]) by {
        if i < x.len() {
            assert(t[i] == x[i]);
        } else if i > x.len() {
            assert(t[i] == y[i - x.len() - 1]);
        }
    }
}

proof fn lemma_octet_plain(n: nat)
    ensures
        no_char(num_text(n, 10), ':'),
        no_char(num_text(n, 10), '.'),
        no_space(num_text(n, 10)),
{
    lemma_num_text_plain(n, 10);
}

#[verifier::rlimit(40)]
proof fn lemma_ipv4_text(bits: u32)
    ensures
        ipv4_value(ipv4_text(bits as int)) == Some(Ipv4Addr { bits }),
        ipv4_text(bits as int).len() > 0,
        no_char(ipv4_text(bits as int), ':'),
        no_space(ipv4_text(bits as int)),
{
    let x = bits as int;
    lemma_octets(x);
    let (a, b, c, d) = (
        (x / 16777216) as nat,
        ((x / 65536) % 256) as nat,
        ((x / 256) % 256) as nat,
        (x % 256) as nat,
    );
    let (ta, tb, tc, td) = (num_text(a, 10), num_text(b, 10), num_text(c, 10), num_text(d, 10));
    lemma_octet_text(a);
    lemma_octet_text(b);
    lemma_octet_text(c);
    lemma_octet_text(d);
    lemma_octet_plain(a);
    lemma_octet_plain(b);
    lemma_octet_plain(c);
    lemma_octet_plain(d);
    assert(ipv4_text(x) == dotted(ta, tb, tc, td));
    lemma_dotted_split(ta, tb, tc, td);
    lemma_join_plain(ta, '.', tb);
    lemma_join_plain(ta + seq!['.'] + tb, '.', tc);
    lemma_join_plain(ta + seq!['.'] + tb + seq!['.'] + tc, '.', td);
}

// ---- IPv6 ----
proof fn lemma_segments_of(bits: u128)
    ensures
        segments_of(bits as int).len() == 8,
        forall|i: int| 0 <= i < 8 ==> 0 <= #[trigger] segments_of(bits as int)[i] < 65536,
        segments_value(segments_of(bits as int)) == bits,
{
    let x = bits as int;
    let s = segments_of(x);
    assert forall|i: int| 0 <= i < 8 implies 0 <= #[trigger] segments_of(x)[i] < 65536 by {
        assert(segment_weight(i) > 0);
    }
    let q = |i: int| x / segment_weight(i);
    assert forall|i: int| 0 <= i < 7 implies #[trigger] q(i) == q(i + 1) / 65536 by {
        vstd::arithmetic::div_mod::lemma_div_denominator(x, segment_weight(i + 1), 65536);
        assert(segment_weight(i + 1) * 65536 == segment_weight(i));
    }
    assert(q(0) < 65536) by {
        let w = segment_weight(0);
        assert(0 <= x < w * 65536);
        assert(x / w < 65536) by (nonlinear_arith)
            requires
                0 <= x < w * 65536,
                w > 0,
        ;
    }
    assert forall|i: int| 0 <= i < 8 implies #[trigger] s[i] == q(i) % 65536 by {}
    assert forall|i: int| 0 <= i < 7 implies q(i + 1) == #[trigger] q(i) * 65536 + s[i + 1] by {
        vstd::arithmetic::div_mod::lemma_fundamental_div_mod(q(i + 1), 65536);
        assert(q(i) == q(i + 1) / 65536);
    }
    assert(s[0] == q(0)) by {
        vstd::arithmetic::div_mod::lemma_small_mod(q(0) as nat, 65536);
    }
    assert(q(7) == x);
    assert(s =~= seq![s[0], s[1], s[2], s[3], s[4], s[5], s[6], s[7]]);
    lemma_segments_value_8(s);
    assert(q(1) == q(0) * 65536 + s[1]);
    assert(q(2) == q(1) * 65536 + s[2]);
    assert(q(3) == q(2) * 65536 + s[3]);
    assert(q(4) == q(3) * 65536 + s[4]);
    assert(q(5) == q(4) * 65536 + s[5]);
    assert(q(6) == q(5) * 65536 + s[6]);
    assert(q(7) == q(6) * 65536 + s[7]);
}

proof fn lemma_segments_value_8(s: Seq<int>)
    requires
        s.len() == 8,
    ensures
        segments_value(s) == ((((((s[0] * 65536 + s[1]) * 65536 + s[2]) * 65536 + s[3]) * 65536
            + s[4]) * 65536 + s[5]) * 65536 + s[6]) * 65536 + s[7],
{
    reveal_with_fuel(segments_value, 9);
    assert(s.drop_last().drop_last().drop_last().drop_last().drop_last().drop_last().drop_last().drop_last()
        =~= Seq::<int>::empty());
}

pub open spec fn hex_texts(s: Seq<int>) -> Seq<Seq<char>> {
    s.map_values(|x: int| num_text(x as nat, 16))
}

pub open spec fn all_segments(s: Seq<int>) -> bool {
    forall|i: int| 0 <= i < s.len() ==> 0 <= #[trigger] s[i] < 65536
}

proof fn lemma_hex_text(x: int)
    requires
        0 <= x < 65536,
    ensures
        hex_group(num_text(x as nat, 16)),
        digits_value(num_text(x as nat, 16), 16) == x,
        no_char(num_text(x as nat, 16), ':'),
        no_char(num_text(x as nat, 16), '.'),
        no_space(num_text(x as nat, 16)),
{
    lemma_num_text(x as nat, 16);
    lemma_num_text_plain(x as nat, 16);
}

/// No two colons stand side by side.
pub open spec fn no_double_colon(t: Seq<char>) -> bool {
    forall|i: int| 0 <= i < t.len() - 1 ==> !(#[trigger] t[i] == ':' && t[i + 1] == ':')
}

proof fn lemma_hex_join(s: Seq<int>)
    requires
        all_segments(s),
    ensures
        s.len() > 0 ==> split_on(hex_join(s), ':') == hex_texts(s),
        s.len() > 0 ==> hex_join(s).len() > 0 && hex_join(s)[0] != ':' && hex_join(s).last() != ':',
        s.len() == 0 ==> hex_join(s).len() == 0,
        no_double_colon(hex_join(s)),
        no_char(hex_join(s), '.'),
        no_space(hex_join(s)),
    decreases s.len(),
{
    if s.len() == 1 {
        lemma_hex_text(s[0]);
        crate::chars::lemma_split_on_no_sep(num_text(s[0] as nat, 16), ':');
        assert(hex_texts(s) =~= seq![num_text(s[0] as nat, 16)]);
    } else if s.len() > 1 {
        let s2 = s.drop_last();
        assert(all_segments(s2)) by {
            assert forall|i: int| 0 <= i < s2.len() implies 0 <= #[trigger] s2[i] < 65536 by {
                assert(s2[i] == s[i]);
            }
        }
        lemma_hex_join(s2);
        let h = hex_join(s2);
        assert(s.last() == s[s.len() - 1]);
        let y = num_text(s.last() as nat, 16);
        lemma_hex_text(s.last());
        crate::chars::lemma_split_on_no_sep(y, ':');
        crate::chars::lemma_split_on_join(h, ':', y);
        let t = hex_join(s);
        assert(t == h + seq![':'] + y);
        assert(hex_texts(s) =~= hex_texts(s2) + seq![y]);
        assert(t[0] == h[0]);
        assert(t.last() == y.last());
        assert(y.last() == y[y.len() - 1]);
        assert forall|i: int| 0 <= i < t.len() - 1 implies !(#[trigger] t[i] == ':' && t[i + 1] == ':') by {
            if i + 1 < h.len() {
                assert(t[i] == h[i] && t[i + 1] == h[i + 1]);
            } else if i + 1 == h.len() {
                assert(t[i] == h.last());
            } else if i == h.len() {
                assert(t[i + 1] == y[0]);
            } else {
                assert(t[i] == y[i - h.len() - 1]);
            }
        }
        assert forall|i: int| 0 <= i < t.len() implies #[trigger] t[i] != '.' && !is_space(t[i]) by {
            if i < h.len() {
                assert(t[i] == h[i]);
            } else if i > h.len() {
                assert(t[i] == y[i - h.len() - 1]);
            }
        }
    }
}

proof fn lemma_hex_groups(s: Seq<int>)
    requires
        all_segments(s),
    ensures
        groups_of(hex_join(s)) == hex_texts(s),
        all_hex_groups(hex_texts(s)),
        group_values(hex_texts(s)) == s,
{
    lemma_hex_join(s);
    if s.len() == 0 {
        assert(hex_texts(s) =~= Seq::<Seq<char>>::empty());
    }
    assert forall|i: int| 0 <= i < hex_texts(s).len() implies #[trigger] hex_group(hex_texts(s)[i]) by {
        lemma_hex_text(s[i]);
    }
    assert forall|i: int| 0 <= i < s.len() implies #[trigger] group_values(hex_texts(s))[i] == s[i] by {
        lemma_hex_text(s[i]);
    }
    assert(group_values(hex_texts(s)) =~= s);
}

proof fn lemma_no_double_colon_from(t: Seq<char>, i: int)
    requires
        0 <= i,
        no_double_colon(t),
    ensures
        double_colon_from(t, i) is None,
    decreases t.len() - i,
{
    if i + 1 < t.len() {
        lemma_no_double_colon_from(t, i + 1);
    }
}

proof fn lemma_double_colon_at(t: Seq<char>, k: int, i: int)
    requires
        0 <= i <= k,
        k + 1 < t.len(),
        t[k] == ':' && t[k + 1] == ':',
        forall|j: int| 0 <= j < k ==> !(#[trigger] t[j] == ':' && t[j + 1] == ':'),
    ensures
        double_colon_from(t, i) == Some(k),
    decreases k - i,
{
    if i < k {
        lemma_double_colon_at(t, k, i + 1);
    }
}

proof fn lemma_zeros_before(s: Seq<int>, i: int)
    requires
        0 <= i <= s.len(),
    ensures
        0 <= zeros_before(s, i) <= i,
        forall|j: int| i - zeros_before(s, i) <= j < i ==> #[trigger] s[j] == 0,
    decreases i,
{
    if i > 0 && s[i - 1] == 0 {
        lemma_zeros_before(s, i - 1);
    }
}

proof fn lemma_longest_zeros(s: Seq<int>, n: int)
    requires
        0 <= n <= s.len(),
    ensures
        0 <= longest_zeros(s, n).0,
        0 <= longest_zeros(s, n).1,
        longest_zeros(s, n).0 + longest_zeros(s, n).1 <= n,
        forall|j: int|
            longest_zeros(s, n).0 <= j < longest_zeros(s, n).0 + longest_zeros(s, n).1 ==> #[trigger] s[j]
                == 0,
    decreases n,
{
    if n > 0 {
        lemma_longest_zeros(s, n - 1);
        lemma_zeros_before(s, n);
    }
}

/// Text with a colon is no dotted quad.
proof fn lemma_colon_not_ipv4(t: Seq<char>, i: int)
    requires
        0 <= i < t.len(),
        t[i] == ':',
    ensures
        ipv4_value(t) is None,
{
    crate::chars::lemma_split_on_covers(t, '.', i);
    let p = split_on(t, '.');
    let (a, b) = choose|a: int, b: int|
        0 <= a < p.len() && 0 <= b < p[a].len() && (#[trigger] split_on(t, '.')[a][b]) == t[i];
    if ipv4_value(t) is Some {
        assert(dec_octet(p[a]));
        assert(digit_value(p[a][b], 10) is Some);
    }
}

proof fn lemma_ipv6_uncompressed(s: Seq<int>)
    requires
        s.len() == 8,
        all_segments(s),
    ensures
        ipv6_segments(hex_join(s)) == Some(s),
{
    let t = hex_join(s);
    lemma_hex_join(s);
    lemma_hex_groups(s);
    lemma_no_double_colon_from(t, 0);
    assert(split_on(t, ':') == hex_texts(s));
    assert(tail_ok(hex_texts(s)));
}

#[verifier::rlimit(40)]
proof fn lemma_ipv6_compressed(s: Seq<int>, st: int, len: int)
    requires
        s.len() == 8,
        all_segments(s),
        0 <= st,
        2 <= len,
        st + len <= 8,
        forall|j: int| st <= j < st + len ==> #[trigger] s[j] == 0,
    ensures
        ipv6_segments(hex_join(s.take(st)) + seq![':', ':'] + hex_join(s.skip(st + len))) == Some(
            s,
        ),
{
    let hs = s.take(st);
    let js = s.skip(st + len);
    assert(all_segments(hs)) by {
        assert forall|i: int| 0 <= i < hs.len() implies 0 <= #[trigger] hs[i] < 65536 by {
            assert(hs[i] == s[i]);
        }
    }
    assert(all_segments(js)) by {
        assert forall|i: int| 0 <= i < js.len() implies 0 <= #[trigger] js[i] < 65536 by {
            assert(js[i] == s[i + st + len]);
        }
    }
    let h = hex_join(hs);
    let j = hex_join(js);
    lemma_hex_join(hs);
    lemma_hex_join(js);
    lemma_hex_groups(hs);
    lemma_hex_groups(js);
    let t = h + seq![':', ':'] + j;
    let k = h.len() as int;
    assert forall|i: int| 0 <= i < k implies !(#[trigger] t[i] == ':' && t[i + 1] == ':') by {
        if i + 1 < k {
            assert(t[i] == h[i] && t[i + 1] == h[i + 1]);
        } else {
            assert(t[i] == h.last());
        }
    }
    lemma_double_colon_at(t, k, 0);
    assert(t.take(k) =~= h);
    assert(t.skip(k + 2) =~= j);
    let hp = groups_of(h);
    let tp = groups_of(j);
    assert(tail_ok(tp));
    assert(tail_values(tp) == js);
    assert(hp.len() == hs.len());
    assert(hp.len() + tail_values(tp).len() <= 7);
    let zeros = Seq::new((8 - hp.len() - tail_values(tp).len()) as nat, |i: int| 0int);
    assert(hs + zeros + js =~= s);
}

#[verifier::rlimit(40)]
proof fn lemma_ipv6_mapped(s: Seq<int>)
    requires
        s.len() == 8,
        all_segments(s),
        s[0] == 0 && s[1] == 0 && s[2] == 0 && s[3] == 0 && s[4] == 0 && s[5] == 0xffff,
    ensures
        ipv6_segments(seq![':', ':', 'f', 'f', 'f', 'f', ':'] + ipv4_text(s[6] * 65536 + s[7]))
            == Some(s),
        no_space(seq![':', ':', 'f', 'f', 'f', 'f', ':'] + ipv4_text(s[6] * 65536 + s[7])),
{
    let v = s[6] * 65536 + s[7];
    assert(0 <= v < 0x1_0000_0000) by (nonlinear_arith)
        requires
            0 <= s[6] < 65536,
            0 <= s[7] < 65536,
            v == s[6] * 65536 + s[7],
    ;
    assert(v / 65536 == s[6] && v % 65536 == s[7]) by (nonlinear_arith)
        requires
            0 <= s[7] < 65536,
            v == s[6] * 65536 + s[7],
    ;
    let q = ipv4_text(v);
    lemma_ipv4_text(v as u32);
    let f = seq!['f', 'f', 'f', 'f'];
    let t = seq![':', ':', 'f', 'f', 'f', 'f', ':'] + q;
    lemma_double_colon_at(t, 0, 0);
    assert(t.take(0) =~= Seq::<char>::empty());
    assert(t.skip(2) =~= f + seq![':'] + q);
    crate::chars::lemma_split_on_join(f, ':', q);
    crate::chars::lemma_split_on_no_sep(f, ':');
    crate::chars::lemma_split_on_no_sep(q, ':');
    let tp = split_on(t.skip(2), ':');
    assert(tp =~= seq![f, q]);
    assert(groups_of(t.skip(2)) == tp);
    assert(hex_group(f)) by {
        assert(all_digits(f, 16)) by {
            assert forall|i: int| 0 <= i < f.len() implies (#[trigger] digit_value(f[i], 16)) is Some by {}
        }
    }
    assert(digits_value(f, 16) == 65535) by {
        reveal_with_fuel(digits_value, 5);
        assert(f.drop_last() =~= seq!['f', 'f', 'f']);
        assert(f.drop_last().drop_last() =~= seq!['f', 'f']);
        assert(f.drop_last().drop_last().drop_last() =~= seq!['f']);
        assert(f.drop_last().drop_last().drop_last().drop_last() =~= Seq::<char>::empty());
    }
    // the dotted quad is no hexadecimal group: it holds a dot
    let ta = num_text((v / 16777216) as nat, 10);
    assert(q[ta.len() as int] == '.');
    assert(!hex_group(q)) by {
        if hex_group(q) {
            assert(digit_value(q[ta.len() as int], 16) is Some);
        }
    }
    assert(!all_hex_groups(tp)) by {
        assert(tp[1] == q);
    }
    assert(tp.drop_last() =~= seq![f]);
    assert(all_hex_groups(seq![f]));
    assert(tail_ok(tp));
    assert(group_values(seq![f]) =~= seq![65535int]);
    assert(tail_values(tp) =~= seq![65535int, s[6], s[7]]);
    assert(groups_of(Seq::<char>::empty()) =~= Seq::<Seq<char>>::empty());
    assert(group_values(Seq::<Seq<char>>::empty()) =~= Seq::<int>::empty());
    let zeros = Seq::new(5, |i: int| 0int);
    assert(Seq::<int>::empty() + zeros + seq![65535int, s[6], s[7]] =~= s);
    assert forall|i: int| 0 <= i < t.len() implies !is_space(#[trigger] t[i]) by {
        if i >= 7 {
            assert(t[i] == q[i - 7]);
        }
    }
}

#[verifier::rlimit(40)]
proof fn lemma_ipv6_text(bits: u128)
    ensures
        ipv6_segments(ipv6_text(bits as int)) == Some(segments_of(bits as int)),
        ipv6_text(bits as int).len() > 0,
        no_space(ipv6_text(bits as int)),
        ipv4_value(ipv6_text(bits as int)) is None,
{
    let x = bits as int;
    let s = segments_of(x);
    lemma_segments_of(bits);
    assert(all_segments(s));
    let t = ipv6_text(x);
    if s[0] == 0 && s[1] == 0 && s[2] == 0 && s[3] == 0 && s[4] == 0 && s[5] == 0xffff {
        lemma_ipv6_mapped(s);
        assert(t[0] == ':');
        lemma_colon_not_ipv4(t, 0);
    } else {
        let (st, len) = longest_zeros(s, 8);
        lemma_longest_zeros(s, 8);
        if len > 1 {
            lemma_ipv6_compressed(s, st, len);
            let h = hex_join(s.take(st));
            let j = hex_join(s.skip(st + len));
            let hs = s.take(st);
            let js = s.skip(st + len);
            assert(all_segments(hs)) by {
                assert forall|i: int| 0 <= i < hs.len() implies 0 <= #[trigger] hs[i] < 65536 by {
                    assert(hs[i] == s[i]);
                }
            }
            assert(all_segments(js)) by {
                assert forall|i: int| 0 <= i < js.len() implies 0 <= #[trigger] js[i] < 65536 by {
                    assert(js[i] == s[i + st + len]);
                }
            }
            lemma_hex_join(hs);
            lemma_hex_join(js);
            assert(t == h + seq![':', ':'] + j);
            assert(t[h.len() as int] == ':');
            assert forall|i: int| 0 <= i < t.len() implies !is_space(#[trigger] t[i]) by {
                if i < h.len() {
                    assert(t[i] == h[i]);
                } else if i >= h.len() + 2 {
                    assert(t[i] == j[i - h.len() - 2]);
                }
            }
            lemma_colon_not_ipv4(t, h.len() as int);
        } else {
            lemma_ipv6_uncompressed(s);
            lemma_hex_join(s);
            let h = hex_join(s.drop_last());
            assert(s.drop_last().len() > 0);
            lemma_hex_join(s.drop_last());
            assert(t == h + seq![':'] + num_text(s.last() as nat, 16));
            assert(t[h.len() as int] == ':');
            lemma_colon_not_ipv4(t, h.len() as int);
        }
    }
}

/// Every address is written as non-empty text without white space that
/// reads back as that address.
pub proof fn lemma_ip_text_reads_back(a: IpAddr)
    ensures
        text_reads_back(a),
{
    match a {
        IpAddr::V4(x) => {
            lemma_ipv4_text(x.bits);
        },
        IpAddr::V6(x) => {
            lemma_ipv6_text(x.bits);
            lemma_segments_of(x.bits);
            assert(ip_value(ip_text(a)) == Some(
                IpAddr::V6(Ipv6Addr { bits: segments_value(segments_of(x.bits as int)) as u128 }),
            ));
        },
    }
}

/// Parsing the data portion of a line, writing the record it gives, and
/// parsing that text again gives the same record.
pub proof fn lemma_data_round_trip(s: Seq<char>)
    requires
        parse_data(s) is Ok,
    ensures
        parse_data(record_text(parse_data(s)->Ok_0)) == parse_data(s),
{
    lemma_ip_text_reads_back(parse_data(s)->Ok_0.0);
    lemma_record_round_trip(s);
}

} // verus!
