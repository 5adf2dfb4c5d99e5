//! Character classes and splitting of character sequences, with the
//! executable helpers that compute them.
use vstd::prelude::*;

verus! {

/// The characters with the Unicode `White_Space` property.
pub open spec fn is_space(c: char) -> bool {
    ('\u{9}' <= c && c <= '\u{d}') || c == ' ' || c == '\u{85}' || c == '\u{a0}' || c
        == '\u{1680}' || ('\u{2000}' <= c && c <= '\u{200a}') || c == '\u{2028}' || c
        == '\u{2029}' || c == '\u{202f}' || c == '\u{205f}' || c == '\u{3000}'
}

pub fn is_space_char(c: char) -> (r: bool)
    ensures
        r == is_space(c),
{
    ('\u{9}' <= c && c <= '\u{d}') || c == ' ' || c == '\u{85}' || c == '\u{a0}' || c
        == '\u{1680}' || ('\u{2000}' <= c && c <= '\u{200a}') || c == '\u{2028}' || c
        == '\u{2029}' || c == '\u{202f}' || c == '\u{205f}' || c == '\u{3000}'
}

/// The pieces of `s` between occurrences of `sep`; always at least one piece.
pub open spec fn split_on(s: Seq<char>, sep: char) -> Seq<Seq<char>>
    decreases s.len(),
{
    if s.len() == 0 {
        seq![Seq::<char>::empty()]
    } else {
        let p = split_on(s.drop_last(), sep);
        if s.last() == sep {
            p.push(Seq::<char>::empty())
        } else {
            p.drop_last().push(p.last().push(s.last()))
        }
    }
}

pub proof fn lemma_split_on_nonempty(s: Seq<char>, sep: char)
    ensures
        split_on(s, sep).len() >= 1,
    decreases s.len(),
{
    if s.len() > 0 {
        lemma_split_on_nonempty(s.drop_last(), sep);
    }
}

/// The maximal runs of non-space characters of `s`, in order.
pub open spec fn words(s: Seq<char>) -> Seq<Seq<char>>
    decreases s.len(),
{
    if s.len() == 0 {
        Seq::empty()
    } else {
        let w = words(s.drop_last());
        let c = s.last();
        if is_space(c) {
            w
        } else if s.len() >= 2 && !is_space(s[s.len() - 2]) {
            w.drop_last().push(w.last().push(c))
        } else {
            w.push(seq![c])
        }
    }
}

pub open spec fn views(v: Seq<Vec<char>>) -> Seq<Seq<char>> {
    v.map_values(|p: Vec<char>| p@)
}

/// The characters of a string, one per element.
pub fn chars_of(s: &str) -> (r: Vec<char>)
    ensures
        r@ == s@,
{
    let n = s.unicode_len();
    let mut r: Vec<char> = Vec::new();
    let mut i: usize = 0;
    while i < n
        invariant
            n == s@.len(),
            i <= n,
            r@ == s@.take(i as int),
        decreases n - i,
    {
        r.push(s.get_char(i));
        i += 1;
        assert(r@ =~= s@.take(i as int));
    }
    assert(r@ =~= s@);
    r
}

/// The characters `v[lo..hi]`.
pub fn slice_chars(v: &Vec<char>, lo: usize, hi: usize) -> (r: Vec<char>)
    requires
        lo <= hi <= v@.len(),
    ensures
        r@ == v@.subrange(lo as int, hi as int),
{
    let mut r: Vec<char> = Vec::new();
    let mut i: usize = lo;
    while i < hi
        invariant
            lo <= i <= hi <= v@.len(),
            r@ == v@.subrange(lo as int, i as int),
        decreases hi - i,
    {
        r.push(v[i]);
        i += 1;
        assert(r@ =~= v@.subrange(lo as int, i as int));
    }
    r
}

/// The pieces of `v` between occurrences of `sep`.
pub fn split_chars(v: &Vec<char>, sep: char) -> (r: Vec<Vec<char>>)
    ensures
        views(r@) == split_on(v@, sep),
{
    let mut parts: Vec<Vec<char>> = Vec::new();
    let mut cur: Vec<char> = Vec::new();
    let mut i: usize = 0;
    assert(v@.take(0) =~= Seq::<char>::empty());
    assert(views(parts@).push(cur@) =~= seq![Seq::<char>::empty()]);
    while i < v.len()
        invariant
            i <= v@.len(),
            views(parts@).push(cur@) == split_on(v@.take(i as int), sep),
        decreases v@.len() - i,
    {
        let c = v[i];
        let ghost before = v@.take(i as int);
        let ghost p = split_on(before, sep);
        assert(v@.take(i as int + 1).drop_last() =~= before);
        if c == sep {
            parts.push(cur);
            cur = Vec::new();
            assert(views(parts@).push(cur@) =~= p.push(Seq::<char>::empty()));
        } else {
            let ghost old_parts = views(parts@);
            cur.push(c);
            assert(views(parts@) =~= old_parts);
            assert(p.drop_last() =~= old_parts);
            assert(views(parts@).push(cur@) =~= p.drop_last().push(p.last().push(c)));
        }
        i += 1;
    }
    assert(v@.take(v@.len() as int) =~= v@);
    parts.push(cur);
    assert(views(parts@) =~= split_on(v@, sep));
    parts
}

} // verus!

verus! {

/// `s` without its leading white space.
pub open spec fn trim_start(s: Seq<char>) -> Seq<char>
    decreases s.len(),
{
    if s.len() > 0 && is_space(s[0]) {
        trim_start(s.drop_first())
    } else {
        s
    }
}

/// `s` without its trailing white space.
pub open spec fn trim_end(s: Seq<char>) -> Seq<char>
    decreases s.len(),
{
    if s.len() > 0 && is_space(s.last()) {
        trim_end(s.drop_last())
    } else {
        s
    }
}

pub open spec fn trim(s: Seq<char>) -> Seq<char> {
    trim_end(trim_start(s))
}

pub proof fn lemma_trim_start(s: Seq<char>, lo: int)
    requires
        0 <= lo <= s.len(),
        forall|i: int| 0 <= i < lo ==> is_space(#[trigger] s[i]),
        lo == s.len() || !is_space(s[lo]),
    ensures
        trim_start(s) == s.skip(lo),
    decreases lo,
{
    if lo == 0 {
        assert(s.skip(0) =~= s);
    } else {
        let t = s.drop_first();
        assert forall|i: int| 0 <= i < lo - 1 implies is_space(#[trigger] t[i]) by {
            assert(t[i] == s[i + 1]);
        }
        lemma_trim_start(t, lo - 1);
        assert(t.skip(lo - 1) =~= s.skip(lo));
    }
}

pub proof fn lemma_trim_end(s: Seq<char>, hi: int)
    requires
        0 <= hi <= s.len(),
        forall|i: int| hi <= i < s.len() ==> is_space(#[trigger] s[i]),
        hi == 0 || !is_space(s[hi - 1]),
    ensures
        trim_end(s) == s.take(hi),
    decreases s.len() - hi,
{
    if hi == s.len() {
        assert(s.take(hi) =~= s);
    } else {
        let t = s.drop_last();
        assert forall|i: int| hi <= i < t.len() implies is_space(#[trigger] t[i]) by {
            assert(t[i] == s[i]);
        }
        lemma_trim_end(t, hi);
        assert(t.take(hi) =~= s.take(hi));
    }
}

/// The bounds of `v[lo..hi]` without its leading and trailing white space.
pub fn trim_bounds(v: &Vec<char>, lo: usize, hi: usize) -> (r: (usize, usize))
    requires
        lo <= hi <= v@.len(),
    ensures
        lo <= r.0 <= r.1 <= hi,
        v@.subrange(r.0 as int, r.1 as int) == trim(v@.subrange(lo as int, hi as int)),
        trim_start(v@.subrange(lo as int, hi as int)) == v@.subrange(r.0 as int, hi as int),
{
    let ghost s = v@.subrange(lo as int, hi as int);
    let mut a: usize = lo;
    while a < hi && is_space_char(v[a])
        invariant
            lo <= a <= hi <= v@.len(),
            forall|i: int| lo <= i < a ==> is_space(#[trigger] v@[i]),
        decreases hi - a,
    {
        a += 1;
    }
    proof {
        assert forall|i: int| 0 <= i < a - lo implies is_space(#[trigger] s[i]) by {
            assert(s[i] == v@[lo + i]);
        }
        lemma_trim_start(s, a - lo);
        assert(s.skip(a - lo) =~= v@.subrange(a as int, hi as int));
    }
    let mut b: usize = hi;
    while b > a && is_space_char(v[b - 1])
        invariant
            lo <= a <= b <= hi <= v@.len(),
            forall|i: int| b <= i < hi ==> is_space(#[trigger] v@[i]),
        decreases b - a,
    {
        b -= 1;
    }
    proof {
        let t = v@.subrange(a as int, hi as int);
        assert forall|i: int| b - a <= i < t.len() implies is_space(#[trigger] t[i]) by {
            assert(t[i] == v@[a + i]);
        }
        lemma_trim_end(t, b - a);
        assert(t.take(b - a) =~= v@.subrange(a as int, b as int));
    }
    (a, b)
}

/// The first position at or after `i` of a white-space character in `s`.
pub open spec fn space_from(s: Seq<char>, i: int) -> Option<int>
    decreases s.len() - i,
{
    if i < 0 || i >= s.len() {
        None
    } else if is_space(s[i]) {
        Some(i)
    } else {
        space_from(s, i + 1)
    }
}

pub fn find_space(v: &Vec<char>) -> (r: Option<usize>)
    ensures
        r is None ==> space_from(v@, 0) is None,
        r is Some ==> space_from(v@, 0) == Some(r->0 as int) && r->0 < v@.len(),
{
    let mut i: usize = 0;
    while i < v.len()
        invariant
            i <= v@.len(),
            space_from(v@, 0) == space_from(v@, i as int),
        decreases v@.len() - i,
    {
        if is_space_char(v[i]) {
            return Some(i);
        }
        i += 1;
    }
    None
}

pub open spec fn range_texts(v: Seq<char>, rs: Seq<(usize, usize)>) -> Seq<Seq<char>> {
    rs.map_values(|p: (usize, usize)| v.subrange(p.0 as int, p.1 as int))
}

/// The bounds of the words of `v[lo..hi]`.
pub fn word_ranges(v: &Vec<char>, lo: usize, hi: usize) -> (r: Vec<(usize, usize)>)
    requires
        lo <= hi <= v@.len(),
    ensures
        range_texts(v@, r@) == words(v@.subrange(lo as int, hi as int)),
        forall|j: int| 0 <= j < r@.len() ==> lo <= (#[trigger] r@[j]).0 <= r@[j].1 <= hi,
{
    let mut out: Vec<(usize, usize)> = Vec::new();
    let mut start: usize = lo;
    let mut in_word = false;
    let mut i: usize = lo;
    assert(v@.subrange(lo as int, lo as int) =~= Seq::<char>::empty());
    while i < hi
        invariant
            lo <= start <= i <= hi <= v@.len(),
            in_word == (i > lo && !is_space(v@[i - 1])),
            in_word ==> start < i && words(v@.subrange(lo as int, i as int)) == range_texts(
                v@,
                out@,
            ).push(v@.subrange(start as int, i as int)),
            !in_word ==> words(v@.subrange(lo as int, i as int)) == range_texts(v@, out@),
            forall|j: int| 0 <= j < out@.len() ==> lo <= (#[trigger] out@[j]).0 <= out@[j].1 <= hi,
        decreases hi - i,
    {
        let c = v[i];
        let ghost s = v@.subrange(lo as int, i as int + 1);
        let ghost prev = out@;
        assert(s.drop_last() =~= v@.subrange(lo as int, i as int));
        assert(s.last() == c);
        if i > lo {
            assert(s[s.len() - 2] == v@[i - 1]);
        }
        if is_space_char(c) {
            if in_word {
                out.push((start, i));
                assert(range_texts(v@, out@) =~= range_texts(v@, prev).push(
                    v@.subrange(start as int, i as int),
                ));
            }
            in_word = false;
        } else {
            if in_word {
                assert(v@.subrange(start as int, i as int).push(c) =~= v@.subrange(
                    start as int,
                    i as int + 1,
                ));
                assert(range_texts(v@, out@).push(v@.subrange(start as int, i as int)).drop_last()
                    =~= range_texts(v@, out@));
            } else {
                start = i;
                assert(seq![c] =~= v@.subrange(i as int, i as int + 1));
            }
            in_word = true;
        }
        i += 1;
    }
    if in_word {
        let ghost prev = out@;
        out.push((start, hi));
        assert(range_texts(v@, out@) =~= range_texts(v@, prev).push(
            v@.subrange(start as int, hi as int),
        ));
    }
    out
}

} // verus!

verus! {

/// Every character of `s` other than `sep` stands in one of its pieces.
pub proof fn lemma_split_on_covers(s: Seq<char>, sep: char, i: int)
    requires
        0 <= i < s.len(),
        s[i] != sep,
    ensures
        exists|p: int, q: int|
            0 <= p < split_on(s, sep).len() && 0 <= q < split_on(s, sep)[p].len() && (#[trigger] split_on(
                s,
                sep,
            )[p][q]) == s[i],
    decreases s.len(),
{
    let t = s.drop_last();
    let ps = split_on(t, sep);
    lemma_split_on_nonempty(t, sep);
    if i < s.len() - 1 {
        lemma_split_on_covers(t, sep, i);
        let (p, q) = choose|p: int, q: int|
            0 <= p < ps.len() && 0 <= q < ps[p].len() && (#[trigger] split_on(t, sep)[p][q]) == t[i];
        if s.last() == sep {
            assert(split_on(s, sep)[p][q] == s[i]);
        } else if p < ps.len() - 1 {
            assert(split_on(s, sep)[p] == ps[p]);
            assert(split_on(s, sep)[p][q] == s[i]);
        } else {
            assert(split_on(s, sep)[p] == ps.last().push(s.last()));
            assert(split_on(s, sep)[p][q] == s[i]);
        }
    } else {
        let p = ps.len() - 1;
        assert(split_on(s, sep)[p] == ps.last().push(s.last()));
        assert(split_on(s, sep)[p][ps.last().len() as int] == s[i]);
    }
}

} // verus!

verus! {

/// The end of `v[lo..hi]` without its trailing white space.
pub fn trim_end_bound(v: &Vec<char>, lo: usize, hi: usize) -> (r: usize)
    requires
        lo <= hi <= v@.len(),
    ensures
        lo <= r <= hi,
        v@.subrange(lo as int, r as int) == trim_end(v@.subrange(lo as int, hi as int)),
{
    let mut b: usize = hi;
    while b > lo && is_space_char(v[b - 1])
        invariant
            lo <= b <= hi <= v@.len(),
            forall|i: int| b <= i < hi ==> is_space(#[trigger] v@[i]),
        decreases b - lo,
    {
        b -= 1;
    }
    proof {
        let t = v@.subrange(lo as int, hi as int);
        assert forall|i: int| b - lo <= i < t.len() implies is_space(#[trigger] t[i]) by {
            assert(t[i] == v@[lo + i]);
        }
        lemma_trim_end(t, b - lo);
        assert(t.take(b - lo) =~= v@.subrange(lo as int, b as int));
    }
    b
}

/// The first position at or after `i` of the character `c` in `s`.
pub open spec fn char_from(s: Seq<char>, c: char, i: int) -> Option<int>
    decreases s.len() - i,
{
    if i < 0 || i >= s.len() {
        None
    } else if s[i] == c {
        Some(i)
    } else {
        char_from(s, c, i + 1)
    }
}

pub fn find_char(v: &Vec<char>, c: char) -> (r: Option<usize>)
    ensures
        r is None ==> char_from(v@, c, 0) is None,
        r is Some ==> char_from(v@, c, 0) == Some(r->0 as int) && r->0 < v@.len(),
{
    let mut i: usize = 0;
    while i < v.len()
        invariant
            i <= v@.len(),
            char_from(v@, c, 0) == char_from(v@, c, i as int),
        decreases v@.len() - i,
    {
        if v[i] == c {
            return Some(i);
        }
        i += 1;
    }
    None
}

} // verus!

verus! {

/// A text without the separator is one piece.
pub proof fn lemma_split_on_no_sep(x: Seq<char>, sep: char)
    requires
        forall|i: int| 0 <= i < x.len() ==> #[trigger] x[i] != sep,
    ensures
        split_on(x, sep) == seq![x],
    decreases x.len(),
{
    if x.len() > 0 {
        let t = x.drop_last();
        assert forall|i: int| 0 <= i < t.len() implies #[trigger] t[i] != sep by {
            assert(t[i] == x[i]);
        }
        lemma_split_on_no_sep(t, sep);
        assert(x.last() == x[x.len() - 1]);
        assert(x.last() != sep);
        let p = seq![t];
        assert(p.last() == t);
        assert(p.drop_last() =~= Seq::<Seq<char>>::empty());
        assert(t.push(x.last()) =~= x);
        assert(p.drop_last().push(p.last().push(x.last())) =~= seq![x]);
    } else {
        assert(x =~= Seq::<char>::empty());
    }
}

/// Splitting texts joined by the separator splits each.
pub proof fn lemma_split_on_join(x: Seq<char>, sep: char, y: Seq<char>)
    ensures
        split_on(x + seq![sep] + y, sep) == split_on(x, sep) + split_on(y, sep),
    decreases y.len(),
{
    let s = x + seq![sep] + y;
    if y.len() == 0 {
        assert(s.drop_last() =~= x);
        assert(s.last() == sep);
        assert(split_on(y, sep) =~= seq![Seq::<char>::empty()]);
        assert(split_on(x, sep).push(Seq::<char>::empty()) =~= split_on(x, sep) + split_on(y, sep));
    } else {
        let y2 = y.drop_last();
        lemma_split_on_join(x, sep, y2);
        lemma_split_on_nonempty(y2, sep);
        assert(s.drop_last() =~= x + seq![sep] + y2);
        assert(s.last() == y.last());
        let p = split_on(x, sep) + split_on(y2, sep);
        if y.last() == sep {
            assert(p.push(Seq::<char>::empty()) =~= split_on(x, sep) + split_on(y2, sep).push(
                Seq::<char>::empty(),
            ));
        } else {
            assert(p.drop_last() =~= split_on(x, sep) + split_on(y2, sep).drop_last());
            assert(p.last() == split_on(y2, sep).last());
            assert(p.drop_last().push(p.last().push(y.last())) =~= split_on(x, sep) + split_on(
                y2,
                sep,
            ).drop_last().push(split_on(y2, sep).last().push(y.last())));
        }
    }
}

} // verus!
