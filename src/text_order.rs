//! The lexicographic order of texts, character by character, and sorted
//! sets of texts kept in a vector.
use vstd::prelude::*;

verus! {

pub open spec fn common_prefix(a: Seq<char>, b: Seq<char>, k: int) -> bool {
    0 <= k <= a.len() && k <= b.len() && forall|i: int| 0 <= i < k ==> a[i] == b[i]
}

/// `a` orders strictly before `b`: `a` is a proper prefix of `b`, or at the
/// first position where they differ, `a` has the smaller character.
pub open spec fn text_lt(a: Seq<char>, b: Seq<char>) -> bool {
    exists|k: int|
        common_prefix(a, b, k) && ((k == a.len() && k < b.len()) || (k < a.len() && k < b.len()
            && a[k] < b[k]))
}

/// Each text orders strictly before every later one.
pub open spec fn strictly_sorted(hs: Seq<Seq<char>>) -> bool {
    forall|i: int, j: int| 0 <= i < j < hs.len() ==> text_lt(#[trigger] hs[i], #[trigger] hs[j])
}

pub proof fn lemma_text_lt_irreflexive(a: Seq<char>)
    ensures
        !text_lt(a, a),
{
}

pub proof fn lemma_text_lt_transitive(a: Seq<char>, b: Seq<char>, c: Seq<char>)
    requires
        text_lt(a, b),
        text_lt(b, c),
    ensures
        text_lt(a, c),
{
    let k1 = choose|k: int|
        common_prefix(a, b, k) && ((k == a.len() && k < b.len()) || (k < a.len() && k < b.len()
            && a[k] < b[k]));
    let k2 = choose|k: int|
        common_prefix(b, c, k) && ((k == b.len() && k < c.len()) || (k < b.len() && k < c.len()
            && b[k] < c[k]));
    let k = if k1 < k2 {
        k1
    } else {
        k2
    };
    assert(common_prefix(a, c, k));
}

pub proof fn lemma_text_lt_total(a: Seq<char>, b: Seq<char>)
    requires
        a != b,
    ensures
        text_lt(a, b) || text_lt(b, a),
{
    lemma_first_difference(a, b, 0);
}

proof fn lemma_first_difference(a: Seq<char>, b: Seq<char>, k: int)
    requires
        a != b,
        common_prefix(a, b, k),
    ensures
        text_lt(a, b) || text_lt(b, a),
    decreases a.len() - k,
{
    if k == a.len() && k == b.len() {
        assert(a =~= b);
    } else if k == a.len() || k == b.len() {
        assert(common_prefix(b, a, k));
    } else if a[k] != b[k] {
        assert(common_prefix(b, a, k));
    } else {
        lemma_first_difference(a, b, k + 1);
    }
}

/// Whether `a` orders strictly before `b`.
pub fn text_less(a: &Vec<char>, b: &Vec<char>) -> (r: bool)
    ensures
        r == text_lt(a@, b@),
{
    let mut i: usize = 0;
    while i < a.len() && i < b.len()
        invariant
            common_prefix(a@, b@, i as int),
        decreases a@.len() - i,
    {
        if a[i] != b[i] {
            proof {
                if !(a[i as int] < b[i as int]) {
                    assert(!text_lt(a@, b@)) by {
                        if text_lt(a@, b@) {
                            let k = choose|k: int|
                                common_prefix(a@, b@, k) && ((k == a@.len() && k < b@.len()) || (k
                                    < a@.len() && k < b@.len() && a@[k] < b@[k]));
                            if k < i {
                                assert(a@[k] == b@[k]);
                            } else if k > i {
                                assert(a@[i as int] == b@[i as int]);
                            }
                        }
                    }
                }
            }
            return a[i] < b[i];
        }
        i += 1;
    }
    proof {
        if !(i == a@.len() && i < b@.len()) {
            assert(!text_lt(a@, b@)) by {
                if text_lt(a@, b@) {
                    let k = choose|k: int|
                        common_prefix(a@, b@, k) && ((k == a@.len() && k < b@.len()) || (k
                            < a@.len() && k < b@.len() && a@[k] < b@[k]));
                    if k < i {
                        assert(a@[k] == b@[k]);
                    }
                }
            }
        }
    }
    i == a.len() && i < b.len()
}

} // verus!

verus! {

pub open spec fn string_texts(v: Seq<String>) -> Seq<Seq<char>> {
    v.map_values(|s: String| s@)
}

/// Adds `h` to the strictly sorted texts of `list`, unless it is there.
pub fn insert_sorted(list: &mut Vec<String>, h: String)
    requires
        strictly_sorted(string_texts(old(list)@)),
    ensures
        strictly_sorted(string_texts(final(list)@)),
        string_texts(final(list)@).to_set() == string_texts(old(list)@).to_set().insert(h@),
{
    let hc = crate::chars::chars_of(h.as_str());
    let mut p: usize = 0;
    let ghost old_l = string_texts(list@);
    while p < list.len() && text_less(&crate::chars::chars_of(list[p].as_str()), &hc)
        invariant
            old_l == string_texts(list@),
            strictly_sorted(old_l),
            p <= list@.len(),
            forall|i: int| 0 <= i < p ==> text_lt(#[trigger] old_l[i], h@),
            hc@ == h@,
        decreases list@.len() - p,
    {
        p += 1;
    }
    if p < list.len() && list[p] == h {
        assert(old_l.to_set().insert(h@) =~= old_l.to_set()) by {
            assert(old_l[p as int] == h@);
        }
        return;
    }
    proof {
        if p < old_l.len() {
            assert(old_l[p as int] != h@);
            assert(!text_lt(old_l[p as int], h@));
            lemma_text_lt_total(old_l[p as int], h@);
        }
    }
    list.insert(p, h);
    proof {
        let nl = string_texts(list@);
        assert(nl =~= old_l.insert(p as int, h@));
        assert forall|i: int, j: int| 0 <= i < j < nl.len() implies text_lt(
            #[trigger] nl[i],
            #[trigger] nl[j],
        ) by {
            if j < p {
            } else if j == p {
            } else if i < p {
                assert(nl[j] == old_l[j - 1]);
                assert(nl[i] == old_l[i]);
            } else if i == p {
                assert(nl[j] == old_l[j - 1]);
                if j - 1 > p {
                    assert(text_lt(old_l[p as int], old_l[j - 1]));
                    lemma_text_lt_transitive(h@, old_l[p as int], old_l[j - 1]);
                }
            } else {
                assert(nl[j] == old_l[j - 1]);
                assert(nl[i] == old_l[i - 1]);
            }
        }
        assert forall|x: Seq<char>| nl.to_set().contains(x) <==> old_l.to_set().insert(h@).contains(
            x,
        ) by {
            if nl.contains(x) {
                let i = choose|i: int| 0 <= i < nl.len() && nl[i] == x;
                if i < p {
                    assert(old_l[i] == x);
                } else if i > p {
                    assert(old_l[i - 1] == x);
                }
            }
            if old_l.contains(x) {
                let i = choose|i: int| 0 <= i < old_l.len() && old_l[i] == x;
                if i < p {
                    assert(nl[i] == x);
                } else {
                    assert(nl[i + 1] == x);
                }
            }
            if x == h@ {
                assert(nl[p as int] == x);
            }
        }
        assert(nl.to_set() =~= old_l.to_set().insert(h@));
    }
}

} // verus!
