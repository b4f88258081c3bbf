//! Ordered sets of strings: vectors kept in strictly increasing
//! lexicographic order, the shape in which the catalogue stores names,
//! tokens and reasons.
use vstd::prelude::*;

use crate::text::{lemma_lex_irreflexive, lemma_lex_total, lemma_lex_transitive, lex_lt, same_text, text_less};

verus! {

/// The character views of a sequence of strings.
pub open spec fn views(v: Seq<String>) -> Seq<Seq<char>> {
    v.map_values(|s: String| s@)
}

/// Every earlier text is strictly below every later one.
pub open spec fn sorted_strict(s: Seq<Seq<char>>) -> bool {
    forall|i: int, j: int| 0 <= i < j < s.len() ==> lex_lt(#[trigger] s[i], #[trigger] s[j])
}

/// A vector of strings that is an ordered set.
pub open spec fn is_strset(v: Seq<String>) -> bool {
    sorted_strict(views(v))
}

/// The set of texts held by a vector of strings.
pub open spec fn text_set(v: Seq<String>) -> Set<Seq<char>> {
    views(v).to_set()
}

pub proof fn lemma_text_set_contains(v: Seq<String>, x: Seq<char>)
    ensures
        text_set(v).contains(x) <==> exists|i: int| 0 <= i < v.len() && (#[trigger] v[i])@ == x,
{
    if text_set(v).contains(x) {
        let i = choose|i: int| 0 <= i < views(v).len() && views(v)[i] == x;
        assert(v[i]@ == x);
    }
    if exists|i: int| 0 <= i < v.len() && (#[trigger] v[i])@ == x {
        let i = choose|i: int| 0 <= i < v.len() && (#[trigger] v[i])@ == x;
        assert(views(v)[i] == x);
    }
}

/// Two ordered sets with the same members are the same sequence.
pub proof fn lemma_sorted_set_unique(a: Seq<Seq<char>>, b: Seq<Seq<char>>)
    requires
        sorted_strict(a),
        sorted_strict(b),
        a.to_set() == b.to_set(),
    ensures
        a == b,
    decreases a.len() + b.len(),
{
    if a.len() == 0 {
        if b.len() > 0 {
            assert(b.to_set().contains(b[0]));
        }
        assert(a =~= b);
    } else if b.len() == 0 {
        assert(a.to_set().contains(a[0]));
    } else {
        // the least members agree
        assert(a.to_set().contains(a[0]));
        assert(b.to_set().contains(b[0]));
        let ia = choose|i: int| 0 <= i < b.len() && b[i] == a[0];
        let ib = choose|i: int| 0 <= i < a.len() && a[i] == b[0];
        if ia > 0 {
            if ib > 0 {
                lemma_lex_transitive(a[0], a[ib], a[0]);
                lemma_lex_irreflexive(a[0]);
            }
        }
        if ia > 0 {
            assert(lex_lt(b[0], b[ia]));
            assert(b[0] == a[0]);
            lemma_lex_irreflexive(a[0]);
        }
        assert(a[0] == b[0]);
        let ra = a.drop_first();
        let rb = b.drop_first();
        assert forall|x: Seq<char>| ra.to_set().contains(x) implies rb.to_set().contains(x) by {
            let i = choose|i: int| 0 <= i < ra.len() && ra[i] == x;
            assert(a[i + 1] == x);
            assert(b.to_set().contains(x));
            let j = choose|j: int| 0 <= j < b.len() && b[j] == x;
            if j == 0 {
                assert(lex_lt(a[0], a[i + 1]));
                lemma_lex_irreflexive(a[0]);
            }
            assert(rb[j - 1] == x);
        }
        assert forall|x: Seq<char>| rb.to_set().contains(x) implies ra.to_set().contains(x) by {
            let i = choose|i: int| 0 <= i < rb.len() && rb[i] == x;
            assert(b[i + 1] == x);
            assert(a.to_set().contains(x));
            let j = choose|j: int| 0 <= j < a.len() && a[j] == x;
            if j == 0 {
                assert(lex_lt(b[0], b[i + 1]));
                lemma_lex_irreflexive(b[0]);
            }
            assert(ra[j - 1] == x);
        }
        assert(ra.to_set() =~= rb.to_set());
        lemma_sorted_set_unique(ra, rb);
        assert(a =~= seq![a[0]] + ra);
        assert(b =~= seq![b[0]] + rb);
    }
}

/// A copy of a string.
pub fn copy_string(s: &String) -> (r: String)
    ensures
        r@ == s@,
{
    s.clone()
}

/// A copy of a vector of strings.
pub fn copy_strings(v: &Vec<String>) -> (r: Vec<String>)
    ensures
        views(r@) == views(v@),
        r@.len() == v@.len(),
{
    let mut r: Vec<String> = Vec::new();
    let mut i: usize = 0;
    while i < v.len()
        invariant
            i <= v.len(),
            r@.len() == i,
            forall|k: int| 0 <= k < i ==> (#[trigger] r@[k])@ == v@[k]@,
        decreases v.len() - i,
    {
        r.push(copy_string(&v[i]));
        i += 1;
    }
    proof {
        assert(views(r@) =~= views(v@));
    }
    r
}

/// Whether an ordered set (or any vector) of strings holds a text.
pub fn strs_contain(v: &Vec<String>, x: &str) -> (r: bool)
    ensures
        r == text_set(v@).contains(x@),
{
    proof {
        lemma_text_set_contains(v@, x@);
    }
    let mut i: usize = 0;
    while i < v.len()
        invariant
            i <= v.len(),
            forall|k: int| 0 <= k < i ==> (#[trigger] v@[k])@ != x@,
        decreases v.len() - i,
    {
        if same_text(v[i].as_str(), x) {
            proof {
                assert(v@[i as int]@ == x@);
                assert(views(v@)[i as int] == x@);
                assert(views(v@).contains(x@));
            }
            return true;
        }
        i += 1;
    }
    false
}

/// Adds a string to an ordered set of strings.
pub fn strset_insert(v: &mut Vec<String>, x: String)
    requires
        is_strset(old(v)@),
    ensures
        is_strset(final(v)@),
        text_set(final(v)@) == text_set(old(v)@).insert(x@),
{
    let ghost xv = x@;
    let mut p: usize = 0;
    while p < v.len()
        invariant
            p <= v.len(),
            xv == x@,
            forall|k: int| 0 <= k < p ==> lex_lt((#[trigger] v@[k])@, xv),
        ensures
            p <= v.len(),
            forall|k: int| 0 <= k < p ==> lex_lt((#[trigger] v@[k])@, xv),
            p < v.len() ==> !lex_lt(v@[p as int]@, xv),
        decreases v.len() - p,
    {
        if !text_less(v[p].as_str(), x.as_str()) {
            break;
        }
        proof {
            assert(lex_lt(v@[p as int]@, xv));
        }
        p += 1;
    }
    if p < v.len() && same_text(v[p].as_str(), x.as_str()) {
        proof {
            assert(views(v@)[p as int] == xv);
            assert(text_set(v@) =~= text_set(v@).insert(xv));
        }
        return;
    }
    let ghost before = v@;
    proof {
        if p < before.len() {
            lemma_lex_total(before[p as int]@, xv);
            assert(lex_lt(xv, before[p as int]@));
        }
    }
    v.insert(p, x);
    proof {
        let after = v@;
        assert(views(after) =~= views(before).insert(p as int, xv));
        assert forall|i: int, j: int| 0 <= i < j < after.len() implies lex_lt(
            #[trigger] views(after)[i],
            #[trigger] views(after)[j],
        ) by {
            if j < p {
                assert(views(before)[i] == views(after)[i]);
                assert(views(before)[j] == views(after)[j]);
            } else if j == p {
                assert(views(after)[i] == before[i]@);
            } else if i == p {
                assert(views(after)[j] == before[j - 1]@);
                if j - 1 > p {
                    assert(lex_lt(before[p as int]@, before[j - 1]@)) by {
                        assert(views(before)[p as int] == before[p as int]@);
                        assert(views(before)[j - 1] == before[j - 1]@);
                    }
                    lemma_lex_transitive(xv, before[p as int]@, before[j - 1]@);
                }
            } else if i < p {
                assert(views(after)[i] == before[i]@);
                assert(views(after)[j] == before[j - 1]@);
                assert(views(before)[i] == before[i]@);
                assert(views(before)[j - 1] == before[j - 1]@);
                assert(lex_lt(before[i]@, xv));
                if j - 1 > p {
                    assert(lex_lt(before[p as int]@, before[j - 1]@)) by {
                        assert(views(before)[p as int] == before[p as int]@);
                    }
                    lemma_lex_transitive(xv, before[p as int]@, before[j - 1]@);
                }
                lemma_lex_transitive(before[i]@, xv, before[j - 1]@);
            } else {
                assert(views(after)[i] == before[i - 1]@);
                assert(views(after)[j] == before[j - 1]@);
                assert(views(before)[i - 1] == before[i - 1]@);
                assert(views(before)[j - 1] == before[j - 1]@);
            }
        }
        assert(text_set(v@) =~= text_set(before).insert(xv)) by {
            assert forall|t: Seq<char>| text_set(v@).contains(t) implies text_set(before).insert(
                xv,
            ).contains(t) by {
                let i = choose|i: int| 0 <= i < views(after).len() && views(after)[i] == t;
                if i < p {
                    assert(views(before)[i] == t);
                } else if i > p {
                    assert(views(before)[i - 1] == t);
                }
            }
            assert forall|t: Seq<char>| text_set(before).insert(xv).contains(t) implies text_set(
                v@,
            ).contains(t) by {
                if t == xv {
                    assert(views(after)[p as int] == t);
                } else {
                    let i = choose|i: int| 0 <= i < views(before).len() && views(before)[i] == t;
                    if i < p {
                        assert(views(after)[i] == t);
                    } else {
                        assert(views(after)[i + 1] == t);
                    }
                }
            }
        }
    }
}

/// Adds every string of `w` to the ordered set `v`.
pub fn strset_extend(v: &mut Vec<String>, w: &Vec<String>)
    requires
        is_strset(old(v)@),
    ensures
        is_strset(final(v)@),
        text_set(final(v)@) == text_set(old(v)@).union(text_set(w@)),
{
    let ghost start = text_set(v@);
    let mut i: usize = 0;
    while i < w.len()
        invariant
            i <= w.len(),
            is_strset(v@),
            text_set(v@) == start.union(views(w@).take(i as int).to_set()),
        decreases w.len() - i,
    {
        strset_insert(v, copy_string(&w[i]));
        proof {
            assert(views(w@).take(i + 1).to_set() =~= views(w@).take(i as int).to_set().insert(
                w@[i as int]@,
            )) by {
                assert(views(w@).take(i + 1) =~= views(w@).take(i as int).push(w@[i as int]@));
                views(w@).take(i as int).lemma_push_to_set_commute(w@[i as int]@);
            }
            assert(text_set(v@) =~= start.union(views(w@).take(i + 1).to_set()));
        }
        i += 1;
    }
    proof {
        assert(views(w@).take(w.len() as int) =~= views(w@));
    }
}

/// The empty ordered set.
pub fn strset_new() -> (v: Vec<String>)
    ensures
        is_strset(v@),
        text_set(v@) == Set::<Seq<char>>::empty(),
        v@.len() == 0,
{
    let v: Vec<String> = Vec::new();
    proof {
        assert(text_set(v@) =~= Set::<Seq<char>>::empty());
    }
    v
}

/// An ordered set's length is the number of its members.
pub proof fn lemma_strset_len(v: Seq<String>)
    requires
        is_strset(v),
    ensures
        text_set(v).len() == v.len(),
        text_set(v).finite(),
{
    let s = views(v);
    assert forall|i: int, j: int| 0 <= i < j < s.len() implies s[i] != s[j] by {
        lemma_lex_irreflexive(s[i]);
    }
    s.unique_seq_to_set();
}

/// The members of a set of texts in increasing order.
pub open spec fn ordered(s: Set<Seq<char>>) -> Seq<Seq<char>> {
    choose|q: Seq<Seq<char>>| sorted_strict(q) && q.to_set() == s
}

/// An ordered set of strings lists its members in increasing order.
pub proof fn lemma_ordered(v: Seq<String>)
    requires
        is_strset(v),
    ensures
        views(v) == ordered(text_set(v)),
{
    let w = views(v);
    assert(sorted_strict(w) && w.to_set() == text_set(v));
    let q = ordered(text_set(v));
    lemma_sorted_set_unique(w, q);
}

/// A text inserted at its place in an ordered sequence.
pub open spec fn insert_sorted(q: Seq<Seq<char>>, x: Seq<char>) -> Seq<Seq<char>>
    decreases q.len(),
{
    if q.len() == 0 {
        seq![x]
    } else if lex_lt(q.last(), x) {
        q.push(x)
    } else {
        insert_sorted(q.drop_last(), x).push(q.last())
    }
}

proof fn lemma_insert_sorted(q: Seq<Seq<char>>, x: Seq<char>)
    requires
        sorted_strict(q),
        !q.contains(x),
    ensures
        sorted_strict(insert_sorted(q, x)),
        insert_sorted(q, x).to_set() == q.to_set().insert(x),
        insert_sorted(q, x).len() > 0,
        q.len() > 0 ==> (insert_sorted(q, x).last() == x || insert_sorted(q, x).last() == q.last()),
    decreases q.len(),
{
    if q.len() == 0 {
        assert(seq![x].to_set() =~= Set::<Seq<char>>::empty().insert(x)) by {
            assert(seq![x][0] == x);
        }
        assert(q.to_set() =~= Set::<Seq<char>>::empty());
    } else {
        let p = q.drop_last();
        let l = q.last();
        assert(q =~= p.push(l));
        lemma_lex_total(l, x);
        if lex_lt(l, x) {
            let r = q.push(x);
            assert forall|i: int, j: int| 0 <= i < j < r.len() implies lex_lt(#[trigger] r[i], #[trigger] r[j]) by {
                if j == r.len() - 1 && i < q.len() - 1 {
                    lemma_lex_transitive(r[i], l, x);
                }
            }
            assert(r.to_set() =~= q.to_set().insert(x)) by {
                assert forall|y: Seq<char>| r.to_set().contains(y) <==> q.to_set().insert(x).contains(y) by {
                    if r.contains(y) {
                        let i = choose|i: int| 0 <= i < r.len() && r[i] == y;
                        if i < q.len() {
                            assert(q[i] == y);
                        }
                    }
                    if q.contains(y) {
                        let i = choose|i: int| 0 <= i < q.len() && q[i] == y;
                        assert(r[i] == y);
                    }
                    if y == x {
                        assert(r[r.len() - 1] == x);
                    }
                }
            }
        } else {
            assert(l != x) by {
                assert(q[q.len() - 1] == l);
            }
            assert(!p.contains(x)) by {
                if p.contains(x) {
                    let i = choose|i: int| 0 <= i < p.len() && p[i] == x;
                    assert(q[i] == x);
                }
            }
            assert(sorted_strict(p)) by {
                assert forall|i: int, j: int| 0 <= i < j < p.len() implies lex_lt(#[trigger] p[i], #[trigger] p[j]) by {
                    assert(q[i] == p[i] && q[j] == p[j]);
                }
            }
            lemma_insert_sorted(p, x);
            let t = insert_sorted(p, x);
            let r = t.push(l);
            assert(lex_lt(t.last(), l)) by {
                if p.len() == 0 {
                    assert(t.last() == x);
                } else if t.last() == x {
                } else {
                    assert(q[p.len() - 1] == p.last());
                }
            }
            assert(forall|y: Seq<char>| t.to_set().contains(y) ==> (p.to_set().contains(y) || y == x));
            assert forall|i: int, j: int| 0 <= i < j < r.len() implies lex_lt(#[trigger] r[i], #[trigger] r[j]) by {
                if j == r.len() - 1 {
                    assert(r[j] == l);
                    if i < t.len() - 1 {
                        assert(t.to_set().contains(t[i]));
                        assert(lex_lt(t[i], t[t.len() - 1]));
                        lemma_lex_transitive(t[i], t.last(), l);
                    }
                } else {
                    assert(r[i] == t[i] && r[j] == t[j]);
                }
            }
            assert(r.to_set() =~= q.to_set().insert(x)) by {
                assert forall|y: Seq<char>| r.to_set().contains(y) <==> q.to_set().insert(x).contains(y) by {
                    if r.contains(y) {
                        let i = choose|i: int| 0 <= i < r.len() && r[i] == y;
                        if i < t.len() {
                            assert(t[i] == y);
                            assert(t.to_set().contains(y));
                            if p.to_set().contains(y) {
                                let k = choose|k: int| 0 <= k < p.len() && p[k] == y;
                                assert(q[k] == y);
                            }
                        } else {
                            assert(q[q.len() - 1] == y);
                        }
                    }
                    if q.contains(y) {
                        let i = choose|i: int| 0 <= i < q.len() && q[i] == y;
                        if i < p.len() {
                            assert(p[i] == y);
                            assert(p.to_set().contains(y));
                            assert(t.to_set().contains(y));
                            let k = choose|k: int| 0 <= k < t.len() && t[k] == y;
                            assert(r[k] == y);
                        } else {
                            assert(r[r.len() - 1] == y);
                        }
                    }
                    if y == x {
                        assert(t.to_set().contains(x));
                        let k = choose|k: int| 0 <= k < t.len() && t[k] == x;
                        assert(r[k] == x);
                    }
                }
            }
        }
    }
}

/// The members of the texts of any sequence can be listed in increasing
/// order: `ordered` of such a set is strictly increasing and holds exactly
/// those texts.
pub proof fn lemma_ordered_of_seq(s: Seq<Seq<char>>)
    ensures
        sorted_strict(ordered(s.to_set())),
        ordered(s.to_set()).to_set() == s.to_set(),
{
    lemma_ordered_witness(s);
}

proof fn lemma_ordered_witness(s: Seq<Seq<char>>) -> (q: Seq<Seq<char>>)
    ensures
        sorted_strict(q),
        q.to_set() == s.to_set(),
        sorted_strict(ordered(s.to_set())),
        ordered(s.to_set()).to_set() == s.to_set(),
    decreases s.len(),
{
    if s.len() == 0 {
        let q = Seq::<Seq<char>>::empty();
        assert(q.to_set() =~= s.to_set());
        q
    } else {
        let p = s.drop_last();
        let q0 = lemma_ordered_witness(p);
        assert(s =~= p.push(s.last()));
        assert(s.to_set() =~= p.to_set().insert(s.last())) by {
            assert forall|y: Seq<char>| s.to_set().contains(y) <==> p.to_set().insert(s.last()).contains(y) by {
                if s.contains(y) {
                    let i = choose|i: int| 0 <= i < s.len() && s[i] == y;
                    if i < p.len() {
                        assert(p[i] == y);
                    }
                }
                if p.contains(y) {
                    let i = choose|i: int| 0 <= i < p.len() && p[i] == y;
                    assert(s[i] == y);
                }
                if y == s.last() {
                    assert(s[s.len() - 1] == y);
                }
            }
        }
        let q = if q0.contains(s.last()) {
            assert(q0.to_set().insert(s.last()) =~= q0.to_set());
            q0
        } else {
            lemma_insert_sorted(q0, s.last());
            insert_sorted(q0, s.last())
        };
        assert(sorted_strict(q) && q.to_set() == s.to_set());
        q
    }
}

/// The ordered set of the strings of a vector.
pub fn strset_from(w: &Vec<String>) -> (v: Vec<String>)
    ensures
        is_strset(v@),
        text_set(v@) == views(w@).to_set(),
        views(v@) == ordered(views(w@).to_set()),
{
    let mut v = strset_new();
    strset_extend(&mut v, w);
    proof {
        assert(text_set(v@) =~= views(w@).to_set());
        lemma_ordered(v@);
    }
    v
}

} // verus!
