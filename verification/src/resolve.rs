//! Selection of a bounded skill and command dependency closure for a task.
use vstd::prelude::*;

use crate::catalog::{
    dep_views, selector_of, Catalog, CatalogEntry, EntryKind, SkillleafError, SkillleafResult,
};
use crate::security::TrustLevel;
use crate::strset::{
    copy_string, copy_strings, is_strset, lemma_sorted_set_unique, sorted_strict, strs_contain, strset_extend, strset_insert, strset_new,
    text_set, views,
};
use crate::routing::{match_score, score_of, token_set, tokens};
use crate::text::{
    chars_of, lemma_lex_irreflexive, lemma_lex_total, lemma_lex_transitive, lex_lt, same_text, starts_with, starts_with_chars, text_less,
};

verus! {

// ---------------------------------------------------------------------------
// Looking entries up by selector (the last entry with a selector wins, as in
// a map built from the entries in order)
// ---------------------------------------------------------------------------
/// Index of the last entry before `k` whose selector is `s`, or -1.
pub open spec fn last_from(es: Seq<CatalogEntry>, s: Seq<char>, k: int) -> int
    decreases k,
{
    if k <= 0 || k > es.len() {
        -1
    } else if selector_of(es[k - 1]) == s {
        k - 1
    } else {
        last_from(es, s, k - 1)
    }
}

/// Index of the entry that a selector names, or -1.
pub open spec fn index_of(es: Seq<CatalogEntry>, s: Seq<char>) -> int {
    last_from(es, s, es.len() as int)
}

/// Whether a selector names an entry of the catalogue.
pub open spec fn in_catalog(es: Seq<CatalogEntry>, s: Seq<char>) -> bool {
    index_of(es, s) >= 0
}

/// The entry that a selector names.
pub open spec fn entry_for(es: Seq<CatalogEntry>, s: Seq<char>) -> CatalogEntry {
    es[index_of(es, s)]
}

pub proof fn lemma_last_from(es: Seq<CatalogEntry>, s: Seq<char>, k: int)
    requires
        0 <= k <= es.len(),
    ensures
        -1 <= last_from(es, s, k) < k,
        last_from(es, s, k) >= 0 ==> selector_of(es[last_from(es, s, k)]) == s,
        forall|j: int| last_from(es, s, k) < j < k ==> selector_of(#[trigger] es[j]) != s,
    decreases k,
{
    if k > 0 && selector_of(es[k - 1]) != s {
        lemma_last_from(es, s, k - 1);
    }
}

/// Whether `s` is the selector of some entry.
pub proof fn lemma_in_catalog(es: Seq<CatalogEntry>, s: Seq<char>)
    ensures
        in_catalog(es, s) <==> exists|i: int| 0 <= i < es.len() && selector_of(#[trigger] es[i]) == s,
        in_catalog(es, s) ==> 0 <= index_of(es, s) < es.len() && selector_of(es[index_of(es, s)]) == s,
{
    lemma_last_from(es, s, es.len() as int);
}

/// The position of the entry that a selector names.
pub fn find_entry(entries: &Vec<CatalogEntry>, s: &str) -> (r: Option<usize>)
    ensures
        match r {
            Some(i) => i as int == index_of(entries@, s@) && i < entries@.len(),
            None => index_of(entries@, s@) == -1,
        },
{
    let mut k = entries.len();
    while k > 0
        invariant
            k <= entries@.len(),
            last_from(entries@, s@, k as int) == index_of(entries@, s@),
        decreases k,
    {
        let sel = entries[k - 1].selector();
        if same_text(sel.as_str(), s) {
            return Some(k - 1);
        }
        k -= 1;
    }
    None
}

// ---------------------------------------------------------------------------
// Scored selectors: a map from selector to score and reasons, kept as a
// vector ordered by selector
// ---------------------------------------------------------------------------
/// A selector with its score and the reasons for selecting it.
pub struct Scored {
    pub selector: String,
    pub score: u32,
    pub reasons: Vec<String>,
}

/// The score and reasons recorded for a selector.
pub type Mark = (u32, Set<Seq<char>>);

pub open spec fn keys(v: Seq<Scored>) -> Seq<Seq<char>> {
    v.map_values(|c: Scored| c.selector@)
}

/// A vector of scored selectors that is ordered by selector, each with an ordered set of reasons.
pub open spec fn scored_ok(v: Seq<Scored>) -> bool {
    &&& sorted_strict(keys(v))
    &&& forall|i: int| 0 <= i < v.len() ==> is_strset((#[trigger] v[i]).reasons@)
}

/// The map that a vector of scored selectors stands for.
pub open spec fn as_map(v: Seq<Scored>) -> Map<Seq<char>, Mark> {
    Map::new(
        |s: Seq<char>| exists|i: int| 0 <= i < v.len() && (#[trigger] v[i]).selector@ == s,
        |s: Seq<char>|
            (v[pick(v, s)].score, text_set(v[pick(v, s)].reasons@)),
    )
}

/// A position of a selector in a vector of scored selectors.
pub open spec fn pick(v: Seq<Scored>, s: Seq<char>) -> int {
    choose|i: int| 0 <= i < v.len() && (#[trigger] v[i]).selector@ == s
}

pub proof fn lemma_as_map_at(v: Seq<Scored>, i: int)
    requires
        scored_ok(v),
        0 <= i < v.len(),
    ensures
        as_map(v).contains_key(v[i].selector@),
        as_map(v)[v[i].selector@] == (v[i].score, text_set(v[i].reasons@)),
{
    let s = v[i].selector@;
    assert(as_map(v).dom().contains(s));
    let j = pick(v, s);
    if j != i {
        assert(keys(v)[i] == s && keys(v)[j] == s);
        lemma_lex_irreflexive(s);
        if j < i {
            assert(lex_lt(keys(v)[j], keys(v)[i]));
        } else {
            assert(lex_lt(keys(v)[i], keys(v)[j]));
        }
    }
}

/// The mark that an update gives a selector: the new score (or the old one,
/// or 0) and the old reasons together with the new ones.
pub open spec fn updated(m: Map<Seq<char>, Mark>, s: Seq<char>, score: Option<u32>, add: Set<Seq<char>>) -> Mark {
    let old_score: u32 = if m.contains_key(s) {
        m[s].0
    } else {
        0
    };
    let old_reasons = if m.contains_key(s) {
        m[s].1
    } else {
        Set::empty()
    };
    (
        match score {
            Some(x) => x,
            None => old_score,
        },
        old_reasons.union(add),
    )
}

/// Sets the mark of a selector: the given score (if any) and the union of its reasons with `add`.
pub fn upsert(v: &mut Vec<Scored>, s: String, score: Option<u32>, add: &Vec<String>)
    requires
        scored_ok(old(v)@),
    ensures
        scored_ok(final(v)@),
        as_map(final(v)@) == as_map(old(v)@).insert(
            s@,
            updated(as_map(old(v)@), s@, score, text_set(add@)),
        ),
{
    let ghost m = as_map(v@);
    let ghost sv = s@;
    let mut p: usize = 0;
    while p < v.len()
        invariant
            p <= v.len(),
            sv == s@,
            forall|k: int| 0 <= k < p ==> lex_lt((#[trigger] v@[k]).selector@, sv),
        ensures
            p <= v.len(),
            forall|k: int| 0 <= k < p ==> lex_lt((#[trigger] v@[k]).selector@, sv),
            p < v.len() ==> !lex_lt(v@[p as int].selector@, sv),
        decreases v.len() - p,
    {
        if !text_less(v[p].selector.as_str(), s.as_str()) {
            break;
        }
        p += 1;
    }
    let ghost before = v@;
    if p < v.len() && same_text(v[p].selector.as_str(), s.as_str()) {
        proof {
            lemma_as_map_at(before, p as int);
        }
        let mut reasons = copy_strings(&v[p].reasons);
        proof {
            assert(is_strset(reasons@)) by {
                assert(views(reasons@) == views(before[p as int].reasons@));
            }
        }
        strset_extend(&mut reasons, add);
        let new_score = match score {
            Some(x) => x,
            None => v[p].score,
        };
        let ghost rset = text_set(reasons@);
        proof {
            assert(text_set(reasons@) == text_set(before[p as int].reasons@).union(text_set(add@)));
            assert(m.contains_key(sv));
            assert(m[sv] == (before[p as int].score, text_set(before[p as int].reasons@)));
            assert((new_score, rset) == updated(m, sv, score, text_set(add@)));
        }
        v.set(p, Scored { selector: s, score: new_score, reasons });
        proof {
            let after = v@;
            assert(after[p as int].score == new_score);
            assert(text_set(after[p as int].reasons@) == rset);
            assert(keys(after) =~= keys(before)) by {
                assert forall|k: int| 0 <= k < after.len() implies keys(after)[k] == keys(before)[k] by {
                    if k == p {
                    }
                }
            }
            assert(scored_ok(after));
            assert(as_map(after) =~= m.insert(sv, updated(m, sv, score, text_set(add@)))) by {
                assert forall|t: Seq<char>| as_map(after).dom().contains(t) <==> m.insert(
                    sv,
                    updated(m, sv, score, text_set(add@)),
                ).dom().contains(t) by {
                    if as_map(after).dom().contains(t) {
                        let k = choose|k: int| 0 <= k < after.len() && (#[trigger] after[k]).selector@ == t;
                        if k != p {
                            assert(before[k].selector@ == t);
                        }
                    }
                    if m.dom().contains(t) {
                        let k = choose|k: int| 0 <= k < before.len() && (#[trigger] before[k]).selector@ == t;
                        if k != p {
                            assert(after[k].selector@ == t);
                        } else {
                            assert(after[k].selector@ == t);
                        }
                    }
                    if t == sv {
                        assert(after[p as int].selector@ == t);
                    }
                }
                assert forall|t: Seq<char>| #[trigger] as_map(after).dom().contains(t) implies as_map(
                    after,
                )[t] == m.insert(sv, updated(m, sv, score, text_set(add@)))[t] by {
                    let k = choose|k: int| 0 <= k < after.len() && (#[trigger] after[k]).selector@ == t;
                    lemma_as_map_at(after, k);
                    if k != p {
                        assert(before[k] == after[k]);
                        lemma_as_map_at(before, k);
                        assert(keys(after)[k] == t);
                        assert(keys(after)[p as int] == sv);
                        if k < p {
                            assert(lex_lt(keys(after)[k], keys(after)[p as int]));
                        } else {
                            assert(lex_lt(keys(after)[p as int], keys(after)[k]));
                        }
                        lemma_lex_irreflexive(sv);
                        assert(t != sv);
                    }
                }
            }
        }
        return;
    }
    proof {
        if p < before.len() {
            lemma_lex_total(before[p as int].selector@, sv);
        }
    }
    let mut reasons = strset_new();
    strset_extend(&mut reasons, add);
    let new_score = match score {
        Some(x) => x,
        None => 0,
    };
    v.insert(p, Scored { selector: s, score: new_score, reasons });
    proof {
        let after = v@;
        assert(keys(after) =~= keys(before).insert(p as int, sv));
        assert forall|i: int, j: int| 0 <= i < j < after.len() implies lex_lt(
            #[trigger] keys(after)[i],
            #[trigger] keys(after)[j],
        ) by {
            if j < p {
                assert(keys(before)[i] == keys(after)[i] && keys(before)[j] == keys(after)[j]);
            } else if j == p {
                assert(keys(after)[i] == keys(before)[i]);
                assert(keys(before)[i] == before[i].selector@);
            } else if i == p {
                assert(keys(after)[j] == keys(before)[j - 1]);
                if j - 1 > p {
                    assert(lex_lt(keys(before)[p as int], keys(before)[j - 1]));
                    lemma_lex_transitive(sv, keys(before)[p as int], keys(before)[j - 1]);
                }
            } else if i < p {
                assert(keys(after)[i] == keys(before)[i]);
                assert(keys(after)[j] == keys(before)[j - 1]);
                assert(keys(before)[i] == before[i].selector@);
                if j - 1 > p {
                    assert(lex_lt(keys(before)[p as int], keys(before)[j - 1]));
                    lemma_lex_transitive(sv, keys(before)[p as int], keys(before)[j - 1]);
                }
                lemma_lex_transitive(keys(before)[i], sv, keys(before)[j - 1]);
            } else {
                assert(keys(after)[i] == keys(before)[i - 1]);
                assert(keys(after)[j] == keys(before)[j - 1]);
            }
        }
        assert(!m.contains_key(sv)) by {
            if m.contains_key(sv) {
                let k = choose|k: int| 0 <= k < before.len() && (#[trigger] before[k]).selector@ == sv;
                if k < p {
                    lemma_lex_irreflexive(sv);
                } else if k > p {
                    assert(lex_lt(keys(before)[p as int], keys(before)[k]));
                    lemma_lex_transitive(sv, keys(before)[p as int], keys(before)[k]);
                    lemma_lex_irreflexive(sv);
                }
            }
        }
        assert(scored_ok(after)) by {
            assert forall|i: int| 0 <= i < after.len() implies is_strset((#[trigger] after[i]).reasons@) by {
                if i < p {
                    assert(after[i] == before[i]);
                } else if i > p {
                    assert(after[i] == before[i - 1]);
                }
            }
        }
        assert(as_map(after) =~= m.insert(sv, updated(m, sv, score, text_set(add@)))) by {
            assert forall|t: Seq<char>| as_map(after).dom().contains(t) <==> m.insert(
                sv,
                updated(m, sv, score, text_set(add@)),
            ).dom().contains(t) by {
                if as_map(after).dom().contains(t) {
                    let k = choose|k: int| 0 <= k < after.len() && (#[trigger] after[k]).selector@ == t;
                    if k < p {
                        assert(before[k].selector@ == t);
                    } else if k > p {
                        assert(before[k - 1].selector@ == t);
                    }
                }
                if m.dom().contains(t) {
                    let k = choose|k: int| 0 <= k < before.len() && (#[trigger] before[k]).selector@ == t;
                    if k < p {
                        assert(after[k].selector@ == t);
                    } else {
                        assert(after[k + 1].selector@ == t);
                    }
                }
                if t == sv {
                    assert(after[p as int].selector@ == t);
                }
            }
            assert forall|t: Seq<char>| #[trigger] as_map(after).dom().contains(t) implies as_map(after)[t]
                == m.insert(sv, updated(m, sv, score, text_set(add@)))[t] by {
                let k = choose|k: int| 0 <= k < after.len() && (#[trigger] after[k]).selector@ == t;
                lemma_as_map_at(after, k);
                if k < p {
                    assert(before[k] == after[k]);
                    lemma_as_map_at(before, k);
                } else if k > p {
                    assert(before[k - 1] == after[k]);
                    lemma_as_map_at(before, k - 1);
                } else {
                    assert(text_set(after[p as int].reasons@) =~= Set::<Seq<char>>::empty().union(
                        text_set(add@),
                    ));
                }
            }
        }
    }
}

// ---------------------------------------------------------------------------
// The phases of a resolution, as maps from selector to mark
// ---------------------------------------------------------------------------
/// Scores of the trusted skills and commands among the first `k` entries
/// (a later entry with the same selector sets the score; reasons accumulate).
pub open spec fn scored_map(es: Seq<CatalogEntry>, ts: Seq<Seq<char>>, k: int) -> Map<Seq<char>, Mark>
    decreases k,
{
    if k <= 0 || k > es.len() {
        Map::empty()
    } else {
        let m = scored_map(es, ts, k - 1);
        let e = es[k - 1];
        if e.kind != EntryKind::Resource && e.trust != TrustLevel::Untrusted && score_of(e, ts, es).0
            > 0 {
            m.insert(
                selector_of(e),
                updated(m, selector_of(e), Some(score_of(e, ts, es).0), score_of(e, ts, es).1),
            )
        } else {
            m
        }
    }
}

/// Reasons recorded for an explicitly required selector.
pub open spec fn request_reasons(es: Seq<CatalogEntry>, r: Seq<char>) -> Set<Seq<char>> {
    if entry_for(es, r).trust == TrustLevel::Untrusted {
        set!["explicit request"@, "explicit untrusted request"@]
    } else {
        set!["explicit request"@]
    }
}

/// `m` with the first `k` required selectors given the highest score.
pub open spec fn with_required(m: Map<Seq<char>, Mark>, es: Seq<CatalogEntry>, rs: Seq<Seq<char>>, k: int) -> Map<
    Seq<char>,
    Mark,
>
    decreases k,
{
    if k <= 0 || k > rs.len() {
        m
    } else {
        let m2 = with_required(m, es, rs, k - 1);
        m2.insert(rs[k - 1], updated(m2, rs[k - 1], Some(u32::MAX), request_reasons(es, rs[k - 1])))
    }
}

/// The first required selector from position `k` on that names no entry.
pub open spec fn first_missing(es: Seq<CatalogEntry>, rs: Seq<Seq<char>>, k: int) -> Option<int>
    decreases rs.len() - k,
{
    if 0 <= k < rs.len() {
        if !in_catalog(es, rs[k]) {
            Some(k)
        } else {
            first_missing(es, rs, k + 1)
        }
    } else {
        None
    }
}

/// The reasons of a mark record a typo recovery.
pub open spec fn typo_recovered(k: Mark) -> bool {
    exists|r: Seq<char>| k.1.contains(r) && starts_with(r, "unique typo match: "@)
}

/// The tier of a mark: explicitly required selectors (the highest score)
/// first, then every exact name, alias or description match, then matches
/// found only through typo recovery.
pub open spec fn tier(k: Mark) -> int {
    if k.0 == u32::MAX {
        2
    } else if typo_recovered(k) {
        0
    } else {
        1
    }
}

/// `y` ranks before `x`: a higher tier, or the same tier and a higher score,
/// or the same tier and score and a smaller selector.
pub open spec fn ranks_before(m: Map<Seq<char>, Mark>, y: Seq<char>, x: Seq<char>) -> bool {
    tier(m[y]) > tier(m[x]) || (tier(m[y]) == tier(m[x]) && (m[y].0 > m[x].0 || (m[y].0 == m[x].0 && lex_lt(y, x))))
}

/// How many selectors rank before `x`.
pub open spec fn rank_of(m: Map<Seq<char>, Mark>, x: Seq<char>) -> nat {
    Set::new(|y: Seq<char>| m.dom().contains(y) && ranks_before(m, y, x)).len()
}

/// The selectors that rank among the first `l`.
pub open spec fn kept(m: Map<Seq<char>, Mark>, l: nat) -> Set<Seq<char>> {
    Set::new(|x: Seq<char>| m.dom().contains(x) && rank_of(m, x) < l)
}

/// Scores the trusted skills and commands of a catalogue against a task.
fn score_entries(entries: &Vec<CatalogEntry>, ts: &Vec<String>) -> (v: Vec<Scored>)
    ensures
        scored_ok(v@),
        as_map(v@) == scored_map(entries@, views(ts@), entries@.len() as int),
{
    let mut v: Vec<Scored> = Vec::new();
    proof {
        assert(as_map(v@) =~= Map::<Seq<char>, Mark>::empty());
    }
    let mut i: usize = 0;
    while i < entries.len()
        invariant
            i <= entries.len(),
            scored_ok(v@),
            as_map(v@) == scored_map(entries@, views(ts@), i as int),
        decreases entries.len() - i,
    {
        let e = &entries[i];
        if e.kind != EntryKind::Resource && e.trust != TrustLevel::Untrusted {
            let (score, reasons) = match_score(e, ts, entries);
            if score > 0 {
                upsert(&mut v, e.selector(), Some(score), &reasons);
            }
        }
        i += 1;
    }
    v
}

/// Gives every required selector the highest score, or names the first that is not in the catalogue.
fn add_required(v: &mut Vec<Scored>, entries: &Vec<CatalogEntry>, required: &Vec<String>) -> (r: Result<
    (),
    String,
>)
    requires
        scored_ok(old(v)@),
    ensures
        scored_ok(final(v)@),
        match first_missing(entries@, views(required@), 0) {
            Some(k) => r matches Err(msg) && msg@ == "required selector is not in the catalog: "@
                + views(required@)[k],
            None => r is Ok && as_map(final(v)@) == with_required(
                as_map(old(v)@),
                entries@,
                views(required@),
                required@.len() as int,
            ),
        },
{
    let ghost m0 = as_map(v@);
    let ghost rs = views(required@);
    let mut i: usize = 0;
    while i < required.len()
        invariant
            i <= required.len(),
            rs == views(required@),
            scored_ok(v@),
            first_missing(entries@, rs, i as int) == first_missing(entries@, rs, 0),
            as_map(v@) == with_required(m0, entries@, rs, i as int),
        decreases required.len() - i,
    {
        let r = &required[i];
        proof {
            assert(rs[i as int] == r@);
        }
        match find_entry(entries, r.as_str()) {
            None => {
                return Err(crate::text::concat2("required selector is not in the catalog: ", r.as_str()));
            },
            Some(idx) => {
                let mut reasons = strset_new();
                strset_insert(&mut reasons, crate::text::owned("explicit request"));
                if entries[idx].trust == TrustLevel::Untrusted {
                    strset_insert(&mut reasons, crate::text::owned("explicit untrusted request"));
                }
                proof {
                    assert(text_set(reasons@) =~= request_reasons(entries@, r@));
                }
                upsert(v, copy_string(r), Some(u32::MAX), &reasons);
            },
        }
        i += 1;
    }
    Ok(())
}

/// Number of members of `ks` that satisfy `p`.
pub open spec fn count_pred(ks: Seq<Seq<char>>, p: spec_fn(Seq<char>) -> bool) -> nat
    decreases ks.len(),
{
    if ks.len() == 0 {
        0
    } else {
        count_pred(ks.drop_last(), p) + if p(ks.last()) {
            1nat
        } else {
            0nat
        }
    }
}

/// In a sequence without repetitions, counting the members that satisfy `p`
/// gives the size of the set of such members.
pub proof fn lemma_count_pred(ks: Seq<Seq<char>>, p: spec_fn(Seq<char>) -> bool)
    requires
        sorted_strict(ks),
    ensures
        Set::new(|y: Seq<char>| ks.to_set().contains(y) && p(y)).finite(),
        Set::new(|y: Seq<char>| ks.to_set().contains(y) && p(y)).len() == count_pred(ks, p),
    decreases ks.len(),
{
    let s = Set::new(|y: Seq<char>| ks.to_set().contains(y) && p(y));
    if ks.len() == 0 {
        assert(s =~= Set::<Seq<char>>::empty());
    } else {
        let init = ks.drop_last();
        let x = ks.last();
        assert(sorted_strict(init));
        lemma_count_pred(init, p);
        let s0 = Set::new(|y: Seq<char>| init.to_set().contains(y) && p(y));
        assert(ks =~= init.push(x));
        init.lemma_push_to_set_commute(x);
        assert(!init.to_set().contains(x)) by {
            if init.to_set().contains(x) {
                let j = choose|j: int| 0 <= j < init.len() && #[trigger] init[j] == x;
                assert(lex_lt(ks[j], ks[ks.len() - 1]));
                lemma_lex_irreflexive(x);
            }
        }
        if p(x) {
            assert(s =~= s0.insert(x));
        } else {
            assert(s =~= s0);
        }
    }
}

/// Whether some reason records a typo recovery.
fn has_typo_reason(v: &Vec<String>) -> (r: bool)
    ensures
        r == typo_recovered((0u32, text_set(v@))),
{
    let p = chars_of("unique typo match: ");
    let mut i: usize = 0;
    while i < v.len()
        invariant
            i <= v@.len(),
            p@ == "unique typo match: "@,
            forall|j: int| 0 <= j < i ==> !starts_with(#[trigger] v@[j]@, "unique typo match: "@),
        decreases v@.len() - i,
    {
        let c = chars_of(v[i].as_str());
        if starts_with_chars(c.as_slice(), p.as_slice()) {
            proof {
                assert(views(v@)[i as int] == v@[i as int]@);
                assert(text_set(v@).contains(v@[i as int]@));
            }
            return true;
        }
        i += 1;
    }
    proof {
        assert forall|r: Seq<char>| text_set(v@).contains(r) implies !starts_with(r, "unique typo match: "@) by {
            let j = choose|j: int| 0 <= j < views(v@).len() && views(v@)[j] == r;
            assert(v@[j]@ == r);
        }
    }
    false
}

/// The tier of a scored selector's mark.
fn tier_of(c: &Scored) -> (t: u8)
    ensures
        t as int == tier((c.score, text_set(c.reasons@))),
{
    if c.score == u32::MAX {
        2
    } else if has_typo_reason(&c.reasons) {
        0
    } else {
        1
    }
}

/// Whether the mark on `ya` ranks before the mark on `xb`.
fn before(ya: &Scored, xb: &Scored) -> (r: bool)
    ensures
        r == ({
            let a = (ya.score, text_set(ya.reasons@));
            let b = (xb.score, text_set(xb.reasons@));
            tier(a) > tier(b) || (tier(a) == tier(b) && (ya.score > xb.score || (ya.score == xb.score && lex_lt(
                ya.selector@,
                xb.selector@,
            ))))
        }),
{
    let ta = tier_of(ya);
    let tb = tier_of(xb);
    ta > tb || (ta == tb && (ya.score > xb.score || (ya.score == xb.score && text_less(
        ya.selector.as_str(),
        xb.selector.as_str(),
    ))))
}

/// A copy of a scored selector.
fn copy_scored(c: &Scored) -> (r: Scored)
    ensures
        r.selector@ == c.selector@,
        r.score == c.score,
        views(r.reasons@) == views(c.reasons@),
{
    Scored { selector: copy_string(&c.selector), score: c.score, reasons: copy_strings(&c.reasons) }
}

/// The selectors that rank among the first `l`, with their marks.
fn keep_top(v: &Vec<Scored>, l: usize) -> (k: Vec<Scored>)
    requires
        scored_ok(v@),
    ensures
        scored_ok(k@),
        as_map(k@) == as_map(v@).restrict(kept(as_map(v@), l as nat)),
{
    let ghost m = as_map(v@);
    let mut k: Vec<Scored> = Vec::new();
    let mut i: usize = 0;
    while i < v.len()
        invariant
            i <= v.len(),
            scored_ok(v@),
            m == as_map(v@),
            scored_ok(k@),
            forall|a: int| 0 <= a < k@.len() ==> exists|b: int| 0 <= b < i && (#[trigger] k@[a]).selector@ == (#[trigger] v@[b]).selector@,
            as_map(k@) == m.restrict(Set::new(|x: Seq<char>| keys(v@).take(i as int).contains(x))).restrict(kept(m, l as nat)),
        decreases v.len() - i,
    {
        let ghost x = v@[i as int].selector@;
        let ghost p = |y: Seq<char>| ranks_before(m, y, x);
        let mut count: usize = 0;
        let mut j: usize = 0;
        while j < v.len()
            invariant
                j <= v.len(),
                i < v.len(),
                scored_ok(v@),
                m == as_map(v@),
                x == v@[i as int].selector@,
                p == (|y: Seq<char>| ranks_before(m, y, x)),
                count == count_pred(keys(v@).take(j as int), p),
                count <= j,
            decreases v.len() - j,
        {
            proof {
                assert(keys(v@).take(j + 1).drop_last() =~= keys(v@).take(j as int));
                assert(keys(v@).take(j + 1).last() == v@[j as int].selector@);
                lemma_as_map_at(v@, j as int);
                lemma_as_map_at(v@, i as int);
            }
            if before(&v[j], &v[i]) {
                count += 1;
            }
            j += 1;
        }
        proof {
            assert(keys(v@).take(v.len() as int) =~= keys(v@));
            lemma_count_pred(keys(v@), p);
            assert(m.dom() =~= keys(v@).to_set()) by {
                assert forall|y: Seq<char>| m.dom().contains(y) implies keys(v@).to_set().contains(y) by {
                    let b = choose|b: int| 0 <= b < v@.len() && (#[trigger] v@[b]).selector@ == y;
                    assert(keys(v@)[b] == y);
                }
                assert forall|y: Seq<char>| keys(v@).to_set().contains(y) implies m.dom().contains(y) by {
                    let b = choose|b: int| 0 <= b < keys(v@).len() && #[trigger] keys(v@)[b] == y;
                    assert(v@[b].selector@ == y);
                }
            }
            assert(Set::new(|y: Seq<char>| m.dom().contains(y) && ranks_before(m, y, x)) =~= Set::new(
                |y: Seq<char>| keys(v@).to_set().contains(y) && p(y),
            ));
            assert(rank_of(m, x) == count);
        }
        let ghost kb = k@;
        if count < l {
            k.push(copy_scored(&v[i]));
        }
        proof {
            lemma_as_map_at(v@, i as int);
            let prev = Set::new(|y: Seq<char>| keys(v@).take(i as int).contains(y));
            let next = Set::new(|y: Seq<char>| keys(v@).take(i + 1).contains(y));
            assert(keys(v@).take(i + 1) =~= keys(v@).take(i as int).push(x));
            assert(next =~= prev.insert(x)) by {
                assert forall|y: Seq<char>| next.contains(y) implies prev.insert(x).contains(y) by {
                    let b = choose|b: int| 0 <= b < i + 1 && #[trigger] keys(v@).take(i + 1)[b] == y;
                    if b < i {
                        assert(keys(v@).take(i as int)[b] == y);
                    }
                }
                assert forall|y: Seq<char>| prev.insert(x).contains(y) implies next.contains(y) by {
                    if y == x {
                        assert(keys(v@).take(i + 1)[i as int] == x);
                    } else {
                        let b = choose|b: int| 0 <= b < i && #[trigger] keys(v@).take(i as int)[b] == y;
                        assert(keys(v@).take(i + 1)[b] == y);
                    }
                }
            }
            // the selectors kept so far are all smaller than x
            assert forall|a: int| 0 <= a < kb.len() implies lex_lt(#[trigger] keys(kb)[a], x) by {
                let b = choose|b: int| 0 <= b < i && (#[trigger] kb[a]).selector@ == (#[trigger] v@[b]).selector@;
                assert(keys(v@)[b] == kb[a].selector@);
                assert(keys(v@)[i as int] == x);
                assert(lex_lt(keys(v@)[b], keys(v@)[i as int]));
            }
            if count < l {
                let after = k@;
                assert(keys(after) =~= keys(kb).push(x));
                assert(scored_ok(after)) by {
                    assert forall|a: int, b: int| 0 <= a < b < after.len() implies lex_lt(
                        #[trigger] keys(after)[a],
                        #[trigger] keys(after)[b],
                    ) by {
                        if b < kb.len() {
                            assert(keys(after)[a] == keys(kb)[a]);
                            assert(keys(after)[b] == keys(kb)[b]);
                        } else {
                            assert(keys(after)[a] == keys(kb)[a]);
                        }
                    }
                    assert forall|a: int| 0 <= a < after.len() implies is_strset((#[trigger] after[a]).reasons@) by {
                        if a < kb.len() {
                            assert(after[a] == kb[a]);
                        } else {
                            assert(views(after[a].reasons@) == views(v@[i as int].reasons@));
                        }
                    }
                }
                assert forall|a: int| 0 <= a < after.len() implies exists|b: int| 0 <= b < i + 1 && (#[trigger] after[a]).selector@ == (#[trigger] v@[b]).selector@ by {
                    if a < kb.len() {
                        assert(after[a] == kb[a]);
                        let b = choose|b: int| 0 <= b < i && (#[trigger] kb[a]).selector@ == (#[trigger] v@[b]).selector@;
                    } else {
                        assert(after[a].selector@ == v@[i as int].selector@);
                    }
                }
                assert(as_map(after) =~= m.restrict(next).restrict(kept(m, l as nat))) by {
                    assert forall|y: Seq<char>| as_map(after).dom().contains(y) <==> m.restrict(next).restrict(kept(m, l as nat)).dom().contains(y) by {
                        if y == x {
                            assert(after[kb.len() as int].selector@ == x);
                        } else {
                            if as_map(after).dom().contains(y) {
                                let a = choose|a: int| 0 <= a < after.len() && (#[trigger] after[a]).selector@ == y;
                                assert(a < kb.len());
                                assert(kb[a].selector@ == y);
                                assert(as_map(kb).dom().contains(y));
                            }
                            if as_map(kb).dom().contains(y) {
                                let a = choose|a: int| 0 <= a < kb.len() && (#[trigger] kb[a]).selector@ == y;
                                assert(after[a].selector@ == y);
                            }
                        }
                    }
                    assert forall|y: Seq<char>| #[trigger] as_map(after).dom().contains(y) implies as_map(after)[y] == m.restrict(next).restrict(kept(m, l as nat))[y] by {
                        let a = choose|a: int| 0 <= a < after.len() && (#[trigger] after[a]).selector@ == y;
                        lemma_as_map_at(after, a);
                        if a < kb.len() {
                            assert(after[a] == kb[a]);
                            lemma_as_map_at(kb, a);
                        } else {
                            assert(text_set(after[a].reasons@) == text_set(v@[i as int].reasons@));
                        }
                    }
                }
            } else {
                assert(as_map(k@) =~= m.restrict(next).restrict(kept(m, l as nat)));
                assert forall|a: int| 0 <= a < k@.len() implies exists|b: int| 0 <= b < i + 1 && (#[trigger] k@[a]).selector@ == (#[trigger] v@[b]).selector@ by {
                    let b = choose|b: int| 0 <= b < i && (#[trigger] k@[a]).selector@ == (#[trigger] v@[b]).selector@;
                }
            }
        }
        i += 1;
    }
    proof {
        assert(keys(v@).take(v.len() as int) =~= keys(v@));
        assert(Set::new(|x: Seq<char>| keys(v@).contains(x)) =~= m.dom()) by {
            assert forall|y: Seq<char>| m.dom().contains(y) implies keys(v@).contains(y) by {
                let b = choose|b: int| 0 <= b < v@.len() && (#[trigger] v@[b]).selector@ == y;
                assert(keys(v@)[b] == y);
            }
            assert forall|y: Seq<char>| keys(v@).contains(y) implies m.dom().contains(y) by {
                let b = choose|b: int| 0 <= b < keys(v@).len() && #[trigger] keys(v@)[b] == y;
                assert(v@[b].selector@ == y);
            }
        }
        assert(m.restrict(m.dom()) =~= m);
    }
    k
}

// ---------------------------------------------------------------------------
// The dependency closure
// ---------------------------------------------------------------------------
/// Every dependency of a member that names an entry is itself a member.
pub open spec fn closed_under(es: Seq<CatalogEntry>, s: Set<Seq<char>>) -> bool {
    forall|x: Seq<char>, d: Seq<char>|
        #![trigger s.contains(x), dep_views(entry_for(es, x)).contains(d)]
        s.contains(x) && in_catalog(es, x) && dep_views(entry_for(es, x)).contains(d) ==> s.contains(d)
}

/// `x` belongs to every closed set that holds `k`.
pub open spec fn reachable(es: Seq<CatalogEntry>, k: Set<Seq<char>>, x: Seq<char>) -> bool {
    forall|s: Set<Seq<char>>| k.subset_of(s) && closed_under(es, s) ==> #[trigger] s.contains(x)
}

/// The selectors that `k` reaches through dependencies, `k` included.
pub open spec fn closure(es: Seq<CatalogEntry>, k: Set<Seq<char>>) -> Set<Seq<char>> {
    Set::new(|x: Seq<char>| reachable(es, k, x))
}

/// A reached entry depends on a selector that names no entry.
pub open spec fn broken(es: Seq<CatalogEntry>, k: Set<Seq<char>>) -> bool {
    exists|x: Seq<char>, d: Seq<char>|
        #![trigger closure(es, k).contains(x), dep_views(entry_for(es, x)).contains(d)]
        closure(es, k).contains(x) && in_catalog(es, x) && dep_views(entry_for(es, x)).contains(d)
            && !in_catalog(es, d)
}

/// The reasons "required by X" that a selector gets from the members X of `r` that depend on it.
pub open spec fn dependents(es: Seq<CatalogEntry>, r: Set<Seq<char>>, d: Seq<char>) -> Set<Seq<char>> {
    Set::new(
        |t: Seq<char>|
            exists|y: Seq<char>|
                #![trigger r.contains(y), dep_views(entry_for(es, y)).contains(d)]
                r.contains(y) && in_catalog(es, y) && dep_views(entry_for(es, y)).contains(d) && t
                    == "required by "@ + y,
    )
}

/// The marks of a closed selection: the kept marks, with the reasons of every dependency.
pub open spec fn closed_map(es: Seq<CatalogEntry>, m: Map<Seq<char>, Mark>) -> Map<Seq<char>, Mark> {
    let r = closure(es, m.dom());
    Map::new(
        |d: Seq<char>| r.contains(d),
        |d: Seq<char>|
            (
                if m.contains_key(d) {
                    m[d].0
                } else {
                    0u32
                },
                (if m.contains_key(d) {
                    m[d].1
                } else {
                    Set::empty()
                }).union(dependents(es, r, d)),
            ),
    )
}

/// `y`'s dependency on `d` has been followed, where `x` is the entry whose
/// first `di` dependencies alone have been followed so far.
pub open spec fn followed(es: Seq<CatalogEntry>, vis: Set<Seq<char>>, x: Seq<char>, di: int, y: Seq<char>, d: Seq<char>) -> bool {
    vis.contains(y) && in_catalog(es, y) && (if y == x {
        dep_views(entry_for(es, y)).take(di).contains(d)
    } else {
        dep_views(entry_for(es, y)).contains(d)
    })
}

/// The marks part-way through the search.
pub open spec fn search_map(es: Seq<CatalogEntry>, m: Map<Seq<char>, Mark>, vis: Set<Seq<char>>, x: Seq<char>, di: int) -> Map<
    Seq<char>,
    Mark,
> {
    Map::new(
        |d: Seq<char>| m.contains_key(d) || exists|y: Seq<char>| #[trigger] followed(es, vis, x, di, y, d),
        |d: Seq<char>|
            (
                if m.contains_key(d) {
                    m[d].0
                } else {
                    0u32
                },
                (if m.contains_key(d) {
                    m[d].1
                } else {
                    Set::empty()
                }).union(
                    Set::new(
                        |t: Seq<char>|
                            exists|y: Seq<char>| #[trigger] followed(es, vis, x, di, y, d) && t == "required by "@ + y,
                    ),
                ),
            ),
    )
}

proof fn lemma_reachable_dep(es: Seq<CatalogEntry>, k: Set<Seq<char>>, x: Seq<char>, d: Seq<char>)
    requires
        reachable(es, k, x),
        in_catalog(es, x),
        dep_views(entry_for(es, x)).contains(d),
    ensures
        reachable(es, k, d),
{
    assert forall|s: Set<Seq<char>>| k.subset_of(s) && closed_under(es, s) implies #[trigger] s.contains(d) by {
        assert(s.contains(x));
    }
}

proof fn lemma_reachable_base(es: Seq<CatalogEntry>, k: Set<Seq<char>>, x: Seq<char>)
    requires
        k.contains(x),
    ensures
        reachable(es, k, x),
{
    assert forall|s: Set<Seq<char>>| k.subset_of(s) && closed_under(es, s) implies #[trigger] s.contains(x) by {}
}

/// How many of the first `k` entries have a selector outside `vis`.
pub open spec fn unvisited(es: Seq<CatalogEntry>, vis: Set<Seq<char>>, k: int) -> nat
    decreases k,
{
    if k <= 0 || k > es.len() {
        0
    } else {
        unvisited(es, vis, k - 1) + if vis.contains(selector_of(es[k - 1])) {
            0nat
        } else {
            1nat
        }
    }
}

/// Visiting a selector that names an entry leaves fewer entries unvisited.
pub proof fn lemma_unvisited_drop(es: Seq<CatalogEntry>, vis: Set<Seq<char>>, x: Seq<char>, k: int)
    requires
        0 <= k <= es.len(),
        !vis.contains(x),
    ensures
        unvisited(es, vis.insert(x), k) <= unvisited(es, vis, k),
        (exists|i: int| 0 <= i < k && selector_of(#[trigger] es[i]) == x) ==> unvisited(es, vis.insert(x), k) < unvisited(
            es,
            vis,
            k,
        ),
    decreases k,
{
    if k > 0 {
        lemma_unvisited_drop(es, vis, x, k - 1);
        if exists|i: int| 0 <= i < k && selector_of(#[trigger] es[i]) == x {
            let i = choose|i: int| 0 <= i < k && selector_of(#[trigger] es[i]) == x;
            if i < k - 1 {
                assert(exists|i: int| 0 <= i < k - 1 && selector_of(#[trigger] es[i]) == x);
            }
        }
    }
}

/// The first dependency of `x`, from position `j` on, that names no entry.
pub open spec fn missing_dep(es: Seq<CatalogEntry>, x: Seq<char>, j: int) -> Option<Seq<char>>
    decreases dep_views(entry_for(es, x)).len() - j,
{
    let ds = dep_views(entry_for(es, x));
    if 0 <= j < ds.len() {
        if !in_catalog(es, ds[j]) {
            Some(ds[j])
        } else {
            missing_dep(es, x, j + 1)
        }
    } else {
        None
    }
}

/// The refusal of a dependency `d` of `x` that names no entry.
pub open spec fn missing_message(d: Seq<char>, x: Seq<char>) -> Seq<char> {
    "missing dependency "@ + d + " required by "@ + x
}

/// The refusal that following dependencies depth first meets first: the
/// selector at the end of `pend` is taken; one not visited before has its
/// dependencies checked in order, and then queued in order.
pub open spec fn first_refusal(es: Seq<CatalogEntry>, pend: Seq<Seq<char>>, vis: Set<Seq<char>>) -> Option<Seq<char>>
    decreases unvisited(es, vis, es.len() as int), pend.len(),
{
    if pend.len() == 0 {
        None
    } else {
        let x = pend.last();
        let rest = pend.drop_last();
        if vis.contains(x) || !in_catalog(es, x) {
            first_refusal(es, rest, vis)
        } else {
            match missing_dep(es, x, 0) {
                Some(d) => Some(missing_message(d, x)),
                None => {
                    proof {
                        lemma_in_catalog(es, x);
                        lemma_unvisited_drop(es, vis, x, es.len() as int);
                    }
                    first_refusal(es, rest + dep_views(entry_for(es, x)), vis.insert(x))
                },
            }
        }
    }
}

/// The refusal met once the dependencies of `x` before position `j` are found and queued.
pub open spec fn refusal_from(es: Seq<CatalogEntry>, pend: Seq<Seq<char>>, vis: Set<Seq<char>>, x: Seq<char>, j: int) -> Option<
    Seq<char>,
> {
    match missing_dep(es, x, j) {
        Some(d) => Some(missing_message(d, x)),
        None => first_refusal(es, pend + dep_views(entry_for(es, x)).skip(j), vis),
    }
}

/// Selectors of a vector of strings, as a set.
spec fn pset(v: Seq<String>) -> Set<Seq<char>> {
    text_set(v)
}

/// Adds to the selection every dependency that the selection reaches, with
/// the reason "required by X" for each entry X that depends on it.
fn close_dependencies(entries: &Vec<CatalogEntry>, clo: &mut Vec<Scored>) -> (r: Result<(), String>)
    requires
        scored_ok(old(clo)@),
        forall|x: Seq<char>| as_map(old(clo)@).dom().contains(x) ==> in_catalog(entries@, x),
    ensures
        r is Err <==> broken(entries@, as_map(old(clo)@).dom()),
        r is Ok ==> scored_ok(final(clo)@) && as_map(final(clo)@) == closed_map(entries@, as_map(old(clo)@)),
        r is Ok ==> forall|x: Seq<char>| #[trigger] closure(entries@, as_map(old(clo)@).dom()).contains(x) ==> in_catalog(entries@, x),
        r matches Err(m) ==> Some(m@) == first_refusal(entries@, keys(old(clo)@), Set::empty()),
{
    let ghost es = entries@;
    let ghost m0 = as_map(clo@);
    let ghost k0 = m0.dom();
    proof {
        assert(m0 == as_map(old(clo)@));
    }
    let mut pending: Vec<String> = Vec::new();
    let mut i: usize = 0;
    while i < clo.len()
        invariant
            i <= clo.len(),
            scored_ok(clo@),
            m0 == as_map(clo@),
            pending@.len() == i,
            forall|j: int| 0 <= j < i ==> (#[trigger] pending@[j])@ == clo@[j].selector@,
        decreases clo.len() - i,
    {
        pending.push(copy_string(&clo[i].selector));
        i += 1;
    }
    proof {
        assert forall|x: Seq<char>| k0.contains(x) implies pset(pending@).contains(x) by {
            let b = choose|b: int| 0 <= b < clo@.len() && (#[trigger] clo@[b]).selector@ == x;
            assert(views(pending@)[b] == x);
        }
        assert forall|j: int| 0 <= j < pending@.len() implies in_catalog(es, (#[trigger] pending@[j])@) && reachable(es, k0, pending@[j]@) by {
            lemma_as_map_at(clo@, j);
            lemma_reachable_base(es, k0, pending@[j]@);
        }
    }
    let mut visited = strset_new();
    let ghost mut cur: Seq<char> = Seq::empty();
    let ghost r0 = first_refusal(es, keys(old(clo)@), Set::empty());
    proof {
        assert(views(pending@) =~= keys(clo@));
        assert(text_set(visited@) =~= Set::<Seq<char>>::empty());
        let full = dep_views(entry_for(es, cur)).len() as int;
        assert forall|d: Seq<char>| #[trigger] m0.contains_key(d) implies search_map(es, m0, text_set(visited@), cur, full)[d] == m0[d] by {
            let rs = Set::new(|t: Seq<char>| exists|y: Seq<char>| #[trigger] followed(es, text_set(visited@), cur, full, y, d) && t == "required by "@ + y);
            assert(rs =~= Set::<Seq<char>>::empty());
            assert(m0[d].1.union(rs) =~= m0[d].1);
        }
        assert(as_map(clo@) =~= search_map(es, m0, text_set(visited@), cur, full));
    }
    loop
        invariant
            es == entries@,
            m0 == as_map(old(clo)@),
            k0 == m0.dom(),
            forall|x: Seq<char>| k0.contains(x) ==> in_catalog(es, x),
            scored_ok(clo@),
            is_strset(visited@),
            visited_ok(es, k0, text_set(visited@)),
            pending_ok(es, k0, pending@),
            covers(es, k0, text_set(visited@), pset(pending@)),
            closed_but(es, text_set(visited@), pset(pending@), cur, dep_views(entry_for(es, cur)).len() as int),
            origin_ok(es, k0, text_set(visited@), cur, dep_views(entry_for(es, cur)).len() as int, text_set(visited@)),
            origin_ok(es, k0, text_set(visited@), cur, dep_views(entry_for(es, cur)).len() as int, pset(pending@)),
            targets_ok(es, text_set(visited@), cur, dep_views(entry_for(es, cur)).len() as int),
            as_map(clo@) == search_map(es, m0, text_set(visited@), cur, dep_views(entry_for(es, cur)).len() as int),
            r0 == first_refusal(es, keys(old(clo)@), Set::empty()),
            first_refusal(es, views(pending@), text_set(visited@)) == r0,
        decreases entries@.len() - visited@.len(), pending@.len(),
    {
        proof {
            lemma_visited_bound(es, visited@);
        }
        let ghost pend_before = pending@;
        let popped = pending.pop();
        match popped {
            None => {
                proof {
                    assert(pset(pending@) =~= Set::<Seq<char>>::empty());
                    lemma_search_done(es, m0, text_set(visited@), cur);
                }
                return Ok(());
            },
            Some(sel) => {
                proof {
                    assert(pend_before =~= pending@.push(sel));
                    assert(pend_before[pend_before.len() - 1] == sel);
                    assert(pset(pend_before) =~= pset(pending@).insert(sel@)) by {
                        assert(views(pend_before) =~= views(pending@).push(sel@));
                        views(pending@).lemma_push_to_set_commute(sel@);
                    }
                    assert(views(pend_before).last() == sel@);
                    assert(views(pend_before).drop_last() =~= views(pending@));
                }
                if strs_contain(&visited, sel.as_str()) {
                    proof {
                        lemma_pending_pop(es, k0, pend_before, pending@);
                        let full = dep_views(entry_for(es, cur)).len() as int;
                        assert forall|x: Seq<char>| #[trigger] pset(pending@).contains(x) implies k0.contains(x) || exists|y: Seq<char>| #[trigger] followed(es, text_set(visited@), cur, full, y, x) by {
                            assert(pset(pend_before).contains(x));
                        }
                    }
                } else {
                    let ghost vis0 = text_set(visited@);
                    let ghost cur0 = cur;
                    proof {
                        lemma_in_catalog(es, sel@);
                        assert(dep_views(entry_for(es, sel@)).skip(0) =~= dep_views(entry_for(es, sel@)));
                        assert(first_refusal(es, views(pend_before), vis0) == refusal_from(es, views(pending@), vis0.insert(sel@), sel@, 0));
                    }
                    let idx = find_entry(entries, sel.as_str()).unwrap();
                    let ghost vseq0 = visited@;
                    strset_insert(&mut visited, copy_string(&sel));
                    let ghost vis = text_set(visited@);
                    proof {
                        crate::strset::lemma_strset_len(vseq0);
                        crate::strset::lemma_strset_len(visited@);
                        assert(!vis0.contains(sel@));
                        assert(visited@.len() == vseq0.len() + 1);
                        cur = sel@;
                        lemma_pending_pop(es, k0, pend_before, pending@);
                        lemma_shift(es, m0, k0, vis0, cur0, cur, pset(pending@));
                        assert(as_map(clo@) =~= search_map(es, m0, vis, cur, 0));
                        let full0 = dep_views(entry_for(es, cur0)).len() as int;
                        assert(vis == vis0.insert(cur));
                        assert(pset(pend_before).contains(cur));
                        assert forall|x: Seq<char>| #[trigger] vis.contains(x) implies k0.contains(x) || exists|y: Seq<char>| #[trigger] followed(es, vis, cur, 0, y, x) by {
                            if !k0.contains(x) {
                                if x == cur {
                                    assert(pset(pend_before).contains(x));
                                } else {
                                    assert(vis0.contains(x));
                                }
                                let y = choose|y: Seq<char>| #[trigger] followed(es, vis0, cur0, full0, y, x);
                                assert(followed(es, vis, cur, 0, y, x));
                            }
                        }
                        assert forall|x: Seq<char>| #[trigger] pset(pending@).contains(x) implies k0.contains(x) || exists|y: Seq<char>| #[trigger] followed(es, vis, cur, 0, y, x) by {
                            if !k0.contains(x) {
                                assert(pset(pend_before).contains(x));
                                let y = choose|y: Seq<char>| #[trigger] followed(es, vis0, cur0, full0, y, x);
                                assert(followed(es, vis, cur, 0, y, x));
                            }
                        }
                    }
                    let reason = crate::text::concat2("required by ", sel.as_str());
                    let mut add = strset_new();
                    strset_insert(&mut add, reason);
                    let e = &entries[idx];
                    let mut di: usize = 0;
                    while di < e.dependencies.len()
                        invariant
                            es == entries@,
                            m0 == as_map(old(clo)@),
                            k0 == m0.dom(),
                            forall|x: Seq<char>| k0.contains(x) ==> in_catalog(es, x),
                            idx == index_of(es, cur),
                            0 <= idx < es.len(),
                            *e == es[idx as int],
                            vis == text_set(visited@),
                            vis.contains(cur),
                            in_catalog(es, cur),
                            reachable(es, k0, cur),
                            text_set(add@) == set!["required by "@ + cur],
                            di <= e.dependencies@.len(),
                            scored_ok(clo@),
                            is_strset(visited@),
                            visited_ok(es, k0, vis),
                            pending_ok(es, k0, pending@),
                            covers(es, k0, vis, pset(pending@)),
                            closed_but(es, vis, pset(pending@), cur, di as int),
                            origin_ok(es, k0, vis, cur, di as int, vis),
                            origin_ok(es, k0, vis, cur, di as int, pset(pending@)),
                            targets_ok(es, vis, cur, di as int),
                            as_map(clo@) == search_map(es, m0, vis, cur, di as int),
                            r0 == first_refusal(es, keys(old(clo)@), Set::empty()),
                            refusal_from(es, views(pending@), vis, cur, di as int) == r0,
                            sel@ == cur,
                        decreases e.dependencies@.len() - di,
                    {
                        let dsel = &e.dependencies[di].selector;
                        proof {
                            assert(dep_views(entry_for(es, cur))[di as int] == dsel@);
                        }
                        if find_entry(entries, dsel.as_str()).is_none() {
                            proof {
                                assert(dep_views(entry_for(es, cur)).contains(dsel@));
                                assert(closure(es, k0).contains(cur));
                                assert(!in_catalog(es, dsel@));
                                assert(broken(es, k0));
                            }
                            let mut msg = crate::text::concat2("missing dependency ", dsel.as_str());
                            crate::text::push_text(&mut msg, " required by ");
                            crate::text::push_text(&mut msg, sel.as_str());
                            proof {
                                assert(missing_dep(es, cur, di as int) == Some(dsel@));
                                assert(msg@ =~= missing_message(dsel@, cur));
                            }
                            return Err(msg);
                        }
                        proof {
                            lemma_reachable_dep(es, k0, cur, dsel@);
                            lemma_step(es, m0, k0, vis, cur, di as int, pset(pending@));
                        }
                        let ghost pend_prev = pending@;
                        upsert(clo, copy_string(dsel), None, &add);
                        pending.push(copy_string(dsel));
                        proof {
                            assert(pset(pending@) =~= pset(pend_prev).insert(dsel@)) by {
                                assert(views(pending@) =~= views(pend_prev).push(dsel@));
                                views(pend_prev).lemma_push_to_set_commute(dsel@);
                            }
                            lemma_pending_push(es, k0, pend_prev, pending@);
                            assert forall|x: Seq<char>| #[trigger] vis.contains(x) implies k0.contains(x) || exists|y: Seq<char>| #[trigger] followed(es, vis, cur, di + 1, y, x) by {
                                if !k0.contains(x) {
                                    let y = choose|y: Seq<char>| #[trigger] followed(es, vis, cur, di as int, y, x);
                                    assert(followed(es, vis, cur, di + 1, y, x));
                                }
                            }
                            assert forall|x: Seq<char>| #[trigger] pset(pending@).contains(x) implies k0.contains(x) || exists|y: Seq<char>| #[trigger] followed(es, vis, cur, di + 1, y, x) by {
                                if !k0.contains(x) {
                                    if x == dsel@ {
                                        assert(followed(es, vis, cur, di + 1, cur, x));
                                    } else {
                                        assert(pset(pend_prev).contains(x));
                                        let y = choose|y: Seq<char>| #[trigger] followed(es, vis, cur, di as int, y, x);
                                        assert(followed(es, vis, cur, di + 1, y, x));
                                    }
                                }
                            }
                            assert(as_map(clo@) =~= search_map(es, m0, vis, cur, di + 1));
                            let ds = dep_views(entry_for(es, cur));
                            assert(missing_dep(es, cur, di as int) == missing_dep(es, cur, di + 1));
                            assert(views(pending@) + ds.skip(di + 1) =~= views(pend_prev) + ds.skip(di as int));
                        }
                        di += 1;
                    }
                    proof {
                        assert(dep_views(entry_for(es, cur)).len() == e.dependencies@.len());
                        lemma_visited_bound(es, visited@);
                        let ds = dep_views(entry_for(es, cur));
                        assert(views(pending@) + ds.skip(ds.len() as int) =~= views(pending@));
                    }
                }
            },
        }
    }
}

/// The visited selectors all name entries, so there are no more of them than entries.
proof fn lemma_visited_bound(es: Seq<CatalogEntry>, vis: Seq<String>)
    requires
        is_strset(vis),
        forall|x: Seq<char>| text_set(vis).contains(x) ==> in_catalog(es, x),
    ensures
        vis.len() <= es.len(),
{
    crate::strset::lemma_strset_len(vis);
    let sels = es.map_values(|e: CatalogEntry| selector_of(e));
    assert forall|x: Seq<char>| text_set(vis).contains(x) implies sels.to_set().contains(x) by {
        lemma_in_catalog(es, x);
        let i = index_of(es, x);
        assert(sels[i] == x);
    }
    sels.lemma_cardinality_of_set();
    vstd::set_lib::lemma_len_subset(text_set(vis), sels.to_set());
}

/// Every visited selector names an entry that the kept selectors reach.
pub open spec fn visited_ok(es: Seq<CatalogEntry>, k0: Set<Seq<char>>, vis: Set<Seq<char>>) -> bool {
    forall|x: Seq<char>| #[trigger] vis.contains(x) ==> in_catalog(es, x) && reachable(es, k0, x)
}

/// Every pending selector names an entry that the kept selectors reach.
pub open spec fn pending_ok(es: Seq<CatalogEntry>, k0: Set<Seq<char>>, pend: Seq<String>) -> bool {
    forall|j: int| 0 <= j < pend.len() ==> in_catalog(es, (#[trigger] pend[j])@) && reachable(es, k0, pend[j]@)
}

/// Every kept selector is visited or pending.
pub open spec fn covers(es: Seq<CatalogEntry>, k0: Set<Seq<char>>, vis: Set<Seq<char>>, ps: Set<Seq<char>>) -> bool {
    forall|x: Seq<char>| #[trigger] k0.contains(x) ==> vis.contains(x) || ps.contains(x)
}

/// Every followed dependency is visited or pending.
pub open spec fn closed_but(es: Seq<CatalogEntry>, vis: Set<Seq<char>>, ps: Set<Seq<char>>, cur: Seq<char>, di: int) -> bool {
    forall|y: Seq<char>, d: Seq<char>| #[trigger] followed(es, vis, cur, di, y, d) ==> vis.contains(d) || ps.contains(d)
}

/// Every member of `s` is kept or a followed dependency.
pub open spec fn origin_ok(es: Seq<CatalogEntry>, k0: Set<Seq<char>>, vis: Set<Seq<char>>, cur: Seq<char>, di: int, s: Set<Seq<char>>) -> bool {
    forall|x: Seq<char>| #[trigger] s.contains(x) ==> k0.contains(x) || exists|y: Seq<char>| #[trigger] followed(es, vis, cur, di, y, x)
}

/// Every followed dependency names an entry.
pub open spec fn targets_ok(es: Seq<CatalogEntry>, vis: Set<Seq<char>>, cur: Seq<char>, di: int) -> bool {
    forall|y: Seq<char>, d: Seq<char>| #[trigger] followed(es, vis, cur, di, y, d) ==> in_catalog(es, d)
}

proof fn lemma_take_all(s: Seq<Seq<char>>)
    ensures
        s.take(s.len() as int) == s,
{
    assert(s.take(s.len() as int) =~= s);
}

/// Dropping the last pending selector keeps the others as they were.
proof fn lemma_pending_pop(es: Seq<CatalogEntry>, k0: Set<Seq<char>>, before: Seq<String>, after: Seq<String>)
    requires
        pending_ok(es, k0, before),
        before.len() > 0,
        after == before.drop_last(),
    ensures
        pending_ok(es, k0, after),
        in_catalog(es, before.last()@),
        reachable(es, k0, before.last()@),
{
    assert forall|j: int| 0 <= j < after.len() implies in_catalog(es, (#[trigger] after[j])@) && reachable(es, k0, after[j]@) by {
        assert(after[j] == before[j]);
    }
    assert(before.last() == before[before.len() - 1]);
}

/// Pushing a reached selector keeps the pending ones reached.
proof fn lemma_pending_push(es: Seq<CatalogEntry>, k0: Set<Seq<char>>, before: Seq<String>, after: Seq<String>)
    requires
        pending_ok(es, k0, before),
        after.len() == before.len() + 1,
        forall|j: int| 0 <= j < before.len() ==> after[j] == before[j],
        in_catalog(es, after[before.len() as int]@),
        reachable(es, k0, after[before.len() as int]@),
    ensures
        pending_ok(es, k0, after),
{
    assert forall|j: int| 0 <= j < after.len() implies in_catalog(es, (#[trigger] after[j])@) && reachable(es, k0, after[j]@) by {
        if j < before.len() {
            assert(after[j] == before[j]);
        }
    }
}

/// Starting on `cur` once the dependencies of `cur0` are all followed.
proof fn lemma_shift(es: Seq<CatalogEntry>, m0: Map<Seq<char>, Mark>, k0: Set<Seq<char>>, vis0: Set<Seq<char>>, cur0: Seq<char>, cur: Seq<char>, ps: Set<Seq<char>>)
    requires
        !vis0.contains(cur),
    ensures
        forall|y: Seq<char>, d: Seq<char>|
            followed(es, vis0, cur0, dep_views(entry_for(es, cur0)).len() as int, y, d) <==> #[trigger] followed(
                es,
                vis0.insert(cur),
                cur,
                0,
                y,
                d,
            ),
        search_map(es, m0, vis0, cur0, dep_views(entry_for(es, cur0)).len() as int) == search_map(es, m0, vis0.insert(cur), cur, 0),
{
    let full = dep_views(entry_for(es, cur0)).len() as int;
    lemma_take_all(dep_views(entry_for(es, cur0)));
    assert forall|y: Seq<char>, d: Seq<char>|
        followed(es, vis0, cur0, full, y, d) <==> #[trigger] followed(es, vis0.insert(cur), cur, 0, y, d) by {
        assert(dep_views(entry_for(es, y)).take(0) =~= Seq::<Seq<char>>::empty());
        if y == cur0 {
            assert(dep_views(entry_for(es, y)).take(full) == dep_views(entry_for(es, y)));
        }
    }
    let a = search_map(es, m0, vis0, cur0, full);
    let b = search_map(es, m0, vis0.insert(cur), cur, 0);
    assert forall|d: Seq<char>| a.dom().contains(d) <==> b.dom().contains(d) by {
        if a.dom().contains(d) && !m0.contains_key(d) {
            let y = choose|y: Seq<char>| #[trigger] followed(es, vis0, cur0, full, y, d);
            assert(followed(es, vis0.insert(cur), cur, 0, y, d));
        }
        if b.dom().contains(d) && !m0.contains_key(d) {
            let y = choose|y: Seq<char>| #[trigger] followed(es, vis0.insert(cur), cur, 0, y, d);
            assert(followed(es, vis0, cur0, full, y, d));
        }
    }
    assert forall|d: Seq<char>| #[trigger] a.dom().contains(d) implies a[d] == b[d] by {
        let ra = Set::new(|t: Seq<char>| exists|y: Seq<char>| #[trigger] followed(es, vis0, cur0, full, y, d) && t == "required by "@ + y);
        let rb = Set::new(|t: Seq<char>| exists|y: Seq<char>| #[trigger] followed(es, vis0.insert(cur), cur, 0, y, d) && t == "required by "@ + y);
        assert(ra =~= rb) by {
            assert forall|t: Seq<char>| ra.contains(t) implies rb.contains(t) by {
                let y = choose|y: Seq<char>| #[trigger] followed(es, vis0, cur0, full, y, d) && t == "required by "@ + y;
                assert(followed(es, vis0.insert(cur), cur, 0, y, d));
            }
            assert forall|t: Seq<char>| rb.contains(t) implies ra.contains(t) by {
                let y = choose|y: Seq<char>| #[trigger] followed(es, vis0.insert(cur), cur, 0, y, d) && t == "required by "@ + y;
                assert(followed(es, vis0, cur0, full, y, d));
            }
        }
    }
    assert(a =~= b);
}

/// Following the dependency at `di` of the current entry.
proof fn lemma_step(es: Seq<CatalogEntry>, m0: Map<Seq<char>, Mark>, k0: Set<Seq<char>>, vis: Set<Seq<char>>, cur: Seq<char>, di: int, ps: Set<Seq<char>>)
    requires
        vis.contains(cur),
        in_catalog(es, cur),
        0 <= di < dep_views(entry_for(es, cur)).len(),
    ensures
        forall|y: Seq<char>, d: Seq<char>|
            #[trigger] followed(es, vis, cur, di + 1, y, d) <==> followed(es, vis, cur, di, y, d) || (y == cur && d == dep_views(entry_for(es, cur))[di]),
        search_map(es, m0, vis, cur, di + 1) == search_map(es, m0, vis, cur, di).insert(
            dep_views(entry_for(es, cur))[di],
            updated(search_map(es, m0, vis, cur, di), dep_views(entry_for(es, cur))[di], None, set!["required by "@ + cur]),
        ),
{
    let ds = dep_views(entry_for(es, cur));
    let x = ds[di];
    assert(ds.take(di + 1) =~= ds.take(di).push(x));
    assert forall|y: Seq<char>, d: Seq<char>|
        #[trigger] followed(es, vis, cur, di + 1, y, d) <==> followed(es, vis, cur, di, y, d) || (y == cur && d == x) by {
        if y == cur {
            assert(ds.take(di + 1).contains(d) <==> ds.take(di).contains(d) || d == x) by {
                if ds.take(di + 1).contains(d) {
                    let j = choose|j: int| 0 <= j < di + 1 && #[trigger] ds.take(di + 1)[j] == d;
                    if j < di {
                        assert(ds.take(di)[j] == d);
                    }
                }
                if ds.take(di).contains(d) {
                    let j = choose|j: int| 0 <= j < di && #[trigger] ds.take(di)[j] == d;
                    assert(ds.take(di + 1)[j] == d);
                }
                if d == x {
                    assert(ds.take(di + 1)[di] == x);
                }
            }
        }
    }
    let a = search_map(es, m0, vis, cur, di);
    let b = search_map(es, m0, vis, cur, di + 1);
    let c = a.insert(x, updated(a, x, None, set!["required by "@ + cur]));
    assert(followed(es, vis, cur, di + 1, cur, x));
    assert forall|d: Seq<char>| b.dom().contains(d) <==> c.dom().contains(d) by {
        if b.dom().contains(d) && !m0.contains_key(d) && d != x {
            let y = choose|y: Seq<char>| #[trigger] followed(es, vis, cur, di + 1, y, d);
            assert(followed(es, vis, cur, di, y, d));
        }
        if a.dom().contains(d) && !m0.contains_key(d) {
            let y = choose|y: Seq<char>| #[trigger] followed(es, vis, cur, di, y, d);
            assert(followed(es, vis, cur, di + 1, y, d));
        }
    }
    assert forall|d: Seq<char>| #[trigger] b.dom().contains(d) implies b[d] == c[d] by {
        let rb = Set::new(|t: Seq<char>| exists|y: Seq<char>| #[trigger] followed(es, vis, cur, di + 1, y, d) && t == "required by "@ + y);
        let ra = Set::new(|t: Seq<char>| exists|y: Seq<char>| #[trigger] followed(es, vis, cur, di, y, d) && t == "required by "@ + y);
        if d == x {
            assert(rb =~= ra.insert("required by "@ + cur)) by {
                assert forall|t: Seq<char>| rb.contains(t) implies ra.insert("required by "@ + cur).contains(t) by {
                    let y = choose|y: Seq<char>| #[trigger] followed(es, vis, cur, di + 1, y, d) && t == "required by "@ + y;
                    if !(y == cur) {
                        assert(followed(es, vis, cur, di, y, d));
                    }
                }
                assert forall|t: Seq<char>| ra.insert("required by "@ + cur).contains(t) implies rb.contains(t) by {
                    if t == "required by "@ + cur {
                        assert(followed(es, vis, cur, di + 1, cur, d));
                    } else {
                        let y = choose|y: Seq<char>| #[trigger] followed(es, vis, cur, di, y, d) && t == "required by "@ + y;
                        assert(followed(es, vis, cur, di + 1, y, d));
                    }
                }
            }
            if !a.dom().contains(d) {
                assert(ra =~= Set::<Seq<char>>::empty()) by {
                    assert forall|t: Seq<char>| !ra.contains(t) by {
                        if ra.contains(t) {
                            let y = choose|y: Seq<char>| #[trigger] followed(es, vis, cur, di, y, d) && t == "required by "@ + y;
                        }
                    }
                }
            }
            assert(c[d].1 =~= b[d].1);
        } else {
            assert(rb =~= ra) by {
                assert forall|t: Seq<char>| rb.contains(t) implies ra.contains(t) by {
                    let y = choose|y: Seq<char>| #[trigger] followed(es, vis, cur, di + 1, y, d) && t == "required by "@ + y;
                    assert(followed(es, vis, cur, di, y, d));
                }
                assert forall|t: Seq<char>| ra.contains(t) implies rb.contains(t) by {
                    let y = choose|y: Seq<char>| #[trigger] followed(es, vis, cur, di, y, d) && t == "required by "@ + y;
                    assert(followed(es, vis, cur, di + 1, y, d));
                }
            }
        }
    }
    assert(b =~= c);
}

/// When nothing is pending, the visited selectors are the closure and the marks are final.
proof fn lemma_search_done(es: Seq<CatalogEntry>, m0: Map<Seq<char>, Mark>, vis: Set<Seq<char>>, cur: Seq<char>)
    requires
        visited_ok(es, m0.dom(), vis),
        covers(es, m0.dom(), vis, Set::empty()),
        closed_but(es, vis, Set::empty(), cur, dep_views(entry_for(es, cur)).len() as int),
        origin_ok(es, m0.dom(), vis, cur, dep_views(entry_for(es, cur)).len() as int, vis),
        targets_ok(es, vis, cur, dep_views(entry_for(es, cur)).len() as int),
    ensures
        closure(es, m0.dom()) == vis,
        !broken(es, m0.dom()),
        search_map(es, m0, vis, cur, dep_views(entry_for(es, cur)).len() as int) == closed_map(es, m0),
{
    let k0 = m0.dom();
    let full = dep_views(entry_for(es, cur)).len() as int;
    lemma_take_all(dep_views(entry_for(es, cur)));
    assert forall|y: Seq<char>, d: Seq<char>|
        #[trigger] followed(es, vis, cur, full, y, d) <==> (vis.contains(y) && in_catalog(es, y) && dep_views(entry_for(es, y)).contains(d)) by {
    }
    assert(closed_under(es, vis)) by {
        assert forall|x: Seq<char>, d: Seq<char>|
            #![trigger vis.contains(x), dep_views(entry_for(es, x)).contains(d)]
            vis.contains(x) && in_catalog(es, x) && dep_views(entry_for(es, x)).contains(d) implies vis.contains(d) by {
            assert(followed(es, vis, cur, full, x, d));
        }
    }
    assert(k0.subset_of(vis));
    assert(closure(es, k0) =~= vis) by {
        assert forall|x: Seq<char>| closure(es, k0).contains(x) implies vis.contains(x) by {
            assert(reachable(es, k0, x));
        }
    }
    assert(!broken(es, k0)) by {
        if broken(es, k0) {
            let (x, d) = choose|x: Seq<char>, d: Seq<char>|
                #![trigger closure(es, k0).contains(x), dep_views(entry_for(es, x)).contains(d)]
                closure(es, k0).contains(x) && in_catalog(es, x) && dep_views(entry_for(es, x)).contains(d) && !in_catalog(es, d);
            assert(followed(es, vis, cur, full, x, d));
        }
    }
    let a = search_map(es, m0, vis, cur, full);
    let b = closed_map(es, m0);
    assert forall|d: Seq<char>| a.dom().contains(d) <==> b.dom().contains(d) by {
        if a.dom().contains(d) && !m0.contains_key(d) {
            let y = choose|y: Seq<char>| #[trigger] followed(es, vis, cur, full, y, d);
        }
        if vis.contains(d) {
            assert(k0.contains(d) || exists|y: Seq<char>| #[trigger] followed(es, vis, cur, full, y, d));
        }
    }
    assert forall|d: Seq<char>| #[trigger] a.dom().contains(d) implies a[d] == b[d] by {
        let ra = Set::new(|t: Seq<char>| exists|y: Seq<char>| #[trigger] followed(es, vis, cur, full, y, d) && t == "required by "@ + y);
        assert(ra =~= dependents(es, vis, d)) by {
            assert forall|t: Seq<char>| ra.contains(t) implies dependents(es, vis, d).contains(t) by {
                let y = choose|y: Seq<char>| #[trigger] followed(es, vis, cur, full, y, d) && t == "required by "@ + y;
                assert(vis.contains(y) && dep_views(entry_for(es, y)).contains(d));
            }
            assert forall|t: Seq<char>| dependents(es, vis, d).contains(t) implies ra.contains(t) by {
                let y = choose|y: Seq<char>|
                    #![trigger vis.contains(y), dep_views(entry_for(es, y)).contains(d)]
                    vis.contains(y) && in_catalog(es, y) && dep_views(entry_for(es, y)).contains(d) && t == "required by "@ + y;
                assert(followed(es, vis, cur, full, y, d));
            }
        }
    }
    assert(a =~= b);
}

// ---------------------------------------------------------------------------
// Resolution
// ---------------------------------------------------------------------------
/// One selected entry of a resolution.
#[derive(Clone, Debug)]
pub struct ResolvedEntry {
    pub selector: String,
    pub description: String,
    pub content_sha256: String,
    pub bytes: u64,
    pub trust: TrustLevel,
    pub reasons: Vec<String>,
}

/// The entries selected for a task, with what they weigh against the whole catalogue.
#[derive(Clone, Debug)]
pub struct Resolution {
    pub schema: String,
    pub catalog_sha256: String,
    pub task: String,
    pub selected: Vec<ResolvedEntry>,
    pub corpus_bytes: u64,
    pub selected_bytes: u64,
    pub avoided_bytes: u64,
    pub estimated_tokens_avoided: u64,
}

/// The routing tokens of a text, in order.
pub open spec fn token_seq(v: Seq<char>) -> Seq<Seq<char>> {
    choose|s: Seq<Seq<char>>| sorted_strict(s) && s.to_set() == token_set(v)
}

/// The scored and required selectors of a task.
pub open spec fn base_map(es: Seq<CatalogEntry>, task: Seq<char>, rs: Seq<Seq<char>>) -> Map<Seq<char>, Mark> {
    with_required(scored_map(es, token_seq(task), es.len() as int), es, rs, rs.len() as int)
}

/// The selectors kept for a task: the best `max(limit, required)` of them.
pub open spec fn kept_map(es: Seq<CatalogEntry>, task: Seq<char>, rs: Seq<Seq<char>>, limit: nat) -> Map<Seq<char>, Mark> {
    let m = base_map(es, task, rs);
    let l = if limit >= rs.len() {
        limit
    } else {
        rs.len()
    };
    m.restrict(kept(m, l))
}

/// Sum of the sizes of the first `k` entries.
pub open spec fn total_bytes(es: Seq<CatalogEntry>, k: int) -> int
    decreases k,
{
    if k <= 0 || k > es.len() {
        0
    } else {
        total_bytes(es, k - 1) + es[k - 1].bytes
    }
}

/// Sum of the sizes of the entries among the first `k` that the selectors of `r` name.
pub open spec fn chosen_bytes(es: Seq<CatalogEntry>, r: Set<Seq<char>>, k: int) -> int
    decreases k,
{
    if k <= 0 || k > es.len() {
        0
    } else {
        chosen_bytes(es, r, k - 1) + if r.contains(selector_of(es[k - 1])) && index_of(es, selector_of(es[k - 1])) == k - 1 {
            es[k - 1].bytes as int
        } else {
            0
        }
    }
}

proof fn lemma_bytes_bounds(es: Seq<CatalogEntry>, r: Set<Seq<char>>, k: int)
    requires
        0 <= k <= es.len(),
    ensures
        0 <= chosen_bytes(es, r, k) <= total_bytes(es, k),
        total_bytes(es, k) <= total_bytes(es, es.len() as int),
    decreases k,
{
    if k > 0 {
        lemma_bytes_bounds(es, r, k - 1);
    } else {
        lemma_total_mono(es, 0);
    }
    lemma_total_mono(es, k);
}

proof fn lemma_total_mono(es: Seq<CatalogEntry>, k: int)
    requires
        0 <= k <= es.len(),
    ensures
        0 <= total_bytes(es, k) <= total_bytes(es, es.len() as int),
    decreases es.len() - k,
{
    if k < es.len() {
        lemma_total_mono(es, k + 1);
    }
    lemma_total_nonneg(es, k);
}

proof fn lemma_total_nonneg(es: Seq<CatalogEntry>, k: int)
    ensures
        0 <= total_bytes(es, k),
    decreases k,
{
    if k > 0 && k <= es.len() {
        lemma_total_nonneg(es, k - 1);
    }
}

/// What a resolution reports about the selected marks `sel`.
pub open spec fn resolution_ok(res: Resolution, c: Catalog, task: Seq<char>, sel: Map<Seq<char>, Mark>) -> bool {
    let es = c.entries@;
    let ss = res.selected@.map_values(|x: ResolvedEntry| x.selector@);
    let corpus = total_bytes(es, es.len() as int);
    let chosen = chosen_bytes(es, sel.dom(), es.len() as int);
    &&& res.schema@ == "skillleaf.resolution.v1"@
    &&& res.catalog_sha256@ == c.catalog_sha256@
    &&& res.task@ == task
    &&& sorted_strict(ss)
    &&& ss.to_set() == sel.dom()
    &&& forall|i: int| 0 <= i < res.selected@.len() ==> {
        let x = #[trigger] res.selected@[i];
        let e = entry_for(es, x.selector@);
        &&& x.description@ == e.description@
        &&& x.content_sha256@ == e.content_sha256@
        &&& x.bytes == e.bytes
        &&& x.trust == e.trust
        &&& is_strset(x.reasons@)
        &&& text_set(x.reasons@) == sel[x.selector@].1
    }
    &&& res.corpus_bytes == corpus
    &&& res.selected_bytes == chosen
    &&& res.avoided_bytes == (if corpus >= chosen {
        corpus - chosen
    } else {
        0
    })
    &&& res.estimated_tokens_avoided == res.avoided_bytes / 4
}

proof fn lemma_scored_dom(es: Seq<CatalogEntry>, ts: Seq<Seq<char>>, k: int)
    ensures
        forall|x: Seq<char>| #[trigger] scored_map(es, ts, k).dom().contains(x) ==> in_catalog(es, x),
    decreases k,
{
    if k > 0 && k <= es.len() {
        lemma_scored_dom(es, ts, k - 1);
        let s = selector_of(es[k - 1]);
        lemma_in_catalog(es, s);
        assert(in_catalog(es, s)) by {
            assert(0 <= k - 1 < es.len() && selector_of(es[k - 1]) == s);
        }
        assert forall|x: Seq<char>| #[trigger] scored_map(es, ts, k).dom().contains(x) implies in_catalog(es, x) by {
            if x != s {
                assert(scored_map(es, ts, k - 1).dom().contains(x));
            }
        }
    }
}

proof fn lemma_required_dom(m: Map<Seq<char>, Mark>, es: Seq<CatalogEntry>, rs: Seq<Seq<char>>, k: int)
    requires
        forall|x: Seq<char>| #[trigger] m.dom().contains(x) ==> in_catalog(es, x),
        first_missing(es, rs, 0) is None,
    ensures
        forall|x: Seq<char>| #[trigger] with_required(m, es, rs, k).dom().contains(x) ==> in_catalog(es, x),
    decreases k,
{
    if k > 0 && k <= rs.len() {
        lemma_required_dom(m, es, rs, k - 1);
        lemma_first_missing_none(es, rs, 0, k - 1);
        assert forall|x: Seq<char>| #[trigger] with_required(m, es, rs, k).dom().contains(x) implies in_catalog(es, x) by {
            if x != rs[k - 1] {
                assert(with_required(m, es, rs, k - 1).dom().contains(x));
            }
        }
    }
}

proof fn lemma_first_missing_none(es: Seq<CatalogEntry>, rs: Seq<Seq<char>>, from: int, j: int)
    requires
        0 <= from <= j < rs.len(),
        first_missing(es, rs, from) is None,
    ensures
        in_catalog(es, rs[j]),
    decreases j - from,
{
    if from < j {
        lemma_first_missing_none(es, rs, from + 1, j);
    }
}

/// Whether a vector of scored selectors holds a selector.
fn has_key(v: &Vec<Scored>, s: &str) -> (r: bool)
    ensures
        r == as_map(v@).dom().contains(s@),
{
    let mut i: usize = 0;
    while i < v.len()
        invariant
            i <= v.len(),
            forall|j: int| 0 <= j < i ==> (#[trigger] v@[j]).selector@ != s@,
        decreases v.len() - i,
    {
        if same_text(v[i].selector.as_str(), s) {
            return true;
        }
        i += 1;
    }
    false
}

/// Selects the skills and commands that match a task (or are required), keeps
/// the best `max(limit, required.len())` of them and adds their dependency closure.
pub fn resolve(catalog: &Catalog, task: &str, required: &Vec<String>, limit: usize) -> (r: SkillleafResult<Resolution>)
    requires
        first_missing(catalog.entries@, views(required@), 0) is None && !broken(
            catalog.entries@,
            kept_map(catalog.entries@, task@, views(required@), limit as nat).dom(),
        ) ==> total_bytes(catalog.entries@, catalog.entries@.len() as int) <= u64::MAX,
    ensures
        match first_missing(catalog.entries@, views(required@), 0) {
            Some(k) => r matches Err(SkillleafError::Resolution(msg)) && msg@ == "required selector is not in the catalog: "@ + views(required@)[k],
            None => {
                let km = kept_map(catalog.entries@, task@, views(required@), limit as nat);
                if broken(catalog.entries@, km.dom()) {
                    r matches Err(SkillleafError::Resolution(m)) && Some(m@) == first_refusal(
                        catalog.entries@,
                        crate::strset::ordered(km.dom()),
                        Set::empty(),
                    )
                } else {
                    r matches Ok(res) && resolution_ok(res, *catalog, task@, closed_map(catalog.entries@, km))
                }
            },
        },
{
    let entries = &catalog.entries;
    let ghost es = entries@;
    let ts = tokens(task);
    proof {
        lemma_token_seq(task@, ts@);
    }
    let mut v = score_entries(entries, &ts);
    let ghost m1 = as_map(v@);
    match add_required(&mut v, entries, required) {
        Err(msg) => {
            return Err(SkillleafError::Resolution(msg));
        },
        Ok(()) => {},
    }
    let l = if limit >= required.len() {
        limit
    } else {
        required.len()
    };
    let mut kept_v = keep_top(&v, l);
    let ghost km = as_map(kept_v@);
    proof {
        lemma_scored_dom(es, views(ts@), es.len() as int);
        lemma_required_dom(m1, es, views(required@), required.len() as int);
        assert(km == kept_map(es, task@, views(required@), limit as nat));
    }
    let ghost kv0 = kept_v@;
    match close_dependencies(entries, &mut kept_v) {
        Err(msg) => {
            proof {
                lemma_keys_ordered(kv0);
            }
            return Err(SkillleafError::Resolution(msg));
        },
        Ok(()) => {},
    }
    let ghost sel = as_map(kept_v@);
    proof {
        assert(total_bytes(es, es.len() as int) <= u64::MAX);
    }
    // totals
    let mut corpus: u64 = 0;
    let mut chosen: u64 = 0;
    let mut i: usize = 0;
    while i < entries.len()
        invariant
            i <= entries.len(),
            es == entries@,
            es == catalog.entries@,
            total_bytes(es, es.len() as int) <= u64::MAX,
            sel == as_map(kept_v@),
            corpus == total_bytes(es, i as int),
            chosen == chosen_bytes(es, sel.dom(), i as int),
        decreases entries.len() - i,
    {
        proof {
            lemma_bytes_bounds(es, sel.dom(), i + 1);
        }
        corpus = corpus + entries[i].bytes;
        let s = entries[i].selector();
        let here = match find_entry(entries, s.as_str()) {
            Some(j) => j == i,
            None => false,
        };
        if here && has_key(&kept_v, s.as_str()) {
            chosen = chosen + entries[i].bytes;
        }
        i += 1;
    }
    let avoided = corpus.saturating_sub(chosen);
    // the selected entries, in selector order
    let mut selected: Vec<ResolvedEntry> = Vec::new();
    let mut k: usize = 0;
    while k < kept_v.len()
        invariant
            k <= kept_v.len(),
            es == catalog.entries@,
            scored_ok(kept_v@),
            sel == as_map(kept_v@),
            forall|x: Seq<char>| #[trigger] sel.dom().contains(x) ==> in_catalog(es, x),
            selected@.len() == k,
            forall|j: int| 0 <= j < k ==> (#[trigger] selected@[j]).selector@ == kept_v@[j].selector@,
            forall|j: int| 0 <= j < k ==> {
                let x = #[trigger] selected@[j];
                let e = entry_for(es, x.selector@);
                &&& x.description@ == e.description@
                &&& x.content_sha256@ == e.content_sha256@
                &&& x.bytes == e.bytes
                &&& x.trust == e.trust
                &&& is_strset(x.reasons@)
                &&& text_set(x.reasons@) == sel[x.selector@].1
            },
        decreases kept_v.len() - k,
    {
        let c = &kept_v[k];
        proof {
            lemma_as_map_at(kept_v@, k as int);
        }
        let idx = find_entry(&catalog.entries, c.selector.as_str()).unwrap();
        let e = &catalog.entries[idx];
        let reasons = copy_strings(&c.reasons);
        selected.push(ResolvedEntry {
            selector: copy_string(&c.selector),
            description: copy_string(&e.description),
            content_sha256: copy_string(&e.content_sha256),
            bytes: e.bytes,
            trust: e.trust,
            reasons,
        });
        k += 1;
    }
    proof {
        let ss = selected@.map_values(|x: ResolvedEntry| x.selector@);
        assert(ss =~= keys(kept_v@));
        assert(ss.to_set() =~= sel.dom()) by {
            assert forall|y: Seq<char>| sel.dom().contains(y) implies ss.to_set().contains(y) by {
                let b = choose|b: int| 0 <= b < kept_v@.len() && (#[trigger] kept_v@[b]).selector@ == y;
                assert(ss[b] == y);
            }
            assert forall|y: Seq<char>| ss.to_set().contains(y) implies sel.dom().contains(y) by {
                let b = choose|b: int| 0 <= b < ss.len() && ss[b] == y;
                assert(kept_v@[b].selector@ == y);
            }
        }
    }
    Ok(Resolution {
        schema: crate::text::owned("skillleaf.resolution.v1"),
        catalog_sha256: copy_string(&catalog.catalog_sha256),
        task: crate::text::owned(task),
        selected,
        corpus_bytes: corpus,
        selected_bytes: chosen,
        avoided_bytes: avoided,
        estimated_tokens_avoided: avoided / 4,
    })
}

/// The selectors of an ordered vector of scored selectors list its domain in order.
proof fn lemma_keys_ordered(v: Seq<Scored>)
    requires
        scored_ok(v),
    ensures
        keys(v) == crate::strset::ordered(as_map(v).dom()),
{
    let k = keys(v);
    assert(k.to_set() =~= as_map(v).dom()) by {
        assert forall|x: Seq<char>| k.to_set().contains(x) <==> as_map(v).dom().contains(x) by {
            if k.to_set().contains(x) {
                let i = choose|i: int| 0 <= i < k.len() && k[i] == x;
                assert(v[i].selector@ == x);
            }
            if as_map(v).dom().contains(x) {
                let i = choose|i: int| 0 <= i < v.len() && (#[trigger] v[i]).selector@ == x;
                assert(k[i] == x);
            }
        }
    }
    let q = crate::strset::ordered(as_map(v).dom());
    assert(sorted_strict(q) && q.to_set() == as_map(v).dom());
    lemma_sorted_set_unique(k, q);
}

/// The tokens that [`tokens`] returns are the routing tokens in order.
proof fn lemma_token_seq(v: Seq<char>, out: Seq<String>)
    requires
        is_strset(out),
        text_set(out) == token_set(v),
    ensures
        views(out) == token_seq(v),
{
    let w = views(out);
    assert(sorted_strict(w) && w.to_set() == token_set(v));
    let t = token_seq(v);
    lemma_sorted_set_unique(w, t);
}


// ---------------------------------------------------------------------------
// Laws of a resolution
// ---------------------------------------------------------------------------
/// The dependency closure of a set of selectors holds the set, holds every
/// dependency of its members, and lies inside every set that does both.
pub proof fn lemma_closure_is_least_closed(es: Seq<CatalogEntry>, k: Set<Seq<char>>)
    ensures
        k.subset_of(closure(es, k)),
        closed_under(es, closure(es, k)),
        forall|s: Set<Seq<char>>| k.subset_of(s) && closed_under(es, s) ==> #[trigger] closure(es, k).subset_of(s),
{
    let c = closure(es, k);
    assert forall|x: Seq<char>| k.contains(x) implies c.contains(x) by {
        lemma_reachable_base(es, k, x);
    }
    assert forall|x: Seq<char>, d: Seq<char>|
        #![trigger c.contains(x), dep_views(entry_for(es, x)).contains(d)]
        c.contains(x) && in_catalog(es, x) && dep_views(entry_for(es, x)).contains(d) implies c.contains(d) by {
        lemma_reachable_dep(es, k, x, d);
    }
    assert forall|s: Set<Seq<char>>| k.subset_of(s) && closed_under(es, s) implies #[trigger] c.subset_of(s) by {
        assert forall|x: Seq<char>| c.contains(x) implies s.contains(x) by {
            assert(reachable(es, k, x));
        }
    }
}

/// Every selector of a successful resolution's selection that names an entry
/// has all its dependencies selected as well.
pub proof fn lemma_selection_closed(c: Catalog, task: Seq<char>, rs: Seq<Seq<char>>, limit: nat, res: Resolution)
    requires
        resolution_ok(res, c, task, closed_map(c.entries@, kept_map(c.entries@, task, rs, limit))),
    ensures
        forall|i: int, d: Seq<char>|
            0 <= i < res.selected@.len() && in_catalog(c.entries@, #[trigger] res.selected@[i].selector@)
                && #[trigger] dep_views(entry_for(c.entries@, res.selected@[i].selector@)).contains(d)
                ==> exists|j: int| 0 <= j < res.selected@.len() && #[trigger] res.selected@[j].selector@ == d,
{
    let es = c.entries@;
    let km = kept_map(es, task, rs, limit);
    let sel = closed_map(es, km);
    let ss = res.selected@.map_values(|x: ResolvedEntry| x.selector@);
    lemma_closure_is_least_closed(es, km.dom());
    assert(sel.dom() =~= closure(es, km.dom()));
    assert forall|i: int, d: Seq<char>|
        0 <= i < res.selected@.len() && in_catalog(es, #[trigger] res.selected@[i].selector@)
            && #[trigger] dep_views(entry_for(es, res.selected@[i].selector@)).contains(d)
            implies exists|j: int| 0 <= j < res.selected@.len() && #[trigger] res.selected@[j].selector@ == d by {
        let x = res.selected@[i].selector@;
        assert(ss[i] == x);
        assert(ss.to_set().contains(x));
        assert(closure(es, km.dom()).contains(x));
        assert(closure(es, km.dom()).contains(d));
        assert(ss.to_set().contains(d));
        let j = choose|j: int| 0 <= j < ss.len() && ss[j] == d;
        assert(res.selected@[j].selector@ == d);
    }
}

/// Every selector of a successful resolution names an entry of the
/// catalogue: the ranked selectors do, and a dependency that names no entry
/// would have refused the request.
pub proof fn lemma_selection_in_catalog(c: Catalog, task: Seq<char>, rs: Seq<Seq<char>>, limit: nat, res: Resolution)
    requires
        first_missing(c.entries@, rs, 0) is None,
        !broken(c.entries@, kept_map(c.entries@, task, rs, limit).dom()),
        resolution_ok(res, c, task, closed_map(c.entries@, kept_map(c.entries@, task, rs, limit))),
    ensures
        forall|i: int| 0 <= i < res.selected@.len() ==> in_catalog(c.entries@, #[trigger] res.selected@[i].selector@),
{
    let es = c.entries@;
    let ts = token_seq(task);
    let m0 = scored_map(es, ts, es.len() as int);
    lemma_scored_dom(es, ts, es.len() as int);
    lemma_required_dom(m0, es, rs, rs.len() as int);
    let km = kept_map(es, task, rs, limit);
    let k = km.dom();
    let cl = closure(es, k);
    lemma_closure_is_least_closed(es, k);
    let t = cl.filter(|x: Seq<char>| in_catalog(es, x));
    assert(k.subset_of(t)) by {
        assert forall|x: Seq<char>| k.contains(x) implies t.contains(x) by {
            assert(base_map(es, task, rs).dom().contains(x));
        }
    }
    assert(closed_under(es, t)) by {
        assert forall|x: Seq<char>, d: Seq<char>|
            #![trigger t.contains(x), dep_views(entry_for(es, x)).contains(d)]
            t.contains(x) && in_catalog(es, x) && dep_views(entry_for(es, x)).contains(d) implies t.contains(d) by {
            assert(cl.contains(x));
            assert(cl.contains(d));
            assert(in_catalog(es, d));
        }
    }
    assert(cl.subset_of(t));
    let sel = closed_map(es, km);
    assert(sel.dom() =~= cl);
    let ss = res.selected@.map_values(|x: ResolvedEntry| x.selector@);
    assert forall|i: int| 0 <= i < res.selected@.len() implies in_catalog(es, #[trigger] res.selected@[i].selector@) by {
        assert(ss[i] == res.selected@[i].selector@);
        assert(ss.to_set().contains(ss[i]));
        assert(t.contains(ss[i]));
    }
}

/// The sum of the sizes of resolved entries.
pub open spec fn resolved_bytes(v: Seq<ResolvedEntry>) -> int
    decreases v.len(),
{
    if v.len() == 0 {
        0
    } else {
        resolved_bytes(v.drop_last()) + v.last().bytes
    }
}

proof fn lemma_chosen_empty(es: Seq<CatalogEntry>, k: int)
    ensures
        chosen_bytes(es, Set::empty(), k) == 0,
    decreases k,
{
    if k > 0 && k <= es.len() {
        lemma_chosen_empty(es, k - 1);
    }
}

proof fn lemma_chosen_remove(es: Seq<CatalogEntry>, r: Set<Seq<char>>, x: Seq<char>, k: int)
    requires
        0 <= k <= es.len(),
    ensures
        chosen_bytes(es, r, k) == chosen_bytes(es, r.remove(x), k) + if r.contains(x) && in_catalog(es, x) && index_of(es, x) < k {
            entry_for(es, x).bytes as int
        } else {
            0
        },
    decreases k,
{
    lemma_in_catalog(es, x);
    if k > 0 {
        lemma_chosen_remove(es, r, x, k - 1);
    }
}

proof fn lemma_resolved_chosen(es: Seq<CatalogEntry>, v: Seq<ResolvedEntry>)
    requires
        v.map_values(|e: ResolvedEntry| e.selector@).no_duplicates(),
        forall|i: int| 0 <= i < v.len() ==> in_catalog(es, #[trigger] v[i].selector@) && v[i].bytes == entry_for(es, v[i].selector@).bytes,
    ensures
        resolved_bytes(v) == chosen_bytes(es, v.map_values(|e: ResolvedEntry| e.selector@).to_set(), es.len() as int),
    decreases v.len(),
{
    let ss = v.map_values(|e: ResolvedEntry| e.selector@);
    if v.len() == 0 {
        assert(ss.to_set() =~= Set::<Seq<char>>::empty());
        lemma_chosen_empty(es, es.len() as int);
    } else {
        let p = v.drop_last();
        let ps = p.map_values(|e: ResolvedEntry| e.selector@);
        let x = v.last().selector@;
        assert(ps =~= ss.drop_last());
        assert forall|i: int| 0 <= i < p.len() implies in_catalog(es, #[trigger] p[i].selector@) && p[i].bytes == entry_for(
            es,
            p[i].selector@,
        ).bytes by {
            assert(p[i] == v[i]);
        }
        assert(ps.no_duplicates()) by {
            assert forall|i: int, j: int| 0 <= i < ps.len() && 0 <= j < ps.len() && i != j implies ps[i] != ps[j] by {
                assert(ps[i] == ss[i] && ps[j] == ss[j]);
            }
        }
        lemma_resolved_chosen(es, p);
        assert(ss[ss.len() - 1] == x);
        assert(!ps.contains(x)) by {
            if ps.contains(x) {
                let i = choose|i: int| 0 <= i < ps.len() && ps[i] == x;
                assert(ss[i] == x);
            }
        }
        assert(ss.to_set().remove(x) =~= ps.to_set()) by {
            assert forall|y: Seq<char>| ss.to_set().remove(x).contains(y) <==> ps.to_set().contains(y) by {
                if ss.contains(y) && y != x {
                    let i = choose|i: int| 0 <= i < ss.len() && ss[i] == y;
                    assert(i != ss.len() - 1);
                    assert(ps[i] == y);
                }
                if ps.contains(y) {
                    let i = choose|i: int| 0 <= i < ps.len() && ps[i] == y;
                    assert(ss[i] == y);
                }
            }
        }
        assert(ss.to_set().contains(x));
        lemma_in_catalog(es, x);
        assert(in_catalog(es, v[v.len() - 1].selector@));
        lemma_chosen_remove(es, ss.to_set(), x, es.len() as int);
    }
}

/// The selected size of a successful resolution is the sum of the sizes of
/// the entries it selects.
pub proof fn lemma_selected_bytes(c: Catalog, task: Seq<char>, rs: Seq<Seq<char>>, limit: nat, res: Resolution)
    requires
        first_missing(c.entries@, rs, 0) is None,
        !broken(c.entries@, kept_map(c.entries@, task, rs, limit).dom()),
        resolution_ok(res, c, task, closed_map(c.entries@, kept_map(c.entries@, task, rs, limit))),
    ensures
        res.selected_bytes == resolved_bytes(res.selected@),
{
    let es = c.entries@;
    let v = res.selected@;
    let ss = v.map_values(|e: ResolvedEntry| e.selector@);
    lemma_selection_in_catalog(c, task, rs, limit, res);
    assert(ss.no_duplicates()) by {
        assert forall|i: int, j: int| 0 <= i < ss.len() && 0 <= j < ss.len() && i != j implies ss[i] != ss[j] by {
            if i < j {
                assert(lex_lt(ss[i], ss[j]));
            } else {
                assert(lex_lt(ss[j], ss[i]));
            }
            lemma_lex_irreflexive(ss[i]);
        }
    }
    assert forall|i: int| 0 <= i < v.len() implies in_catalog(es, #[trigger] v[i].selector@) && v[i].bytes == entry_for(
        es,
        v[i].selector@,
    ).bytes by {
        assert(in_catalog(es, res.selected@[i].selector@));
    }
    lemma_resolved_chosen(es, v);
}

proof fn lemma_scored_keeps(es: Seq<CatalogEntry>, ts: Seq<Seq<char>>, i: int, k: int)
    requires
        0 <= i < k <= es.len(),
        es[i].kind != EntryKind::Resource,
        es[i].trust != TrustLevel::Untrusted,
        score_of(es[i], ts, es).0 > 0,
    ensures
        scored_map(es, ts, k).contains_key(selector_of(es[i])),
    decreases k,
{
    if i < k - 1 {
        lemma_scored_keeps(es, ts, i, k - 1);
    }
}

proof fn lemma_required_keeps(m: Map<Seq<char>, Mark>, es: Seq<CatalogEntry>, rs: Seq<Seq<char>>, k: int, x: Seq<char>)
    requires
        m.contains_key(x),
    ensures
        with_required(m, es, rs, k).contains_key(x),
    decreases k,
{
    if k > 0 && k <= rs.len() {
        lemma_required_keeps(m, es, rs, k - 1, x);
    }
}

/// A trusted skill or command that a task reaches by one of its aliases is a
/// routing candidate for that task: its alias match gives it a positive
/// score, so it is ranked (and selected whenever it ranks within the limit).
pub proof fn lemma_alias_match_is_candidate(es: Seq<CatalogEntry>, task: Seq<char>, rs: Seq<Seq<char>>, i: int)
    requires
        token_seq(task).no_duplicates(),
        0 <= i < es.len(),
        es[i].kind != EntryKind::Resource,
        es[i].trust == TrustLevel::Trusted,
        token_seq(task).to_set().intersect(crate::routing::alias_tokens(es[i])).len() > 0,
        24 * token_seq(task).to_set().intersect(crate::routing::name_tokens(es[i])).len() + 20 * token_seq(task).to_set().intersect(
            crate::routing::alias_tokens(es[i]),
        ).len() + 2 * token_seq(task).to_set().intersect(crate::routing::description_tokens(es[i])).len() < 4294967296,
    ensures
        base_map(es, task, rs).contains_key(selector_of(es[i])),
{
    let ts = token_seq(task);
    crate::routing::lemma_exact_match_weights(es[i], ts, es);
    lemma_scored_keeps(es, ts, i, es.len() as int);
    lemma_required_keeps(scored_map(es, ts, es.len() as int), es, rs, rs.len() as int, selector_of(es[i]));
}

/// The entries' selectors are pairwise distinct.
pub open spec fn selectors_unique(es: Seq<CatalogEntry>) -> bool {
    forall|i: int, j: int| 0 <= i < j < es.len() ==> selector_of(#[trigger] es[i]) != selector_of(#[trigger] es[j])
}

/// Each selector that scoring marks is that of a trusted skill or command.
proof fn lemma_scored_trusted(es: Seq<CatalogEntry>, ts: Seq<Seq<char>>, k: int)
    ensures
        forall|x: Seq<char>| #[trigger] scored_map(es, ts, k).contains_key(x) ==> exists|i: int|
            0 <= i < es.len() && selector_of(#[trigger] es[i]) == x && es[i].trust != TrustLevel::Untrusted,
        forall|x: Seq<char>| #[trigger] scored_map(es, ts, k).contains_key(x) ==> scored_map(es, ts, k)[x].0 != u32::MAX,
    decreases k,
{
    if 0 < k <= es.len() {
        lemma_scored_trusted(es, ts, k - 1);
        let e = es[k - 1];
        let x: int = if score_of(e, ts, es).0 == 0 {
            0
        } else {
            let n = crate::routing::count_in(ts, crate::routing::name_tokens(e));
            let a = crate::routing::count_in(ts, crate::routing::alias_tokens(e));
            let d = crate::routing::count_in(ts, crate::routing::description_tokens(e));
            if n == 0 && a == 0 && crate::routing::typo_token(e, ts, es) is Some {
                8 + 2 * (d as int)
            } else {
                24 * (n as int) + 20 * (a as int) + 2 * (d as int)
            }
        };
        assert(x % 2 == 0);
        assert(score_of(e, ts, es).0 == crate::routing::wrap32(x));
        assert(x % 4294967296 != 4294967295) by {
            assert((x % 4294967296) % 2 == 0) by (nonlinear_arith)
                requires
                    x % 2 == 0,
            ;
        }
        let m = scored_map(es, ts, k - 1);
        let m2 = scored_map(es, ts, k);
        assert forall|y: Seq<char>| #[trigger] m2.contains_key(y) implies (exists|i: int|
            0 <= i < es.len() && selector_of(#[trigger] es[i]) == y && es[i].trust != TrustLevel::Untrusted) && m2[y].0 != u32::MAX by {
            if m2 != m && y == selector_of(e) {
                assert(selector_of(es[k - 1]) == y);
            } else {
                assert(m.contains_key(y));
            }
        }
    }
}

/// Each selector that the request marks with the highest score is required.
proof fn lemma_required_marks(m: Map<Seq<char>, Mark>, es: Seq<CatalogEntry>, rs: Seq<Seq<char>>, k: int)
    requires
        forall|x: Seq<char>| #[trigger] m.contains_key(x) ==> m[x].0 != u32::MAX,
        0 <= k <= rs.len(),
    ensures
        with_required(m, es, rs, k).dom() == m.dom().union(rs.take(k).to_set()),
        forall|x: Seq<char>| #[trigger] with_required(m, es, rs, k).contains_key(x) ==> (with_required(m, es, rs, k)[x].0
            == u32::MAX <==> rs.take(k).contains(x)),
    decreases k,
{
    if k > 0 {
        lemma_required_marks(m, es, rs, k - 1);
        assert forall|x: Seq<char>| rs.take(k).contains(x) <==> (rs.take(k - 1).contains(x) || x == rs[k - 1]) by {
            if rs.take(k).contains(x) {
                let j = choose|j: int| 0 <= j < k && #[trigger] rs.take(k)[j] == x;
                if j < k - 1 {
                    assert(rs.take(k - 1)[j] == x);
                }
            }
            if rs.take(k - 1).contains(x) {
                let j = choose|j: int| 0 <= j < k - 1 && #[trigger] rs.take(k - 1)[j] == x;
                assert(rs.take(k)[j] == x);
            }
            if x == rs[k - 1] {
                assert(rs.take(k)[k - 1] == x);
            }
        }
        assert(rs.take(k).to_set() =~= rs.take(k - 1).to_set().insert(rs[k - 1]));
    } else {
        assert(rs.take(0).to_set() =~= Set::<Seq<char>>::empty());
    }
}

/// Every explicitly required selector is selected: it survives the limit,
/// and the closure keeps it.
pub proof fn lemma_required_selected(c: Catalog, task: Seq<char>, rs: Seq<Seq<char>>, limit: nat, res: Resolution, x: Seq<char>)
    requires
        resolution_ok(res, c, task, closed_map(c.entries@, kept_map(c.entries@, task, rs, limit))),
        rs.contains(x),
    ensures
        exists|j: int| 0 <= j < res.selected@.len() && #[trigger] res.selected@[j].selector@ == x,
{
    let es = c.entries@;
    let ts = token_seq(task);
    let m0 = scored_map(es, ts, es.len() as int);
    let m = base_map(es, task, rs);
    let l: nat = if limit >= rs.len() {
        limit
    } else {
        rs.len()
    };
    lemma_scored_trusted(es, ts, es.len() as int);
    lemma_required_marks(m0, es, rs, rs.len() as int);
    assert(rs.take(rs.len() as int) =~= rs);
    assert(m.contains_key(x));
    assert(m[x].0 == u32::MAX);
    let before = Set::new(|y: Seq<char>| m.dom().contains(y) && ranks_before(m, y, x));
    let req = rs.to_set().remove(x);
    assert(before.subset_of(req)) by {
        assert forall|y: Seq<char>| before.contains(y) implies req.contains(y) by {
            assert(m[y].0 == u32::MAX);
            crate::text::lemma_lex_irreflexive(x);
        }
    }
    vstd::seq_lib::seq_to_set_is_finite(rs);
    rs.lemma_cardinality_of_set();
    vstd::set_lib::lemma_len_subset(before, req);
    assert(rs.to_set().contains(x));
    assert(rank_of(m, x) < l);
    let km = kept_map(es, task, rs, limit);
    assert(km.contains_key(x));
    lemma_closure_is_least_closed(es, km.dom());
    let sel = closed_map(es, km);
    assert(sel.dom().contains(x));
    let ss = res.selected@.map_values(|e: ResolvedEntry| e.selector@);
    assert(ss.to_set().contains(x));
    let j = choose|j: int| 0 <= j < ss.len() && ss[j] == x;
    assert(res.selected@[j].selector@ == x);
}

proof fn lemma_first_missing_some(es: Seq<CatalogEntry>, rs: Seq<Seq<char>>, from: int, j: int)
    requires
        0 <= from <= j < rs.len(),
        !in_catalog(es, rs[j]),
    ensures
        first_missing(es, rs, from) matches Some(k) && from <= k <= j && !in_catalog(es, rs[k]),
    decreases j - from,
{
    if from < j && in_catalog(es, rs[from]) {
        lemma_first_missing_some(es, rs, from + 1, j);
    }
}

/// A request that requires a selector naming no entry of the catalogue is
/// refused: some required selector that names no entry is the first missing
/// one, which `resolve` reports.
pub proof fn lemma_missing_required_refused(es: Seq<CatalogEntry>, rs: Seq<Seq<char>>, x: Seq<char>)
    requires
        rs.contains(x),
        !in_catalog(es, x),
    ensures
        first_missing(es, rs, 0) matches Some(k) && 0 <= k < rs.len() && !in_catalog(es, rs[k]),
{
    let j = choose|j: int| 0 <= j < rs.len() && rs[j] == x;
    lemma_first_missing_some(es, rs, 0, j);
}

proof fn lemma_first_missing_all_present(es: Seq<CatalogEntry>, rs: Seq<Seq<char>>, from: int)
    requires
        0 <= from,
        forall|j: int| 0 <= j < rs.len() ==> in_catalog(es, #[trigger] rs[j]),
    ensures
        first_missing(es, rs, from) is None,
    decreases rs.len() - from,
{
    if from < rs.len() {
        lemma_first_missing_all_present(es, rs, from + 1);
    }
}

/// A request whose required selectors all name entries, in a catalogue where
/// every dependency of every entry names an entry, is neither refused for a
/// missing required selector nor for a broken dependency: `resolve` answers
/// it with a resolution.
pub proof fn lemma_resolvable_request_succeeds(es: Seq<CatalogEntry>, task: Seq<char>, rs: Seq<Seq<char>>, limit: nat)
    requires
        forall|j: int| 0 <= j < rs.len() ==> in_catalog(es, #[trigger] rs[j]),
        forall|i: int, d: Seq<char>| 0 <= i < es.len() && #[trigger] dep_views(es[i]).contains(d) ==> in_catalog(es, d),
    ensures
        first_missing(es, rs, 0) is None,
        !broken(es, kept_map(es, task, rs, limit).dom()),
{
    lemma_first_missing_all_present(es, rs, 0);
    let k = kept_map(es, task, rs, limit).dom();
    assert forall|x: Seq<char>, d: Seq<char>|
        closure(es, k).contains(x) && in_catalog(es, x) && dep_views(entry_for(es, x)).contains(d) implies in_catalog(es, d) by {
        lemma_in_catalog(es, x);
        let i = index_of(es, x);
        assert(dep_views(es[i]).contains(d));
    }
}

/// In a catalogue whose selectors are distinct, an untrusted entry is ranked
/// (and so selected other than as a dependency) only when it is required.
pub proof fn lemma_untrusted_only_on_request(es: Seq<CatalogEntry>, task: Seq<char>, rs: Seq<Seq<char>>, limit: nat, x: Seq<char>)
    requires
        selectors_unique(es),
        kept_map(es, task, rs, limit).contains_key(x),
        in_catalog(es, x),
        entry_for(es, x).trust == TrustLevel::Untrusted,
    ensures
        rs.contains(x),
{
    let ts = token_seq(task);
    let m0 = scored_map(es, ts, es.len() as int);
    lemma_scored_trusted(es, ts, es.len() as int);
    lemma_required_marks(m0, es, rs, rs.len() as int);
    assert(rs.take(rs.len() as int) =~= rs);
    if !rs.contains(x) {
        assert(m0.contains_key(x));
        let i = choose|i: int| 0 <= i < es.len() && selector_of(#[trigger] es[i]) == x && es[i].trust != TrustLevel::Untrusted;
        lemma_in_catalog(es, x);
        let j = index_of(es, x);
        if i < j {
            assert(selector_of(es[i]) != selector_of(es[j]));
        } else if j < i {
            assert(selector_of(es[j]) != selector_of(es[i]));
        }
    }
}


/// A selector that ranks before a kept selector is kept too.
pub proof fn lemma_higher_rank_kept(m: Map<Seq<char>, Mark>, x: Seq<char>, y: Seq<char>, l: nat)
    requires
        m.dom().finite(),
        m.dom().contains(x),
        ranks_before(m, x, y),
        kept(m, l).contains(y),
    ensures
        kept(m, l).contains(x),
{
    let a = Set::new(|z: Seq<char>| m.dom().contains(z) && ranks_before(m, z, x));
    let b = Set::new(|z: Seq<char>| m.dom().contains(z) && ranks_before(m, z, y));
    assert(a.subset_of(b.remove(x))) by {
        assert forall|z: Seq<char>| a.contains(z) implies b.remove(x).contains(z) by {
            if lex_lt(z, x) && lex_lt(x, y) {
                crate::text::lemma_lex_transitive(z, x, y);
            }
            if z == x {
                lemma_lex_irreflexive(x);
            }
        }
    }
    vstd::set_lib::lemma_len_subset(b, m.dom());
    vstd::set_lib::lemma_len_subset(a, b.remove(x));
    assert(b.contains(x));
}

proof fn lemma_scored_finite(es: Seq<CatalogEntry>, ts: Seq<Seq<char>>, k: int)
    ensures
        scored_map(es, ts, k).dom().finite(),
    decreases k,
{
    if 0 < k <= es.len() {
        lemma_scored_finite(es, ts, k - 1);
    }
}

/// Exact matches outrank typo recovery: when a selector that matched a task
/// only through typo recovery (and was not required) is ranked among those
/// kept, so is every selector whose match is not a typo recovery (an exact
/// name, alias or description match, or a required selector).
pub proof fn lemma_exact_match_outranks_typo(
    es: Seq<CatalogEntry>,
    task: Seq<char>,
    rs: Seq<Seq<char>>,
    limit: nat,
    x: Seq<char>,
    y: Seq<char>,
)
    requires
        base_map(es, task, rs).contains_key(x),
        !typo_recovered(base_map(es, task, rs)[x]),
        typo_recovered(base_map(es, task, rs)[y]),
        base_map(es, task, rs)[y].0 != u32::MAX,
        kept_map(es, task, rs, limit).contains_key(y),
    ensures
        kept_map(es, task, rs, limit).contains_key(x),
{
    let ts = token_seq(task);
    let m0 = scored_map(es, ts, es.len() as int);
    let m = base_map(es, task, rs);
    let l: nat = if limit >= rs.len() {
        limit
    } else {
        rs.len()
    };
    lemma_scored_trusted(es, ts, es.len() as int);
    lemma_scored_finite(es, ts, es.len() as int);
    lemma_required_marks(m0, es, rs, rs.len() as int);
    vstd::seq_lib::seq_to_set_is_finite(rs.take(rs.len() as int));
    assert(m.dom().finite());
    lemma_higher_rank_kept(m, x, y, l);
}

} // verus!
