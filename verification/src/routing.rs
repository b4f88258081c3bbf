//! Deterministic lexical routing: tokens, scores, aliases and typo recovery.
use vstd::prelude::*;

use crate::catalog::{selector_of, CatalogEntry, EntryKind};
use crate::security::TrustLevel;
use crate::strset::{
    copy_string, is_strset, lemma_strset_len, strs_contain, strset_extend, strset_insert,
    strset_new, text_set, views,
};
use crate::frontmatter::join_sep;
use crate::strset::sorted_strict;
use crate::text::{
    chars_of, concat2, concat3, is_alnum, is_alnum_char, lower, lower_char, owned, same_chars, split_words,
    string_of, words,
};

verus! {

// ---------------------------------------------------------------------------
// Tokens
// ---------------------------------------------------------------------------
/// Words that never route on their own.
pub open spec fn is_stop(w: Seq<char>) -> bool {
    w == "about"@ || w == "agent"@ || w == "and"@ || w == "for"@ || w == "from"@ || w == "into"@
        || w == "skill"@ || w == "skills"@ || w == "the"@ || w == "this"@ || w == "use"@
        || w == "when"@ || w == "with"@
}

/// A word that counts as a routing token.
pub open spec fn keep_token(w: Seq<char>) -> bool {
    w.len() >= 3 && !is_stop(w)
}

/// Letters and digits lowered; every other character becomes a space.
pub open spec fn token_chars(v: Seq<char>) -> Seq<char> {
    v.map_values(|c: char| if is_alnum(c) { lower(c) } else { ' ' })
}

/// The routing tokens of a text.
pub open spec fn token_set(v: Seq<char>) -> Set<Seq<char>> {
    Set::new(|w: Seq<char>| words(token_chars(v)).contains(w) && keep_token(w))
}

fn is_stop_word(w: &[char]) -> (b: bool)
    ensures
        b == is_stop(w@),
{
    let stops: [&str; 13] = [
        "about",
        "agent",
        "and",
        "for",
        "from",
        "into",
        "skill",
        "skills",
        "the",
        "this",
        "use",
        "when",
        "with",
    ];
    let mut i: usize = 0;
    while i < 13
        invariant
            i <= 13,
            stops@ == seq![
                "about",
                "agent",
                "and",
                "for",
                "from",
                "into",
                "skill",
                "skills",
                "the",
                "this",
                "use",
                "when",
                "with",
            ],
            forall|k: int| 0 <= k < i ==> w@ != (#[trigger] stops@[k])@,
        decreases 13 - i,
    {
        let s = chars_of(stops[i]);
        if same_chars(w, s.as_slice()) {
            return true;
        }
        i += 1;
    }
    proof {
        assert(w@ != stops@[0]@);
        assert(w@ != stops@[1]@);
        assert(w@ != stops@[2]@);
        assert(w@ != stops@[3]@);
        assert(w@ != stops@[4]@);
        assert(w@ != stops@[5]@);
        assert(w@ != stops@[6]@);
        assert(w@ != stops@[7]@);
        assert(w@ != stops@[8]@);
        assert(w@ != stops@[9]@);
        assert(w@ != stops@[10]@);
        assert(w@ != stops@[11]@);
        assert(w@ != stops@[12]@);
    }
    false
}

/// The kept words among the first `k` words.
pub open spec fn kept_words(wv: Seq<Seq<char>>, k: int) -> Set<Seq<char>> {
    Set::new(|w: Seq<char>| wv.take(k).contains(w) && keep_token(w))
}

/// The routing tokens of a text, as an ordered set.
pub fn tokens(value: &str) -> (out: Vec<String>)
    ensures
        is_strset(out@),
        text_set(out@) == token_set(value@),
{
    let v = chars_of(value);
    let mut mapped: Vec<char> = Vec::new();
    let mut i: usize = 0;
    while i < v.len()
        invariant
            i <= v.len(),
            v@ == value@,
            mapped@ == token_chars(v@).take(i as int),
        decreases v.len() - i,
    {
        let c = v[i];
        let m = if is_alnum_char(c) {
            lower_char(c)
        } else {
            ' '
        };
        mapped.push(m);
        proof {
            assert(token_chars(v@).take(i + 1) =~= token_chars(v@).take(i as int).push(m));
        }
        i += 1;
    }
    proof {
        assert(token_chars(v@).take(v.len() as int) =~= token_chars(v@));
    }
    let ws = split_words(mapped.as_slice());
    let ghost wv = words(mapped@);
    let mut out = strset_new();
    proof {
        assert(kept_words(wv, 0) =~= Set::<Seq<char>>::empty());
    }
    let mut k: usize = 0;
    while k < ws.len()
        invariant
            k <= ws.len(),
            ws@.len() == wv.len(),
            forall|j: int| 0 <= j < ws@.len() ==> (#[trigger] ws@[j])@ == wv[j],
            is_strset(out@),
            text_set(out@) == kept_words(wv, k as int),
        decreases ws.len() - k,
    {
        let w = &ws[k];
        let keep = w.len() >= 3 && !is_stop_word(w.as_slice());
        proof {
            assert(w@ == wv[k as int]);
        }
        let ghost before = text_set(out@);
        if keep {
            strset_insert(&mut out, string_of(w.as_slice()));
        }
        proof {
            assert(wv.take(k + 1) =~= wv.take(k as int).push(wv[k as int]));
            assert(keep == keep_token(wv[k as int]));
            assert forall|x: Seq<char>|
                text_set(out@).contains(x) == kept_words(wv, k + 1).contains(x) by {
                if wv.take(k + 1).contains(x) {
                    let j = choose|j: int| 0 <= j < k + 1 && #[trigger] wv.take(k + 1)[j] == x;
                    if j < k {
                        assert(wv.take(k as int)[j] == x);
                    }
                }
                if wv.take(k as int).contains(x) {
                    let j = choose|j: int| 0 <= j < k && #[trigger] wv.take(k as int)[j] == x;
                    assert(wv.take(k + 1)[j] == x);
                }
                assert(wv.take(k + 1)[k as int] == wv[k as int]);
            }
            assert(text_set(out@) =~= kept_words(wv, k + 1));
        }
        k += 1;
    }
    proof {
        assert(wv.take(ws.len() as int) =~= wv);
        assert(text_set(out@) =~= token_set(value@));
    }
    out
}

// ---------------------------------------------------------------------------
// One edit
// ---------------------------------------------------------------------------
/// `a` with the characters at `i` and `i + 1` exchanged.
pub open spec fn swap_at(a: Seq<char>, i: int) -> Seq<char> {
    a.update(i, a[i + 1]).update(i + 1, a[i])
}

/// `a` and `b` are equal or one substitution, deletion, insertion or
/// exchange of adjacent characters apart.
pub open spec fn one_edit(a: Seq<char>, b: Seq<char>) -> bool {
    ||| a == b
    ||| (a.len() == b.len() && exists|i: int| 0 <= i < a.len() && #[trigger] a.update(i, b[i]) == b)
    ||| (a.len() == b.len() + 1 && exists|i: int| 0 <= i < a.len() && #[trigger] a.remove(i) == b)
    ||| (b.len() == a.len() + 1 && exists|i: int| 0 <= i < b.len() && #[trigger] b.remove(i) == a)
    ||| (a.len() == b.len() && exists|i: int|
        0 <= i && i + 1 < a.len() && #[trigger] swap_at(a, i) == b)
}

/// Whether `a[i..]` equals `b[j..]`.
fn same_suffix(a: &[char], i: usize, b: &[char], j: usize) -> (r: bool)
    requires
        i <= a.len(),
        j <= b.len(),
    ensures
        r == (a@.skip(i as int) == b@.skip(j as int)),
{
    if a.len() - i != b.len() - j {
        proof {
            assert(a@.skip(i as int).len() != b@.skip(j as int).len());
        }
        return false;
    }
    let mut k: usize = 0;
    while k < a.len() - i
        invariant
            i <= a.len(),
            j <= b.len(),
            a.len() - i == b.len() - j,
            k <= a.len() - i,
            forall|m: int| 0 <= m < k ==> #[trigger] a@.skip(i as int)[m] == b@.skip(j as int)[m],
        decreases a.len() - i - k,
    {
        if a[i + k] != b[j + k] {
            proof {
                assert(a@.skip(i as int)[k as int] != b@.skip(j as int)[k as int]);
            }
            return false;
        }
        k += 1;
    }
    proof {
        assert(a@.skip(i as int) =~= b@.skip(j as int));
    }
    true
}

/// Length of the common prefix of two slices.
fn common_prefix(a: &[char], b: &[char]) -> (p: usize)
    ensures
        p <= a.len(),
        p <= b.len(),
        forall|j: int| 0 <= j < p ==> a@[j] == b@[j],
        p < a.len() && p < b.len() ==> a@[p as int] != b@[p as int],
{
    let mut p: usize = 0;
    while p < a.len() && p < b.len() && a[p] == b[p]
        invariant
            p <= a.len(),
            p <= b.len(),
            forall|j: int| 0 <= j < p ==> a@[j] == b@[j],
        decreases a.len() - p,
    {
        p += 1;
    }
    p
}

/// Whether `b` is `a` with one character removed.
fn one_deletion(a: &[char], b: &[char]) -> (r: bool)
    requires
        a.len() == b.len() + 1,
    ensures
        r == exists|i: int| 0 <= i < a.len() && #[trigger] a@.remove(i) == b@,
{
    let p = common_prefix(a, b);
    let r = same_suffix(a, p + 1, b, p);
    if r {
        proof {
            assert(a@.remove(p as int) =~= b@);
        }
    } else {
        proof {
            assert forall|i: int| 0 <= i < a.len() implies #[trigger] a@.remove(i) != b@ by {
                if a@.remove(i) == b@ {
                    if i < p {
                        // a and b agree before p, so a[i + 1 ..= p] is a run of a[i]
                        assert forall|j: int| i <= j < p implies a@[j + 1] == #[trigger] a@[j] by {
                            assert(a@.remove(i)[j] == a@[j + 1]);
                        }
                        assert(a@.remove(p as int) =~= a@.remove(i)) by {
                            assert forall|k: int| 0 <= k < a@.len() - 1 implies a@.remove(
                                p as int,
                            )[k] == a@.remove(i)[k] by {
                                if i <= k < p {
                                    assert(a@[k + 1] == a@[k]);
                                }
                            }
                        }
                        assert(a@.skip(p + 1) =~= b@.skip(p as int)) by {
                            assert forall|k: int| 0 <= k < b@.len() - p implies #[trigger] a@.skip(p + 1)[k]
                                == b@.skip(p as int)[k] by {
                                assert(a@.remove(p as int)[p + k] == b@[p + k]);
                            }
                        }
                    } else if i > p {
                        assert(a@.remove(i)[p as int] == a@[p as int]);
                    } else {
                        assert(a@.skip(p + 1) =~= b@.skip(p as int)) by {
                            assert forall|k: int| 0 <= k < b@.len() - p implies #[trigger] a@.skip(p + 1)[k]
                                == b@.skip(p as int)[k] by {
                                assert(a@.remove(p as int)[p + k] == b@[p + k]);
                            }
                        }
                    }
                }
            }
        }
    }
    r
}

/// Whether two texts are at most one edit apart (see [`one_edit`]).
pub fn edit_distance_at_most_one(a: &[char], b: &[char]) -> (r: bool)
    ensures
        r == one_edit(a@, b@),
{
    if same_chars(a, b) {
        return true;
    }
    if a.len() > b.len() && a.len() - b.len() == 1 {
        return one_deletion(a, b);
    }
    if b.len() > a.len() && b.len() - a.len() == 1 {
        return one_deletion(b, a);
    }
    if a.len() != b.len() {
        return false;
    }
    let n = a.len();
    let p = common_prefix(a, b);
    if p == n {
        proof {
            assert(a@ =~= b@);
        }
        return true;
    }
    let swapped = p + 1 < n && a[p] == b[p + 1] && a[p + 1] == b[p];
    let r = if swapped {
        same_suffix(a, p + 2, b, p + 2)
    } else {
        same_suffix(a, p + 1, b, p + 1)
    };
    proof {
        if swapped && r {
            assert(swap_at(a@, p as int) =~= b@) by {
                assert forall|k: int| 0 <= k < n implies swap_at(a@, p as int)[k] == b@[k] by {
                    if k > p + 1 {
                        assert(a@.skip(p + 2)[k - p - 2] == b@.skip(p + 2)[k - p - 2]);
                    }
                }
            }
        }
        if !swapped && r {
            assert(a@.update(p as int, b@[p as int]) =~= b@) by {
                assert forall|k: int| 0 <= k < n implies a@.update(p as int, b@[p as int])[k]
                    == b@[k] by {
                    if k > p {
                        assert(a@.skip(p + 1)[k - p - 1] == b@.skip(p + 1)[k - p - 1]);
                    }
                }
            }
        }
        if !r {
            assert forall|i: int| 0 <= i < n implies #[trigger] a@.update(i, b@[i]) != b@ by {
                if a@.update(i, b@[i]) == b@ {
                    if i < p {
                        assert(a@.update(i, b@[i])[p as int] == a@[p as int]);
                    } else if i > p {
                        assert(a@.update(i, b@[i])[p as int] == a@[p as int]);
                    } else {
                        assert(a@.skip(p + 1) =~= b@.skip(p + 1)) by {
                            assert forall|k: int| 0 <= k < n - p - 1 implies #[trigger] a@.skip(p + 1)[k]
                                == b@.skip(p + 1)[k] by {
                                assert(a@.update(i, b@[i])[p + 1 + k] == b@[p + 1 + k]);
                            }
                        }
                        if swapped {
                            assert(a@.update(i, b@[i])[p + 1] == b@[p + 1]);
                        }
                    }
                }
            }
            assert forall|i: int| 0 <= i && i + 1 < n implies #[trigger] swap_at(a@, i) != b@ by {
                if swap_at(a@, i) == b@ {
                    if i < p {
                        if i + 1 < p {
                            assert(swap_at(a@, i)[i] == a@[i + 1]);
                            assert(swap_at(a@, i)[i + 1] == a@[i]);
                            // the exchanged characters are equal, so a == b
                            assert(a@ =~= b@) by {
                                assert forall|k: int| 0 <= k < n implies a@[k] == b@[k] by {
                                    assert(swap_at(a@, i)[k] == b@[k]);
                                }
                            }
                        } else {
                            assert(swap_at(a@, i)[i] == a@[i + 1]);
                            assert(swap_at(a@, i)[i + 1] == a@[i]);
                            assert(b@[i] == a@[i]);
                            assert(a@ =~= b@) by {
                                assert forall|k: int| 0 <= k < n implies a@[k] == b@[k] by {
                                    assert(swap_at(a@, i)[k] == b@[k]);
                                }
                            }
                        }
                    } else if i > p {
                        assert(swap_at(a@, i)[p as int] == a@[p as int]);
                    } else {
                        assert(swap_at(a@, i)[p as int] == a@[p + 1]);
                        assert(swap_at(a@, i)[p + 1] == a@[p as int]);
                        assert(swapped);
                        assert(a@.skip(p + 2) =~= b@.skip(p + 2)) by {
                            assert forall|k: int| 0 <= k < n - p - 2 implies #[trigger] a@.skip(p + 2)[k]
                                == b@.skip(p + 2)[k] by {
                                assert(swap_at(a@, i)[p + 2 + k] == b@[p + 2 + k]);
                            }
                        }
                    }
                }
            }
        }
    }
    r
}

// ---------------------------------------------------------------------------
// Scores and typo recovery
// ---------------------------------------------------------------------------
/// Tokens of an entry's name.
pub open spec fn name_tokens(e: CatalogEntry) -> Set<Seq<char>> {
    token_set(e.name@)
}

/// Tokens of an entry's aliases.
pub open spec fn alias_tokens(e: CatalogEntry) -> Set<Seq<char>> {
    Set::new(
        |w: Seq<char>|
            exists|i: int| 0 <= i < e.aliases@.len() && token_set((#[trigger] e.aliases@[i])@).contains(w),
    )
}

/// Tokens by which an entry can be reached through a typo.
pub open spec fn candidate_tokens(e: CatalogEntry) -> Set<Seq<char>> {
    name_tokens(e).union(alias_tokens(e))
}

/// Tokens of an entry's description.
pub open spec fn description_tokens(e: CatalogEntry) -> Set<Seq<char>> {
    token_set(e.description@)
}

/// A trusted skill or command.
pub open spec fn routable_trusted(e: CatalogEntry) -> bool {
    e.kind != EntryKind::Resource && e.trust == TrustLevel::Trusted
}

/// `t` is at most one edit away from some member of `s`.
pub open spec fn near(t: Seq<char>, s: Set<Seq<char>>) -> bool {
    exists|c: Seq<char>| s.contains(c) && #[trigger] one_edit(t, c)
}

/// Selectors of the trusted skills and commands that a token reaches by at most one edit.
pub open spec fn typo_matches(t: Seq<char>, es: Seq<CatalogEntry>) -> Set<Seq<char>> {
    Set::new(
        |s: Seq<char>|
            exists|i: int|
                0 <= i < es.len() && routable_trusted(#[trigger] es[i]) && selector_of(es[i]) == s
                    && near(t, candidate_tokens(es[i])),
    )
}

/// `t` reaches `e`, and no other trusted entry, by one edit.
pub open spec fn typo_hit(e: CatalogEntry, t: Seq<char>, es: Seq<CatalogEntry>) -> bool {
    t.len() >= 5 && near(t, candidate_tokens(e)) && typo_matches(t, es) == set![selector_of(e)]
}

/// The first task token from position `k` on that is a unique typo of `e`.
pub open spec fn typo_from(e: CatalogEntry, ts: Seq<Seq<char>>, es: Seq<CatalogEntry>, k: int) -> Option<
    Seq<char>,
>
    decreases ts.len() - k,
{
    if 0 <= k < ts.len() {
        if typo_hit(e, ts[k], es) {
            Some(ts[k])
        } else {
            typo_from(e, ts, es, k + 1)
        }
    } else {
        None
    }
}

/// The task token (in order) by which typo recovery reaches `e`, if any.
pub open spec fn typo_token(e: CatalogEntry, ts: Seq<Seq<char>>, es: Seq<CatalogEntry>) -> Option<
    Seq<char>,
> {
    typo_from(e, ts, es, 0)
}

/// The ordered-set union of the tokens of several texts.
fn tokens_of_all(v: &Vec<String>) -> (out: Vec<String>)
    ensures
        is_strset(out@),
        text_set(out@) == Set::new(
            |w: Seq<char>| exists|i: int| 0 <= i < v@.len() && token_set((#[trigger] v@[i])@).contains(w),
        ),
{
    let mut out = strset_new();
    let mut i: usize = 0;
    while i < v.len()
        invariant
            i <= v.len(),
            is_strset(out@),
            text_set(out@) == Set::new(
                |w: Seq<char>|
                    exists|j: int| 0 <= j < i && token_set((#[trigger] v@[j])@).contains(w),
            ),
        decreases v.len() - i,
    {
        let t = tokens(v[i].as_str());
        let ghost before = text_set(out@);
        strset_extend(&mut out, &t);
        proof {
            assert(text_set(out@) =~= Set::new(
                |w: Seq<char>|
                    exists|j: int| 0 <= j < i + 1 && token_set((#[trigger] v@[j])@).contains(w),
            )) by {
                assert forall|w: Seq<char>|
                    (exists|j: int| 0 <= j < i + 1 && token_set((#[trigger] v@[j])@).contains(w))
                    implies text_set(out@).contains(w) by {
                    let j = choose|j: int| 0 <= j < i + 1 && token_set((#[trigger] v@[j])@).contains(w);
                    if j == i {
                        assert(text_set(t@).contains(w));
                    } else {
                        assert(before.contains(w));
                    }
                }
            }
        }
        i += 1;
    }
    out
}

/// Tokens by which an entry can be reached through a typo, as an ordered set.
fn candidate_token_set(e: &CatalogEntry) -> (out: Vec<String>)
    ensures
        is_strset(out@),
        text_set(out@) == candidate_tokens(*e),
{
    let mut out = tokens(e.name.as_str());
    let a = tokens_of_all(&e.aliases);
    strset_extend(&mut out, &a);
    proof {
        assert(text_set(a@) =~= alias_tokens(*e));
    }
    out
}

/// Whether `t` is at most one edit away from a member of the ordered set `s`.
fn near_member(t: &[char], s: &Vec<String>) -> (r: bool)
    ensures
        r == near(t@, text_set(s@)),
{
    let mut i: usize = 0;
    while i < s.len()
        invariant
            i <= s.len(),
            forall|j: int| 0 <= j < i ==> !one_edit(t@, (#[trigger] s@[j])@),
        decreases s.len() - i,
    {
        let c = chars_of(s[i].as_str());
        if edit_distance_at_most_one(t, c.as_slice()) {
            proof {
                assert(views(s@)[i as int] == s@[i as int]@);
                assert(text_set(s@).contains(s@[i as int]@));
            }
            return true;
        }
        i += 1;
    }
    proof {
        assert forall|c: Seq<char>| text_set(s@).contains(c) implies !#[trigger] one_edit(t@, c) by {
            let j = choose|j: int| 0 <= j < views(s@).len() && views(s@)[j] == c;
            assert(s@[j]@ == c);
        }
    }
    false
}

/// A one-member set is the singleton of its member.
proof fn lemma_singleton(s: Set<Seq<char>>, a: Seq<char>)
    requires
        s.finite(),
    ensures
        (s.len() == 1 && s.contains(a)) <==> s == set![a],
{
    if s.len() == 1 && s.contains(a) {
        vstd::set::axiom_set_remove_len(s, a);
        vstd::set_lib::lemma_set_empty_equivalency_len(s.remove(a));
        assert(s.remove(a).len() == 0);
        assert(s.remove(a) =~= Set::<Seq<char>>::empty());
        assert forall|x: Seq<char>| s.contains(x) implies x == a by {
            if x != a {
                assert(s.remove(a).contains(x));
            }
        }
        assert(s =~= set![a]);
    }
    if s == set![a] {
        assert(set![a].len() == 1) by {
            vstd::set::axiom_set_insert_len(Set::<Seq<char>>::empty(), a);
            broadcast use vstd::set::axiom_set_empty_len;
        }
    }
}

/// The first task token that reaches `entry`, and no other trusted skill or
/// command, by one edit.
pub fn unique_typo_token(entry: &CatalogEntry, task_tokens: &Vec<String>, entries: &Vec<CatalogEntry>) -> (r:
    Option<String>)
    ensures
        match r {
            Some(t) => typo_token(*entry, views(task_tokens@), entries@) == Some(t@),
            None => typo_token(*entry, views(task_tokens@), entries@) is None,
        },
{
    let ghost ts = views(task_tokens@);
    let candidates = candidate_token_set(entry);
    let own = entry.selector();
    let mut k: usize = 0;
    while k < task_tokens.len()
        invariant
            k <= task_tokens.len(),
            ts == views(task_tokens@),
            text_set(candidates@) == candidate_tokens(*entry),
            own@ == selector_of(*entry),
            typo_from(*entry, ts, entries@, k as int) == typo_from(*entry, ts, entries@, 0),
        decreases task_tokens.len() - k,
    {
        let t = chars_of(task_tokens[k].as_str());
        proof {
            assert(ts[k as int] == t@);
        }
        if t.len() >= 5 && near_member(t.as_slice(), &candidates) {
            let mut matching = strset_new();
            let mut i: usize = 0;
            while i < entries.len()
                invariant
                    i <= entries.len(),
                    is_strset(matching@),
                    text_set(matching@) == Set::new(
                        |s: Seq<char>|
                            exists|j: int|
                                0 <= j < i && routable_trusted(#[trigger] entries@[j])
                                    && selector_of(entries@[j]) == s && near(
                                    t@,
                                    candidate_tokens(entries@[j]),
                                ),
                    ),
                decreases entries.len() - i,
            {
                let x = &entries[i];
                let ghost before = text_set(matching@);
                if x.kind != EntryKind::Resource && x.trust == TrustLevel::Trusted {
                    let xc = candidate_token_set(x);
                    if near_member(t.as_slice(), &xc) {
                        strset_insert(&mut matching, x.selector());
                    }
                }
                proof {
                    assert(text_set(matching@) =~= Set::new(
                        |s: Seq<char>|
                            exists|j: int|
                                0 <= j < i + 1 && routable_trusted(#[trigger] entries@[j])
                                    && selector_of(entries@[j]) == s && near(
                                    t@,
                                    candidate_tokens(entries@[j]),
                                ),
                    )) by {
                        assert forall|s: Seq<char>|
                            (exists|j: int|
                                0 <= j < i + 1 && routable_trusted(#[trigger] entries@[j])
                                    && selector_of(entries@[j]) == s && near(
                                    t@,
                                    candidate_tokens(entries@[j]),
                                )) implies text_set(matching@).contains(s) by {
                            let j = choose|j: int|
                                0 <= j < i + 1 && routable_trusted(#[trigger] entries@[j])
                                    && selector_of(entries@[j]) == s && near(
                                    t@,
                                    candidate_tokens(entries@[j]),
                                );
                            if j < i {
                                assert(before.contains(s));
                            }
                        }
                    }
                }
                i += 1;
            }
            proof {
                assert(text_set(matching@) =~= typo_matches(t@, entries@));
                lemma_strset_len(matching@);
                lemma_singleton(text_set(matching@), own@);
            }
            if matching.len() == 1 && strs_contain(&matching, own.as_str()) {
                return Some(copy_string(&task_tokens[k]));
            }
        }
        k += 1;
    }
    None
}

/// How many of the texts `ts` belong to `s`.
pub open spec fn count_in(ts: Seq<Seq<char>>, s: Set<Seq<char>>) -> nat
    decreases ts.len(),
{
    if ts.len() == 0 {
        0
    } else {
        count_in(ts.drop_last(), s) + if s.contains(ts.last()) {
            1nat
        } else {
            0nat
        }
    }
}

proof fn lemma_count_in_bound(ts: Seq<Seq<char>>, s: Set<Seq<char>>)
    ensures
        count_in(ts, s) <= ts.len(),
    decreases ts.len(),
{
    if ts.len() > 0 {
        lemma_count_in_bound(ts.drop_last(), s);
    }
}

/// How many members of `ts` belong to the ordered set `s`.
fn count_members(ts: &Vec<String>, s: &Vec<String>) -> (r: usize)
    ensures
        r == count_in(views(ts@), text_set(s@)),
{
    let ghost tv = views(ts@);
    let mut r: usize = 0;
    let mut i: usize = 0;
    while i < ts.len()
        invariant
            i <= ts.len(),
            tv == views(ts@),
            r == count_in(tv.take(i as int), text_set(s@)),
            r <= i,
        decreases ts.len() - i,
    {
        proof {
            assert(tv.take(i + 1).drop_last() =~= tv.take(i as int));
            assert(tv.take(i + 1).last() == ts@[i as int]@);
        }
        if strs_contain(s, ts[i].as_str()) {
            r += 1;
        }
        i += 1;
    }
    proof {
        assert(tv.take(ts.len() as int) =~= tv);
    }
    r
}

/// Over task tokens without repeats (as `tokens` gives them), the count of
/// tokens found in a set is the size of the overlap of the two sets.
pub proof fn lemma_count_in_is_overlap(ts: Seq<Seq<char>>, s: Set<Seq<char>>)
    requires
        ts.no_duplicates(),
    ensures
        ts.to_set().intersect(s).finite(),
        count_in(ts, s) == ts.to_set().intersect(s).len(),
    decreases ts.len(),
{
    vstd::seq_lib::seq_to_set_is_finite(ts);
    if ts.len() == 0 {
        assert(ts.to_set().intersect(s) =~= Set::<Seq<char>>::empty());
    } else {
        let p = ts.drop_last();
        let l = ts.last();
        assert(p.no_duplicates()) by {
            assert forall|i: int, j: int| 0 <= i < p.len() && 0 <= j < p.len() && i != j implies p[i] != p[j] by {
                assert(p[i] == ts[i] && p[j] == ts[j]);
            }
        }
        lemma_count_in_is_overlap(p, s);
        assert(!p.contains(l)) by {
            if p.contains(l) {
                let i = choose|i: int| 0 <= i < p.len() && p[i] == l;
                assert(ts[i] == l && ts[ts.len() - 1] == l);
            }
        }
        let a = p.to_set().intersect(s);
        assert(!a.contains(l));
        assert forall|y: Seq<char>| ts.to_set().contains(y) <==> (p.to_set().contains(y) || y == l) by {
            if ts.contains(y) {
                let i = choose|i: int| 0 <= i < ts.len() && ts[i] == y;
                if i < ts.len() - 1 {
                    assert(p[i] == y);
                }
            }
            if p.contains(y) {
                let i = choose|i: int| 0 <= i < p.len() && p[i] == y;
                assert(ts[i] == y);
            }
            if y == l {
                assert(ts[ts.len() - 1] == y);
            }
        }
        if s.contains(l) {
            assert(ts.to_set().intersect(s) =~= a.insert(l));
        } else {
            assert(ts.to_set().intersect(s) =~= a);
        }
    }
}

/// An exact match weighs 24 for each task token among the entry's name
/// tokens, 20 for each among its alias tokens and 2 for each among its
/// description tokens: once a task token is a name or alias token of an
/// entry, its score is that weighted overlap (so an entry reached only by an
/// alias scores at least 20) and its reasons say which kinds matched.
pub proof fn lemma_exact_match_weights(e: CatalogEntry, ts: Seq<Seq<char>>, es: Seq<CatalogEntry>)
    requires
        ts.no_duplicates(),
        ts.to_set().intersect(name_tokens(e)).len() + ts.to_set().intersect(alias_tokens(e)).len() > 0,
        24 * ts.to_set().intersect(name_tokens(e)).len() + 20 * ts.to_set().intersect(alias_tokens(e)).len() + 2
            * ts.to_set().intersect(description_tokens(e)).len() < 4294967296,
    ensures
        score_of(e, ts, es).0 == 24 * ts.to_set().intersect(name_tokens(e)).len() + 20 * ts.to_set().intersect(
            alias_tokens(e),
        ).len() + 2 * ts.to_set().intersect(description_tokens(e)).len(),
        score_of(e, ts, es).0 >= 20,
        score_of(e, ts, es).1.contains("exact name match"@) <==> ts.to_set().intersect(name_tokens(e)).len() > 0,
        score_of(e, ts, es).1.contains("exact alias match"@) <==> ts.to_set().intersect(alias_tokens(e)).len() > 0,
{
    lemma_count_in_is_overlap(ts, name_tokens(e));
    lemma_count_in_is_overlap(ts, alias_tokens(e));
    lemma_count_in_is_overlap(ts, description_tokens(e));
    reveal_strlit("exact name match");
    reveal_strlit("exact alias match");
    reveal_strlit("description match");
    let n = count_in(ts, name_tokens(e));
    let a = count_in(ts, alias_tokens(e));
    let d = count_in(ts, description_tokens(e));
    assert("exact name match"@.len() != "exact alias match"@.len());
    assert("exact name match"@.len() != "description match"@.len());
    assert("exact alias match"@[0] != "description match"@[0]);
    assert(match_reasons(n, a, d).contains("exact name match"@) == (n > 0));
    assert(match_reasons(n, a, d).contains("exact alias match"@) == (a > 0));
}

/// Arithmetic modulo 2^32, as the score's `u32` arithmetic wraps.
pub open spec fn wrap32(x: int) -> u32 {
    (x % 4294967296) as u32
}

/// The reasons that accompany an exact-match score.
pub open spec fn match_reasons(n: nat, a: nat, d: nat) -> Set<Seq<char>> {
    Set::new(
        |r: Seq<char>|
            (r == "exact name match"@ && n > 0) || (r == "exact alias match"@ && a > 0) || (r
                == "description match"@ && d > 0),
    )
}

/// The routing score of an entry for a task, and the reasons for it.
pub open spec fn score_of(e: CatalogEntry, ts: Seq<Seq<char>>, es: Seq<CatalogEntry>) -> (u32, Set<Seq<char>>) {
    let n = count_in(ts, name_tokens(e));
    let a = count_in(ts, alias_tokens(e));
    let d = count_in(ts, description_tokens(e));
    if n == 0 && a == 0 && typo_token(e, ts, es) is Some {
        (wrap32(8 + 2 * (d as int)), set!["unique typo match: "@ + typo_token(e, ts, es)->0])
    } else if n == 0 && a == 0 && d < 2 {
        (0u32, Set::empty())
    } else {
        (wrap32(24 * (n as int) + 20 * (a as int) + 2 * (d as int)), match_reasons(n, a, d))
    }
}

/// Scores an entry against the tokens of a task.
pub fn match_score(entry: &CatalogEntry, task_tokens: &Vec<String>, entries: &Vec<CatalogEntry>) -> (r: (
    u32,
    Vec<String>,
))
    ensures
        is_strset(r.1@),
        r.0 == score_of(*entry, views(task_tokens@), entries@).0,
        text_set(r.1@) == score_of(*entry, views(task_tokens@), entries@).1,
{
    let name = tokens(entry.name.as_str());
    let aliases = tokens_of_all(&entry.aliases);
    let description = tokens(entry.description.as_str());
    proof {
        assert(text_set(aliases@) =~= alias_tokens(*entry));
    }
    let n = count_members(task_tokens, &name);
    let a = count_members(task_tokens, &aliases);
    let d = count_members(task_tokens, &description);
    let mut reasons = strset_new();
    if n == 0 && a == 0 {
        match unique_typo_token(entry, task_tokens, entries) {
            Some(t) => {
                let reason = concat2("unique typo match: ", t.as_str());
                strset_insert(&mut reasons, reason);
                let x: u128 = 8 + 2 * (d as u128);
                let score: u32 = (x % 4294967296) as u32;
                proof {
                    assert(text_set(reasons@) =~= set!["unique typo match: "@ + t@]);
                }
                return (score, reasons);
            },
            None => {},
        }
        if d < 2 {
            proof {
                assert(text_set(reasons@) =~= Set::<Seq<char>>::empty());
            }
            return (0, reasons);
        }
    }
    if n > 0 {
        strset_insert(&mut reasons, owned("exact name match"));
    }
    if a > 0 {
        strset_insert(&mut reasons, owned("exact alias match"));
    }
    if d > 0 {
        strset_insert(&mut reasons, owned("description match"));
    }
    proof {
        assert(text_set(reasons@) =~= match_reasons(n as nat, a as nat, d as nat));
    }
    let x: u128 = 24 * (n as u128) + 20 * (a as u128) + 2 * (d as u128);
    let score: u32 = (x % 4294967296) as u32;
    (score, reasons)
}

// ---------------------------------------------------------------------------
// Alias collisions
// ---------------------------------------------------------------------------
/// The routing tokens of a text, in order.
pub open spec fn token_list(v: Seq<char>) -> Seq<Seq<char>> {
    choose|s: Seq<Seq<char>>| sorted_strict(s) && s.to_set() == token_set(v)
}

/// The normal form of an alias: its routing tokens, in order, joined by spaces.
pub open spec fn alias_key(a: Seq<char>) -> Seq<char> {
    join_sep(token_list(a), " "@)
}

/// The (normal form, selector) pairs of the aliases of one entry; resources route by no alias.
pub open spec fn entry_alias_pairs(e: CatalogEntry) -> Seq<(Seq<char>, Seq<char>)> {
    if e.kind == EntryKind::Resource {
        Seq::empty()
    } else {
        e.aliases@.map_values(|a: String| (alias_key(a@), selector_of(e)))
    }
}

/// The alias pairs of a sequence of entries, in order.
pub open spec fn alias_pairs(es: Seq<CatalogEntry>) -> Seq<(Seq<char>, Seq<char>)>
    decreases es.len(),
{
    if es.len() == 0 {
        Seq::empty()
    } else {
        alias_pairs(es.drop_last()) + entry_alias_pairs(es.last())
    }
}

/// The position of the last pair before `k` with a given normal form, or -1.
pub open spec fn last_with_key(ps: Seq<(Seq<char>, Seq<char>)>, k: int, key: Seq<char>) -> int
    decreases k,
{
    if k <= 0 {
        -1
    } else if ps[k - 1].0 == key {
        k - 1
    } else {
        last_with_key(ps, k - 1, key)
    }
}

/// What is wrong with the `k`-th alias pair, if anything: an alias without
/// routing tokens, or a normal form that an earlier alias of another entry has.
pub open spec fn alias_problem(ps: Seq<(Seq<char>, Seq<char>)>, k: int) -> Option<Seq<char>> {
    if ps[k].0.len() == 0 {
        Some("empty routing alias on "@ + ps[k].1)
    } else {
        let j = last_with_key(ps, k, ps[k].0);
        if j >= 0 && ps[j].1 != ps[k].1 {
            Some("routing alias collision '"@ + ps[k].0 + "' between "@ + ps[j].1 + " and "@ + ps[k].1)
        } else {
            None
        }
    }
}

/// The first problem among the alias pairs from position `k` on.
pub open spec fn alias_error_from(ps: Seq<(Seq<char>, Seq<char>)>, k: int) -> Option<Seq<char>>
    decreases ps.len() - k,
{
    if 0 <= k < ps.len() {
        match alias_problem(ps, k) {
            Some(m) => Some(m),
            None => alias_error_from(ps, k + 1),
        }
    } else {
        None
    }
}

/// The first alias problem of a catalogue's entries.
pub open spec fn alias_error(es: Seq<CatalogEntry>) -> Option<Seq<char>> {
    alias_error_from(alias_pairs(es), 0)
}

/// Strings joined with a separator.
fn join_strings(v: &Vec<String>, sep: &str) -> (r: String)
    ensures
        r@ == join_sep(views(v@), sep@),
{
    let mut r = String::new();
    let mut k: usize = 0;
    while k < v.len()
        invariant
            k <= v@.len(),
            r@ == join_sep(views(v@).take(k as int), sep@),
        decreases v@.len() - k,
    {
        let ghost before = r@;
        if k > 0 {
            crate::text::push_text(&mut r, sep);
        }
        crate::text::push_text(&mut r, v[k].as_str());
        proof {
            let t = views(v@).take(k + 1);
            assert(t.drop_last() =~= views(v@).take(k as int));
            assert(t.last() == v@[k as int]@);
            if k == 0 {
                assert(r@ =~= v@[0]@);
            }
        }
        k += 1;
    }
    proof {
        assert(views(v@).take(v@.len() as int) =~= views(v@));
    }
    r
}

/// The normal form of an alias.
pub fn alias_key_text(alias: &str) -> (r: String)
    ensures
        r@ == alias_key(alias@),
{
    let toks = tokens(alias);
    proof {
        let w = views(toks@);
        assert(sorted_strict(w) && w.to_set() == token_set(alias@));
        let c = token_list(alias@);
        assert(sorted_strict(c) && c.to_set() == token_set(alias@));
        crate::strset::lemma_sorted_set_unique(w, c);
    }
    join_strings(&toks, " ")
}

/// The selector of the last recorded pair with a normal form.
fn last_selector(keys: &Vec<String>, sels: &Vec<String>, key: &str) -> (r: Option<usize>)
    requires
        keys@.len() == sels@.len(),
    ensures
        ({
            let ps = views(keys@).zip_with(views(sels@));
            match r {
                Some(j) => j as int == last_with_key(ps, ps.len() as int, key@) && j < keys@.len(),
                None => last_with_key(ps, ps.len() as int, key@) == -1,
            }
        }),
{
    let ghost ps = views(keys@).zip_with(views(sels@));
    let mut k = keys.len();
    while k > 0
        invariant
            k <= keys@.len(),
            keys@.len() == sels@.len(),
            ps == views(keys@).zip_with(views(sels@)),
            last_with_key(ps, ps.len() as int, key@) == last_with_key(ps, k as int, key@),
        decreases k,
    {
        proof {
            assert(ps[k - 1].0 == keys@[k - 1]@);
        }
        if crate::text::same_text(keys[k - 1].as_str(), key) {
            return Some(k - 1);
        }
        k -= 1;
    }
    None
}

/// Refuses aliases that normalise to nothing and aliases of two entries that
/// normalise to the same routing key.
pub fn validate_aliases(entries: &Vec<CatalogEntry>) -> (r: Result<(), String>)
    ensures
        match alias_error(entries@) {
            None => r is Ok,
            Some(m) => r matches Err(x) && x@ == m,
        },
{
    let mut keys: Vec<String> = Vec::new();
    let mut sels: Vec<String> = Vec::new();
    let ghost ps = alias_pairs(entries@);
    let mut i: usize = 0;
    proof {
        assert(views(keys@).zip_with(views(sels@)) =~= alias_pairs(entries@.take(0)));
    }
    while i < entries.len()
        invariant
            i <= entries@.len(),
            ps == alias_pairs(entries@),
            keys@.len() == sels@.len(),
            views(keys@).zip_with(views(sels@)) == alias_pairs(entries@.take(i as int)),
            alias_pairs(entries@.take(i as int)).len() <= ps.len(),
            ps.take(alias_pairs(entries@.take(i as int)).len() as int) == alias_pairs(entries@.take(i as int)),
            alias_error_from(ps, alias_pairs(entries@.take(i as int)).len() as int) == alias_error_from(ps, 0),
        decreases entries@.len() - i,
    {
        let e = &entries[i];
        proof {
            lemma_alias_pairs_prefix(entries@, i as int);
        }
        if e.kind != EntryKind::Resource {
            let sel = e.selector();
            let mut a: usize = 0;
            let ghost base = alias_pairs(entries@.take(i as int));
            while a < e.aliases.len()
                invariant
                    i < entries@.len(),
                    *e == entries@[i as int],
                    e.kind != EntryKind::Resource,
                    sel@ == selector_of(*e),
                    a <= e.aliases@.len(),
                    ps == alias_pairs(entries@),
                    base == alias_pairs(entries@.take(i as int)),
                    keys@.len() == sels@.len(),
                    views(keys@).zip_with(views(sels@)) == base + entry_alias_pairs(*e).take(a as int),
                    ps.take((base.len() + entry_alias_pairs(*e).len()) as int) == base + entry_alias_pairs(*e),
                    base.len() + entry_alias_pairs(*e).len() <= ps.len(),
                    alias_error_from(ps, base.len() + a) == alias_error_from(ps, 0),
                decreases e.aliases@.len() - a,
            {
                let key = alias_key_text(e.aliases[a].as_str());
                let ghost k = base.len() + a;
                let ghost cur = views(keys@).zip_with(views(sels@));
                proof {
                    assert(entry_alias_pairs(*e)[a as int] == (alias_key(e.aliases@[a as int]@), selector_of(*e)));
                    assert(ps[k] == (key@, sel@)) by {
                        assert(ps.take((base.len() + entry_alias_pairs(*e).len()) as int)[k] == ps[k]);
                    }
                    assert(cur.len() == k);
                    assert forall|j: int| 0 <= j < k implies ps[j] == cur[j] by {
                        assert(ps.take((base.len() + entry_alias_pairs(*e).len()) as int)[j] == ps[j]);
                        if j >= base.len() {
                            assert(entry_alias_pairs(*e).take(a as int)[j - base.len()] == entry_alias_pairs(*e)[j - base.len()]);
                        }
                    }
                    lemma_last_with_key_prefix(ps, cur, k, key@);
                }
                if key.as_str().unicode_len() == 0 {
                    proof {
                        assert(key@.len() == 0);
                    }
                    return Err(concat2("empty routing alias on ", sel.as_str()));
                }
                match last_selector(&keys, &sels, key.as_str()) {
                    Some(j) => {
                        if !crate::text::same_text(sels[j].as_str(), sel.as_str()) {
                            proof {
                                assert(cur[j as int].1 == sels@[j as int]@);
                            }
                            let mut m = concat3("routing alias collision '", key.as_str(), "' between ");
                            crate::text::push_text(&mut m, sels[j].as_str());
                            crate::text::push_text(&mut m, " and ");
                            crate::text::push_text(&mut m, sel.as_str());
                            return Err(m);
                        }
                        proof {
                            assert(cur[j as int].1 == sels@[j as int]@);
                        }
                    },
                    None => {},
                }
                keys.push(key);
                sels.push(copy_string(&sel));
                proof {
                    assert(views(keys@).zip_with(views(sels@)) =~= cur.push((key@, sel@)));
                    assert(entry_alias_pairs(*e).take(a + 1) =~= entry_alias_pairs(*e).take(a as int).push(entry_alias_pairs(*e)[a as int]));
                    assert(base + entry_alias_pairs(*e).take(a + 1) =~= (base + entry_alias_pairs(*e).take(a as int)).push((key@, sel@)));
                }
                a += 1;
            }
            proof {
                assert(entry_alias_pairs(*e).take(e.aliases@.len() as int) =~= entry_alias_pairs(*e));
            }
        } else {
            proof {
                assert(entry_alias_pairs(*e) =~= Seq::<(Seq<char>, Seq<char>)>::empty());
                assert(alias_pairs(entries@.take(i + 1)) =~= alias_pairs(entries@.take(i as int)));
            }
        }
        i += 1;
    }
    proof {
        assert(entries@.take(entries@.len() as int) =~= entries@);
        assert(alias_error_from(ps, ps.len() as int) is None);
    }
    Ok(())
}

proof fn lemma_alias_pairs_prefix(es: Seq<CatalogEntry>, i: int)
    requires
        0 <= i < es.len(),
    ensures
        alias_pairs(es.take(i + 1)) == alias_pairs(es.take(i)) + entry_alias_pairs(es[i]),
        alias_pairs(es.take(i + 1)).len() <= alias_pairs(es).len(),
        alias_pairs(es).take(alias_pairs(es.take(i + 1)).len() as int) == alias_pairs(es.take(i + 1)),
{
    assert(es.take(i + 1).drop_last() =~= es.take(i));
    lemma_alias_pairs_take(es, i + 1);
}

proof fn lemma_alias_pairs_take(es: Seq<CatalogEntry>, n: int)
    requires
        0 <= n <= es.len(),
    ensures
        alias_pairs(es.take(n)).len() <= alias_pairs(es).len(),
        alias_pairs(es).take(alias_pairs(es.take(n)).len() as int) == alias_pairs(es.take(n)),
    decreases es.len(),
{
    if n == es.len() {
        assert(es.take(n) =~= es);
        assert(alias_pairs(es).take(alias_pairs(es).len() as int) =~= alias_pairs(es));
    } else {
        lemma_alias_pairs_take(es.drop_last(), n);
        assert(es.drop_last().take(n) =~= es.take(n));
        let p = alias_pairs(es.drop_last());
        assert(alias_pairs(es) == p + entry_alias_pairs(es.last()));
        assert((p + entry_alias_pairs(es.last())).take(alias_pairs(es.take(n)).len() as int) =~= p.take(
            alias_pairs(es.take(n)).len() as int,
        ));
    }
}

proof fn lemma_last_with_key_prefix(ps: Seq<(Seq<char>, Seq<char>)>, cur: Seq<(Seq<char>, Seq<char>)>, k: int, key: Seq<char>)
    requires
        0 <= k <= ps.len(),
        cur.len() == k,
        forall|j: int| 0 <= j < k ==> ps[j] == cur[j],
    ensures
        last_with_key(ps, k, key) == last_with_key(cur, k, key),
    decreases k,
{
    if k > 0 {
        lemma_last_with_key_prefix(ps, cur.drop_last(), k - 1, key);
        assert forall|j: int| 0 <= j < k - 1 implies ps[j] == cur.drop_last()[j] by {}
        lemma_last_with_key_drop(cur, k - 1, key);
    }
}

proof fn lemma_last_with_key_drop(cur: Seq<(Seq<char>, Seq<char>)>, k: int, key: Seq<char>)
    requires
        0 <= k < cur.len(),
    ensures
        last_with_key(cur.drop_last(), k, key) == last_with_key(cur, k, key),
    decreases k,
{
    if k > 0 {
        lemma_last_with_key_drop(cur, k - 1, key);
    }
}

} // verus!
