//! Hydration: the verified bodies of selected entries, and the doctor's check
//! of a whole catalogue.
use vstd::prelude::*;

use crate::catalog::{
    dep_views, kind_text, selector_of, Catalog, CatalogEntry, CatalogRoot, EntryKind, SkillleafError,
    SkillleafResult,
};
use crate::digest::{digest_hex, sha256};
use crate::resolve::{entry_for, find_entry, in_catalog, index_of, lemma_in_catalog};
use crate::security::TrustLevel;
use crate::strset::{copy_string, strs_contain, text_set, views};
use crate::sync::segments;
use crate::text::{chars_of, concat2, concat3, owned, push_text, same_text};

verus! {

// ---------------------------------------------------------------------------
// Root keys and contained paths
// ---------------------------------------------------------------------------
/// The root key `<source>/<skill|command>` under which an entry's body lies
/// (resources lie in their skill's root).
pub open spec fn root_key_of(source: Seq<char>, kind: EntryKind) -> Seq<char> {
    source + "/"@ + kind_text(
        if kind == EntryKind::Resource {
            EntryKind::Skill
        } else {
            kind
        },
    )
}

/// The root key under which an entry's body lies.
pub fn root_key(source: &str, kind: EntryKind) -> (r: String)
    ensures
        r@ == root_key_of(source@, kind),
{
    let k = if kind == EntryKind::Resource {
        EntryKind::Skill
    } else {
        kind
    };
    concat3(source, "/", k.as_str())
}

/// Position of the first root with a key, or -1.
pub open spec fn root_index(roots: Seq<CatalogRoot>, key: Seq<char>) -> int
    decreases roots.len(),
{
    if roots.len() == 0 {
        -1
    } else if root_index(roots.drop_last(), key) >= 0 {
        root_index(roots.drop_last(), key)
    } else if roots.last().key@ == key {
        roots.len() - 1
    } else {
        -1
    }
}

proof fn lemma_root_index(roots: Seq<CatalogRoot>, key: Seq<char>, k: int)
    requires
        0 <= k <= roots.len(),
    ensures
        root_index(roots.take(k), key) >= 0 ==> root_index(roots.take(k), key) < k && roots[root_index(roots.take(k), key)].key@ == key
            && forall|j: int| 0 <= j < root_index(roots.take(k), key) ==> (#[trigger] roots[j]).key@ != key,
        root_index(roots.take(k), key) < 0 ==> forall|j: int| 0 <= j < k ==> (#[trigger] roots[j]).key@ != key,
    decreases k,
{
    if k > 0 {
        lemma_root_index(roots, key, k - 1);
        assert(roots.take(k).drop_last() =~= roots.take(k - 1));
        assert(roots.take(k).last() == roots[k - 1]);
    }
}

/// The first root with a key.
pub fn find_root(roots: &Vec<CatalogRoot>, key: &str) -> (r: Option<usize>)
    ensures
        match r {
            Some(i) => i as int == root_index(roots@, key@) && i < roots@.len(),
            None => root_index(roots@, key@) == -1,
        },
{
    let mut i: usize = 0;
    while i < roots.len()
        invariant
            i <= roots.len(),
            forall|j: int| 0 <= j < i ==> (#[trigger] roots@[j]).key@ != key@,
        decreases roots.len() - i,
    {
        if same_text(roots[i].key.as_str(), key) {
            proof {
                lemma_root_index(roots@, key@, roots@.len() as int);
                assert(roots@.take(roots@.len() as int) =~= roots@);
                if root_index(roots@, key@) < 0 {
                    assert(roots@[i as int].key@ == key@);
                }
            }
            return Some(i);
        }
        i += 1;
    }
    proof {
        lemma_root_index(roots@, key@, roots@.len() as int);
        assert(roots@.take(roots@.len() as int) =~= roots@);
    }
    None
}

/// A relative body path that names something outside its root: absolute, or with a `..` component.
pub open spec fn escapes(rel: Seq<char>) -> bool {
    (rel.len() > 0 && rel[0] == '/') || segments(rel).contains(".."@)
}

/// Whether a relative body path escapes its root.
pub fn path_escapes(rel: &str) -> (r: bool)
    ensures
        r == escapes(rel@),
{
    let v = chars_of(rel);
    if v.len() > 0 && v[0] == '/' {
        return true;
    }
    let dots = chars_of("..");
    let mut i: usize = 0;
    let ghost s = v@;
    loop
        invariant
            s == v@,
            s == rel@,
            !(s.len() > 0 && s[0] == '/'),
            i <= s.len(),
            dots@ == ".."@,
            segments(s).contains(".."@) <==> crate::sync::segments_from(s, i as int).contains(".."@),
        decreases s.len() - i,
    {
        let mut j = i;
        while j < v.len() && v[j] != '/'
            invariant
                i <= j <= v.len(),
                crate::sync::next_slash(v@, j as int) == crate::sync::next_slash(v@, i as int),
            decreases v.len() - j,
        {
            j += 1;
        }
        proof {
            crate::sync::lemma_next_slash(s, i as int);
        }
        let seg = crate::text::slice_chars(v.as_slice(), i, j);
        let hit = crate::text::same_chars(seg.as_slice(), dots.as_slice());
        if j == v.len() {
            proof {
                assert(crate::sync::segments_from(s, i as int) == seq![seg@]);
                if hit {
                    assert(seq![seg@][0] == ".."@);
                } else {
                    assert(!seq![seg@].contains(".."@)) by {
                        if seq![seg@].contains(".."@) {
                            let k = choose|k: int| 0 <= k < 1 && seq![seg@][k] == ".."@;
                        }
                    }
                }
            }
            return hit;
        }
        proof {
            let rest = crate::sync::segments_from(s, j + 1);
            assert(crate::sync::segments_from(s, i as int) == seq![seg@] + rest);
            assert((seq![seg@] + rest).contains(".."@) <==> (seg@ == ".."@ || rest.contains(".."@))) by {
                if (seq![seg@] + rest).contains(".."@) {
                    let k = choose|k: int| 0 <= k < (seq![seg@] + rest).len() && (seq![seg@] + rest)[k] == ".."@;
                    if k > 0 {
                        assert(rest[k - 1] == ".."@);
                    }
                }
                if rest.contains(".."@) {
                    let k = choose|k: int| 0 <= k < rest.len() && rest[k] == ".."@;
                    assert((seq![seg@] + rest)[k + 1] == ".."@);
                }
                if seg@ == ".."@ {
                    assert((seq![seg@] + rest)[0] == ".."@);
                }
            }
        }
        if hit {
            return true;
        }
        i = j + 1;
    }
}

// ---------------------------------------------------------------------------
// Hydration
// ---------------------------------------------------------------------------
/// What storage gave back for one body: its path and bytes, or why it could not be read.
#[derive(Clone, Debug)]
pub enum BodyRead {
    Read { path: String, bytes: Vec<u8> },
    Failed(String),
}

/// One body to read: where it lies and which digest it must have.
#[derive(Clone, Debug)]
pub struct HydrationTarget {
    pub selector: String,
    pub root: String,
    pub relative_path: String,
    pub content_sha256: String,
}

/// The bodies to read for a request, in order, and the reason the request
/// stops before the next one (if it does).
#[derive(Clone, Debug)]
pub struct HydrationPlan {
    pub targets: Vec<HydrationTarget>,
    pub failure: Option<SkillleafError>,
}

/// A verified body.
#[derive(Clone, Debug)]
pub struct HydratedEntry {
    pub selector: String,
    pub content_sha256: String,
    pub trust: TrustLevel,
    pub content: String,
}

/// The selectors of a request, each once, in the order of first request.
pub open spec fn uniq(ss: Seq<Seq<char>>) -> Seq<Seq<char>>
    decreases ss.len(),
{
    if ss.len() == 0 {
        Seq::empty()
    } else if uniq(ss.drop_last()).contains(ss.last()) {
        uniq(ss.drop_last())
    } else {
        uniq(ss.drop_last()).push(ss.last())
    }
}

/// Why a selector cannot be hydrated before its body is read, if it cannot.
pub open spec fn target_error(c: Catalog, s: Seq<char>, allow_untrusted: bool) -> Option<Seq<char>> {
    let es = c.entries@;
    if !in_catalog(es, s) {
        Some("selector is not in the catalog: "@ + s)
    } else if entry_for(es, s).trust == TrustLevel::Untrusted && !allow_untrusted {
        Some("untrusted selector requires --allow-untrusted: "@ + s)
    } else if root_index(c.roots@, root_key_of(entry_for(es, s).source@, entry_for(es, s).kind)) < 0 {
        Some("missing root for selector "@ + s)
    } else if escapes(entry_for(es, s).relative_path@) {
        Some("catalog path escapes its source root: "@ + entry_for(es, s).relative_path@)
    } else {
        None
    }
}

/// Why a body that storage gave back is refused, if it is.
pub open spec fn body_error(c: Catalog, s: Seq<char>, b: BodyRead) -> Option<Seq<char>> {
    match b {
        BodyRead::Failed(m) => Some(m@),
        BodyRead::Read { path, bytes } => {
            if digest_hex(bytes@) != entry_for(c.entries@, s).content_sha256@ {
                Some("content hash mismatch for "@ + s + "; rebuild the catalog"@)
            } else if !vstd::utf8::valid_utf8(bytes@) {
                Some("catalog body is not UTF-8: "@ + path@)
            } else {
                None
            }
        },
    }
}

/// Why the `k`-th selector of a request fails, given the bodies read, if it does.
pub open spec fn step_error(c: Catalog, us: Seq<Seq<char>>, allow_untrusted: bool, bodies: Seq<BodyRead>, k: int) -> Option<Seq<char>> {
    if target_error(c, us[k], allow_untrusted) is Some {
        target_error(c, us[k], allow_untrusted)
    } else if k >= bodies.len() {
        Some("catalog body was not read for "@ + us[k])
    } else {
        body_error(c, us[k], bodies[k])
    }
}

/// The body of an accepted selector, as text.
pub open spec fn body_text(b: BodyRead) -> Seq<char> {
    match b {
        BodyRead::Read { path, bytes } => vstd::utf8::decode_utf8(bytes@),
        BodyRead::Failed(_) => Seq::empty(),
    }
}

/// The first selector of a request from position `k` on that fails.
pub open spec fn first_failure(c: Catalog, us: Seq<Seq<char>>, allow_untrusted: bool, bodies: Seq<BodyRead>, k: int) -> Option<int>
    decreases us.len() - k,
{
    if 0 <= k < us.len() {
        if step_error(c, us, allow_untrusted, bodies, k) is Some {
            Some(k)
        } else {
            first_failure(c, us, allow_untrusted, bodies, k + 1)
        }
    } else {
        None
    }
}

/// The first selector of a request from position `k` on that cannot be planned.
pub open spec fn first_unplanned(c: Catalog, us: Seq<Seq<char>>, allow_untrusted: bool, k: int) -> Option<int>
    decreases us.len() - k,
{
    if 0 <= k < us.len() {
        if target_error(c, us[k], allow_untrusted) is Some {
            Some(k)
        } else {
            first_unplanned(c, us, allow_untrusted, k + 1)
        }
    } else {
        None
    }
}

/// A hydrated entry is the verified body of the `k`-th requested selector.
pub open spec fn hydrated_at(c: Catalog, us: Seq<Seq<char>>, bodies: Seq<BodyRead>, h: HydratedEntry, k: int) -> bool {
    let e = entry_for(c.entries@, us[k]);
    &&& h.selector@ == us[k]
    &&& h.content_sha256@ == e.content_sha256@
    &&& h.trust == e.trust
    &&& h.content@ == body_text(bodies[k])
}

/// A target is where the `k`-th requested selector's body lies.
pub open spec fn target_at(c: Catalog, us: Seq<Seq<char>>, t: HydrationTarget, k: int) -> bool {
    let e = entry_for(c.entries@, us[k]);
    &&& t.selector@ == us[k]
    &&& t.root@ == c.roots@[root_index(c.roots@, root_key_of(e.source@, e.kind))].path@
    &&& t.relative_path@ == e.relative_path@
    &&& t.content_sha256@ == e.content_sha256@
}

/// The requested selectors, each once, in the order of first request.
pub fn unique_selectors(selectors: &Vec<String>) -> (r: Vec<String>)
    ensures
        views(r@) == uniq(views(selectors@)),
{
    let mut r: Vec<String> = Vec::new();
    let mut i: usize = 0;
    while i < selectors.len()
        invariant
            i <= selectors.len(),
            views(r@) == uniq(views(selectors@).take(i as int)),
        decreases selectors.len() - i,
    {
        proof {
            assert(views(selectors@).take(i + 1).drop_last() =~= views(selectors@).take(i as int));
            assert(views(selectors@).take(i + 1).last() == selectors@[i as int]@);
            crate::strset::lemma_text_set_contains(r@, selectors@[i as int]@);
            assert(text_set(r@).contains(selectors@[i as int]@) <==> views(r@).contains(selectors@[i as int]@)) by {
                if views(r@).contains(selectors@[i as int]@) {
                    let k = choose|k: int| 0 <= k < views(r@).len() && views(r@)[k] == selectors@[i as int]@;
                    assert(r@[k]@ == selectors@[i as int]@);
                }
            }
        }
        if !strs_contain(&r, selectors[i].as_str()) {
            r.push(copy_string(&selectors[i]));
            proof {
                assert(views(r@) =~= uniq(views(selectors@).take(i as int)).push(selectors@[i as int]@));
            }
        }
        i += 1;
    }
    proof {
        assert(views(selectors@).take(selectors.len() as int) =~= views(selectors@));
    }
    r
}

/// Checks one requested selector before its body is read; gives the entry's and the root's positions.
fn check_target(c: &Catalog, s: &str, allow_untrusted: bool) -> (r: Result<(usize, usize), String>)
    ensures
        match target_error(*c, s@, allow_untrusted) {
            Some(m) => r matches Err(x) && x@ == m,
            None => r matches Ok((i, j)) && i as int == index_of(c.entries@, s@) && i < c.entries@.len()
                && j as int == root_index(c.roots@, root_key_of(entry_for(c.entries@, s@).source@, entry_for(c.entries@, s@).kind))
                && j < c.roots@.len(),
        },
{
    let i = match find_entry(&c.entries, s) {
        Some(i) => i,
        None => {
            return Err(concat2("selector is not in the catalog: ", s));
        },
    };
    let e = &c.entries[i];
    if e.trust == TrustLevel::Untrusted && !allow_untrusted {
        return Err(concat2("untrusted selector requires --allow-untrusted: ", s));
    }
    let key = root_key(e.source.as_str(), e.kind);
    let j = match find_root(&c.roots, key.as_str()) {
        Some(j) => j,
        None => {
            return Err(concat2("missing root for selector ", s));
        },
    };
    if path_escapes(e.relative_path.as_str()) {
        return Err(concat2("catalog path escapes its source root: ", e.relative_path.as_str()));
    }
    Ok((i, j))
}

/// The bodies that a request needs, in the order they are checked, up to the
/// first selector that cannot be served.
pub fn hydration_plan(catalog: &Catalog, selectors: &Vec<String>, allow_untrusted: bool) -> (r: HydrationPlan)
    ensures
        ({
            let us = uniq(views(selectors@));
            let n = match first_unplanned(*catalog, us, allow_untrusted, 0) {
                Some(k) => k,
                None => us.len() as int,
            };
            &&& r.targets@.len() == n
            &&& forall|k: int| 0 <= k < n ==> target_at(*catalog, us, #[trigger] r.targets@[k], k)
            &&& match first_unplanned(*catalog, us, allow_untrusted, 0) {
                Some(k) => r.failure matches Some(SkillleafError::Integrity(m)) && m@ == target_error(*catalog, us[k], allow_untrusted)->0,
                None => r.failure is None,
            }
        }),
{
    let us = unique_selectors(selectors);
    let ghost usv = views(us@);
    let mut targets: Vec<HydrationTarget> = Vec::new();
    let mut k: usize = 0;
    while k < us.len()
        invariant
            k <= us.len(),
            usv == views(us@),
            usv == uniq(views(selectors@)),
            targets@.len() == k,
            forall|j: int| 0 <= j < k ==> target_at(*catalog, usv, #[trigger] targets@[j], j),
            first_unplanned(*catalog, usv, allow_untrusted, k as int) == first_unplanned(*catalog, usv, allow_untrusted, 0),
        decreases us.len() - k,
    {
        proof {
            assert(usv[k as int] == us@[k as int]@);
        }
        match check_target(catalog, us[k].as_str(), allow_untrusted) {
            Err(m) => {
                return HydrationPlan { targets, failure: Some(SkillleafError::Integrity(m)) };
            },
            Ok((i, j)) => {
                let e = &catalog.entries[i];
                targets.push(HydrationTarget {
                    selector: copy_string(&us[k]),
                    root: copy_string(&catalog.roots[j].path),
                    relative_path: copy_string(&e.relative_path),
                    content_sha256: copy_string(&e.content_sha256),
                });
            },
        }
        k += 1;
    }
    HydrationPlan { targets, failure: None }
}

/// `String::from_utf8`: the text that valid UTF-8 bytes encode, or `None`.
#[verifier::external_body]
pub(crate) fn utf8_text(bytes: Vec<u8>) -> (r: Option<String>)
    ensures
        r is Some <==> vstd::utf8::valid_utf8(bytes@),
        r matches Some(s) ==> s@ == vstd::utf8::decode_utf8(bytes@),
{
    String::from_utf8(bytes).ok()
}

/// Takes the body read for position `k` out of the list of bodies.
fn take_body(bodies: &mut Vec<BodyRead>, k: usize) -> (r: BodyRead)
    requires
        k < old(bodies)@.len(),
    ensures
        r == old(bodies)@[k as int],
        final(bodies)@.len() == old(bodies)@.len(),
        forall|j: int| 0 <= j < old(bodies)@.len() && j != k ==> final(bodies)@[j] == old(bodies)@[j],
{
    let r = bodies.remove(k);
    bodies.insert(k, BodyRead::Failed(String::new()));
    r
}

/// The verified bodies of the requested selectors (each once, in the order of
/// first request), given the bodies that storage gave back for the plan's
/// targets. Fails at the first selector that is unknown, untrusted without
/// `allow_untrusted`, without a root, escaping its root, unreadable, changed
/// since indexing, or not UTF-8.
pub fn hydrate_with_policy(catalog: &Catalog, selectors: &Vec<String>, allow_untrusted: bool, bodies: Vec<BodyRead>) -> (r: SkillleafResult<Vec<HydratedEntry>>)
    ensures
        ({
            let us = uniq(views(selectors@));
            match first_failure(*catalog, us, allow_untrusted, bodies@, 0) {
                Some(k) => r matches Err(SkillleafError::Integrity(m)) && m@ == step_error(*catalog, us, allow_untrusted, bodies@, k)->0,
                None => r matches Ok(hs) && hs@.len() == us.len() && forall|k: int| 0 <= k < us.len() ==> hydrated_at(*catalog, us, bodies@, #[trigger] hs@[k], k),
            }
        }),
{
    let ghost b0 = bodies@;
    let mut remaining = bodies;
    let us = unique_selectors(selectors);
    let ghost usv = views(us@);
    let mut out: Vec<HydratedEntry> = Vec::new();
    let mut k: usize = 0;
    while k < us.len()
        invariant
            k <= us.len(),
            usv == views(us@),
            usv == uniq(views(selectors@)),
            b0 == bodies@,
            remaining@.len() == b0.len(),
            forall|j: int| k <= j < b0.len() ==> remaining@[j] == b0[j],
            out@.len() == k,
            forall|j: int| 0 <= j < k ==> hydrated_at(*catalog, usv, b0, #[trigger] out@[j], j),
            first_failure(*catalog, usv, allow_untrusted, b0, k as int) == first_failure(*catalog, usv, allow_untrusted, b0, 0),
        decreases us.len() - k,
    {
        let s = &us[k];
        proof {
            assert(usv[k as int] == s@);
        }
        let (i, _j) = match check_target(catalog, s.as_str(), allow_untrusted) {
            Err(m) => {
                proof {
                    assert(step_error(*catalog, usv, allow_untrusted, b0, k as int) == target_error(*catalog, usv[k as int], allow_untrusted));
                    assert(first_failure(*catalog, usv, allow_untrusted, b0, k as int) == Some(k as int));
                }
                return Err(SkillleafError::Integrity(m));
            },
            Ok(p) => p,
        };
        if k >= remaining.len() {
            proof {
                assert(step_error(*catalog, usv, allow_untrusted, b0, k as int) == Some("catalog body was not read for "@ + usv[k as int]));
                assert(first_failure(*catalog, usv, allow_untrusted, b0, k as int) == Some(k as int));
            }
            return Err(SkillleafError::Integrity(concat2("catalog body was not read for ", s.as_str())));
        }
        let e = &catalog.entries[i];
        let body = take_body(&mut remaining, k);
        match body {
            BodyRead::Failed(m) => {
                return Err(SkillleafError::Integrity(m));
            },
            BodyRead::Read { path, bytes } => {
                let actual = sha256(bytes.as_slice());
                if !same_text(actual.as_str(), e.content_sha256.as_str()) {
                    return Err(SkillleafError::Integrity(concat3("content hash mismatch for ", s.as_str(), "; rebuild the catalog")));
                }
                let ghost bv = bytes@;
                match utf8_text(bytes) {
                    None => {
                        return Err(SkillleafError::Integrity(concat2("catalog body is not UTF-8: ", path.as_str())));
                    },
                    Some(content) => {
                        out.push(HydratedEntry {
                            selector: copy_string(s),
                            content_sha256: actual,
                            trust: e.trust,
                            content,
                        });
                    },
                }
            },
        }
        k += 1;
    }
    Ok(out)
}

/// Hydration of trusted selectors only.
pub fn hydrate(catalog: &Catalog, selectors: &Vec<String>, bodies: Vec<BodyRead>) -> (r: SkillleafResult<Vec<HydratedEntry>>)
    ensures
        ({
            let us = uniq(views(selectors@));
            match first_failure(*catalog, us, false, bodies@, 0) {
                Some(k) => r matches Err(SkillleafError::Integrity(m)) && m@ == step_error(*catalog, us, false, bodies@, k)->0,
                None => r matches Ok(hs) && hs@.len() == us.len() && forall|k: int| 0 <= k < us.len() ==> hydrated_at(*catalog, us, bodies@, #[trigger] hs@[k], k),
            }
        }),
{
    hydrate_with_policy(catalog, selectors, false, bodies)
}

/// A request keeps each selector once: the order of first request holds
/// every requested selector and no other, without repeats.
pub proof fn lemma_uniq_keeps_each_once(ss: Seq<Seq<char>>)
    ensures
        uniq(ss).no_duplicates(),
        forall|x: Seq<char>| uniq(ss).contains(x) <==> ss.contains(x),
    decreases ss.len(),
{
    if ss.len() > 0 {
        let p = ss.drop_last();
        lemma_uniq_keeps_each_once(p);
        assert forall|x: Seq<char>| ss.contains(x) <==> (p.contains(x) || x == ss.last()) by {
            if ss.contains(x) {
                let i = choose|i: int| 0 <= i < ss.len() && ss[i] == x;
                if i < ss.len() - 1 {
                    assert(p[i] == x);
                }
            }
            if p.contains(x) {
                let i = choose|i: int| 0 <= i < p.len() && p[i] == x;
                assert(ss[i] == x);
            }
            if x == ss.last() {
                assert(ss[ss.len() - 1] == x);
            }
        }
        if !uniq(p).contains(ss.last()) {
            let q = uniq(p).push(ss.last());
            assert forall|x: Seq<char>| q.contains(x) <==> (uniq(p).contains(x) || x == ss.last()) by {
                if q.contains(x) {
                    let i = choose|i: int| 0 <= i < q.len() && q[i] == x;
                    if i < q.len() - 1 {
                        assert(uniq(p)[i] == x);
                    }
                }
                if uniq(p).contains(x) {
                    let i = choose|i: int| 0 <= i < uniq(p).len() && uniq(p)[i] == x;
                    assert(q[i] == x);
                }
                if x == ss.last() {
                    assert(q[q.len() - 1] == x);
                }
            }
            assert forall|i: int, j: int| 0 <= i < q.len() && 0 <= j < q.len() && i != j implies q[i] != q[j] by {
                if i < q.len() - 1 && j == q.len() - 1 {
                    assert(uniq(p).contains(q[i]));
                }
                if j < q.len() - 1 && i == q.len() - 1 {
                    assert(uniq(p).contains(q[j]));
                }
            }
        }
    }
}

proof fn lemma_first_failure_none(c: Catalog, us: Seq<Seq<char>>, allow_untrusted: bool, bodies: Seq<BodyRead>, from: int, k: int)
    requires
        0 <= from <= k < us.len(),
        first_failure(c, us, allow_untrusted, bodies, from) is None,
    ensures
        step_error(c, us, allow_untrusted, bodies, k) is None,
    decreases k - from,
{
    if from < k {
        lemma_first_failure_none(c, us, allow_untrusted, bodies, from + 1, k);
    }
}

/// Hydration fails closed: when no requested selector fails, each one names
/// an entry of the catalogue, trusted unless untrusted entries were allowed,
/// whose root is known and whose path stays inside it, and its body was read
/// as UTF-8 bytes whose SHA-256 is the entry's digest; so the digest of the
/// hydrated text is the entry's digest too.
pub proof fn lemma_hydration_fails_closed(c: Catalog, us: Seq<Seq<char>>, allow_untrusted: bool, bodies: Seq<BodyRead>, k: int)
    requires
        first_failure(c, us, allow_untrusted, bodies, 0) is None,
        0 <= k < us.len(),
    ensures
        ({
            let e = entry_for(c.entries@, us[k]);
            &&& in_catalog(c.entries@, us[k])
            &&& allow_untrusted || e.trust == TrustLevel::Trusted
            &&& root_index(c.roots@, root_key_of(e.source@, e.kind)) >= 0
            &&& !escapes(e.relative_path@)
            &&& k < bodies.len()
            &&& bodies[k] matches BodyRead::Read { path, bytes } && digest_hex(bytes@) == e.content_sha256@
                && vstd::utf8::valid_utf8(bytes@)
            &&& digest_hex(vstd::utf8::encode_utf8(body_text(bodies[k]))) == e.content_sha256@
        }),
{
    lemma_first_failure_none(c, us, allow_untrusted, bodies, 0, k);
    assert(target_error(c, us[k], allow_untrusted) is None);
    if let BodyRead::Read { path, bytes } = bodies[k] {
        vstd::utf8::decode_utf8_encode_utf8(bytes@);
    }
}

// ---------------------------------------------------------------------------
// Dependencies and the doctor
// ---------------------------------------------------------------------------
/// Every dependency of every entry names an entry.
pub open spec fn dependencies_resolve(es: Seq<CatalogEntry>) -> bool {
    forall|i: int, j: int| 0 <= i < es.len() && 0 <= j < dep_views(es[i]).len() ==> in_catalog(es, #[trigger] dep_views(es[i])[j])
}

/// The first dependency (entry by entry, in order) on no entry, with the
/// selector of the entry that declares it.
pub open spec fn missing_from(es: Seq<CatalogEntry>, i: int, j: int) -> Option<(Seq<char>, Seq<char>)>
    decreases es.len() - i, dep_views(es[i]).len() - j,
{
    if 0 <= i < es.len() {
        if 0 <= j < dep_views(es[i]).len() {
            if !in_catalog(es, dep_views(es[i])[j]) {
                Some((dep_views(es[i])[j], selector_of(es[i])))
            } else {
                missing_from(es, i, j + 1)
            }
        } else {
            missing_from(es, i + 1, 0)
        }
    } else {
        None
    }
}

/// The refusal of a catalogue with a dependency on no entry.
pub open spec fn dependency_error(es: Seq<CatalogEntry>) -> Option<Seq<char>> {
    match missing_from(es, 0, 0) {
        Some((d, s)) => Some("missing dependency "@ + d + " required by "@ + s),
        None => None,
    }
}

/// Checks that every dependency names an entry of the catalogue.
pub fn validate_dependencies(entries: &Vec<CatalogEntry>) -> (r: Result<(), String>)
    ensures
        r is Ok <==> dependencies_resolve(entries@),
        match dependency_error(entries@) {
            Some(m) => r matches Err(x) && x@ == m,
            None => r is Ok,
        },
{
    let mut i: usize = 0;
    while i < entries.len()
        invariant
            i <= entries.len(),
            missing_from(entries@, i as int, 0) == missing_from(entries@, 0, 0),
            forall|a: int, b: int| 0 <= a < i && 0 <= b < dep_views(entries@[a]).len() ==> in_catalog(entries@, #[trigger] dep_views(entries@[a])[b]),
        decreases entries.len() - i,
    {
        let e = &entries[i];
        let mut j: usize = 0;
        while j < e.dependencies.len()
            invariant
                i < entries.len(),
                *e == entries@[i as int],
                j <= e.dependencies@.len(),
                missing_from(entries@, i as int, j as int) == missing_from(entries@, 0, 0),
                forall|a: int, b: int| 0 <= a < i && 0 <= b < dep_views(entries@[a]).len() ==> in_catalog(entries@, #[trigger] dep_views(entries@[a])[b]),
                forall|b: int| 0 <= b < j ==> in_catalog(entries@, #[trigger] dep_views(entries@[i as int])[b]),
            decreases e.dependencies@.len() - j,
        {
            let d = &e.dependencies[j].selector;
            proof {
                assert(dep_views(entries@[i as int])[j as int] == d@);
            }
            if find_entry(entries, d.as_str()).is_none() {
                let mut msg = concat2("missing dependency ", d.as_str());
                push_text(&mut msg, " required by ");
                let sel = e.selector();
                push_text(&mut msg, sel.as_str());
                proof {
                    assert(!dependencies_resolve(entries@)) by {
                        assert(!in_catalog(entries@, dep_views(entries@[i as int])[j as int]));
                    }
                }
                return Err(msg);
            }
            j += 1;
        }
        proof {
            assert(missing_from(entries@, i as int, e.dependencies@.len() as int) == missing_from(entries@, i + 1, 0));
        }
        i += 1;
    }
    proof {
        assert(missing_from(entries@, entries@.len() as int, 0) is None);
    }
    Ok(())
}

/// The selectors of all entries, in catalogue order.
pub fn all_selectors(catalog: &Catalog) -> (r: Vec<String>)
    ensures
        views(r@) == catalog.entries@.map_values(|e: CatalogEntry| selector_of(e)),
{
    let mut r: Vec<String> = Vec::new();
    let mut i: usize = 0;
    while i < catalog.entries.len()
        invariant
            i <= catalog.entries.len(),
            views(r@) == catalog.entries@.take(i as int).map_values(|e: CatalogEntry| selector_of(e)),
        decreases catalog.entries.len() - i,
    {
        let ghost before = r@;
        r.push(catalog.entries[i].selector());
        proof {
            let f = |e: CatalogEntry| selector_of(e);
            assert(catalog.entries@.take(i + 1).map_values(f) =~= catalog.entries@.take(i as int).map_values(f).push(selector_of(catalog.entries@[i as int])));
            assert(views(r@) =~= views(before).push(r@[i as int]@));
        }
        i += 1;
    }
    proof {
        assert(catalog.entries@.take(catalog.entries.len() as int) =~= catalog.entries@);
    }
    r
}

/// Why the doctor refuses a catalogue, given the bodies read for its
/// selectors (each once, in entry order), if it does: the first selector
/// that cannot be hydrated (untrusted ones allowed), else the first
/// dependency that names no entry.
pub open spec fn doctor_failure(c: Catalog, bodies: Seq<BodyRead>) -> Option<Seq<char>> {
    let us = uniq(c.entries@.map_values(|e: CatalogEntry| selector_of(e)));
    match first_failure(c, us, true, bodies, 0) {
        Some(k) => Some(step_error(c, us, true, bodies, k)->0),
        None => dependency_error(c.entries@),
    }
}

/// Verifies every body (untrusted ones included) and every dependency of a
/// catalogue, given the bodies read for the plan of all its selectors.
pub fn doctor(catalog: &Catalog, bodies: Vec<BodyRead>) -> (r: SkillleafResult<()>)
    ensures
        match doctor_failure(*catalog, bodies@) {
            Some(m) => r matches Err(SkillleafError::Integrity(x)) && x@ == m,
            None => r is Ok,
        },
        ({
            let us = uniq(catalog.entries@.map_values(|e: CatalogEntry| selector_of(e)));
            match first_failure(*catalog, us, true, bodies@, 0) {
                Some(k) => r matches Err(SkillleafError::Integrity(m)) && m@ == step_error(*catalog, us, true, bodies@, k)->0,
                None => (r is Ok <==> dependencies_resolve(catalog.entries@)) && match dependency_error(catalog.entries@) {
                    Some(x) => r matches Err(SkillleafError::Integrity(m)) && m@ == x,
                    None => r is Ok,
                },
            }
        }),
{
    let selectors = all_selectors(catalog);
    match hydrate_with_policy(catalog, &selectors, true, bodies) {
        Err(e) => {
            return Err(e);
        },
        Ok(_) => {},
    }
    match validate_dependencies(&catalog.entries) {
        Err(m) => Err(SkillleafError::Integrity(m)),
        Ok(()) => Ok(()),
    }
}

} // verus!
