//! Building a catalogue: indexing every root, then ordering, checking and
//! sealing the entries with the catalogue digest.
use vstd::prelude::*;

use crate::catalog::{
    entry_view, entry_views, selector_of, view_selector, Catalog, CatalogEntry, CatalogRoot, EntryKind, EntryView,
    SkillleafError, SkillleafResult, CATALOG_SCHEMA,
};
use crate::hydrate::{dependencies_resolve, root_key, root_key_of, validate_dependencies};
use crate::index::{
    command_file_entries, entries_result, lemma_command_file_entries_shaped, lemma_skill_file_entries_shaped,
    skill_file_entries, source_name_error, source_trust, source_trust_of, validate_source_name, well_shaped, BuildOptions,
    RootScan, ScannedRoot, SourceFile,
};
use crate::integrity::{catalog_digest, catalog_hash, catalog_valid};
use crate::routing::{alias_error, validate_aliases};
use crate::security::TrustLevel;
use crate::strset::{copy_string, is_strset, ordered, strs_contain, strset_insert, strset_new, text_set, views};
use crate::text::{concat2, is_plain_name, lemma_lex_irreflexive, lemma_lex_total, lemma_lex_transitive, lex_le, lex_lt, owned, same_text, text_less};

verus! {

// ---------------------------------------------------------------------------
// One root
// ---------------------------------------------------------------------------
/// The entries of the `k`-th file of a root of a kind.
pub open spec fn file_entries(
    kind: EntryKind,
    source: Seq<char>,
    canonical: Seq<char>,
    files: Seq<SourceFile>,
    max: u64,
    base: TrustLevel,
    k: int,
) -> Result<Seq<EntryView>, Seq<char>> {
    if kind == EntryKind::Skill {
        skill_file_entries(source, canonical, files, max, base, k)
    } else {
        command_file_entries(source, canonical, files, max, base, k)
    }
}

/// The entries of the first `n` files of a root, in walk order; the first refusal stops indexing.
pub open spec fn root_files(
    kind: EntryKind,
    source: Seq<char>,
    canonical: Seq<char>,
    files: Seq<SourceFile>,
    max: u64,
    base: TrustLevel,
    n: int,
) -> Result<Seq<EntryView>, Seq<char>>
    decreases n,
{
    if n <= 0 {
        Ok(Seq::empty())
    } else {
        match root_files(kind, source, canonical, files, max, base, n - 1) {
            Err(m) => Err(m),
            Ok(a) => match file_entries(kind, source, canonical, files, max, base, n - 1) {
                Err(m) => Err(m),
                Ok(b) => Ok(a + b),
            },
        }
    }
}

proof fn lemma_root_files_err(
    kind: EntryKind,
    source: Seq<char>,
    canonical: Seq<char>,
    files: Seq<SourceFile>,
    max: u64,
    base: TrustLevel,
    k: int,
    n: int,
)
    requires
        1 <= k <= n,
        root_files(kind, source, canonical, files, max, base, k) is Err,
    ensures
        root_files(kind, source, canonical, files, max, base, n) == root_files(kind, source, canonical, files, max, base, k),
    decreases n - k,
{
    if k < n {
        lemma_root_files_err(kind, source, canonical, files, max, base, k, n - 1);
    }
}

proof fn lemma_root_files_shaped(
    kind: EntryKind,
    source: Seq<char>,
    canonical: Seq<char>,
    files: Seq<SourceFile>,
    max: u64,
    base: TrustLevel,
    n: int,
)
    requires
        kind != EntryKind::Resource,
    ensures
        root_files(kind, source, canonical, files, max, base, n) matches Ok(a) ==> forall|i: int|
            0 <= i < a.len() ==> well_shaped(#[trigger] a[i]) && a[i].source == source && root_key_of(source, a[i].kind)
                == root_key_of(source, kind) && (base == TrustLevel::Untrusted ==> a[i].trust == TrustLevel::Untrusted),
    decreases n,
{
    if n > 0 {
        lemma_root_files_shaped(kind, source, canonical, files, max, base, n - 1);
        lemma_skill_file_entries_shaped(source, canonical, files, max, base, n - 1);
        lemma_command_file_entries_shaped(source, canonical, files, max, base, n - 1);
        if let Ok(a) = root_files(kind, source, canonical, files, max, base, n) {
            let a0 = root_files(kind, source, canonical, files, max, base, n - 1)->Ok_0;
            let b = file_entries(kind, source, canonical, files, max, base, n - 1)->Ok_0;
            assert(a == a0 + b);
            assert forall|i: int| 0 <= i < a.len() implies well_shaped(#[trigger] a[i]) && a[i].source == source && root_key_of(
                source,
                a[i].kind,
            ) == root_key_of(source, kind) && (base == TrustLevel::Untrusted ==> a[i].trust == TrustLevel::Untrusted) by {
                if i >= a0.len() {
                    assert(a[i] == b[i - a0.len()]);
                }
            }
        }
    }
}

/// The entries of a skill or command root.
fn index_root(kind: EntryKind, source: &str, canonical: &str, files: &Vec<SourceFile>, max: u64, base: TrustLevel) -> (r: Result<
    Vec<CatalogEntry>,
    String,
>)
    requires
        kind != EntryKind::Resource,
    ensures
        entries_result(r) == root_files(kind, source@, canonical@, files@, max, base, files@.len() as int),
{
    let mut out: Vec<CatalogEntry> = Vec::new();
    proof {
        assert(entry_views(out@) =~= Seq::<EntryView>::empty());
    }
    let mut k: usize = 0;
    while k < files.len()
        invariant
            k <= files@.len(),
            kind != EntryKind::Resource,
            root_files(kind, source@, canonical@, files@, max, base, k as int) == Ok::<Seq<EntryView>, Seq<char>>(
                entry_views(out@),
            ),
        decreases files@.len() - k,
    {
        let r = if kind == EntryKind::Skill {
            crate::index::skill_file(source, canonical, files, max, base, k)
        } else {
            crate::index::command_file(source, canonical, files, max, base, k)
        };
        match r {
            Err(m) => {
                proof {
                    lemma_root_files_err(kind, source@, canonical@, files@, max, base, k + 1, files@.len() as int);
                }
                return Err(m);
            },
            Ok(more) => {
                crate::index::append_entries(&mut out, more);
            },
        }
        k += 1;
    }
    Ok(out)
}

// ---------------------------------------------------------------------------
// Every root
// ---------------------------------------------------------------------------
/// The root keys of (key, directory) pairs.
pub open spec fn pair_keys(ps: Seq<(Seq<char>, Seq<char>)>) -> Seq<Seq<char>> {
    ps.map_values(|p: (Seq<char>, Seq<char>)| p.0)
}

/// The (key, directory) pairs of the first `n` roots and their entries, in
/// order: a root is refused for a source name that is not plain, a failed
/// scan, a key already used, or the resource kind.
pub open spec fn index_roots(rs: Seq<ScannedRoot>, us: Set<Seq<char>>, ur: Set<Seq<char>>, max: u64, n: int) -> Result<
    (Seq<(Seq<char>, Seq<char>)>, Seq<EntryView>),
    Seq<char>,
>
    decreases n,
{
    if n <= 0 {
        Ok((Seq::empty(), Seq::empty()))
    } else {
        match index_roots(rs, us, ur, max, n - 1) {
            Err(m) => Err(m),
            Ok((ps, es)) => {
                let r = rs[n - 1];
                let name = r.root.name@;
                if !is_plain_name(name) {
                    Err(source_name_error(name))
                } else {
                    match r.scan {
                        RootScan::Unavailable(m) => Err(m@),
                        RootScan::Listed { canonical, files } => {
                            let key = root_key_of(name, r.root.kind);
                            if pair_keys(ps).contains(key) {
                                Err("duplicate source and kind: "@ + key)
                            } else if r.root.kind == EntryKind::Resource {
                                Err("resource roots are discovered through skill packages"@)
                            } else {
                                match root_files(
                                    r.root.kind,
                                    name,
                                    canonical@,
                                    files@,
                                    max,
                                    source_trust_of(us, ur, name, r.root.kind),
                                    files@.len() as int,
                                ) {
                                    Err(m) => Err(m),
                                    Ok(new) => Ok((ps.push((key, canonical@)), es + new)),
                                }
                            }
                        },
                    }
                }
            },
        }
    }
}

proof fn lemma_index_roots_err(rs: Seq<ScannedRoot>, us: Set<Seq<char>>, ur: Set<Seq<char>>, max: u64, k: int, n: int)
    requires
        1 <= k <= n,
        index_roots(rs, us, ur, max, k) is Err,
    ensures
        index_roots(rs, us, ur, max, n) == index_roots(rs, us, ur, max, k),
    decreases n - k,
{
    if k < n {
        lemma_index_roots_err(rs, us, ur, max, k, n - 1);
    }
}

/// An indexed entry is untrusted when its source, or the root it lies in, is
/// listed as untrusted.
pub open spec fn trust_kept(v: EntryView, us: Set<Seq<char>>, ur: Set<Seq<char>>) -> bool {
    (us.contains(v.source) || ur.contains(root_key_of(v.source, v.kind))) ==> v.trust == TrustLevel::Untrusted
}

proof fn lemma_index_roots_shaped(rs: Seq<ScannedRoot>, us: Set<Seq<char>>, ur: Set<Seq<char>>, max: u64, n: int)
    ensures
        index_roots(rs, us, ur, max, n) matches Ok((ps, es)) ==> forall|i: int|
            0 <= i < es.len() ==> well_shaped(#[trigger] es[i]) && trust_kept(es[i], us, ur),
    decreases n,
{
    if n > 0 {
        lemma_index_roots_shaped(rs, us, ur, max, n - 1);
        let r = rs[n - 1];
        let name = r.root.name@;
        if let RootScan::Listed { canonical, files } = r.scan {
            if r.root.kind != EntryKind::Resource {
                let base = source_trust_of(us, ur, name, r.root.kind);
                lemma_root_files_shaped(r.root.kind, name, canonical@, files@, max, base, files@.len() as int);
            }
        }
        if let Ok((ps, es)) = index_roots(rs, us, ur, max, n) {
            let e0 = index_roots(rs, us, ur, max, n - 1)->Ok_0.1;
            if let RootScan::Listed { canonical, files } = r.scan {
                let base = source_trust_of(us, ur, name, r.root.kind);
                let new = root_files(r.root.kind, name, canonical@, files@, max, base, files@.len() as int)->Ok_0;
                assert(es == e0 + new);
                assert forall|i: int| 0 <= i < es.len() implies well_shaped(#[trigger] es[i]) && trust_kept(es[i], us, ur) by {
                    if i >= e0.len() {
                        assert(es[i] == new[i - e0.len()]);
                    } else {
                        assert(es[i] == e0[i]);
                    }
                }
            }
        }
    }
}

/// The canonical directory of a walked root (empty when the walk failed).
pub open spec fn listed_dir(r: ScannedRoot) -> Seq<char> {
    match r.scan {
        RootScan::Listed { canonical, files } => canonical@,
        RootScan::Unavailable(_) => Seq::empty(),
    }
}

proof fn lemma_index_roots_pairs(rs: Seq<ScannedRoot>, us: Set<Seq<char>>, ur: Set<Seq<char>>, max: u64, n: int)
    requires
        0 <= n <= rs.len(),
    ensures
        index_roots(rs, us, ur, max, n) matches Ok((ps, es)) ==> ps.len() == n && forall|j: int|
            0 <= j < n ==> #[trigger] ps[j] == (root_key_of(rs[j].root.name@, rs[j].root.kind), listed_dir(rs[j])),
    decreases n,
{
    if n > 0 {
        lemma_index_roots_pairs(rs, us, ur, max, n - 1);
    }
}

/// The (key, directory) pairs of catalogue roots.
pub open spec fn root_pairs(rs: Seq<CatalogRoot>) -> Seq<(Seq<char>, Seq<char>)> {
    rs.map_values(|r: CatalogRoot| (r.key@, r.path@))
}

/// Roots in strictly increasing key order.
pub open spec fn roots_sorted(rs: Seq<CatalogRoot>) -> bool {
    forall|i: int, j: int| 0 <= i < j < rs.len() ==> lex_lt(#[trigger] rs[i].key@, #[trigger] rs[j].key@)
}

/// Inserts a root with a new key at its place in key order.
fn insert_root(v: &mut Vec<CatalogRoot>, key: String, path: String)
    requires
        roots_sorted(old(v)@),
        !pair_keys(root_pairs(old(v)@)).contains(key@),
    ensures
        roots_sorted(final(v)@),
        root_pairs(final(v)@).to_set() == root_pairs(old(v)@).to_set().insert((key@, path@)),
{
    let ghost ov = v@;
    let mut p: usize = 0;
    while p < v.len() && text_less(v[p].key.as_str(), key.as_str())
        invariant
            p <= v@.len(),
            v@ == ov,
            roots_sorted(ov),
            forall|j: int| 0 <= j < p ==> lex_lt(#[trigger] ov[j].key@, key@),
        decreases v@.len() - p,
    {
        p += 1;
    }
    proof {
        if p < ov.len() {
            assert(root_pairs(ov)[p as int].0 == ov[p as int].key@);
            assert(pair_keys(root_pairs(ov))[p as int] == ov[p as int].key@);
            lemma_lex_total(ov[p as int].key@, key@);
            assert(lex_lt(key@, ov[p as int].key@));
        }
    }
    let ghost kv = key@;
    let ghost pv = path@;
    v.insert(p, CatalogRoot { key, path });
    proof {
        assert forall|i: int, j: int| 0 <= i < j < v@.len() implies lex_lt(#[trigger] v@[i].key@, #[trigger] v@[j].key@) by {
            if j < p {
                assert(v@[i] == ov[i] && v@[j] == ov[j]);
            } else if j == p {
                assert(v@[i] == ov[i]);
            } else if i < p {
                assert(v@[i] == ov[i] && v@[j] == ov[j - 1]);
                if j - 1 > p {
                    lemma_lex_transitive(kv, ov[p as int].key@, ov[j - 1].key@);
                }
                lemma_lex_transitive(ov[i].key@, kv, ov[j - 1].key@);
            } else if i == p {
                assert(v@[j] == ov[j - 1]);
                if j - 1 > p {
                    lemma_lex_transitive(kv, ov[p as int].key@, ov[j - 1].key@);
                }
            } else {
                assert(v@[i] == ov[i - 1] && v@[j] == ov[j - 1]);
            }
        }
        assert(root_pairs(v@) =~= root_pairs(ov).insert(p as int, (kv, pv)));
        assert(root_pairs(v@).to_set() =~= root_pairs(ov).to_set().insert((kv, pv))) by {
            assert forall|x| root_pairs(v@).to_set().contains(x) implies root_pairs(ov).to_set().insert((kv, pv)).contains(x) by {
                let i = choose|i: int| 0 <= i < root_pairs(v@).len() && root_pairs(v@)[i] == x;
                if i < p {
                    assert(root_pairs(ov)[i] == x);
                } else if i > p {
                    assert(root_pairs(ov)[i - 1] == x);
                }
            }
            assert forall|x| root_pairs(ov).to_set().insert((kv, pv)).contains(x) implies root_pairs(v@).to_set().contains(x) by {
                if x == (kv, pv) {
                    assert(root_pairs(v@)[p as int] == x);
                } else {
                    let i = choose|i: int| 0 <= i < root_pairs(ov).len() && root_pairs(ov)[i] == x;
                    if i < p {
                        assert(root_pairs(v@)[i] == x);
                    } else {
                        assert(root_pairs(v@)[i + 1] == x);
                    }
                }
            }
        }
    }
}

/// Whether a root key is among the keys of ordered roots.
fn has_root_key(v: &Vec<CatalogRoot>, key: &str) -> (r: bool)
    ensures
        r == pair_keys(root_pairs(v@)).contains(key@),
{
    let mut i: usize = 0;
    while i < v.len()
        invariant
            i <= v@.len(),
            forall|j: int| 0 <= j < i ==> (#[trigger] v@[j]).key@ != key@,
        decreases v@.len() - i,
    {
        if same_text(v[i].key.as_str(), key) {
            proof {
                assert(pair_keys(root_pairs(v@))[i as int] == key@);
            }
            return true;
        }
        i += 1;
    }
    proof {
        if pair_keys(root_pairs(v@)).contains(key@) {
            let j = choose|j: int| 0 <= j < pair_keys(root_pairs(v@)).len() && pair_keys(root_pairs(v@))[j] == key@;
            assert(v@[j].key@ == key@);
        }
    }
    false
}

/// Indexes every root: the roots in key order and the entries in index order.
fn index_all(roots: &Vec<ScannedRoot>, max: u64, options: &BuildOptions) -> (r: Result<(Vec<CatalogRoot>, Vec<CatalogEntry>), String>)
    ensures
        match index_roots(roots@, text_set(options.untrusted_sources@), text_set(options.untrusted_roots@), max, roots@.len() as int) {
            Err(m) => r matches Err(x) && x@ == m,
            Ok((ps, es)) => r matches Ok((rv, ev)) && roots_sorted(rv@) && root_pairs(rv@).to_set() == ps.to_set()
                && entry_views(ev@) == es,
        },
{
    let mut rv: Vec<CatalogRoot> = Vec::new();
    let mut ev: Vec<CatalogEntry> = Vec::new();
    let ghost mut ps: Seq<(Seq<char>, Seq<char>)> = Seq::empty();
    proof {
        assert(entry_views(ev@) =~= Seq::<EntryView>::empty());
        assert(root_pairs(rv@).to_set() =~= ps.to_set());
    }
    let mut i: usize = 0;
    while i < roots.len()
        invariant
            i <= roots@.len(),
            roots_sorted(rv@),
            index_roots(roots@, text_set(options.untrusted_sources@), text_set(options.untrusted_roots@), max, i as int) == Ok::<(Seq<(Seq<char>, Seq<char>)>, Seq<EntryView>), Seq<char>>(
                (ps, entry_views(ev@)),
            ),
            root_pairs(rv@).to_set() == ps.to_set(),
        decreases roots@.len() - i,
    {
        let sr = &roots[i];
        match validate_source_name(sr.root.name.as_str()) {
            Err(m) => {
                proof {
                    lemma_index_roots_err(roots@, text_set(options.untrusted_sources@), text_set(options.untrusted_roots@), max, i + 1, roots@.len() as int);
                }
                return Err(m);
            },
            Ok(()) => {},
        }
        match &sr.scan {
            RootScan::Unavailable(m) => {
                proof {
                    lemma_index_roots_err(roots@, text_set(options.untrusted_sources@), text_set(options.untrusted_roots@), max, i + 1, roots@.len() as int);
                }
                return Err(copy_string(m));
            },
            RootScan::Listed { canonical, files } => {
                let key = root_key(sr.root.name.as_str(), sr.root.kind);
                proof {
                    assert(pair_keys(ps).contains(key@) == pair_keys(root_pairs(rv@)).contains(key@)) by {
                        if pair_keys(ps).contains(key@) {
                            let j = choose|j: int| 0 <= j < pair_keys(ps).len() && pair_keys(ps)[j] == key@;
                            assert(ps.to_set().contains(ps[j]));
                            assert(root_pairs(rv@).to_set().contains(ps[j]));
                            let t = choose|t: int| 0 <= t < root_pairs(rv@).len() && root_pairs(rv@)[t] == ps[j];
                            assert(pair_keys(root_pairs(rv@))[t] == key@);
                        }
                        if pair_keys(root_pairs(rv@)).contains(key@) {
                            let j = choose|j: int| 0 <= j < pair_keys(root_pairs(rv@)).len() && pair_keys(root_pairs(rv@))[j] == key@;
                            assert(root_pairs(rv@).to_set().contains(root_pairs(rv@)[j]));
                            assert(ps.to_set().contains(root_pairs(rv@)[j]));
                            let t = choose|t: int| 0 <= t < ps.len() && ps[t] == root_pairs(rv@)[j];
                            assert(pair_keys(ps)[t] == key@);
                        }
                    }
                }
                if has_root_key(&rv, key.as_str()) {
                    proof {
                        lemma_index_roots_err(roots@, text_set(options.untrusted_sources@), text_set(options.untrusted_roots@), max, i + 1, roots@.len() as int);
                    }
                    return Err(concat2("duplicate source and kind: ", key.as_str()));
                }
                if sr.root.kind == EntryKind::Resource {
                    proof {
                        lemma_index_roots_err(roots@, text_set(options.untrusted_sources@), text_set(options.untrusted_roots@), max, i + 1, roots@.len() as int);
                    }
                    return Err(owned("resource roots are discovered through skill packages"));
                }
                let trust = source_trust(sr.root.name.as_str(), sr.root.kind, options);
                match index_root(sr.root.kind, sr.root.name.as_str(), canonical.as_str(), files, max, trust) {
                    Err(m) => {
                        proof {
                            lemma_index_roots_err(roots@, text_set(options.untrusted_sources@), text_set(options.untrusted_roots@), max, i + 1, roots@.len() as int);
                        }
                        return Err(m);
                    },
                    Ok(more) => {
                        let ghost kv = key@;
                        let ghost cv = canonical@;
                        let ghost old_ps = ps;
                        insert_root(&mut rv, key, copy_string(canonical));
                        crate::index::append_entries(&mut ev, more);
                        proof {
                            ps = ps.push((kv, cv));
                            old_ps.lemma_push_to_set_commute((kv, cv));
                            assert(ps.to_set() =~= root_pairs(rv@).to_set());
                        }
                    },
                }
            },
        }
        i += 1;
    }
    Ok((rv, ev))
}

// ---------------------------------------------------------------------------
// Ordering and sealing the entries
// ---------------------------------------------------------------------------
/// Selectors that more than one entry has.
pub open spec fn dup_selectors(vs: Seq<EntryView>) -> Set<Seq<char>> {
    Set::new(
        |s: Seq<char>|
            exists|i: int, j: int|
                0 <= i < vs.len() && 0 <= j < vs.len() && i != j && #[trigger] view_selector(vs[i]) == s && #[trigger] view_selector(vs[j]) == s,
    )
}

/// Entries in strictly increasing selector order.
pub open spec fn entries_sorted(es: Seq<CatalogEntry>) -> bool {
    forall|i: int, j: int| 0 <= i < j < es.len() ==> lex_lt(#[trigger] selector_of(es[i]), #[trigger] selector_of(es[j]))
}

/// `es` holds the entries `raw` in selector order.
pub open spec fn sorted_perm(es: Seq<CatalogEntry>, raw: Seq<EntryView>) -> bool {
    entries_sorted(es) && entry_views(es).to_multiset() == raw.to_multiset()
}

/// A catalogue built from roots with the (key, directory) pairs `ps` and from the entries `raw`.
pub open spec fn built_from(c: Catalog, ps: Seq<(Seq<char>, Seq<char>)>, raw: Seq<EntryView>) -> bool {
    &&& c.schema@ == CATALOG_SCHEMA@
    &&& roots_sorted(c.roots@)
    &&& root_pairs(c.roots@).to_set() == ps.to_set()
    &&& sorted_perm(c.entries@, raw)
    &&& c.catalog_sha256@ == catalog_digest(c.roots@, c.entries@)
    &&& alias_error(c.entries@) is None
    &&& dependencies_resolve(c.entries@)
}

proof fn lemma_view_selector(e: CatalogEntry)
    ensures
        view_selector(entry_view(e)) == selector_of(e),
{
}

/// The selectors that more than one entry has, as an ordered set.
fn duplicates(es: &Vec<CatalogEntry>) -> (r: Vec<String>)
    ensures
        is_strset(r@),
        text_set(r@) == dup_selectors(entry_views(es@)),
{
    let ghost vs = entry_views(es@);
    let mut sels: Vec<String> = Vec::new();
    let mut k: usize = 0;
    while k < es.len()
        invariant
            k <= es@.len(),
            vs == entry_views(es@),
            sels@.len() == k,
            forall|t: int| 0 <= t < k ==> (#[trigger] sels@[t])@ == view_selector(vs[t]),
        decreases es@.len() - k,
    {
        sels.push(es[k].selector());
        k += 1;
    }
    let mut r = strset_new();
    let mut i: usize = 0;
    while i < sels.len()
        invariant
            i <= sels@.len(),
            sels@.len() == vs.len(),
            forall|t: int| 0 <= t < sels@.len() ==> (#[trigger] sels@[t])@ == view_selector(vs[t]),
            is_strset(r@),
            text_set(r@) == Set::new(
                |s: Seq<char>|
                    exists|a: int, b: int|
                        0 <= a < i && 0 <= b < vs.len() && a != b && #[trigger] view_selector(vs[a]) == s && #[trigger] view_selector(vs[b]) == s,
            ),
        decreases sels@.len() - i,
    {
        let mut j: usize = 0;
        let mut found = false;
        while j < sels.len()
            invariant
                i < sels@.len(),
                j <= sels@.len(),
                sels@.len() == vs.len(),
                forall|t: int| 0 <= t < sels@.len() ==> (#[trigger] sels@[t])@ == view_selector(vs[t]),
                found <==> exists|b: int| 0 <= b < j && b != i && #[trigger] view_selector(vs[b]) == view_selector(vs[i as int]),
            decreases sels@.len() - j,
        {
            if j != i && same_text(sels[j].as_str(), sels[i].as_str()) {
                found = true;
            }
            j += 1;
        }
        let ghost before = text_set(r@);
        if found {
            strset_insert(&mut r, copy_string(&sels[i]));
        }
        proof {
            let si = view_selector(vs[i as int]);
            let old_set = Set::new(
                |s: Seq<char>|
                    exists|a: int, b: int|
                        0 <= a < i && 0 <= b < vs.len() && a != b && #[trigger] view_selector(vs[a]) == s && #[trigger] view_selector(vs[b]) == s,
            );
            let new_set = Set::new(
                |s: Seq<char>|
                    exists|a: int, b: int|
                        0 <= a < i + 1 && 0 <= b < vs.len() && a != b && #[trigger] view_selector(vs[a]) == s && #[trigger] view_selector(vs[b]) == s,
            );
            assert forall|s: Seq<char>| new_set.contains(s) <==> text_set(r@).contains(s) by {
                if new_set.contains(s) {
                    let (a, b) = choose|a: int, b: int|
                        0 <= a < i + 1 && 0 <= b < vs.len() && a != b && #[trigger] view_selector(vs[a]) == s && #[trigger] view_selector(vs[b]) == s;
                    if a < i {
                        assert(old_set.contains(s));
                    } else {
                        assert(found);
                    }
                }
                if text_set(r@).contains(s) {
                    if before.contains(s) {
                        let (a, b) = choose|a: int, b: int|
                            0 <= a < i && 0 <= b < vs.len() && a != b && #[trigger] view_selector(vs[a]) == s && #[trigger] view_selector(vs[b]) == s;
                        assert(new_set.contains(s));
                    } else {
                        assert(found && s == si);
                        let b = choose|b: int| 0 <= b < sels@.len() && b != i && #[trigger] view_selector(vs[b]) == view_selector(vs[i as int]);
                        assert(view_selector(vs[i as int]) == s && view_selector(vs[b]) == s);
                        assert(new_set.contains(s));
                    }
                }
            }
            assert(text_set(r@) =~= new_set);
        }
        i += 1;
    }
    proof {
        assert(text_set(r@) =~= dup_selectors(vs));
    }
    r
}

/// Inserts an entry with a new selector at its place in selector order.
fn insert_entry(v: &mut Vec<CatalogEntry>, e: CatalogEntry)
    requires
        entries_sorted(old(v)@),
        forall|k: int| 0 <= k < old(v)@.len() ==> selector_of(#[trigger] old(v)@[k]) != selector_of(e),
    ensures
        entries_sorted(final(v)@),
        exists|p: int| 0 <= p <= old(v)@.len() && final(v)@ == old(v)@.insert(p, e),
{
    let ghost ov = v@;
    let sel = e.selector();
    let mut p: usize = 0;
    while p < v.len() && !text_less(sel.as_str(), v[p].selector().as_str())
        invariant
            p <= v@.len(),
            v@ == ov,
            sel@ == selector_of(e),
            entries_sorted(ov),
            forall|k: int| 0 <= k < ov.len() ==> selector_of(#[trigger] ov[k]) != selector_of(e),
            forall|j: int| 0 <= j < p ==> lex_lt(#[trigger] selector_of(ov[j]), selector_of(e)),
        decreases v@.len() - p,
    {
        proof {
            lemma_lex_total(selector_of(e), selector_of(ov[p as int]));
        }
        p += 1;
    }
    let ghost se = selector_of(e);
    v.insert(p, e);
    proof {
        assert forall|i: int, j: int| 0 <= i < j < v@.len() implies lex_lt(#[trigger] selector_of(v@[i]), #[trigger] selector_of(v@[j])) by {
            if j < p {
                assert(v@[i] == ov[i] && v@[j] == ov[j]);
            } else if j == p {
                assert(v@[i] == ov[i]);
            } else if i < p {
                assert(v@[i] == ov[i] && v@[j] == ov[j - 1]);
                if j - 1 > p {
                    lemma_lex_transitive(se, selector_of(ov[p as int]), selector_of(ov[j - 1]));
                }
                lemma_lex_transitive(selector_of(ov[i]), se, selector_of(ov[j - 1]));
            } else if i == p {
                assert(v@[j] == ov[j - 1]);
                if j - 1 > p {
                    lemma_lex_transitive(se, selector_of(ov[p as int]), selector_of(ov[j - 1]));
                }
            } else {
                assert(v@[i] == ov[i - 1] && v@[j] == ov[j - 1]);
            }
        }
    }
}

/// The entries in selector order, given that no two share a selector.
fn sort_entries(raw: Vec<CatalogEntry>) -> (out: Vec<CatalogEntry>)
    requires
        dup_selectors(entry_views(raw@)) == Set::<Seq<char>>::empty(),
    ensures
        sorted_perm(out@, entry_views(raw@)),
{
    broadcast use vstd::multiset::group_multiset_axioms;

    let ghost r0 = raw@;
    let mut rest = raw;
    let mut out: Vec<CatalogEntry> = Vec::new();
    proof {
        assert(entry_views(out@) =~= Seq::<EntryView>::empty());
        assert(rest@.take(rest@.len() as int) =~= rest@);
        vstd::seq_lib::to_multiset_len(entry_views(out@));
        vstd::multiset::lemma_multiset_empty_len(entry_views(out@).to_multiset());
        assert(entry_views(out@).to_multiset() =~= vstd::multiset::Multiset::<EntryView>::empty());
        assert(entry_views(out@).to_multiset().add(entry_views(rest@).to_multiset()) =~= entry_views(r0).to_multiset());
    }
    while rest.len() > 0
        invariant
            rest@.len() <= r0.len(),
            rest@ == r0.take(rest@.len() as int),
            dup_selectors(entry_views(r0)) == Set::<Seq<char>>::empty(),
            entries_sorted(out@),
            entry_views(out@).to_multiset().add(entry_views(rest@).to_multiset()) == entry_views(r0).to_multiset(),
            forall|k: int| 0 <= k < out@.len() ==> exists|t: int| rest@.len() <= t < r0.len() && #[trigger] out@[k] == r0[t],
        decreases rest@.len(),
    {
        let ghost n = rest@.len();
        let ghost old_out = out@;
        let ghost old_rest = rest@;
        let e = rest.pop().unwrap();
        proof {
            assert(e == r0[n - 1]);
            assert forall|k: int| 0 <= k < out@.len() implies selector_of(#[trigger] out@[k]) != selector_of(e) by {
                let t = choose|t: int| n <= t < r0.len() && out@[k] == r0[t];
                if selector_of(r0[t]) == selector_of(e) {
                    lemma_view_selector(r0[t]);
                    lemma_view_selector(r0[n - 1]);
                    assert(entry_views(r0)[t] == entry_view(r0[t]));
                    assert(entry_views(r0)[n - 1] == entry_view(r0[n - 1]));
                    assert(dup_selectors(entry_views(r0)).contains(selector_of(e)));
                }
            }
        }
        insert_entry(&mut out, e);
        proof {
            let p = choose|p: int| 0 <= p <= old_out.len() && out@ == old_out.insert(p, e);
            assert(entry_views(out@) =~= entry_views(old_out).insert(p, entry_view(e)));
            vstd::seq_lib::to_multiset_insert(entry_views(old_out), p, entry_view(e));
            assert(entry_views(old_rest) =~= entry_views(rest@).push(entry_view(e)));
            vstd::seq_lib::to_multiset_build(entry_views(rest@), entry_view(e));
            assert(entry_views(out@).to_multiset().add(entry_views(rest@).to_multiset()) =~= entry_views(old_out).to_multiset().add(
                entry_views(old_rest).to_multiset(),
            ));
            assert(rest@ =~= r0.take(rest@.len() as int));
            assert forall|k: int| 0 <= k < out@.len() implies exists|t: int| rest@.len() <= t < r0.len() && #[trigger] out@[k] == r0[t] by {
                if k < p {
                    assert(out@[k] == old_out[k]);
                } else if k == p {
                    assert(out@[k] == r0[n - 1]);
                } else {
                    assert(out@[k] == old_out[k - 1]);
                }
            }
        }
    }
    proof {
        assert(entry_views(rest@) =~= Seq::<EntryView>::empty());
        vstd::seq_lib::to_multiset_len(entry_views(rest@));
        vstd::multiset::lemma_multiset_empty_len(entry_views(rest@).to_multiset());
        assert(entry_views(out@).to_multiset().add(vstd::multiset::Multiset::<EntryView>::empty()) =~= entry_views(out@).to_multiset());
    }
    out
}

/// What building from scanned roots gives: the roots' and entries' refusals
/// in order; then a refusal of a selector that two entries share (the least
/// such selector), of colliding or empty aliases, or of a dependency on no
/// entry; otherwise the catalogue of those roots and entries, in order and
/// sealed with its digest.
pub open spec fn build_outcome(r: SkillleafResult<Catalog>, roots: Seq<ScannedRoot>, us: Set<Seq<char>>, ur: Set<Seq<char>>, max: u64) -> bool {
    if roots.len() == 0 {
        r matches Err(SkillleafError::CatalogInput(m)) && m@ == "at least one source root is required"@
    } else {
        match index_roots(roots, us, ur, max, roots.len() as int) {
            Err(m) => r matches Err(SkillleafError::CatalogInput(x)) && x@ == m,
            Ok((ps, raw)) => if dup_selectors(raw) != Set::<Seq<char>>::empty() {
                r matches Err(SkillleafError::CatalogInput(x)) && x@ == "duplicate catalog selector: "@ + ordered(dup_selectors(raw))[0]
            } else {
                &&& (r matches Ok(c) ==> built_from(c, ps, raw))
                &&& (r matches Err(e) ==> e matches SkillleafError::CatalogInput(x) && exists|es: Seq<CatalogEntry>|
                    #[trigger] sorted_perm(es, raw) && (alias_error(es) == Some(x@) || (alias_error(es) is None
                        && crate::hydrate::dependency_error(es) == Some(x@))))
                &&& ((forall|es: Seq<CatalogEntry>| #[trigger] sorted_perm(es, raw) ==> alias_error(es) is None
                    && dependencies_resolve(es)) ==> r is Ok)
            },
        }
    }
}

/// Builds a catalogue from walked source roots, trusting only the roots that
/// the options do not list as untrusted.
pub fn build_catalog_with_options(roots: &Vec<ScannedRoot>, max_file_bytes: u64, options: &BuildOptions) -> (r: SkillleafResult<Catalog>)
    ensures
        build_outcome(r, roots@, text_set(options.untrusted_sources@), text_set(options.untrusted_roots@), max_file_bytes),
{
    if roots.len() == 0 {
        return Err(SkillleafError::CatalogInput(owned("at least one source root is required")));
    }
    let (rv, ev) = match index_all(roots, max_file_bytes, options) {
        Err(m) => {
            return Err(SkillleafError::CatalogInput(m));
        },
        Ok(p) => p,
    };
    let dups = duplicates(&ev);
    if dups.len() > 0 {
        let mut m = owned("duplicate catalog selector: ");
        crate::text::push_text(&mut m, dups[0].as_str());
        proof {
            crate::strset::lemma_ordered(dups@);
            assert(views(dups@)[0] == dups@[0]@);
            assert(views(dups@).to_set().contains(views(dups@)[0]));
            assert(text_set(dups@).contains(dups@[0]@));
        }
        return Err(SkillleafError::CatalogInput(m));
    }
    proof {
        assert(text_set(dups@) =~= Set::<Seq<char>>::empty());
    }
    let entries = sort_entries(ev);
    match validate_aliases(&entries) {
        Err(m) => {
            return Err(SkillleafError::CatalogInput(m));
        },
        Ok(()) => {},
    }
    match validate_dependencies(&entries) {
        Err(m) => {
            return Err(SkillleafError::CatalogInput(m));
        },
        Ok(()) => {},
    }
    let hash = catalog_hash(&rv, &entries);
    Ok(Catalog { schema: owned(CATALOG_SCHEMA), catalog_sha256: hash, roots: rv, entries })
}

/// Builds a catalogue in which every root is trusted.
pub fn build_catalog(roots: &Vec<ScannedRoot>, max_file_bytes: u64) -> (r: SkillleafResult<Catalog>)
    ensures
        build_outcome(r, roots@, Set::empty(), Set::empty(), max_file_bytes),
{
    let o = BuildOptions { untrusted_sources: strset_new(), untrusted_roots: strset_new() };
    build_catalog_with_options(roots, max_file_bytes, &o)
}

/// Every entry of a built catalogue is well shaped (ordered aliases and
/// capabilities without repeats, a description of at most 240 characters),
/// and every entry whose source or root is listed as untrusted is untrusted,
/// whatever its frontmatter declares.
pub proof fn lemma_built_entries_shaped(
    r: SkillleafResult<Catalog>,
    roots: Seq<ScannedRoot>,
    us: Set<Seq<char>>,
    ur: Set<Seq<char>>,
    max: u64,
)
    requires
        build_outcome(r, roots, us, ur, max),
    ensures
        r matches Ok(c) ==> forall|i: int|
            0 <= i < c.entries@.len() ==> well_shaped(entry_view(#[trigger] c.entries@[i])) && trust_kept(
                entry_view(c.entries@[i]),
                us,
                ur,
            ),
{
    if let Ok(c) = r {
        lemma_index_roots_shaped(roots, us, ur, max, roots.len() as int);
        let raw = index_roots(roots, us, ur, max, roots.len() as int)->Ok_0.1;
        assert(sorted_perm(c.entries@, raw));
        let evs = entry_views(c.entries@);
        assert forall|i: int| 0 <= i < c.entries@.len() implies well_shaped(entry_view(#[trigger] c.entries@[i])) && trust_kept(
            entry_view(c.entries@[i]),
            us,
            ur,
        ) by {
            broadcast use vstd::seq_lib::group_to_multiset_ensures;
            assert(evs[i] == entry_view(c.entries@[i]));
            assert(evs.contains(evs[i]));
            assert(evs.to_multiset().count(evs[i]) > 0);
            assert(raw.contains(evs[i]));
            let j = choose|j: int| 0 <= j < raw.len() && raw[j] == evs[i];
            assert(well_shaped(raw[j]) && trust_kept(raw[j], us, ur));
        }
    }
}

/// Building fails closed on its roots: a root whose source name is not a
/// plain name, whose walk failed, or whose kind is the resource kind makes the
/// whole build a catalogue-input error, wherever the root stands in the list.
pub proof fn lemma_bad_root_refused(
    r: SkillleafResult<Catalog>,
    roots: Seq<ScannedRoot>,
    us: Set<Seq<char>>,
    ur: Set<Seq<char>>,
    max: u64,
    j: int,
)
    requires
        build_outcome(r, roots, us, ur, max),
        0 <= j < roots.len(),
        !is_plain_name(roots[j].root.name@) || roots[j].scan is Unavailable || roots[j].root.kind == EntryKind::Resource,
    ensures
        r matches Err(SkillleafError::CatalogInput(_)),
{
    assert(index_roots(roots, us, ur, max, j + 1) is Err);
    lemma_index_roots_err(roots, us, ur, max, j + 1, roots.len() as int);
}

/// The roots of a built catalogue are the walked roots: one per root, keyed
/// by its source name and kind, at the directory its walk resolved.
pub proof fn lemma_built_roots(
    r: SkillleafResult<Catalog>,
    roots: Seq<ScannedRoot>,
    us: Set<Seq<char>>,
    ur: Set<Seq<char>>,
    max: u64,
)
    requires
        build_outcome(r, roots, us, ur, max),
    ensures
        r matches Ok(c) ==> root_pairs(c.roots@).to_set() == roots.map_values(
            |x: ScannedRoot| (root_key_of(x.root.name@, x.root.kind), listed_dir(x)),
        ).to_set(),
{
    if let Ok(c) = r {
        lemma_index_roots_pairs(roots, us, ur, max, roots.len() as int);
        let ps = index_roots(roots, us, ur, max, roots.len() as int)->Ok_0.0;
        let want = roots.map_values(|x: ScannedRoot| (root_key_of(x.root.name@, x.root.kind), listed_dir(x)));
        assert(ps =~= want);
    }
}

/// A catalogue that indexing builds is accepted when read back: its schema is
/// the supported one and its recorded digest matches its content.
pub proof fn lemma_built_catalog_loads(c: Catalog, ps: Seq<(Seq<char>, Seq<char>)>, raw: Seq<EntryView>)
    requires
        built_from(c, ps, raw),
    ensures
        catalog_valid(c),
{
}

} // verus!
