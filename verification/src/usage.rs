//! The local usage ledger: how often each selector was hydrated, and the
//! report of hydration counts over a catalogue.
use vstd::prelude::*;

use crate::catalog::{selector_of, Catalog, CatalogEntry, EntryKind, SkillleafError, SkillleafResult};
use crate::hydrate::HydratedEntry;
use crate::strset::copy_string;
use crate::text::{concat2, lemma_lex_total, lemma_lex_transitive, lex_le, lex_lt, owned, same_text, text_less};

verus! {

/// The schema tag of the usage ledger.
pub const USAGE_SCHEMA: &'static str = "skillleaf.usage.v1";

/// What the ledger keeps for one selector.
#[derive(Clone, Debug)]
pub struct UsageRecord {
    pub hydrate_count: u64,
    pub last_hydrated_unix_ms: u64,
    pub content_sha256: String,
}

/// The record of one selector.
#[derive(Clone, Debug)]
pub struct LedgerEntry {
    pub selector: String,
    pub record: UsageRecord,
}

/// The ledger, ordered by selector with each selector once.
#[derive(Clone, Debug)]
pub struct UsageLedger {
    pub schema: String,
    pub entries: Vec<LedgerEntry>,
}

/// A record as plain values: count, time and digest.
pub type RecordView = (u64, u64, Seq<char>);

pub open spec fn record_view(r: UsageRecord) -> RecordView {
    (r.hydrate_count, r.last_hydrated_unix_ms, r.content_sha256@)
}

/// Ledger entries in strictly increasing selector order.
pub open spec fn ledger_sorted(es: Seq<LedgerEntry>) -> bool {
    forall|i: int, j: int| 0 <= i < j < es.len() ==> lex_lt(#[trigger] es[i].selector@, #[trigger] es[j].selector@)
}

/// The ledger holds this record for a selector.
pub open spec fn has_record(es: Seq<LedgerEntry>, s: Seq<char>, v: RecordView) -> bool {
    exists|i: int| 0 <= i < es.len() && (#[trigger] es[i]).selector@ == s && record_view(es[i].record) == v
}

/// The ledger holds a record for a selector.
pub open spec fn has_selector(es: Seq<LedgerEntry>, s: Seq<char>) -> bool {
    exists|i: int| 0 <= i < es.len() && (#[trigger] es[i]).selector@ == s
}

/// Accepts a stored ledger (none when there is no ledger file yet, which reads
/// as the empty ledger) when its schema is supported.
pub fn load_usage_ledger(stored: Option<UsageLedger>) -> (r: Result<UsageLedger, String>)
    ensures
        match stored {
            None => r matches Ok(l) && l.schema@ == USAGE_SCHEMA@ && l.entries@.len() == 0,
            Some(l) => if l.schema@ == USAGE_SCHEMA@ {
                r matches Ok(x) && x == l
            } else {
                r matches Err(m) && m@ == "unsupported usage schema: "@ + l.schema@
            },
        },
{
    match stored {
        None => Ok(UsageLedger { schema: owned(USAGE_SCHEMA), entries: Vec::new() }),
        Some(l) => {
            if same_text(l.schema.as_str(), USAGE_SCHEMA) {
                Ok(l)
            } else {
                Err(concat2("unsupported usage schema: ", l.schema.as_str()))
            }
        },
    }
}

/// In a ledger in selector order, a selector occurs at one position only.
proof fn lemma_ledger_unique(es: Seq<LedgerEntry>, p: int)
    requires
        ledger_sorted(es),
        0 <= p < es.len(),
    ensures
        forall|i: int| 0 <= i < es.len() && i != p ==> (#[trigger] es[i]).selector@ != es[p].selector@,
{
    assert forall|i: int| 0 <= i < es.len() && i != p implies (#[trigger] es[i]).selector@ != es[p].selector@ by {
        crate::text::lemma_lex_irreflexive(es[p].selector@);
    }
}

/// The count a ledger holds for a selector (0 when it holds none).
pub open spec fn count_of(es: Seq<LedgerEntry>, s: Seq<char>) -> u64 {
    if has_selector(es, s) {
        es[choose|i: int| 0 <= i < es.len() && (#[trigger] es[i]).selector@ == s].record.hydrate_count
    } else {
        0
    }
}

/// Records one hydration of a selector with a digest at a time.
fn record_one(es: &mut Vec<LedgerEntry>, selector: &String, sha: &String, now: u64)
    requires
        ledger_sorted(old(es)@),
    ensures
        ledger_sorted(final(es)@),
        has_record(
            final(es)@,
            selector@,
            (if count_of(old(es)@, selector@) == u64::MAX {
                u64::MAX
            } else {
                (count_of(old(es)@, selector@) + 1) as u64
            }, now, sha@),
        ),
        forall|s: Seq<char>, v: RecordView| s != selector@ ==> (has_record(final(es)@, s, v) <==> has_record(old(es)@, s, v)),
        forall|s: Seq<char>| #[trigger] has_selector(final(es)@, s) <==> (has_selector(old(es)@, s) || s == selector@),
{
    let ghost ov = es@;
    let ghost sv = selector@;
    let mut p: usize = 0;
    while p < es.len() && text_less(es[p].selector.as_str(), selector.as_str())
        invariant
            p <= es@.len(),
            es@ == ov,
            sv == selector@,
            ledger_sorted(ov),
            forall|j: int| 0 <= j < p ==> lex_lt(#[trigger] ov[j].selector@, sv),
        decreases es@.len() - p,
    {
        p += 1;
    }
    proof {
        if p < ov.len() {
            lemma_lex_total(ov[p as int].selector@, sv);
        }
    }
    if p < es.len() && same_text(es[p].selector.as_str(), selector.as_str()) {
        let c = es[p].record.hydrate_count;
        let n = c.saturating_add(1);
        proof {
            lemma_ledger_unique(ov, p as int);
            assert(has_selector(ov, sv));
            let k = choose|i: int| 0 <= i < ov.len() && (#[trigger] ov[i]).selector@ == sv;
            assert(k == p);
            assert(count_of(ov, sv) == c);
        }
        let e = LedgerEntry {
            selector: copy_string(selector),
            record: UsageRecord { hydrate_count: n, last_hydrated_unix_ms: now, content_sha256: copy_string(sha) },
        };
        es.set(p, e);
        proof {
            assert(es@ == ov.update(p as int, e));
            assert forall|i: int, j: int| 0 <= i < j < es@.len() implies lex_lt(#[trigger] es@[i].selector@, #[trigger] es@[j].selector@) by {
                if i == p {
                    assert(es@[j] == ov[j]);
                } else if j == p {
                    assert(es@[i] == ov[i]);
                } else {
                    assert(es@[i] == ov[i] && es@[j] == ov[j]);
                }
            }
            assert(es@[p as int].selector@ == sv);
            assert forall|s: Seq<char>, v: RecordView| s != sv implies (has_record(es@, s, v) <==> has_record(ov, s, v)) by {
                if has_record(es@, s, v) {
                    let i = choose|i: int| 0 <= i < es@.len() && (#[trigger] es@[i]).selector@ == s && record_view(es@[i].record) == v;
                    assert(ov[i] == es@[i]);
                }
                if has_record(ov, s, v) {
                    let i = choose|i: int| 0 <= i < ov.len() && (#[trigger] ov[i]).selector@ == s && record_view(ov[i].record) == v;
                    assert(ov[i] == es@[i]);
                }
            }
            assert forall|s: Seq<char>| #[trigger] has_selector(es@, s) <==> (has_selector(ov, s) || s == sv) by {
                if has_selector(es@, s) {
                    let i = choose|i: int| 0 <= i < es@.len() && (#[trigger] es@[i]).selector@ == s;
                    if i != p {
                        assert(ov[i] == es@[i]);
                    } else {
                        assert(ov[p as int].selector@ == s);
                    }
                }
                if has_selector(ov, s) {
                    let i = choose|i: int| 0 <= i < ov.len() && (#[trigger] ov[i]).selector@ == s;
                    if i != p {
                        assert(es@[i] == ov[i]);
                    } else {
                        assert(es@[p as int].selector@ == s);
                    }
                }
                if s == sv {
                    assert(es@[p as int].selector@ == s);
                }
            }
        }
    } else {
        proof {
            assert(!has_selector(ov, sv)) by {
                if has_selector(ov, sv) {
                    let k = choose|i: int| 0 <= i < ov.len() && (#[trigger] ov[i]).selector@ == sv;
                    if k < p {
                        crate::text::lemma_lex_irreflexive(sv);
                    } else if k > p {
                        lemma_lex_transitive(sv, ov[p as int].selector@, ov[k].selector@);
                        crate::text::lemma_lex_irreflexive(sv);
                    }
                }
            }
            assert(count_of(ov, sv) == 0);
        }
        let e = LedgerEntry {
            selector: copy_string(selector),
            record: UsageRecord { hydrate_count: 1, last_hydrated_unix_ms: now, content_sha256: copy_string(sha) },
        };
        es.insert(p, e);
        proof {
            assert(es@ == ov.insert(p as int, e));
            assert forall|i: int, j: int| 0 <= i < j < es@.len() implies lex_lt(#[trigger] es@[i].selector@, #[trigger] es@[j].selector@) by {
                if j < p {
                    assert(es@[i] == ov[i] && es@[j] == ov[j]);
                } else if j == p {
                    assert(es@[i] == ov[i]);
                } else if i < p {
                    assert(es@[i] == ov[i] && es@[j] == ov[j - 1]);
                    if j - 1 > p {
                        lemma_lex_transitive(sv, ov[p as int].selector@, ov[j - 1].selector@);
                    }
                    lemma_lex_transitive(ov[i].selector@, sv, ov[j - 1].selector@);
                } else if i == p {
                    assert(es@[j] == ov[j - 1]);
                    if j - 1 > p {
                        lemma_lex_transitive(sv, ov[p as int].selector@, ov[j - 1].selector@);
                    }
                } else {
                    assert(es@[i] == ov[i - 1] && es@[j] == ov[j - 1]);
                }
            }
            assert(es@[p as int].selector@ == sv);
            assert forall|s: Seq<char>, v: RecordView| s != sv implies (has_record(es@, s, v) <==> has_record(ov, s, v)) by {
                if has_record(es@, s, v) {
                    let i = choose|i: int| 0 <= i < es@.len() && (#[trigger] es@[i]).selector@ == s && record_view(es@[i].record) == v;
                    if i < p {
                        assert(ov[i] == es@[i]);
                    } else {
                        assert(ov[i - 1] == es@[i]);
                    }
                }
                if has_record(ov, s, v) {
                    let i = choose|i: int| 0 <= i < ov.len() && (#[trigger] ov[i]).selector@ == s && record_view(ov[i].record) == v;
                    if i < p {
                        assert(es@[i] == ov[i]);
                    } else {
                        assert(es@[i + 1] == ov[i]);
                    }
                }
            }
            assert forall|s: Seq<char>| #[trigger] has_selector(es@, s) <==> (has_selector(ov, s) || s == sv) by {
                if has_selector(es@, s) {
                    let i = choose|i: int| 0 <= i < es@.len() && (#[trigger] es@[i]).selector@ == s;
                    if i < p {
                        assert(ov[i] == es@[i]);
                    } else if i > p {
                        assert(ov[i - 1] == es@[i]);
                    }
                }
                if has_selector(ov, s) {
                    let i = choose|i: int| 0 <= i < ov.len() && (#[trigger] ov[i]).selector@ == s;
                    if i < p {
                        assert(es@[i] == ov[i]);
                    } else {
                        assert(es@[i + 1] == ov[i]);
                    }
                }
                if s == sv {
                    assert(es@[p as int].selector@ == s);
                }
            }
        }
    }
}

/// The selectors and digests of hydrated entries, in order.
pub open spec fn hydration_views(h: Seq<HydratedEntry>) -> Seq<(Seq<char>, Seq<char>)> {
    h.map_values(|e: HydratedEntry| (e.selector@, e.content_sha256@))
}

/// How many of the hydrations are of a selector.
pub open spec fn occurrences(h: Seq<(Seq<char>, Seq<char>)>, s: Seq<char>) -> nat
    decreases h.len(),
{
    if h.len() == 0 {
        0
    } else {
        occurrences(h.drop_last(), s) + if h.last().0 == s {
            1nat
        } else {
            0nat
        }
    }
}

/// The digest of the last hydration of a selector.
pub open spec fn last_digest(h: Seq<(Seq<char>, Seq<char>)>, s: Seq<char>) -> Seq<char>
    decreases h.len(),
{
    if h.len() == 0 {
        Seq::empty()
    } else if h.last().0 == s {
        h.last().1
    } else {
        last_digest(h.drop_last(), s)
    }
}

/// A count increased by `n`, stopping at the largest `u64`.
pub open spec fn bumped(c: u64, n: nat) -> u64 {
    if c + n >= u64::MAX {
        u64::MAX
    } else {
        (c + n) as u64
    }
}

/// The ledger after hydrations at a time: each hydrated selector's count grows
/// by its number of hydrations (saturating), its time is `now` and its digest
/// that of its last hydration; the other records are unchanged.
pub open spec fn recorded(old_es: Seq<LedgerEntry>, new_es: Seq<LedgerEntry>, h: Seq<(Seq<char>, Seq<char>)>, now: u64) -> bool {
    &&& ledger_sorted(new_es)
    &&& forall|s: Seq<char>| #[trigger] has_selector(new_es, s) <==> (has_selector(old_es, s) || occurrences(h, s) > 0)
    &&& forall|s: Seq<char>, v: RecordView| occurrences(h, s) == 0 ==> (has_record(new_es, s, v) <==> has_record(old_es, s, v))
    &&& forall|s: Seq<char>| occurrences(h, s) > 0 ==> #[trigger] has_record(
        new_es,
        s,
        (bumped(count_of(old_es, s), occurrences(h, s)), now, last_digest(h, s)),
    )
}

proof fn lemma_count_of(es: Seq<LedgerEntry>, s: Seq<char>, v: RecordView)
    requires
        ledger_sorted(es),
        has_record(es, s, v),
    ensures
        count_of(es, s) == v.0,
        has_selector(es, s),
{
    let i = choose|i: int| 0 <= i < es.len() && (#[trigger] es[i]).selector@ == s && record_view(es[i].record) == v;
    assert(has_selector(es, s));
    let k = choose|k: int| 0 <= k < es.len() && (#[trigger] es[k]).selector@ == s;
    lemma_ledger_unique(es, i);
}

/// Records hydrations in a ledger. Nothing is read or written when nothing
/// was hydrated (`None`); otherwise the stored ledger (its read or decode
/// failure, or none when there is no ledger yet) is checked and updated.
pub fn record_hydrations(stored: SkillleafResult<Option<UsageLedger>>, hydrated: &Vec<HydratedEntry>, now: u64) -> (r: SkillleafResult<
    Option<UsageLedger>,
>)
    requires
        match stored {
            Ok(Some(l)) => ledger_sorted(l.entries@),
            _ => true,
        },
    ensures
        hydrated@.len() == 0 ==> r matches Ok(None),
        hydrated@.len() > 0 ==> match stored {
            Err(e) => r == Err::<Option<UsageLedger>, SkillleafError>(e),
            Ok(Some(l)) => if l.schema@ != USAGE_SCHEMA@ {
                r matches Err(SkillleafError::Storage(m)) && m@ == "unsupported usage schema: "@ + l.schema@
            } else {
                r matches Ok(Some(n)) && n.schema == l.schema && recorded(l.entries@, n.entries@, hydration_views(hydrated@), now)
            },
            Ok(None) => r matches Ok(Some(n)) && n.schema@ == USAGE_SCHEMA@ && recorded(
                Seq::empty(),
                n.entries@,
                hydration_views(hydrated@),
                now,
            ),
        },
{
    if hydrated.len() == 0 {
        return Ok(None);
    }
    let st = match stored {
        Err(e) => {
            return Err(e);
        },
        Ok(st) => st,
    };
    let ghost old_es: Seq<LedgerEntry> = match st {
        Some(ref l) => l.entries@,
        None => Seq::empty(),
    };
    let mut ledger = match load_usage_ledger(st) {
        Err(m) => {
            return Err(SkillleafError::Storage(m));
        },
        Ok(l) => l,
    };
    let ghost hv = hydration_views(hydrated@);
    let ghost sch = ledger.schema;
    let mut i: usize = 0;
    proof {
        assert(ledger.entries@ == old_es);
        assert forall|s: Seq<char>| occurrences(hv.take(0), s) == 0 by {
            assert(hv.take(0).len() == 0);
        }
    }
    while i < hydrated.len()
        invariant
            i <= hydrated@.len(),
            hv == hydration_views(hydrated@),
            ledger.schema == sch,
            ledger_sorted(old_es),
            ledger_sorted(ledger.entries@),
            forall|s: Seq<char>| #[trigger] has_selector(ledger.entries@, s) <==> (has_selector(old_es, s) || occurrences(hv.take(i as int), s) > 0),
            forall|s: Seq<char>, v: RecordView| occurrences(hv.take(i as int), s) == 0 ==> (has_record(ledger.entries@, s, v) <==> has_record(
                old_es,
                s,
                v,
            )),
            forall|s: Seq<char>| occurrences(hv.take(i as int), s) > 0 ==> #[trigger] has_record(
                ledger.entries@,
                s,
                (bumped(count_of(old_es, s), occurrences(hv.take(i as int), s)), now, last_digest(hv.take(i as int), s)),
            ),
        decreases hydrated@.len() - i,
    {
        let h = &hydrated[i];
        let ghost before = ledger.entries@;
        let ghost t = hv.take(i as int);
        let ghost t2 = hv.take(i + 1);
        proof {
            assert(t2.drop_last() =~= t);
            assert(t2.last() == (h.selector@, h.content_sha256@));
        }
        record_one(&mut ledger.entries, &h.selector, &h.content_sha256, now);
        proof {
            let sv = h.selector@;
            assert forall|s: Seq<char>| #[trigger] has_selector(ledger.entries@, s) <==> (has_selector(old_es, s) || occurrences(t2, s) > 0) by {
                assert(occurrences(t2, s) == occurrences(t, s) + if s == sv { 1nat } else { 0nat });
            }
            assert forall|s: Seq<char>, v: RecordView| occurrences(t2, s) == 0 implies (has_record(ledger.entries@, s, v) <==> has_record(old_es, s, v)) by {
                assert(occurrences(t2, s) == occurrences(t, s) + if s == sv { 1nat } else { 0nat });
            }
            assert forall|s: Seq<char>| occurrences(t2, s) > 0 implies #[trigger] has_record(
                ledger.entries@,
                s,
                (bumped(count_of(old_es, s), occurrences(t2, s)), now, last_digest(t2, s)),
            ) by {
                assert(occurrences(t2, s) == occurrences(t, s) + if s == sv { 1nat } else { 0nat });
                if s == sv {
                    assert(last_digest(t2, s) == h.content_sha256@);
                    if occurrences(t, s) > 0 {
                        let v = (bumped(count_of(old_es, s), occurrences(t, s)), now, last_digest(t, s));
                        lemma_count_of(before, s, v);
                    } else {
                        if has_selector(before, s) {
                            let k = choose|k: int| 0 <= k < before.len() && (#[trigger] before[k]).selector@ == s;
                            assert(has_record(before, s, record_view(before[k].record)));
                            assert(has_record(old_es, s, record_view(before[k].record)));
                            lemma_count_of(before, s, record_view(before[k].record));
                            lemma_count_of(old_es, s, record_view(before[k].record));
                        } else {
                            assert(!has_selector(old_es, s));
                        }
                    }
                } else {
                    assert(last_digest(t2, s) == last_digest(t, s));
                }
            }
        }
        i += 1;
    }
    proof {
        assert(hv.take(hydrated@.len() as int) =~= hv);
    }
    Ok(Some(ledger))
}

// ---------------------------------------------------------------------------
// The usage report
// ---------------------------------------------------------------------------
/// One line of the usage report.
#[derive(Clone, Debug)]
pub struct UsageEntry {
    pub selector: String,
    pub kind: EntryKind,
    pub hydrate_count: u64,
    pub last_hydrated_unix_ms: Option<u64>,
    pub catalog_content_sha256: String,
    pub last_hydrated_content_sha256: Option<String>,
    pub content_changed_since_last_hydration: bool,
}

/// The usage report of a catalogue.
#[derive(Clone, Debug)]
pub struct UsageReport {
    pub schema: &'static str,
    pub entries: Vec<UsageEntry>,
}

/// A report line as plain values.
pub struct UsageView {
    pub selector: Seq<char>,
    pub kind: EntryKind,
    pub hydrate_count: u64,
    pub last_hydrated_unix_ms: Option<u64>,
    pub catalog_content_sha256: Seq<char>,
    pub last_hydrated_content_sha256: Option<Seq<char>>,
    pub content_changed_since_last_hydration: bool,
}

pub open spec fn usage_view(u: UsageEntry) -> UsageView {
    UsageView {
        selector: u.selector@,
        kind: u.kind,
        hydrate_count: u.hydrate_count,
        last_hydrated_unix_ms: u.last_hydrated_unix_ms,
        catalog_content_sha256: u.catalog_content_sha256@,
        last_hydrated_content_sha256: crate::frontmatter::opt_view(u.last_hydrated_content_sha256),
        content_changed_since_last_hydration: u.content_changed_since_last_hydration,
    }
}

pub open spec fn usage_views(v: Seq<UsageEntry>) -> Seq<UsageView> {
    v.map_values(|u: UsageEntry| usage_view(u))
}

/// The record a ledger holds for a selector.
pub open spec fn record_for(es: Seq<LedgerEntry>, s: Seq<char>) -> UsageRecord {
    es[choose|i: int| 0 <= i < es.len() && (#[trigger] es[i]).selector@ == s].record
}

/// The report line of a catalogue entry given the ledger.
pub open spec fn line_of(e: CatalogEntry, es: Seq<LedgerEntry>) -> UsageView {
    let s = selector_of(e);
    if has_selector(es, s) {
        let r = record_for(es, s);
        UsageView {
            selector: s,
            kind: e.kind,
            hydrate_count: r.hydrate_count,
            last_hydrated_unix_ms: Some(r.last_hydrated_unix_ms),
            catalog_content_sha256: e.content_sha256@,
            last_hydrated_content_sha256: Some(r.content_sha256@),
            content_changed_since_last_hydration: r.content_sha256@ != e.content_sha256@,
        }
    } else {
        UsageView {
            selector: s,
            kind: e.kind,
            hydrate_count: 0,
            last_hydrated_unix_ms: None,
            catalog_content_sha256: e.content_sha256@,
            last_hydrated_content_sha256: None,
            content_changed_since_last_hydration: false,
        }
    }
}

/// The report lines of the skills and commands of a catalogue, in catalogue order.
pub open spec fn report_lines(cs: Seq<CatalogEntry>, es: Seq<LedgerEntry>) -> Seq<UsageView>
    decreases cs.len(),
{
    if cs.len() == 0 {
        Seq::empty()
    } else if cs.last().kind == EntryKind::Resource {
        report_lines(cs.drop_last(), es)
    } else {
        report_lines(cs.drop_last(), es).push(line_of(cs.last(), es))
    }
}

/// Whether the ledger records, for a selector, a digest other than `sha`.
pub open spec fn recorded_other_digest(es: Seq<LedgerEntry>, s: Seq<char>, sha: Seq<char>) -> bool {
    exists|i: int| 0 <= i < es.len() && (#[trigger] es[i]).selector@ == s && es[i].record.content_sha256@ != sha
}

proof fn lemma_line_changed(e: CatalogEntry, es: Seq<LedgerEntry>)
    requires
        ledger_sorted(es),
    ensures
        line_of(e, es).selector == selector_of(e),
        line_of(e, es).catalog_content_sha256 == e.content_sha256@,
        line_of(e, es).content_changed_since_last_hydration <==> recorded_other_digest(es, selector_of(e), e.content_sha256@),
{
    let s = selector_of(e);
    if has_selector(es, s) {
        let c = choose|i: int| 0 <= i < es.len() && (#[trigger] es[i]).selector@ == s;
        assert forall|i: int| 0 <= i < es.len() && (#[trigger] es[i]).selector@ == s implies i == c by {
            if i < c {
                assert(lex_lt(es[i].selector@, es[c].selector@));
                crate::text::lemma_lex_irreflexive(s);
            } else if c < i {
                assert(lex_lt(es[c].selector@, es[i].selector@));
                crate::text::lemma_lex_irreflexive(s);
            }
        }
        if recorded_other_digest(es, s, e.content_sha256@) {
            let i = choose|i: int| 0 <= i < es.len() && (#[trigger] es[i]).selector@ == s && es[i].record.content_sha256@
                != e.content_sha256@;
            assert(i == c);
        }
        if line_of(e, es).content_changed_since_last_hydration {
            assert(es[c].selector@ == s && es[c].record.content_sha256@ != e.content_sha256@);
        }
    }
}

/// Every line of a usage report is that of a skill or command of the
/// catalogue, carrying its digest, and says that the content changed since
/// the last hydration exactly when the ledger records, for its selector, a
/// digest other than the catalogue's.
pub proof fn lemma_report_lines_changed(cs: Seq<CatalogEntry>, es: Seq<LedgerEntry>, k: int)
    requires
        ledger_sorted(es),
        0 <= k < report_lines(cs, es).len(),
    ensures
        ({
            let l = report_lines(cs, es)[k];
            &&& exists|j: int|
                0 <= j < cs.len() && (#[trigger] cs[j]).kind != EntryKind::Resource && selector_of(cs[j]) == l.selector
                    && cs[j].content_sha256@ == l.catalog_content_sha256
            &&& l.content_changed_since_last_hydration <==> recorded_other_digest(es, l.selector, l.catalog_content_sha256)
        }),
    decreases cs.len(),
{
    let p = cs.drop_last();
    let e = cs.last();
    let l = report_lines(cs, es)[k];
    if e.kind == EntryKind::Resource {
        lemma_report_lines_changed(p, es, k);
        let j = choose|j: int|
            0 <= j < p.len() && (#[trigger] p[j]).kind != EntryKind::Resource && selector_of(p[j]) == l.selector
                && p[j].content_sha256@ == l.catalog_content_sha256;
        assert(cs[j] == p[j]);
    } else if k < report_lines(p, es).len() {
        lemma_report_lines_changed(p, es, k);
        let j = choose|j: int|
            0 <= j < p.len() && (#[trigger] p[j]).kind != EntryKind::Resource && selector_of(p[j]) == l.selector
                && p[j].content_sha256@ == l.catalog_content_sha256;
        assert(cs[j] == p[j]);
    } else {
        assert(l == line_of(e, es));
        lemma_line_changed(e, es);
        assert(cs[cs.len() - 1] == e);
    }
}

/// In a usage report, every line says that the content changed since the
/// last hydration exactly when the ledger records, for its selector, a digest
/// other than the catalogue entry's.
pub proof fn lemma_report_flags_changed_content(c: Catalog, es: Seq<LedgerEntry>, rep: UsageReport, k: int)
    requires
        ledger_sorted(es),
        usage_views(rep.entries@).to_multiset() == report_lines(c.entries@, es).to_multiset(),
        0 <= k < rep.entries@.len(),
    ensures
        ({
            let l = rep.entries@[k];
            &&& exists|j: int|
                0 <= j < c.entries@.len() && (#[trigger] c.entries@[j]).kind != EntryKind::Resource && selector_of(c.entries@[j])
                    == l.selector@ && c.entries@[j].content_sha256@ == l.catalog_content_sha256@
            &&& l.content_changed_since_last_hydration <==> recorded_other_digest(es, l.selector@, l.catalog_content_sha256@)
        }),
{
    broadcast use vstd::seq_lib::group_to_multiset_ensures;
    let uv = usage_views(rep.entries@);
    let rl = report_lines(c.entries@, es);
    assert(uv[k] == usage_view(rep.entries@[k]));
    assert(uv.contains(uv[k]));
    assert(uv.to_multiset().count(uv[k]) > 0);
    assert(rl.contains(uv[k]));
    let q = choose|q: int| 0 <= q < rl.len() && rl[q] == uv[k];
    lemma_report_lines_changed(c.entries@, es, q);
}

/// The report order: most hydrated first, then by selector.
pub open spec fn line_le(a: UsageView, b: UsageView) -> bool {
    a.hydrate_count > b.hydrate_count || (a.hydrate_count == b.hydrate_count && lex_le(a.selector, b.selector))
}

pub open spec fn lines_sorted(v: Seq<UsageView>) -> bool {
    forall|i: int, j: int| 0 <= i < j < v.len() ==> line_le(#[trigger] v[i], #[trigger] v[j])
}

proof fn lemma_line_le_trans(a: UsageView, b: UsageView, c: UsageView)
    requires
        line_le(a, b),
        line_le(b, c),
    ensures
        line_le(a, c),
{
    if a.hydrate_count == b.hydrate_count && b.hydrate_count == c.hydrate_count {
        crate::text::lemma_lex_le_transitive(a.selector, b.selector, c.selector);
    }
}

/// Whether a line comes strictly before another in the report order.
fn line_before(u: &UsageEntry, x: &UsageEntry) -> (r: bool)
    ensures
        r == !line_le(usage_view(*x), usage_view(*u)),
{
    proof {
        lemma_lex_total(u.selector@, x.selector@);
    }
    u.hydrate_count > x.hydrate_count || (u.hydrate_count == x.hydrate_count && text_less(u.selector.as_str(), x.selector.as_str()))
}

/// Inserts a report line at its place (after the lines that do not come after it).
fn insert_line(v: &mut Vec<UsageEntry>, u: UsageEntry)
    requires
        lines_sorted(usage_views(old(v)@)),
    ensures
        lines_sorted(usage_views(final(v)@)),
        usage_views(final(v)@).to_multiset() == usage_views(old(v)@).to_multiset().insert(usage_view(u)),
{
    let ghost uv = usage_view(u);
    let ghost ov = usage_views(v@);
    let mut p: usize = 0;
    while p < v.len() && !line_before(&u, &v[p])
        invariant
            p <= v@.len(),
            ov == usage_views(v@),
            uv == usage_view(u),
            lines_sorted(ov),
            forall|j: int| 0 <= j < p ==> line_le(#[trigger] ov[j], uv),
        decreases v@.len() - p,
    {
        proof {
            lemma_lex_total(uv.selector, ov[p as int].selector);
        }
        p += 1;
    }
    proof {
        if p < ov.len() {
            lemma_lex_total(uv.selector, ov[p as int].selector);
            assert(line_le(uv, ov[p as int]));
        }
    }
    v.insert(p, u);
    proof {
        let nv = usage_views(v@);
        assert(nv =~= ov.insert(p as int, uv));
        assert forall|i: int, j: int| 0 <= i < j < nv.len() implies line_le(#[trigger] nv[i], #[trigger] nv[j]) by {
            if j < p {
            } else if j == p {
                assert(nv[i] == ov[i]);
            } else if i < p {
                assert(nv[i] == ov[i] && nv[j] == ov[j - 1]);
                if j - 1 > p {
                    lemma_line_le_trans(uv, ov[p as int], ov[j - 1]);
                }
                lemma_line_le_trans(ov[i], uv, ov[j - 1]);
            } else if i == p {
                assert(nv[j] == ov[j - 1]);
                if j - 1 > p {
                    lemma_line_le_trans(uv, ov[p as int], ov[j - 1]);
                }
            } else {
                assert(nv[i] == ov[i - 1] && nv[j] == ov[j - 1]);
            }
        }
        vstd::seq_lib::to_multiset_insert(ov, p as int, uv);
    }
}

/// The report line of one catalogue entry.
fn line_for(e: &CatalogEntry, es: &Vec<LedgerEntry>) -> (u: UsageEntry)
    requires
        ledger_sorted(es@),
    ensures
        usage_view(u) == line_of(*e, es@),
{
    let s = e.selector();
    let mut i: usize = 0;
    while i < es.len()
        invariant
            i <= es@.len(),
            ledger_sorted(es@),
            s@ == selector_of(*e),
            forall|j: int| 0 <= j < i ==> (#[trigger] es@[j]).selector@ != s@,
        decreases es@.len() - i,
    {
        if same_text(es[i].selector.as_str(), s.as_str()) {
            let r = &es[i].record;
            proof {
                assert(has_selector(es@, s@));
                lemma_ledger_unique(es@, i as int);
                let k = choose|k: int| 0 <= k < es@.len() && (#[trigger] es@[k]).selector@ == s@;
                assert(k == i);
            }
            let changed = !same_text(r.content_sha256.as_str(), e.content_sha256.as_str());
            return UsageEntry {
                selector: s,
                kind: e.kind,
                hydrate_count: r.hydrate_count,
                last_hydrated_unix_ms: Some(r.last_hydrated_unix_ms),
                catalog_content_sha256: copy_string(&e.content_sha256),
                last_hydrated_content_sha256: Some(copy_string(&r.content_sha256)),
                content_changed_since_last_hydration: changed,
            };
        }
        i += 1;
    }
    UsageEntry {
        selector: s,
        kind: e.kind,
        hydrate_count: 0,
        last_hydrated_unix_ms: None,
        catalog_content_sha256: copy_string(&e.content_sha256),
        last_hydrated_content_sha256: None,
        content_changed_since_last_hydration: false,
    }
}

/// The usage report of a catalogue: a line for each skill and command (with
/// count 0 when never hydrated), most hydrated first, then by selector. The
/// stored ledger (its read or decode failure, or none when there is no
/// ledger yet) must have the supported schema.
pub fn usage_report(catalog: &Catalog, stored: SkillleafResult<Option<UsageLedger>>) -> (r: SkillleafResult<UsageReport>)
    requires
        match stored {
            Ok(Some(l)) => ledger_sorted(l.entries@),
            _ => true,
        },
    ensures
        match stored {
            Err(e) => r == Err::<UsageReport, SkillleafError>(e),
            Ok(st) => match st {
                Some(l) if l.schema@ != USAGE_SCHEMA@ => r matches Err(SkillleafError::Integrity(m)) && m@
                    == "unsupported usage schema: "@ + l.schema@,
                _ => {
                    let es: Seq<LedgerEntry> = match st {
                        Some(l) => l.entries@,
                        None => Seq::empty(),
                    };
                    r matches Ok(rep) && rep.schema@ == "skillleaf.usage-report.v1"@ && lines_sorted(usage_views(rep.entries@))
                        && usage_views(rep.entries@).to_multiset() == report_lines(catalog.entries@, es).to_multiset()
                },
            },
        },
{
    let st = match stored {
        Err(e) => {
            return Err(e);
        },
        Ok(st) => st,
    };
    let ghost es: Seq<LedgerEntry> = match st {
        Some(ref l) => l.entries@,
        None => Seq::empty(),
    };
    let ledger = match load_usage_ledger(st) {
        Err(m) => {
            return Err(SkillleafError::Integrity(m));
        },
        Ok(l) => l,
    };
    let mut lines: Vec<UsageEntry> = Vec::new();
    let mut i: usize = 0;
    proof {
        assert(usage_views(lines@) =~= Seq::<UsageView>::empty());
        assert(report_lines(catalog.entries@.take(0), es) =~= Seq::<UsageView>::empty());
    }
    while i < catalog.entries.len()
        invariant
            i <= catalog.entries@.len(),
            ledger.entries@ == es,
            ledger_sorted(es),
            lines_sorted(usage_views(lines@)),
            usage_views(lines@).to_multiset() == report_lines(catalog.entries@.take(i as int), es).to_multiset(),
        decreases catalog.entries@.len() - i,
    {
        let e = &catalog.entries[i];
        proof {
            assert(catalog.entries@.take(i + 1).drop_last() =~= catalog.entries@.take(i as int));
            assert(catalog.entries@.take(i + 1).last() == *e);
        }
        if e.kind != EntryKind::Resource {
            let u = line_for(e, &ledger.entries);
            let ghost uv = usage_view(u);
            insert_line(&mut lines, u);
            proof {
                vstd::seq_lib::to_multiset_build(report_lines(catalog.entries@.take(i as int), es), uv);
            }
        }
        i += 1;
    }
    proof {
        assert(catalog.entries@.take(catalog.entries@.len() as int) =~= catalog.entries@);
    }
    Ok(UsageReport { schema: "skillleaf.usage-report.v1", entries: lines })
}


/// The count of a selector in a ledger from the record it holds, if any.
proof fn lemma_count_from(es: Seq<LedgerEntry>, s: Seq<char>)
    requires
        ledger_sorted(es),
    ensures
        has_selector(es, s) ==> has_record(es, s, record_view(record_for(es, s))) && count_of(es, s) == record_for(es, s).hydrate_count,
        !has_selector(es, s) ==> count_of(es, s) == 0,
{
    if has_selector(es, s) {
        let i = choose|i: int| 0 <= i < es.len() && (#[trigger] es[i]).selector@ == s;
        assert(has_record(es, s, record_view(es[i].record)));
    }
}

/// Recording hydrations in two steps loses none of them: a selector's count
/// grows by its hydrations in both steps together (stopping at the largest `u64`).
pub proof fn lemma_recording_accumulates(
    old_es: Seq<LedgerEntry>,
    mid_es: Seq<LedgerEntry>,
    new_es: Seq<LedgerEntry>,
    h1: Seq<(Seq<char>, Seq<char>)>,
    h2: Seq<(Seq<char>, Seq<char>)>,
    t1: u64,
    t2: u64,
    s: Seq<char>,
)
    requires
        ledger_sorted(old_es),
        recorded(old_es, mid_es, h1, t1),
        recorded(mid_es, new_es, h2, t2),
    ensures
        count_of(new_es, s) == bumped(count_of(old_es, s), occurrences(h1, s) + occurrences(h2, s)),
{
    let n1 = occurrences(h1, s);
    let n2 = occurrences(h2, s);
    let c = count_of(old_es, s);
    lemma_count_from(old_es, s);
    lemma_count_from(mid_es, s);
    lemma_count_from(new_es, s);
    if n1 == 0 {
        if has_selector(old_es, s) {
            let v = record_view(record_for(old_es, s));
            assert(has_record(mid_es, s, v));
            lemma_count_of(mid_es, s, v);
        } else {
            assert(!has_selector(mid_es, s));
        }
        assert(count_of(mid_es, s) == c);
    } else {
        let v = (bumped(c, n1), t1, last_digest(h1, s));
        assert(has_record(mid_es, s, v));
        lemma_count_of(mid_es, s, v);
    }
    assert(count_of(mid_es, s) == bumped(c, n1));
    let m = count_of(mid_es, s);
    if n2 == 0 {
        if has_selector(mid_es, s) {
            let v = record_view(record_for(mid_es, s));
            assert(has_record(new_es, s, v));
            lemma_count_of(new_es, s, v);
        } else {
            assert(!has_selector(new_es, s));
        }
        assert(count_of(new_es, s) == m);
    } else {
        let v = (bumped(m, n2), t2, last_digest(h2, s));
        assert(has_record(new_es, s, v));
        lemma_count_of(new_es, s, v);
    }
}

} // verus!
