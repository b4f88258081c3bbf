//! Trust levels, the catalogue policy report and the instruction-text checks.
use vstd::prelude::*;

use crate::catalog::{selector_of, Catalog, CatalogEntry, EntryKind, SkillleafResult};
use crate::text::{chars_of, concat2, concat3, is_control, is_control_char, lex_le, lex_lt, owned, text_less, same_text};

verus! {

/// Whether an entry may route automatically.
#[derive(Clone, Copy, Debug, PartialEq, Eq, Structural)]
pub enum TrustLevel {
    Trusted,
    Untrusted,
}

impl TrustLevel {
    pub fn is_trusted(&self) -> (b: bool)
        ensures
            b == (*self == TrustLevel::Trusted),
    {
        *self == TrustLevel::Trusted
    }
}

impl Default for TrustLevel {
    fn default() -> (t: Self)
        ensures
            t == TrustLevel::Trusted,
    {
        TrustLevel::Trusted
    }
}

// ---------------------------------------------------------------------------
// Trust declared in frontmatter
// ---------------------------------------------------------------------------
/// The trust of an entry from its root's trust and the `trust:` value of its
/// frontmatter: `untrusted` downgrades, `trusted` never upgrades, and any other
/// value (the empty one included) is refused (`None`).
pub open spec fn trust_after(base: TrustLevel, declared: Option<Seq<char>>) -> Option<TrustLevel> {
    match declared {
        None => Some(base),
        Some(v) => if v == "untrusted"@ {
            Some(TrustLevel::Untrusted)
        } else if v == "trusted"@ {
            Some(base)
        } else {
            None
        },
    }
}

/// A declared trust never raises the trust of a root: an entry counts as
/// trusted only where its root is trusted, and `untrusted` always downgrades.
pub proof fn lemma_trust_never_upgrades(base: TrustLevel, declared: Option<Seq<char>>)
    ensures
        trust_after(base, declared) == Some(TrustLevel::Trusted) ==> base == TrustLevel::Trusted,
        declared == Some("untrusted"@) ==> trust_after(base, declared) == Some(TrustLevel::Untrusted),
{
}

/// The refusal of a `trust:` value.
pub open spec fn trust_error(declared: Seq<char>, path: Seq<char>) -> Seq<char> {
    "unsupported trust value '"@ + declared + "' in "@ + path
}

/// The effective trust of an entry indexed from `path`.
pub fn effective_trust(base: TrustLevel, declared: &Option<String>, path: &str) -> (r: Result<TrustLevel, String>)
    ensures
        match declared {
            None => r == Ok::<TrustLevel, String>(base),
            Some(v) => match trust_after(base, Some(v@)) {
                Some(t) => r == Ok::<TrustLevel, String>(t),
                None => r matches Err(m) && m@ == trust_error(v@, path@),
            },
        },
{
    match declared {
        None => Ok(base),
        Some(v) => {
            if same_text(v.as_str(), "untrusted") {
                Ok(TrustLevel::Untrusted)
            } else if same_text(v.as_str(), "trusted") {
                Ok(base)
            } else {
                let mut m = concat3("unsupported trust value '", v.as_str(), "' in ");
                crate::text::push_text(&mut m, path);
                Err(m)
            }
        },
    }
}

// ---------------------------------------------------------------------------
// Hidden characters in instructions
// ---------------------------------------------------------------------------
/// Bidirectional marks and overrides that change how text is displayed.
pub open spec fn is_bidi_override(c: char) -> bool {
    c == '\u{061c}' || c == '\u{200e}' || c == '\u{200f}' || ('\u{202a}' <= c && c <= '\u{202e}')
        || ('\u{2066}' <= c && c <= '\u{2069}')
}

/// A character that instructions may not hold: a control character other
/// than line feed, carriage return and tab, or a bidirectional override.
pub open spec fn is_hidden_char(c: char) -> bool {
    (is_control(c) && c != '\n' && c != '\r' && c != '\t') || is_bidi_override(c)
}

/// Instruction text without hidden characters.
pub open spec fn plain_instructions(body: Seq<char>) -> bool {
    forall|i: int| 0 <= i < body.len() ==> !is_hidden_char(#[trigger] body[i])
}

/// The refusal of an instruction text with a hidden character.
pub open spec fn hidden_error(path: Seq<char>) -> Seq<char> {
    "instruction contains a hidden control or bidirectional override in "@ + path
}

/// Refuses instruction text (read from `path`) that holds a hidden character.
pub fn validate_instruction_text(path: &str, body: &str) -> (r: Result<(), String>)
    ensures
        r is Ok <==> plain_instructions(body@),
        r matches Err(m) ==> m@ == hidden_error(path@),
{
    let v = chars_of(body);
    let mut i: usize = 0;
    while i < v.len()
        invariant
            v@ == body@,
            i <= v.len(),
            forall|j: int| 0 <= j < i ==> !is_hidden_char(#[trigger] v@[j]),
        decreases v.len() - i,
    {
        let c = v[i];
        let control = is_control_char(c) && c != '\n' && c != '\r' && c != '\t';
        let bidi = c == '\u{061c}' || c == '\u{200e}' || c == '\u{200f}' || ('\u{202a}' <= c && c
            <= '\u{202e}') || ('\u{2066}' <= c && c <= '\u{2069}');
        if control || bidi {
            return Err(concat2("instruction contains a hidden control or bidirectional override in ", path));
        }
        i += 1;
    }
    Ok(())
}

// ---------------------------------------------------------------------------
// The policy report
// ---------------------------------------------------------------------------
/// One observation of the policy inspection.
#[derive(Clone, Debug)]
pub struct PolicyFinding {
    pub selector: String,
    pub severity: &'static str,
    pub code: &'static str,
    pub message: String,
}

/// The result of a policy inspection.
#[derive(Clone, Debug)]
pub struct PolicyReport {
    pub schema: &'static str,
    pub catalog_sha256: String,
    pub passed: bool,
    pub findings: Vec<PolicyFinding>,
}

/// A finding as texts: selector, severity, code and message.
pub type FindingView = (Seq<char>, Seq<char>, Seq<char>, Seq<char>);

pub open spec fn finding_view(f: PolicyFinding) -> FindingView {
    (f.selector@, f.severity@, f.code@, f.message@)
}

pub open spec fn finding_views(v: Seq<PolicyFinding>) -> Seq<FindingView> {
    v.map_values(|f: PolicyFinding| finding_view(f))
}

pub open spec fn untrusted_message() -> Seq<char> {
    "Automatic routing is disabled; explicit selection and --allow-untrusted are required."@
}

pub open spec fn undeclared_message() -> Seq<char> {
    "Declare capabilities when instructions require shell, network, write, secrets, or deployment access."@
}

/// The findings of one entry: resources have none; an untrusted entry is
/// warned about, and one without declared capabilities gets an advisory.
pub open spec fn entry_findings(e: CatalogEntry) -> Seq<FindingView> {
    if e.kind == EntryKind::Resource {
        Seq::empty()
    } else {
        let s = selector_of(e);
        let w: Seq<FindingView> = if e.trust == TrustLevel::Untrusted {
            seq![(s, "warning"@, "untrusted_source"@, untrusted_message())]
        } else {
            Seq::empty()
        };
        let a: Seq<FindingView> = if e.capabilities@.len() == 0 {
            seq![(s, "advisory"@, "capabilities_undeclared"@, undeclared_message())]
        } else {
            Seq::empty()
        };
        w + a
    }
}

/// The findings of a sequence of entries, before ordering.
pub open spec fn raw_findings(es: Seq<CatalogEntry>) -> Seq<FindingView>
    decreases es.len(),
{
    if es.len() == 0 {
        Seq::empty()
    } else {
        raw_findings(es.drop_last()) + entry_findings(es.last())
    }
}

/// Among the findings of a sequence of entries, an `untrusted_source`
/// finding names a selector exactly when some skill or command with that
/// selector is untrusted.
pub proof fn lemma_untrusted_source_findings(es: Seq<CatalogEntry>, s: Seq<char>)
    ensures
        (exists|j: int| 0 <= j < raw_findings(es).len() && (#[trigger] raw_findings(es)[j]).0 == s && raw_findings(es)[j].2
            == "untrusted_source"@) <==> (exists|i: int|
            0 <= i < es.len() && (#[trigger] es[i]).kind != EntryKind::Resource && es[i].trust == TrustLevel::Untrusted
                && selector_of(es[i]) == s),
    decreases es.len(),
{
    reveal_strlit("untrusted_source");
    reveal_strlit("capabilities_undeclared");
    if es.len() > 0 {
        let p = es.drop_last();
        let e = es.last();
        lemma_untrusted_source_findings(p, s);
        let a = raw_findings(p);
        let b = entry_findings(e);
        let r = raw_findings(es);
        assert(r == a + b);
        assert("untrusted_source"@.len() != "capabilities_undeclared"@.len());
        let hit = e.kind != EntryKind::Resource && e.trust == TrustLevel::Untrusted && selector_of(e) == s;
        assert((exists|j: int| 0 <= j < b.len() && (#[trigger] b[j]).0 == s && b[j].2 == "untrusted_source"@) <==> hit) by {
            if hit {
                assert(b[0].0 == s && b[0].2 == "untrusted_source"@);
            }
        }
        if exists|j: int| 0 <= j < r.len() && (#[trigger] r[j]).0 == s && r[j].2 == "untrusted_source"@ {
            let j = choose|j: int| 0 <= j < r.len() && (#[trigger] r[j]).0 == s && r[j].2 == "untrusted_source"@;
            if j < a.len() {
                assert(a[j] == r[j]);
                let i = choose|i: int|
                    0 <= i < p.len() && (#[trigger] p[i]).kind != EntryKind::Resource && p[i].trust == TrustLevel::Untrusted
                        && selector_of(p[i]) == s;
                assert(es[i] == p[i]);
            } else {
                assert(b[j - a.len()] == r[j]);
                assert(es[es.len() - 1] == e);
            }
        }
        if exists|i: int|
            0 <= i < es.len() && (#[trigger] es[i]).kind != EntryKind::Resource && es[i].trust == TrustLevel::Untrusted
                && selector_of(es[i]) == s {
            let i = choose|i: int|
                0 <= i < es.len() && (#[trigger] es[i]).kind != EntryKind::Resource && es[i].trust == TrustLevel::Untrusted
                    && selector_of(es[i]) == s;
            if i < es.len() - 1 {
                assert(p[i] == es[i]);
                let j = choose|j: int| 0 <= j < a.len() && (#[trigger] a[j]).0 == s && a[j].2 == "untrusted_source"@;
                assert(r[j] == a[j]);
            } else {
                let j = choose|j: int| 0 <= j < b.len() && (#[trigger] b[j]).0 == s && b[j].2 == "untrusted_source"@;
                assert(r[a.len() + j] == b[j]);
            }
        }
    }
}

/// The policy report of a catalogue flags a selector as an untrusted source
/// exactly when some skill or command with that selector is untrusted.
pub proof fn lemma_report_flags_untrusted(c: Catalog, rep: PolicyReport, s: Seq<char>)
    requires
        finding_views(rep.findings@).to_multiset() == raw_findings(c.entries@).to_multiset(),
    ensures
        (exists|j: int| 0 <= j < rep.findings@.len() && (#[trigger] rep.findings@[j]).selector@ == s
            && rep.findings@[j].code@ == "untrusted_source"@) <==> (exists|i: int|
            0 <= i < c.entries@.len() && (#[trigger] c.entries@[i]).kind != EntryKind::Resource && c.entries@[i].trust
                == TrustLevel::Untrusted && selector_of(c.entries@[i]) == s),
{
    broadcast use vstd::seq_lib::group_to_multiset_ensures;
    let es = c.entries@;
    let fv = finding_views(rep.findings@);
    let r = raw_findings(es);
    lemma_untrusted_source_findings(es, s);
    if exists|j: int| 0 <= j < rep.findings@.len() && (#[trigger] rep.findings@[j]).selector@ == s
        && rep.findings@[j].code@ == "untrusted_source"@ {
        let j = choose|j: int| 0 <= j < rep.findings@.len() && (#[trigger] rep.findings@[j]).selector@ == s
            && rep.findings@[j].code@ == "untrusted_source"@;
        assert(fv[j] == finding_view(rep.findings@[j]));
        assert(fv.contains(fv[j]));
        assert(fv.to_multiset().count(fv[j]) > 0);
        assert(r.contains(fv[j]));
        let k = choose|k: int| 0 <= k < r.len() && r[k] == fv[j];
        assert(r[k].0 == s && r[k].2 == "untrusted_source"@);
    }
    if exists|i: int|
        0 <= i < es.len() && (#[trigger] es[i]).kind != EntryKind::Resource && es[i].trust == TrustLevel::Untrusted
            && selector_of(es[i]) == s {
        let k = choose|k: int| 0 <= k < r.len() && (#[trigger] r[k]).0 == s && r[k].2 == "untrusted_source"@;
        assert(r.contains(r[k]));
        assert(r.to_multiset().count(r[k]) > 0);
        assert(fv.to_multiset().count(r[k]) > 0);
        assert(fv.contains(r[k]));
        let j = choose|j: int| 0 <= j < fv.len() && fv[j] == r[k];
        assert(fv[j] == finding_view(rep.findings@[j]));
        assert(rep.findings@[j].selector@ == s && rep.findings@[j].code@ == "untrusted_source"@);
    }
}

/// The report order: by selector, then by code.
pub open spec fn finding_le(a: FindingView, b: FindingView) -> bool {
    lex_lt(a.0, b.0) || (a.0 == b.0 && lex_le(a.2, b.2))
}

pub open spec fn findings_sorted(v: Seq<FindingView>) -> bool {
    forall|i: int, j: int| 0 <= i < j < v.len() ==> finding_le(#[trigger] v[i], #[trigger] v[j])
}

proof fn lemma_finding_le_trans(a: FindingView, b: FindingView, c: FindingView)
    requires
        finding_le(a, b),
        finding_le(b, c),
    ensures
        finding_le(a, c),
{
    if lex_lt(a.0, b.0) && lex_lt(b.0, c.0) {
        crate::text::lemma_lex_transitive(a.0, b.0, c.0);
    }
    if a.0 == b.0 && b.0 == c.0 {
        crate::text::lemma_lex_le_transitive(a.2, b.2, c.2);
    }
}

proof fn lemma_finding_total(a: FindingView, b: FindingView)
    ensures
        finding_le(a, b) || finding_le(b, a),
        !finding_le(b, a) ==> finding_le(a, b),
{
    crate::text::lemma_lex_total(a.0, b.0);
    crate::text::lemma_lex_total(a.2, b.2);
}

/// Whether a finding comes strictly before another in the report order.
fn goes_before(f: &PolicyFinding, x: &PolicyFinding) -> (r: bool)
    ensures
        r == !finding_le(finding_view(*x), finding_view(*f)),
{
    proof {
        crate::text::lemma_lex_total(f.selector@, x.selector@);
        crate::text::lemma_lex_total(f.code@, x.code@);
    }
    text_less(f.selector.as_str(), x.selector.as_str()) || (same_text(f.selector.as_str(), x.selector.as_str())
        && text_less(f.code, x.code))
}

/// Inserts a finding at its place in an ordered list of findings.
fn insert_finding(v: &mut Vec<PolicyFinding>, f: PolicyFinding)
    requires
        findings_sorted(finding_views(old(v)@)),
    ensures
        findings_sorted(finding_views(final(v)@)),
        finding_views(final(v)@).to_multiset() == finding_views(old(v)@).to_multiset().insert(finding_view(f)),
        forall|k: int| 0 <= k < final(v)@.len() ==> #[trigger] final(v)@[k] == f || old(v)@.contains(final(v)@[k]),
{
    let ghost ov = v@;
    let ghost fv = finding_view(f);
    let ghost old_v = finding_views(v@);
    let mut p: usize = 0;
    while p < v.len() && !goes_before(&f, &v[p])
        invariant
            p <= v.len(),
            old_v == finding_views(v@),
            fv == finding_view(f),
            findings_sorted(old_v),
            forall|j: int| 0 <= j < p ==> finding_le(#[trigger] old_v[j], fv),
        decreases v.len() - p,
    {
        proof {
            lemma_finding_total(fv, old_v[p as int]);
        }
        p += 1;
    }
    proof {
        if p < old_v.len() {
            lemma_finding_total(fv, old_v[p as int]);
        }
    }
    v.insert(p, f);
    proof {
        let nv = finding_views(v@);
        assert(nv =~= old_v.insert(p as int, fv));
        assert forall|i: int, j: int| 0 <= i < j < nv.len() implies finding_le(#[trigger] nv[i], #[trigger] nv[j]) by {
            if j < p {
            } else if j == p {
                assert(nv[i] == old_v[i]);
            } else if i < p {
                assert(nv[i] == old_v[i]);
                assert(nv[j] == old_v[j - 1]);
                assert(finding_le(old_v[i], fv));
                assert(finding_le(fv, old_v[p as int]));
                if j - 1 > p {
                    assert(finding_le(old_v[p as int], old_v[j - 1]));
                    lemma_finding_le_trans(fv, old_v[p as int], old_v[j - 1]);
                }
                lemma_finding_le_trans(old_v[i], fv, old_v[j - 1]);
            } else if i == p {
                assert(nv[j] == old_v[j - 1]);
                if j - 1 > p {
                    assert(finding_le(old_v[p as int], old_v[j - 1]));
                    lemma_finding_le_trans(fv, old_v[p as int], old_v[j - 1]);
                }
            } else {
                assert(nv[i] == old_v[i - 1]);
                assert(nv[j] == old_v[j - 1]);
            }
        }
        vstd::seq_lib::to_multiset_insert(old_v, p as int, fv);
        assert forall|k: int| 0 <= k < v@.len() implies #[trigger] v@[k] == f || ov.contains(v@[k]) by {
            if k < p {
                assert(v@[k] == ov[k]);
            } else if k > p {
                assert(v@[k] == ov[k - 1]);
            }
        }
    }
}

proof fn lemma_no_error_kept(pre: Seq<PolicyFinding>, post: Seq<PolicyFinding>, f: PolicyFinding)
    requires
        forall|k: int| 0 <= k < pre.len() ==> (#[trigger] pre[k]).severity@ != "error"@,
        f.severity@ != "error"@,
        forall|k: int| 0 <= k < post.len() ==> #[trigger] post[k] == f || pre.contains(post[k]),
    ensures
        forall|k: int| 0 <= k < post.len() ==> (#[trigger] post[k]).severity@ != "error"@,
{
    assert forall|k: int| 0 <= k < post.len() implies (#[trigger] post[k]).severity@ != "error"@ by {
        if post[k] != f {
            let j = choose|j: int| 0 <= j < pre.len() && pre[j] == post[k];
            assert(pre[j].severity@ != "error"@);
        }
    }
}

fn new_finding(selector: &String, severity: &'static str, code: &'static str, message: &str) -> (f: PolicyFinding)
    ensures
        finding_view(f) == (selector@, severity@, code@, message@),
{
    PolicyFinding { selector: crate::strset::copy_string(selector), severity, code, message: owned(message) }
}

/// The policy report of a catalogue: for every skill and command, a warning
/// when it is untrusted and an advisory when it declares no capabilities,
/// ordered by selector and then by code. No finding is an error, so the
/// report passes, strict or not.
pub fn inspect_catalog(catalog: &Catalog, strict: bool) -> (r: SkillleafResult<PolicyReport>)
    ensures
        r matches Ok(rep) && rep.schema@ == "skillleaf.policy-report.v1"@
            && rep.catalog_sha256@ == catalog.catalog_sha256@
            && findings_sorted(finding_views(rep.findings@))
            && finding_views(rep.findings@).to_multiset() == raw_findings(catalog.entries@).to_multiset()
            && rep.passed == (!strict || forall|i: int| 0 <= i < rep.findings@.len() ==> (#[trigger] rep.findings@[i]).severity@ != "error"@)
            && rep.passed,
{
    let mut findings: Vec<PolicyFinding> = Vec::new();
    let mut i: usize = 0;
    proof {
        assert(finding_views(findings@) =~= Seq::<FindingView>::empty());
        assert(raw_findings(catalog.entries@.take(0)) == Seq::<FindingView>::empty());
    }
    while i < catalog.entries.len()
        invariant
            i <= catalog.entries.len(),
            findings_sorted(finding_views(findings@)),
            finding_views(findings@).to_multiset() == raw_findings(catalog.entries@.take(i as int)).to_multiset(),
            forall|k: int| 0 <= k < findings@.len() ==> (#[trigger] findings@[k]).severity@ != "error"@,
        decreases catalog.entries.len() - i,
    {
        let e = &catalog.entries[i];
        proof {
            assert(catalog.entries@.take(i + 1).drop_last() =~= catalog.entries@.take(i as int));
            assert(catalog.entries@.take(i + 1).last() == *e);
            reveal_strlit("warning");
            reveal_strlit("advisory");
            reveal_strlit("error");
        }
        let ghost before = raw_findings(catalog.entries@.take(i as int));
        if e.kind != EntryKind::Resource {
            let sel = e.selector();
            let ghost mut mid = before;
            if e.trust == TrustLevel::Untrusted {
                let f = new_finding(&sel, "warning", "untrusted_source",
                    "Automatic routing is disabled; explicit selection and --allow-untrusted are required.");
                let ghost pre = findings@;
                insert_finding(&mut findings, f);
                proof {
                    reveal_strlit("warning");
                    reveal_strlit("error");
                    assert(f.severity@ == "warning"@);
                    assert("warning"@[0] != "error"@[0]);
                    lemma_no_error_kept(pre, findings@, f);
                    assert(mid.push(finding_view(f)).to_multiset() == mid.to_multiset().insert(finding_view(f))) by {
                        vstd::seq_lib::to_multiset_build(mid, finding_view(f));
                    }
                    mid = mid.push(finding_view(f));
                }
            }
            if e.capabilities.len() == 0 {
                let f = new_finding(&sel, "advisory", "capabilities_undeclared",
                    "Declare capabilities when instructions require shell, network, write, secrets, or deployment access.");
                let ghost pre = findings@;
                insert_finding(&mut findings, f);
                proof {
                    reveal_strlit("advisory");
                    reveal_strlit("error");
                    assert(f.severity@ == "advisory"@);
                    assert("advisory"@[0] != "error"@[0]);
                    lemma_no_error_kept(pre, findings@, f);
                    vstd::seq_lib::to_multiset_build(mid, finding_view(f));
                    mid = mid.push(finding_view(f));
                }
            }
            proof {
                assert(mid =~= before + entry_findings(*e));
            }
        } else {
            proof {
                assert(before + entry_findings(*e) =~= before);
            }
        }
        i += 1;
    }
    proof {
        assert(catalog.entries@.take(catalog.entries@.len() as int) =~= catalog.entries@);
    }
    let passed = true;
    Ok(PolicyReport {
        schema: "skillleaf.policy-report.v1",
        catalog_sha256: crate::strset::copy_string(&catalog.catalog_sha256),
        passed,
        findings,
    })
}

} // verus!
