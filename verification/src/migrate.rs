//! Migration of an existing skill library into an isolated domain: the plan,
//! its identifier and checks, and the decisions of applying and rolling back.
use vstd::prelude::*;

use crate::catalog::{kind_text, Catalog, CatalogRoot, EntryKind, SkillleafError, SkillleafResult};
use crate::integrity::{catalog_digest, catalog_hash};
use crate::digest::{digest_hex, sha256, sha256_text};
use crate::domain::{domain_name_error, DomainConfig, DomainRegistry};
use crate::frontmatter::join_sep;
use crate::index::clean_segments;
use crate::json::{join_comma, json_array, json_str, push_json_str};
use crate::strset::copy_string;
use crate::sync::segments;
use crate::text::{concat2, concat3, is_plain_name, lex_le, lex_lt, owned, push_char, push_text, same_text, text_less};

verus! {

pub const PLAN_SCHEMA: &'static str = "skillleaf.migration-plan.v1";

pub const MIGRATION_RECEIPT_SCHEMA: &'static str = "skillleaf.migration-receipt.v1";

/// The largest file a migration copies.
pub const MAX_MIGRATION_FILE_BYTES: u64 = 16777216;

/// The agent host whose library is migrated.
#[derive(Clone, Copy, Debug, PartialEq, Eq, Structural)]
pub enum HostKind {
    Claude,
    Codex,
    OpenCode,
    Generic,
}

/// The name of a host in plans.
pub open spec fn host_text(h: HostKind) -> Seq<char> {
    match h {
        HostKind::Claude => "claude_code"@,
        HostKind::Codex => "codex"@,
        HostKind::OpenCode => "open_code"@,
        HostKind::Generic => "generic"@,
    }
}

impl HostKind {
    pub fn as_str(self) -> (s: &'static str)
        ensures
            s@ == host_text(self),
    {
        match self {
            HostKind::Claude => "claude_code",
            HostKind::Codex => "codex",
            HostKind::OpenCode => "open_code",
            HostKind::Generic => "generic",
        }
    }
}

/// A source root of a migration and the digest of its contents when planned.
#[derive(Clone, Debug)]
pub struct MigrationSource {
    pub name: String,
    pub kind: EntryKind,
    pub path: String,
    pub manifest_sha256: String,
}

/// A migration plan, identified by the digest of its content.
#[derive(Clone, Debug)]
pub struct MigrationPlan {
    pub schema: String,
    pub plan_id: String,
    pub domain: String,
    pub destination_root: String,
    pub registry_path: String,
    pub host: HostKind,
    pub host_root: String,
    pub sources: Vec<MigrationSource>,
    pub preserves_native_commands: bool,
}

/// What applying a plan changed, so that it can be rolled back.
#[derive(Clone, Debug)]
pub struct MigrationReceipt {
    pub schema: String,
    pub plan_id: String,
    pub domain: String,
    pub domain_root: String,
    pub domain_manifest_sha256: String,
    pub catalog_sha256: String,
    pub registry_path: String,
    pub registry_before: Option<DomainRegistry>,
    pub registry_after_sha256: String,
    pub adapter_path: String,
    pub adapter_created: bool,
    pub adapter_sha256: String,
}

// ---------------------------------------------------------------------------
// Ordering the sources
// ---------------------------------------------------------------------------
/// The rank of a kind in the order skills, commands, resources.
pub open spec fn kind_rank(k: EntryKind) -> int {
    match k {
        EntryKind::Skill => 0,
        EntryKind::Command => 1,
        EntryKind::Resource => 2,
    }
}

fn kind_rank_of(k: EntryKind) -> (r: u8)
    ensures
        r == kind_rank(k),
{
    match k {
        EntryKind::Skill => 0,
        EntryKind::Command => 1,
        EntryKind::Resource => 2,
    }
}

/// A source comes no later than another: by kind, then by name.
pub open spec fn source_le(a: MigrationSource, b: MigrationSource) -> bool {
    kind_rank(a.kind) < kind_rank(b.kind) || (kind_rank(a.kind) == kind_rank(b.kind) && lex_le(a.name@, b.name@))
}

/// Inserts a source after every source that comes no later than it.
pub open spec fn insert_stable(s: Seq<MigrationSource>, x: MigrationSource) -> Seq<MigrationSource>
    decreases s.len(),
{
    if s.len() == 0 {
        seq![x]
    } else if source_le(s.last(), x) {
        s.push(x)
    } else {
        insert_stable(s.drop_last(), x).push(s.last())
    }
}

/// The sources in stable order by kind and then name.
pub open spec fn stable_sorted(s: Seq<MigrationSource>) -> Seq<MigrationSource>
    decreases s.len(),
{
    if s.len() == 0 {
        Seq::empty()
    } else {
        insert_stable(stable_sorted(s.drop_last()), s.last())
    }
}

fn source_le_exec(a: &MigrationSource, b: &MigrationSource) -> (r: bool)
    ensures
        r == source_le(*a, *b),
{
    let ka = kind_rank_of(a.kind);
    let kb = kind_rank_of(b.kind);
    ka < kb || (ka == kb && (same_text(a.name.as_str(), b.name.as_str()) || text_less(a.name.as_str(), b.name.as_str())))
}

/// Inserts a source after every source that comes no later than it.
fn insert_source(v: &mut Vec<MigrationSource>, x: MigrationSource)
    ensures
        final(v)@ == insert_stable(old(v)@, x),
    decreases old(v)@.len(),
{
    if v.len() == 0 {
        v.push(x);
        return;
    }
    let last_le = source_le_exec(&v[v.len() - 1], &x);
    if last_le {
        v.push(x);
    } else {
        let ghost ov = v@;
        let last = v.pop().unwrap();
        proof {
            assert(v@ == ov.drop_last());
            assert(last == ov.last());
        }
        insert_source(v, x);
        v.push(last);
    }
}

/// The sources in stable order by kind and then name.
pub fn sort_sources(sources: Vec<MigrationSource>) -> (r: Vec<MigrationSource>)
    ensures
        r@ == stable_sorted(sources@),
{
    let ghost s0 = sources@;
    let mut rest = sources;
    let mut out: Vec<MigrationSource> = Vec::new();
    let mut i: usize = 0;
    let total = rest.len();
    proof {
        assert(s0.take(0) =~= Seq::<MigrationSource>::empty());
        assert(s0.skip(0) =~= s0);
    }
    while rest.len() > 0
        invariant
            s0.len() == total,
            i <= s0.len(),
            rest@.len() == s0.len() - i,
            rest@ == s0.skip(i as int),
            out@ == stable_sorted(s0.take(i as int)),
        decreases rest@.len(),
    {
        proof {
            assert(i < s0.len());
        }
        let x = rest.remove(0);
        proof {
            assert(x == s0[i as int]);
            assert(s0.take(i + 1).drop_last() =~= s0.take(i as int));
            assert(s0.take(i + 1).last() == s0[i as int]);
            assert(rest@ =~= s0.skip(i + 1));
        }
        insert_source(&mut out, x);
        i += 1;
    }
    proof {
        assert(i == s0.len());
        assert(s0.take(s0.len() as int) =~= s0);
    }
    out
}

// ---------------------------------------------------------------------------
// Paths
// ---------------------------------------------------------------------------
/// The components of a path: a root marker for an absolute path, then its
/// segments that name something.
pub open spec fn components(p: Seq<char>) -> Seq<Seq<char>> {
    if p.len() > 0 && p[0] == '/' {
        seq!["/"@] + clean_segments(segments(p))
    } else {
        clean_segments(segments(p))
    }
}

/// `Path::starts_with`: the components of `base` begin the components of `p`.
pub open spec fn path_starts_with(p: Seq<char>, base: Seq<char>) -> bool {
    let a = components(p);
    let b = components(base);
    b.len() <= a.len() && a.take(b.len() as int) == b
}

fn components_of(p: &str) -> (r: Vec<Vec<char>>)
    ensures
        crate::frontmatter::char_views(r@) == components(p@),
{
    let v = crate::text::chars_of(p);
    let clean = crate::index::clean_segments_of(v.as_slice());
    if v.len() > 0 && v[0] == '/' {
        let mut r: Vec<Vec<char>> = Vec::new();
        r.push(crate::text::chars_of("/"));
        let mut i: usize = 0;
        let ghost head = crate::frontmatter::char_views(r@);
        while i < clean.len()
            invariant
                i <= clean@.len(),
                head == seq!["/"@],
                crate::frontmatter::char_views(r@) == head + crate::frontmatter::char_views(clean@).take(i as int),
            decreases clean@.len() - i,
        {
            let c = crate::text::slice_chars(clean[i].as_slice(), 0, clean[i].len());
            let ghost before = r@;
            r.push(c);
            proof {
                assert(c@ =~= clean@[i as int]@);
                assert(crate::frontmatter::char_views(r@) =~= crate::frontmatter::char_views(before).push(c@));
                assert(crate::frontmatter::char_views(clean@).take(i + 1) =~= crate::frontmatter::char_views(clean@).take(i as int).push(
                    clean@[i as int]@,
                ));
            }
            i += 1;
        }
        proof {
            assert(crate::frontmatter::char_views(clean@).take(clean@.len() as int) =~= crate::frontmatter::char_views(clean@));
        }
        r
    } else {
        clean
    }
}

/// The segments left once each `..` has removed the segment before it, or
/// `None` when a `..` has nothing left to remove.
pub open spec fn resolved_segments(ss: Seq<Seq<char>>) -> Option<Seq<Seq<char>>>
    decreases ss.len(),
{
    if ss.len() == 0 {
        Some(Seq::empty())
    } else {
        match resolved_segments(ss.drop_last()) {
            None => None,
            Some(r) => if ss.last() == ".."@ {
                if r.len() == 0 {
                    None
                } else {
                    Some(r.drop_last())
                }
            } else {
                Some(r.push(ss.last()))
            },
        }
    }
}

proof fn lemma_resolved_none(ss: Seq<Seq<char>>, k: int)
    requires
        0 <= k <= ss.len(),
        resolved_segments(ss.take(k)) is None,
    ensures
        resolved_segments(ss) is None,
    decreases ss.len() - k,
{
    if k < ss.len() {
        assert(ss.take(k + 1).drop_last() =~= ss.take(k));
        lemma_resolved_none(ss, k + 1);
    } else {
        assert(ss.take(k) =~= ss);
    }
}

/// An absolute path without its `.` components and with each `..` resolved
/// against the component before it; a `..` at the root is refused, naming the
/// path as it was given (`original`).
pub fn normalize_absolute(absolute: &str, original: &str) -> (r: Result<String, String>)
    requires
        absolute@.len() > 0,
        absolute@[0] == '/',
    ensures
        match resolved_segments(clean_segments(segments(absolute@))) {
            None => r matches Err(m) && m@ == "path escapes its filesystem root: "@ + original@,
            Some(ss) => r matches Ok(p) && p@ == "/"@ + join_sep(ss, "/"@),
        },
{
    let v = crate::text::chars_of(absolute);
    let cs = crate::index::clean_segments_of(v.as_slice());
    let ghost cv = crate::frontmatter::char_views(cs@);
    let dots = crate::text::chars_of("..");
    let mut stack: Vec<Vec<char>> = Vec::new();
    let mut i: usize = 0;
    proof {
        assert(cv.take(0) =~= Seq::<Seq<char>>::empty());
        assert(crate::frontmatter::char_views(stack@) =~= Seq::<Seq<char>>::empty());
    }
    while i < cs.len()
        invariant
            i <= cs@.len(),
            cv == crate::frontmatter::char_views(cs@),
            cv == clean_segments(segments(absolute@)),
            dots@ == ".."@,
            resolved_segments(cv.take(i as int)) == Some(crate::frontmatter::char_views(stack@)),
        decreases cs@.len() - i,
    {
        proof {
            assert(cv.take(i + 1).drop_last() =~= cv.take(i as int));
            assert(cv.take(i + 1).last() == cs@[i as int]@);
        }
        if crate::text::same_chars(cs[i].as_slice(), dots.as_slice()) {
            if stack.len() == 0 {
                proof {
                    lemma_resolved_none(cv, i + 1);
                }
                return Err(concat2("path escapes its filesystem root: ", original));
            }
            let ghost before = stack@;
            stack.pop();
            proof {
                assert(crate::frontmatter::char_views(stack@) =~= crate::frontmatter::char_views(before).drop_last());
            }
        } else {
            let seg = crate::text::slice_chars(cs[i].as_slice(), 0, cs[i].len());
            let ghost before = stack@;
            stack.push(seg);
            proof {
                assert(seg@ =~= cs@[i as int]@);
                assert(crate::frontmatter::char_views(stack@) =~= crate::frontmatter::char_views(before).push(cs@[i as int]@));
            }
        }
        i += 1;
    }
    proof {
        assert(cv.take(cs@.len() as int) =~= cv);
    }
    let sep = crate::text::chars_of("/");
    let joined = crate::frontmatter::join_chars(&stack, 0, stack.len(), sep.as_slice());
    proof {
        assert(crate::frontmatter::char_views(stack@).subrange(0, stack@.len() as int) =~= crate::frontmatter::char_views(stack@));
    }
    let mut out = owned("/");
    crate::text::push_chars(&mut out, joined.as_slice());
    Ok(out)
}

/// Whether a path begins with a base path, component by component.
pub fn starts_with_path(p: &str, base: &str) -> (r: bool)
    ensures
        r == path_starts_with(p@, base@),
{
    let a = components_of(p);
    let b = components_of(base);
    if b.len() > a.len() {
        return false;
    }
    let mut i: usize = 0;
    while i < b.len()
        invariant
            crate::frontmatter::char_views(a@) == components(p@),
            crate::frontmatter::char_views(b@) == components(base@),
            b@.len() <= a@.len(),
            i <= b@.len(),
            forall|j: int| 0 <= j < i ==> a@[j]@ == b@[j]@,
        decreases b@.len() - i,
    {
        if !crate::text::same_chars(a[i].as_slice(), b[i].as_slice()) {
            proof {
                assert(components(p@).take(b@.len() as int)[i as int] == a@[i as int]@);
                assert(components(base@)[i as int] == b@[i as int]@);
            }
            return false;
        }
        i += 1;
    }
    proof {
        assert(components(p@).take(b@.len() as int) =~= components(base@)) by {
            assert forall|j: int| 0 <= j < b@.len() implies components(p@).take(b@.len() as int)[j] == components(base@)[j] by {
                assert(components(p@)[j] == a@[j]@);
                assert(components(base@)[j] == b@[j]@);
            }
        }
    }
    true
}

// ---------------------------------------------------------------------------
// The plan identifier
// ---------------------------------------------------------------------------
pub open spec fn json_source(s: MigrationSource) -> Seq<char> {
    "{\"name\":"@ + json_str(s.name@) + ",\"kind\":"@ + json_str(kind_text(s.kind)) + ",\"path\":"@ + json_str(s.path@)
        + ",\"manifest_sha256\":"@ + json_str(s.manifest_sha256@) + "}"@
}

/// The JSON text over which a plan's identifier is taken: everything but its schema and identifier.
pub open spec fn plan_material(p: MigrationPlan) -> Seq<char> {
    "{\"domain\":"@ + json_str(p.domain@) + ",\"destination_root\":"@ + json_str(p.destination_root@) + ",\"registry_path\":"@
        + json_str(p.registry_path@) + ",\"host\":"@ + json_str(host_text(p.host)) + ",\"host_root\":"@ + json_str(p.host_root@)
        + ",\"sources\":"@ + json_array(p.sources@.map_values(|s: MigrationSource| json_source(s)))
        + ",\"preserves_native_commands\":"@ + (if p.preserves_native_commands {
        "true"@
    } else {
        "false"@
    }) + "}"@
}

/// A plan's identifier: the first 16 hexadecimal digits of its material's digest.
pub open spec fn plan_digest(p: MigrationPlan) -> Seq<char> {
    digest_hex(vstd::utf8::encode_utf8(plan_material(p))).take(16)
}

fn push_source(out: &mut String, s: &MigrationSource)
    ensures
        final(out)@ == old(out)@ + json_source(*s),
{
    let ghost start = out@;
    push_text(out, "{\"name\":");
    push_json_str(out, s.name.as_str());
    push_text(out, ",\"kind\":");
    push_json_str(out, s.kind.as_str());
    push_text(out, ",\"path\":");
    push_json_str(out, s.path.as_str());
    push_text(out, ",\"manifest_sha256\":");
    push_json_str(out, s.manifest_sha256.as_str());
    push_text(out, "}");
    proof {
        assert(out@ =~= start + json_source(*s));
    }
}

/// The identifier of a plan.
pub fn computed_plan_id(p: &MigrationPlan) -> (r: String)
    ensures
        r@ == plan_digest(*p),
{
    let mut out = String::new();
    push_text(&mut out, "{\"domain\":");
    push_json_str(&mut out, p.domain.as_str());
    push_text(&mut out, ",\"destination_root\":");
    push_json_str(&mut out, p.destination_root.as_str());
    push_text(&mut out, ",\"registry_path\":");
    push_json_str(&mut out, p.registry_path.as_str());
    push_text(&mut out, ",\"host\":");
    push_json_str(&mut out, p.host.as_str());
    push_text(&mut out, ",\"host_root\":");
    push_json_str(&mut out, p.host_root.as_str());
    push_text(&mut out, ",\"sources\":");
    let ghost before = out@;
    let ghost items = p.sources@.map_values(|s: MigrationSource| json_source(s));
    push_char(&mut out, '[');
    let mut i: usize = 0;
    while i < p.sources.len()
        invariant
            i <= p.sources@.len(),
            items == p.sources@.map_values(|s: MigrationSource| json_source(s)),
            out@ == before + seq!['['] + join_comma(items.take(i as int)),
        decreases p.sources@.len() - i,
    {
        if i > 0 {
            push_char(&mut out, ',');
        }
        push_source(&mut out, &p.sources[i]);
        proof {
            assert(items.take(i + 1).drop_last() =~= items.take(i as int));
        }
        i += 1;
    }
    push_char(&mut out, ']');
    proof {
        assert(items.take(p.sources@.len() as int) =~= items);
    }
    push_text(&mut out, ",\"preserves_native_commands\":");
    if p.preserves_native_commands {
        push_text(&mut out, "true");
    } else {
        push_text(&mut out, "false");
    }
    push_text(&mut out, "}");
    proof {
        assert(out@ =~= plan_material(*p));
    }
    let digest = sha256_text(out.as_str());
    let v = crate::text::chars_of(digest.as_str());
    let head = crate::text::slice_chars(v.as_slice(), 0, 16);
    proof {
        assert(head@ =~= digest@.take(16));
    }
    crate::text::string_of(head.as_slice())
}

// ---------------------------------------------------------------------------
// Planning
// ---------------------------------------------------------------------------
/// The first source (in order) that contains a path, if any.
pub open spec fn first_container(ss: Seq<MigrationSource>, p: Seq<char>, k: int) -> Option<Seq<char>>
    decreases ss.len() - k,
{
    if 0 <= k < ss.len() {
        if path_starts_with(p, ss[k].path@) {
            Some(ss[k].path@)
        } else {
            first_container(ss, p, k + 1)
        }
    } else {
        None
    }
}

/// The first refusal of placing the destination or the registry inside a
/// source root, source by source.
pub open spec fn containment_error(ss: Seq<MigrationSource>, destination: Seq<char>, registry: Seq<char>, k: int) -> Option<
    Seq<char>,
>
    decreases ss.len() - k,
{
    if 0 <= k < ss.len() {
        if path_starts_with(destination, ss[k].path@) {
            Some("migration destination cannot be inside a source root: "@ + ss[k].path@)
        } else if path_starts_with(registry, ss[k].path@) {
            Some("domain registry cannot be inside a source root: "@ + ss[k].path@)
        } else {
            containment_error(ss, destination, registry, k + 1)
        }
    } else {
        None
    }
}

/// Checks a migration request before its sources are resolved.
pub fn check_plan_request(domain: &str, source_count: usize) -> (r: SkillleafResult<()>)
    ensures
        !is_plain_name(domain@) ==> (r matches Err(SkillleafError::CatalogInput(m)) && m@ == domain_name_error(domain@)),
        is_plain_name(domain@) && source_count == 0 ==> (r matches Err(SkillleafError::CatalogInput(m)) && m@
            == "migration requires at least one skill or command source"@),
        is_plain_name(domain@) && source_count > 0 ==> r is Ok,
{
    match crate::domain::validate_domain_name(domain) {
        Err(m) => {
            return Err(SkillleafError::CatalogInput(m));
        },
        Ok(()) => {},
    }
    if source_count == 0 {
        return Err(SkillleafError::CatalogInput(owned("migration requires at least one skill or command source")));
    }
    Ok(())
}

/// Plans a migration from resolved sources (their canonical directories and
/// content digests) to absolute destination, registry and host paths: the
/// sources are put in order by kind and name, the destination and the
/// registry may not lie inside a source, and the plan is identified by the
/// digest of its content.
pub fn plan_migration(
    sources: Vec<MigrationSource>,
    destination_root: String,
    domain: String,
    registry_path: String,
    host: HostKind,
    host_root: String,
) -> (r: SkillleafResult<MigrationPlan>)
    ensures
        !is_plain_name(domain@) ==> (r matches Err(SkillleafError::CatalogInput(m)) && m@ == domain_name_error(domain@)),
        is_plain_name(domain@) && sources@.len() == 0 ==> (r matches Err(SkillleafError::CatalogInput(m)) && m@
            == "migration requires at least one skill or command source"@),
        is_plain_name(domain@) && sources@.len() > 0 ==> match containment_error(
            stable_sorted(sources@),
            destination_root@,
            registry_path@,
            0,
        ) {
            Some(x) => r matches Err(SkillleafError::CatalogInput(m)) && m@ == x,
            None => r matches Ok(p) && p.schema@ == PLAN_SCHEMA@ && p.domain == domain && p.destination_root
                == destination_root && p.registry_path == registry_path && p.host == host && p.host_root == host_root
                && p.sources@ == stable_sorted(sources@) && p.preserves_native_commands && p.plan_id@ == plan_digest(p),
        },
{
    check_plan_request(domain.as_str(), sources.len())?;
    let sorted = sort_sources(sources);
    let mut k: usize = 0;
    while k < sorted.len()
        invariant
            k <= sorted@.len(),
            is_plain_name(domain@),
            sources@.len() > 0,
            sorted@ == stable_sorted(sources@),
            containment_error(sorted@, destination_root@, registry_path@, k as int) == containment_error(
                sorted@,
                destination_root@,
                registry_path@,
                0,
            ),
        decreases sorted@.len() - k,
    {
        let s = &sorted[k];
        if starts_with_path(destination_root.as_str(), s.path.as_str()) {
            return Err(SkillleafError::CatalogInput(concat2("migration destination cannot be inside a source root: ", s.path.as_str())));
        }
        if starts_with_path(registry_path.as_str(), s.path.as_str()) {
            return Err(SkillleafError::CatalogInput(concat2("domain registry cannot be inside a source root: ", s.path.as_str())));
        }
        k += 1;
    }
    let mut plan = MigrationPlan {
        schema: owned(PLAN_SCHEMA),
        plan_id: String::new(),
        domain,
        destination_root,
        registry_path,
        host,
        host_root,
        sources: sorted,
        preserves_native_commands: true,
    };
    let id = computed_plan_id(&plan);
    let ghost before = plan;
    plan.plan_id = id;
    proof {
        assert(plan_material(plan) == plan_material(before));
    }
    Ok(plan)
}

/// What is wrong with a plan, if anything: its schema or a dropped guarantee,
/// its domain name, or an identifier that is not its digest.
pub open spec fn plan_error(p: MigrationPlan) -> Option<Seq<char>> {
    if p.schema@ != PLAN_SCHEMA@ || !p.preserves_native_commands {
        Some("invalid or unsafe migration plan"@)
    } else if !is_plain_name(p.domain@) {
        Some(domain_name_error(p.domain@))
    } else if p.plan_id@ != plan_digest(p) {
        Some("migration plan hash mismatch; generate a new plan"@)
    } else {
        None
    }
}

/// A plan that planning produces passes the checks made before it is
/// applied; a plan whose recorded identifier is not its digest is refused.
pub proof fn lemma_planned_migration_validates(
    sources: Seq<MigrationSource>,
    destination_root: String,
    domain: String,
    registry_path: String,
    host: HostKind,
    host_root: String,
    p: MigrationPlan,
)
    requires
        is_plain_name(domain@),
        p.schema@ == PLAN_SCHEMA@,
        p.domain == domain,
        p.destination_root == destination_root,
        p.registry_path == registry_path,
        p.host == host,
        p.host_root == host_root,
        p.sources@ == stable_sorted(sources),
        p.preserves_native_commands,
        p.plan_id@ == plan_digest(p),
    ensures
        plan_error(p) is None,
        forall|q: MigrationPlan| q.plan_id@ != plan_digest(q) ==> #[trigger] plan_error(q) is Some,
{
}

/// Checks a plan before it is applied.
pub fn validate_plan(p: &MigrationPlan) -> (r: Result<(), String>)
    ensures
        match plan_error(*p) {
            Some(x) => r matches Err(m) && m@ == x,
            None => r is Ok,
        },
{
    if !same_text(p.schema.as_str(), PLAN_SCHEMA) || !p.preserves_native_commands {
        return Err(owned("invalid or unsafe migration plan"));
    }
    crate::domain::validate_domain_name(p.domain.as_str())?;
    let expected = computed_plan_id(p);
    if !same_text(p.plan_id.as_str(), expected.as_str()) {
        return Err(owned("migration plan hash mismatch; generate a new plan"));
    }
    Ok(())
}

/// Accepts a decoded plan of the supported schema that passes its checks.
pub fn load_migration_plan(plan: MigrationPlan) -> (r: SkillleafResult<MigrationPlan>)
    ensures
        plan.schema@ != PLAN_SCHEMA@ ==> (r matches Err(SkillleafError::Integrity(m)) && m@ == "unsupported migration plan schema: "@
            + plan.schema@),
        plan.schema@ == PLAN_SCHEMA@ ==> match plan_error(plan) {
            Some(x) => r matches Err(SkillleafError::Integrity(m)) && m@ == x,
            None => r matches Ok(p) && p == plan,
        },
{
    if !same_text(plan.schema.as_str(), PLAN_SCHEMA) {
        return Err(SkillleafError::Integrity(concat2("unsupported migration plan schema: ", plan.schema.as_str())));
    }
    match validate_plan(&plan) {
        Err(m) => Err(SkillleafError::Integrity(m)),
        Ok(()) => Ok(plan),
    }
}

/// Accepts a decoded receipt of the supported schema.
pub fn load_migration_receipt(receipt: MigrationReceipt) -> (r: SkillleafResult<MigrationReceipt>)
    ensures
        receipt.schema@ != MIGRATION_RECEIPT_SCHEMA@ ==> (r matches Err(SkillleafError::Integrity(m)) && m@
            == "unsupported migration receipt schema: "@ + receipt.schema@),
        receipt.schema@ == MIGRATION_RECEIPT_SCHEMA@ ==> (r matches Ok(x) && x == receipt),
{
    if !same_text(receipt.schema.as_str(), MIGRATION_RECEIPT_SCHEMA) {
        return Err(SkillleafError::Integrity(concat2("unsupported migration receipt schema: ", receipt.schema.as_str())));
    }
    Ok(receipt)
}

// ---------------------------------------------------------------------------
// Applying and rolling back
// ---------------------------------------------------------------------------
/// The first source whose contents changed since planning, given their digests now.
pub open spec fn first_drift(ss: Seq<MigrationSource>, now: Seq<String>, k: int) -> Option<Seq<char>>
    decreases ss.len() - k,
{
    if 0 <= k < ss.len() {
        if k >= now.len() || now[k]@ != ss[k].manifest_sha256@ {
            Some(ss[k].path@)
        } else {
            first_drift(ss, now, k + 1)
        }
    } else {
        None
    }
}

/// Checks a plan before applying it, given the digests of its sources now.
pub fn check_apply(plan: &MigrationPlan, current: &Vec<String>) -> (r: SkillleafResult<()>)
    ensures
        match plan_error(*plan) {
            Some(x) => r matches Err(SkillleafError::Storage(m)) && m@ == x,
            None => match first_drift(plan.sources@, current@, 0) {
                Some(p) => r matches Err(SkillleafError::Storage(m)) && m@ == "migration source changed after planning: "@ + p,
                None => r is Ok,
            },
        },
{
    match validate_plan(plan) {
        Err(m) => {
            return Err(SkillleafError::Storage(m));
        },
        Ok(()) => {},
    }
    let mut k: usize = 0;
    while k < plan.sources.len()
        invariant
            k <= plan.sources@.len(),
            plan_error(*plan) is None,
            first_drift(plan.sources@, current@, k as int) == first_drift(plan.sources@, current@, 0),
        decreases plan.sources@.len() - k,
    {
        let s = &plan.sources[k];
        if k >= current.len() || !same_text(current[k].as_str(), s.manifest_sha256.as_str()) {
            return Err(SkillleafError::Storage(concat2("migration source changed after planning: ", s.path.as_str())));
        }
        k += 1;
    }
    Ok(())
}

/// The directory (`skills` or `commands`) into which a source is copied.
pub fn migration_dir(kind: EntryKind) -> (r: Result<&'static str, String>)
    ensures
        kind == EntryKind::Skill ==> (r matches Ok(d) && d@ == "skills"@),
        kind == EntryKind::Command ==> (r matches Ok(d) && d@ == "commands"@),
        kind == EntryKind::Resource ==> (r matches Err(m) && m@ == "resource roots cannot be migrated directly"@),
{
    match kind {
        EntryKind::Skill => Ok("skills"),
        EntryKind::Command => Ok("commands"),
        EntryKind::Resource => Err(owned("resource roots cannot be migrated directly")),
    }
}

/// Moves a staged catalogue root below the domain directory.
pub fn staged_root(root: &str, staging: &str, domain_root: &str) -> (r: Result<String, String>)
    ensures
        ({
            let a = components(root@);
            let b = components(staging@);
            if path_starts_with(root@, staging@) {
                r matches Ok(x) && x@ == crate::snapshot::path_join(domain_root@, join_sep(a.skip(b.len() as int), "/"@))
            } else {
                r matches Err(m) && m@ == "catalog root is outside staging: "@ + root@
            }
        }),
{
    if !starts_with_path(root, staging) {
        return Err(concat2("catalog root is outside staging: ", root));
    }
    let a = components_of(root);
    let b = components_of(staging);
    let slash = crate::text::chars_of("/");
    let rel = crate::frontmatter::join_chars(&a, b.len(), a.len(), slash.as_slice());
    proof {
        assert(crate::frontmatter::char_views(a@).subrange(b@.len() as int, a@.len() as int) =~= components(root@).skip(
            components(staging@).len() as int,
        ));
    }
    let dv = crate::text::chars_of(domain_root);
    let mut out = owned(domain_root);
    if dv.len() > 0 && dv[dv.len() - 1] != '/' {
        push_text(&mut out, "/");
    }
    crate::text::push_chars(&mut out, rel.as_slice());
    if dv.len() == 0 {
        proof {
            assert(out@ =~= rel@);
        }
    }
    Ok(out)
}

/// Where a staged root lies once the staging directory becomes the domain.
pub open spec fn staged_path(root: Seq<char>, staging: Seq<char>, domain_root: Seq<char>) -> Seq<char> {
    crate::snapshot::path_join(domain_root, join_sep(components(root).skip(components(staging).len() as int), "/"@))
}

/// The first root path, from position `k` on, that lies outside the staging directory.
pub open spec fn first_outside(rs: Seq<CatalogRoot>, staging: Seq<char>, k: int) -> Option<Seq<char>>
    decreases rs.len() - k,
{
    if 0 <= k < rs.len() {
        if !path_starts_with(rs[k].path@, staging) {
            Some(rs[k].path@)
        } else {
            first_outside(rs, staging, k + 1)
        }
    } else {
        None
    }
}

/// The catalogue built in a staging directory, as it reads once that
/// directory has become the domain: every root moved below the domain
/// directory, and the catalogue digest computed again. Refused when a root
/// lies outside the staging directory.
pub fn rebase_staged_catalog(catalog: Catalog, staging: &str, domain_root: &str) -> (r: Result<Catalog, String>)
    ensures
        match first_outside(catalog.roots@, staging@, 0) {
            Some(p) => r matches Err(m) && m@ == "catalog root is outside staging: "@ + p,
            None => r matches Ok(c) && c.schema@ == catalog.schema@ && c.entries@ == catalog.entries@ && c.roots@.len()
                == catalog.roots@.len() && (forall|i: int|
                0 <= i < c.roots@.len() ==> (#[trigger] c.roots@[i]).key@ == catalog.roots@[i].key@ && c.roots@[i].path@
                    == staged_path(catalog.roots@[i].path@, staging@, domain_root@)) && c.catalog_sha256@ == catalog_digest(
                c.roots@,
                c.entries@,
            ),
        },
{
    let mut roots: Vec<CatalogRoot> = Vec::new();
    let mut i: usize = 0;
    while i < catalog.roots.len()
        invariant
            i <= catalog.roots@.len(),
            first_outside(catalog.roots@, staging@, i as int) == first_outside(catalog.roots@, staging@, 0),
            roots@.len() == i,
            forall|j: int|
                0 <= j < i ==> (#[trigger] roots@[j]).key@ == catalog.roots@[j].key@ && roots@[j].path@ == staged_path(
                    catalog.roots@[j].path@,
                    staging@,
                    domain_root@,
                ),
        decreases catalog.roots@.len() - i,
    {
        let root = &catalog.roots[i];
        let path = staged_root(root.path.as_str(), staging, domain_root)?;
        roots.push(CatalogRoot { key: copy_string(&root.key), path });
        i += 1;
    }
    let hash = catalog_hash(&roots, &catalog.entries);
    Ok(Catalog { schema: catalog.schema, catalog_sha256: hash, roots, entries: catalog.entries })
}

/// The host adapter that routes a host through a domain.
pub open spec fn adapter_text(domain: Seq<char>, registry: Seq<char>) -> Seq<char> {
    "---\nname: skillleaf\ndescription: Route local skills and commands lazily through Skill-Leaf.\n---\n# Skill-Leaf router\n\nResolve the current task with `skillleaf resolve --domain "@
        + domain + " --registry \""@ + registry
        + "\" --task \"<task>\" --limit 3`, then hydrate all selected selectors in one `skillleaf read --domain "@ + domain
        + " --registry \""@ + registry
        + "\" --many <selectors>` call. Keep exactly one active router and do not preload unselected bodies. Native slash-command files remain owned by the host and must not be removed.\n"@
}

pub fn adapter_body(domain: &str, registry: &str) -> (r: String)
    ensures
        r@ == adapter_text(domain@, registry@),
{
    let mut s = owned(
        "---\nname: skillleaf\ndescription: Route local skills and commands lazily through Skill-Leaf.\n---\n# Skill-Leaf router\n\nResolve the current task with `skillleaf resolve --domain ",
    );
    push_text(&mut s, domain);
    push_text(&mut s, " --registry \"");
    push_text(&mut s, registry);
    push_text(&mut s, "\" --task \"<task>\" --limit 3`, then hydrate all selected selectors in one `skillleaf read --domain ");
    push_text(&mut s, domain);
    push_text(&mut s, " --registry \"");
    push_text(&mut s, registry);
    push_text(
        &mut s,
        "\" --many <selectors>` call. Keep exactly one active router and do not preload unselected bodies. Native slash-command files remain owned by the host and must not be removed.\n",
    );
    s
}

/// What copying a source tree does with one walked path.
#[derive(Clone, Copy, Debug, PartialEq, Eq, Structural)]
pub enum CopyStep {
    Directory,
    File,
    Skip,
}

/// The step for a walked path: links and files over the size bound are
/// refused, directories are created, regular files copied, anything else skipped.
pub fn copy_step(path: &str, is_symlink: bool, is_dir: bool, is_file: bool, len: u64) -> (r: Result<CopyStep, String>)
    ensures
        is_symlink ==> (r matches Err(m) && m@ == "migration refuses symlinked content: "@ + path@),
        !is_symlink && is_dir ==> r == Ok::<CopyStep, String>(CopyStep::Directory),
        !is_symlink && !is_dir && is_file && len > MAX_MIGRATION_FILE_BYTES ==> (r matches Err(m) && m@
            == "migration file exceeds 16777216 bytes: "@ + path@),
        !is_symlink && !is_dir && is_file && len <= MAX_MIGRATION_FILE_BYTES ==> r == Ok::<CopyStep, String>(CopyStep::File),
        !is_symlink && !is_dir && !is_file ==> r == Ok::<CopyStep, String>(CopyStep::Skip),
{
    if is_symlink {
        return Err(concat2("migration refuses symlinked content: ", path));
    }
    if is_dir {
        return Ok(CopyStep::Directory);
    }
    if is_file {
        if len > MAX_MIGRATION_FILE_BYTES {
            return Err(concat2("migration file exceeds 16777216 bytes: ", path));
        }
        return Ok(CopyStep::File);
    }
    Ok(CopyStep::Skip)
}

/// What to do about the host adapter given the text found at its path, if
/// any: write it (`true`), keep an identical one (`false`), or refuse to
/// overwrite a different one.
pub fn adapter_action(adapter_path: &str, existing: Option<String>, adapter: &str) -> (r: Result<bool, String>)
    ensures
        match existing {
            None => r == Ok::<bool, String>(true),
            Some(x) => if x@ == adapter@ {
                r == Ok::<bool, String>(false)
            } else {
                r matches Err(m) && m@ == "host adapter already exists with different content: "@ + adapter_path@
            },
        },
{
    match existing {
        None => Ok(true),
        Some(x) => {
            if same_text(x.as_str(), adapter) {
                Ok(false)
            } else {
                Err(concat2("host adapter already exists with different content: ", adapter_path))
            }
        },
    }
}

/// The name of the directory in which a plan's domain is assembled.
pub fn staging_name(domain: &str, plan_id: &str) -> (r: String)
    ensures
        r@ == ".skillleaf-"@ + domain@ + "-"@ + plan_id@ + ".staging"@,
{
    let mut s = concat3(".skillleaf-", domain, "-");
    push_text(&mut s, plan_id);
    push_text(&mut s, ".staging");
    s
}

/// Registers the migrated domain; a domain already registered is refused.
pub fn register_migrated_domain(registry: &mut DomainRegistry, domain: &str, catalog_path: String, usage_path: String) -> (r: Result<(), String>)
    requires
        crate::domain::domains_sorted(old(registry).domains@),
    ensures
        crate::domain::domains_sorted(final(registry).domains@),
        crate::domain::has_name(old(registry).domains@, domain@) ==> (r matches Err(m) && m@ == "domain already exists in registry: "@
            + domain@ && final(registry).domains@ == old(registry).domains@),
        !crate::domain::has_name(old(registry).domains@, domain@) ==> (r is Ok && crate::domain::has_domain(
            final(registry).domains@,
            domain@,
            (catalog_path@, Some(usage_path@), None),
        ) && forall|n: Seq<char>, c: crate::domain::ConfigView| n != domain@ ==> (crate::domain::has_domain(
            final(registry).domains@,
            n,
            c,
        ) <==> crate::domain::has_domain(old(registry).domains@, n, c))),
{
    if crate::domain::find_domain(&registry.domains, domain).is_some() {
        return Err(concat2("domain already exists in registry: ", domain));
    }
    crate::domain::set_domain(
        &mut registry.domains,
        owned(domain),
        DomainConfig { catalog: catalog_path, usage_file: Some(usage_path), account: None },
    );
    Ok(())
}

/// Checks that nothing a migration created changed since, given the digests
/// of the registry, the domain and (when it was created) the adapter now.
pub fn check_rollback(receipt: &MigrationReceipt, registry_now: &str, domain_now: &str, adapter_now: &str) -> (r: SkillleafResult<()>)
    ensures
        receipt.schema@ != MIGRATION_RECEIPT_SCHEMA@ ==> (r matches Err(SkillleafError::Storage(m)) && m@
            == "unsupported migration receipt schema: "@ + receipt.schema@),
        receipt.schema@ == MIGRATION_RECEIPT_SCHEMA@ && registry_now@ != receipt.registry_after_sha256@ ==> (r matches Err(
            SkillleafError::Storage(m),
        ) && m@ == "domain registry changed after migration; refusing rollback"@),
        receipt.schema@ == MIGRATION_RECEIPT_SCHEMA@ && registry_now@ == receipt.registry_after_sha256@ && domain_now@
            != receipt.domain_manifest_sha256@ ==> (r matches Err(SkillleafError::Storage(m)) && m@
            == "migrated domain changed after apply; refusing rollback"@),
        receipt.schema@ == MIGRATION_RECEIPT_SCHEMA@ && registry_now@ == receipt.registry_after_sha256@ && domain_now@
            == receipt.domain_manifest_sha256@ && receipt.adapter_created && adapter_now@ != receipt.adapter_sha256@ ==> (r matches Err(
            SkillleafError::Storage(m),
        ) && m@ == "host adapter changed after migration; refusing rollback"@),
        receipt.schema@ == MIGRATION_RECEIPT_SCHEMA@ && registry_now@ == receipt.registry_after_sha256@ && domain_now@
            == receipt.domain_manifest_sha256@ && (!receipt.adapter_created || adapter_now@ == receipt.adapter_sha256@) ==> r is Ok,
{
    if !same_text(receipt.schema.as_str(), MIGRATION_RECEIPT_SCHEMA) {
        return Err(SkillleafError::Storage(concat2("unsupported migration receipt schema: ", receipt.schema.as_str())));
    }
    if !same_text(registry_now, receipt.registry_after_sha256.as_str()) {
        return Err(SkillleafError::Storage(owned("domain registry changed after migration; refusing rollback")));
    }
    if !same_text(domain_now, receipt.domain_manifest_sha256.as_str()) {
        return Err(SkillleafError::Storage(owned("migrated domain changed after apply; refusing rollback")));
    }
    if receipt.adapter_created && !same_text(adapter_now, receipt.adapter_sha256.as_str()) {
        return Err(SkillleafError::Storage(owned("host adapter changed after migration; refusing rollback")));
    }
    Ok(())
}

// ---------------------------------------------------------------------------
// Directory digests
// ---------------------------------------------------------------------------
/// The JSON object of (path, digest) pairs, in order.
pub open spec fn json_digests(ps: Seq<(Seq<char>, Seq<char>)>) -> Seq<char> {
    seq!['{'] + join_comma(ps.map_values(|p: (Seq<char>, Seq<char>)| json_str(p.0) + seq![':'] + json_str(p.1))) + seq!['}']
}

/// The digest of a directory's files: of the JSON object that maps each
/// relative path, in order, to the digest of its contents.
pub open spec fn directory_digest(files: Seq<crate::snapshot::PathBody>) -> Seq<char> {
    digest_hex(
        vstd::utf8::encode_utf8(
            json_digests(files.map_values(|f: crate::snapshot::PathBody| (f.path@, digest_hex(f.bytes@)))),
        ),
    )
}

/// The digest of a directory's files, given in increasing path order.
pub fn directory_manifest_hash(files: &Vec<crate::snapshot::PathBody>) -> (r: String)
    ensures
        r@ == directory_digest(files@),
{
    let ghost items = files@.map_values(|f: crate::snapshot::PathBody| json_str(f.path@) + seq![':'] + json_str(digest_hex(f.bytes@)));
    let mut out = String::new();
    push_char(&mut out, '{');
    let mut i: usize = 0;
    while i < files.len()
        invariant
            i <= files@.len(),
            items == files@.map_values(|f: crate::snapshot::PathBody| json_str(f.path@) + seq![':'] + json_str(digest_hex(f.bytes@))),
            out@ == seq!['{'] + join_comma(items.take(i as int)),
        decreases files@.len() - i,
    {
        if i > 0 {
            push_char(&mut out, ',');
        }
        push_json_str(&mut out, files[i].path.as_str());
        push_char(&mut out, ':');
        let d = sha256(files[i].bytes.as_slice());
        push_json_str(&mut out, d.as_str());
        proof {
            assert(items.take(i + 1).drop_last() =~= items.take(i as int));
        }
        i += 1;
    }
    push_char(&mut out, '}');
    proof {
        assert(items.take(files@.len() as int) =~= items);
        let ps = files@.map_values(|f: crate::snapshot::PathBody| (f.path@, digest_hex(f.bytes@)));
        assert(ps.map_values(|p: (Seq<char>, Seq<char>)| json_str(p.0) + seq![':'] + json_str(p.1)) =~= items);
        assert(out@ =~= json_digests(ps));
    }
    sha256_text(out.as_str())
}

} // verus!
