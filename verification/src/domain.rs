//! Domains: isolated catalogues, each registered under a plain name.
use vstd::prelude::*;

use crate::catalog::{SkillleafError, SkillleafResult};
use crate::frontmatter::opt_view;
use crate::strset::copy_string;
use crate::text::{concat2, is_plain_name, is_plain_name_text, lemma_lex_total, lemma_lex_transitive, lex_lt, owned, same_text, text_less};

verus! {

/// The schema tag of the domain registry.
pub const DOMAIN_REGISTRY_SCHEMA: &'static str = "skillleaf.domain-registry.v1";

/// Where a domain's catalogue (and, optionally, its usage ledger) lives.
#[derive(Clone, Debug)]
pub struct DomainConfig {
    pub catalog: String,
    pub usage_file: Option<String>,
    pub account: Option<String>,
}

/// A registered domain.
#[derive(Clone, Debug)]
pub struct DomainEntry {
    pub name: String,
    pub config: DomainConfig,
}

/// The registry of domains, ordered by name with each name once.
#[derive(Clone, Debug)]
pub struct DomainRegistry {
    pub schema: String,
    pub domains: Vec<DomainEntry>,
}

/// A domain's configuration as plain values.
pub type ConfigView = (Seq<char>, Option<Seq<char>>, Option<Seq<char>>);

pub open spec fn config_view(c: DomainConfig) -> ConfigView {
    (c.catalog@, opt_view(c.usage_file), opt_view(c.account))
}

/// Domains in strictly increasing name order.
pub open spec fn domains_sorted(ds: Seq<DomainEntry>) -> bool {
    forall|i: int, j: int| 0 <= i < j < ds.len() ==> lex_lt(#[trigger] ds[i].name@, #[trigger] ds[j].name@)
}

/// The registry has a domain with this name and configuration.
pub open spec fn has_domain(ds: Seq<DomainEntry>, n: Seq<char>, c: ConfigView) -> bool {
    exists|i: int| 0 <= i < ds.len() && (#[trigger] ds[i]).name@ == n && config_view(ds[i].config) == c
}

/// The registry has a domain with this name.
pub open spec fn has_name(ds: Seq<DomainEntry>, n: Seq<char>) -> bool {
    exists|i: int| 0 <= i < ds.len() && (#[trigger] ds[i]).name@ == n
}

impl Default for DomainRegistry {
    fn default() -> (r: Self)
        ensures
            r.schema@ == DOMAIN_REGISTRY_SCHEMA@,
            r.domains@.len() == 0,
    {
        DomainRegistry { schema: owned(DOMAIN_REGISTRY_SCHEMA), domains: Vec::new() }
    }
}

/// The refusal of a domain name.
pub open spec fn domain_name_error(n: Seq<char>) -> Seq<char> {
    "domain names must contain only letters, numbers, '-' or '_': "@ + n
}

/// Refuses a domain name that is not a plain name.
pub fn validate_domain_name(name: &str) -> (r: Result<(), String>)
    ensures
        r is Ok <==> is_plain_name(name@),
        r matches Err(m) ==> m@ == domain_name_error(name@),
{
    if !is_plain_name_text(name) {
        return Err(concat2("domain names must contain only letters, numbers, '-' or '_': ", name));
    }
    Ok(())
}

/// The first domain (in name order) whose name is not plain.
pub open spec fn first_bad_domain(ds: Seq<DomainEntry>, k: int) -> Option<Seq<char>>
    decreases ds.len() - k,
{
    if 0 <= k < ds.len() {
        if !is_plain_name(ds[k].name@) {
            Some(ds[k].name@)
        } else {
            first_bad_domain(ds, k + 1)
        }
    } else {
        None
    }
}

fn check_names(ds: &Vec<DomainEntry>) -> (r: Result<(), String>)
    ensures
        match first_bad_domain(ds@, 0) {
            Some(n) => r matches Err(m) && m@ == domain_name_error(n),
            None => r is Ok,
        },
{
    let mut i: usize = 0;
    while i < ds.len()
        invariant
            i <= ds@.len(),
            first_bad_domain(ds@, i as int) == first_bad_domain(ds@, 0),
        decreases ds@.len() - i,
    {
        validate_domain_name(ds[i].name.as_str())?;
        i += 1;
    }
    Ok(())
}

/// Accepts a stored registry (none when there is no registry file yet, which
/// reads as the empty registry) when its schema is supported and every
/// domain name is plain.
pub fn load_domain_registry(stored: Option<DomainRegistry>) -> (r: SkillleafResult<DomainRegistry>)
    ensures
        match stored {
            None => r matches Ok(x) && x.schema@ == DOMAIN_REGISTRY_SCHEMA@ && x.domains@.len() == 0,
            Some(reg) => if reg.schema@ != DOMAIN_REGISTRY_SCHEMA@ {
                r matches Err(SkillleafError::Integrity(m)) && m@ == "unsupported domain registry schema: "@ + reg.schema@
            } else {
                match first_bad_domain(reg.domains@, 0) {
                    Some(n) => r matches Err(SkillleafError::Integrity(m)) && m@ == domain_name_error(n),
                    None => r matches Ok(x) && x == reg,
                }
            },
        },
{
    match stored {
        None => Ok(DomainRegistry::default()),
        Some(reg) => {
            if !same_text(reg.schema.as_str(), DOMAIN_REGISTRY_SCHEMA) {
                return Err(SkillleafError::Integrity(concat2("unsupported domain registry schema: ", reg.schema.as_str())));
            }
            match check_names(&reg.domains) {
                Err(m) => Err(SkillleafError::Integrity(m)),
                Ok(()) => Ok(reg),
            }
        },
    }
}

/// Checks a registry before it is written: every domain name must be plain.
pub fn check_registry_for_write(registry: &DomainRegistry) -> (r: SkillleafResult<()>)
    ensures
        match first_bad_domain(registry.domains@, 0) {
            Some(n) => r matches Err(SkillleafError::Storage(m)) && m@ == domain_name_error(n),
            None => r is Ok,
        },
{
    match check_names(&registry.domains) {
        Err(m) => Err(SkillleafError::Storage(m)),
        Ok(()) => Ok(()),
    }
}

/// The position of the domain with a name.
pub fn find_domain(ds: &Vec<DomainEntry>, name: &str) -> (r: Option<usize>)
    ensures
        match r {
            Some(i) => i < ds@.len() && ds@[i as int].name@ == name@,
            None => !has_name(ds@, name@),
        },
{
    let mut i: usize = 0;
    while i < ds.len()
        invariant
            i <= ds@.len(),
            forall|j: int| 0 <= j < i ==> (#[trigger] ds@[j]).name@ != name@,
        decreases ds@.len() - i,
    {
        if same_text(ds[i].name.as_str(), name) {
            return Some(i);
        }
        i += 1;
    }
    None
}

/// The catalogue a request opens: the explicit one, or the one registered for
/// the named domain, or `skillleaf.json`; naming both is refused. The
/// registry is consulted only for a domain.
pub fn domain_catalog_path(explicit_catalog: Option<String>, domain: Option<String>, registry: SkillleafResult<DomainRegistry>) -> (r: SkillleafResult<String>)
    ensures
        match (explicit_catalog, domain) {
            (Some(_), Some(_)) => r matches Err(SkillleafError::CatalogInput(m)) && m@ == "use either --catalog or --domain, not both"@,
            (Some(c), None) => r matches Ok(p) && p@ == c@,
            (None, None) => r matches Ok(p) && p@ == "skillleaf.json"@,
            (None, Some(d)) => if !is_plain_name(d@) {
                r matches Err(SkillleafError::CatalogInput(m)) && m@ == domain_name_error(d@)
            } else {
                match registry {
                    Err(e) => r == Err::<String, SkillleafError>(e),
                    Ok(reg) => if has_name(reg.domains@, d@) {
                        r matches Ok(p) && exists|i: int| 0 <= i < reg.domains@.len() && (#[trigger] reg.domains@[i]).name@ == d@
                            && reg.domains@[i].config.catalog@ == p@
                    } else {
                        r matches Err(SkillleafError::CatalogInput(m)) && m@ == "unknown Skill-Leaf domain: "@ + d@
                    },
                }
            },
        },
{
    match (explicit_catalog, domain) {
        (Some(_), Some(_)) => Err(SkillleafError::CatalogInput(owned("use either --catalog or --domain, not both"))),
        (Some(c), None) => Ok(c),
        (None, None) => Ok(owned("skillleaf.json")),
        (None, Some(d)) => {
            match validate_domain_name(d.as_str()) {
                Err(m) => {
                    return Err(SkillleafError::CatalogInput(m));
                },
                Ok(()) => {},
            }
            let reg = match registry {
                Err(e) => {
                    return Err(e);
                },
                Ok(reg) => reg,
            };
            match find_domain(&reg.domains, d.as_str()) {
                Some(i) => Ok(copy_string(&reg.domains[i].config.catalog)),
                None => Err(SkillleafError::CatalogInput(concat2("unknown Skill-Leaf domain: ", d.as_str()))),
            }
        },
    }
}

/// Registers a domain under a name, replacing the configuration of a domain
/// already registered under it, and keeps the registry in name order.
pub fn set_domain(ds: &mut Vec<DomainEntry>, name: String, config: DomainConfig)
    requires
        domains_sorted(old(ds)@),
    ensures
        domains_sorted(final(ds)@),
        has_domain(final(ds)@, name@, config_view(config)),
        forall|n: Seq<char>, c: ConfigView| n != name@ ==> (has_domain(final(ds)@, n, c) <==> has_domain(old(ds)@, n, c)),
        forall|n: Seq<char>| #[trigger] has_name(final(ds)@, n) <==> (has_name(old(ds)@, n) || n == name@),
{
    let ghost ov = ds@;
    let ghost nv = name@;
    let ghost cv = config_view(config);
    let mut p: usize = 0;
    while p < ds.len() && text_less(ds[p].name.as_str(), name.as_str())
        invariant
            p <= ds@.len(),
            ds@ == ov,
            nv == name@,
            domains_sorted(ov),
            forall|j: int| 0 <= j < p ==> lex_lt(#[trigger] ov[j].name@, nv),
        decreases ds@.len() - p,
    {
        p += 1;
    }
    proof {
        if p < ov.len() {
            lemma_lex_total(ov[p as int].name@, nv);
        }
    }
    if p < ds.len() && same_text(ds[p].name.as_str(), name.as_str()) {
        let e = DomainEntry { name, config };
        ds.set(p, e);
        proof {
            assert(ds@ == ov.update(p as int, e));
            assert(domains_sorted(ds@)) by {
                assert forall|i: int, j: int| 0 <= i < j < ds@.len() implies lex_lt(#[trigger] ds@[i].name@, #[trigger] ds@[j].name@) by {
                    if i == p {
                        assert(ds@[j] == ov[j]);
                    } else if j == p {
                        assert(ds@[i] == ov[i]);
                    } else {
                        assert(ds@[i] == ov[i] && ds@[j] == ov[j]);
                    }
                }
            }
            assert(ds@[p as int].name@ == nv && config_view(ds@[p as int].config) == cv);
            lemma_domains_unique(ov, p as int);
            lemma_domains_unique(ds@, p as int);
            assert forall|n: Seq<char>, c: ConfigView| n != nv implies (has_domain(ds@, n, c) <==> has_domain(ov, n, c)) by {
                if has_domain(ds@, n, c) {
                    let i = choose|i: int| 0 <= i < ds@.len() && (#[trigger] ds@[i]).name@ == n && config_view(ds@[i].config) == c;
                    assert(i != p);
                    assert(ov[i] == ds@[i]);
                }
                if has_domain(ov, n, c) {
                    let i = choose|i: int| 0 <= i < ov.len() && (#[trigger] ov[i]).name@ == n && config_view(ov[i].config) == c;
                    assert(ov[i] == ds@[i]);
                }
            }
            assert forall|n: Seq<char>| #[trigger] has_name(ds@, n) <==> (has_name(ov, n) || n == nv) by {
                if has_name(ds@, n) {
                    let i = choose|i: int| 0 <= i < ds@.len() && (#[trigger] ds@[i]).name@ == n;
                    if i != p {
                        assert(ov[i] == ds@[i]);
                    } else {
                        assert(ov[p as int].name@ == n);
                    }
                }
                if has_name(ov, n) {
                    let i = choose|i: int| 0 <= i < ov.len() && (#[trigger] ov[i]).name@ == n;
                    if i != p {
                        assert(ds@[i] == ov[i]);
                    } else {
                        assert(ds@[p as int].name@ == n);
                    }
                }
                if n == nv {
                    assert(ds@[p as int].name@ == n);
                }
            }
        }
    } else {
        let e = DomainEntry { name, config };
        ds.insert(p, e);
        proof {
            assert(ds@ == ov.insert(p as int, e));
            assert forall|i: int, j: int| 0 <= i < j < ds@.len() implies lex_lt(#[trigger] ds@[i].name@, #[trigger] ds@[j].name@) by {
                if j < p {
                    assert(ds@[i] == ov[i] && ds@[j] == ov[j]);
                } else if j == p {
                    assert(ds@[i] == ov[i]);
                } else if i < p {
                    assert(ds@[i] == ov[i] && ds@[j] == ov[j - 1]);
                    if j - 1 > p {
                        lemma_lex_transitive(nv, ov[p as int].name@, ov[j - 1].name@);
                    }
                    lemma_lex_transitive(ov[i].name@, nv, ov[j - 1].name@);
                } else if i == p {
                    assert(ds@[j] == ov[j - 1]);
                    if j - 1 > p {
                        lemma_lex_transitive(nv, ov[p as int].name@, ov[j - 1].name@);
                    }
                } else {
                    assert(ds@[i] == ov[i - 1] && ds@[j] == ov[j - 1]);
                }
            }
            assert(ds@[p as int].name@ == nv && config_view(ds@[p as int].config) == cv);
            assert forall|n: Seq<char>, c: ConfigView| n != nv implies (has_domain(ds@, n, c) <==> has_domain(ov, n, c)) by {
                if has_domain(ds@, n, c) {
                    let i = choose|i: int| 0 <= i < ds@.len() && (#[trigger] ds@[i]).name@ == n && config_view(ds@[i].config) == c;
                    if i < p {
                        assert(ov[i] == ds@[i]);
                    } else {
                        assert(i != p);
                        assert(ov[i - 1] == ds@[i]);
                    }
                }
                if has_domain(ov, n, c) {
                    let i = choose|i: int| 0 <= i < ov.len() && (#[trigger] ov[i]).name@ == n && config_view(ov[i].config) == c;
                    if i < p {
                        assert(ds@[i] == ov[i]);
                    } else {
                        assert(ds@[i + 1] == ov[i]);
                    }
                }
            }
            assert forall|n: Seq<char>| #[trigger] has_name(ds@, n) <==> (has_name(ov, n) || n == nv) by {
                if has_name(ds@, n) {
                    let i = choose|i: int| 0 <= i < ds@.len() && (#[trigger] ds@[i]).name@ == n;
                    if i < p {
                        assert(ov[i] == ds@[i]);
                    } else if i > p {
                        assert(ov[i - 1] == ds@[i]);
                    }
                }
                if has_name(ov, n) {
                    let i = choose|i: int| 0 <= i < ov.len() && (#[trigger] ov[i]).name@ == n;
                    if i < p {
                        assert(ds@[i] == ov[i]);
                    } else {
                        assert(ds@[i + 1] == ov[i]);
                    }
                }
                if n == nv {
                    assert(ds@[p as int].name@ == n);
                }
            }
        }
    }
}

/// In a registry in name order, a name occurs at one position only.
pub proof fn lemma_domains_unique(ds: Seq<DomainEntry>, p: int)
    requires
        domains_sorted(ds),
        0 <= p < ds.len(),
    ensures
        forall|i: int| 0 <= i < ds.len() && i != p ==> (#[trigger] ds[i]).name@ != ds[p].name@,
{
    assert forall|i: int| 0 <= i < ds.len() && i != p implies (#[trigger] ds[i]).name@ != ds[p].name@ by {
        if i < p {
            crate::text::lemma_lex_irreflexive(ds[p].name@);
        } else {
            crate::text::lemma_lex_irreflexive(ds[p].name@);
        }
    }
}

/// Adds a new domain; a name already registered is refused.
pub fn add_domain(registry: &mut DomainRegistry, name: String, config: DomainConfig) -> (r: Result<(), String>)
    requires
        domains_sorted(old(registry).domains@),
    ensures
        domains_sorted(final(registry).domains@),
        final(registry).schema == old(registry).schema,
        has_name(old(registry).domains@, name@) ==> (r matches Err(m) && m@ == "domain already exists: "@ + name@
            && final(registry).domains@ == old(registry).domains@),
        !has_name(old(registry).domains@, name@) ==> (r is Ok && has_domain(final(registry).domains@, name@, config_view(config))
            && forall|n: Seq<char>, c: ConfigView| n != name@ ==> (has_domain(final(registry).domains@, n, c) <==> has_domain(
            old(registry).domains@,
            n,
            c,
        ))),
{
    if find_domain(&registry.domains, name.as_str()).is_some() {
        return Err(concat2("domain already exists: ", name.as_str()));
    }
    set_domain(&mut registry.domains, name, config);
    Ok(())
}

/// Removes a domain (its catalogue files are left in place); an unknown name is refused.
pub fn remove_domain(registry: &mut DomainRegistry, name: &str) -> (r: Result<(), String>)
    requires
        domains_sorted(old(registry).domains@),
    ensures
        domains_sorted(final(registry).domains@),
        final(registry).schema == old(registry).schema,
        !has_name(old(registry).domains@, name@) ==> (r matches Err(m) && m@ == "unknown domain: "@ + name@
            && final(registry).domains@ == old(registry).domains@),
        has_name(old(registry).domains@, name@) ==> (r is Ok && !has_name(final(registry).domains@, name@)
            && forall|n: Seq<char>, c: ConfigView| n != name@ ==> (has_domain(final(registry).domains@, n, c) <==> has_domain(
            old(registry).domains@,
            n,
            c,
        ))),
{
    match find_domain(&registry.domains, name) {
        None => Err(concat2("unknown domain: ", name)),
        Some(i) => {
            let ghost ov = registry.domains@;
            proof {
                lemma_domains_unique(ov, i as int);
            }
            registry.domains.remove(i);
            proof {
                let nv = registry.domains@;
                assert(nv == ov.remove(i as int));
                assert forall|a: int, b: int| 0 <= a < b < nv.len() implies lex_lt(#[trigger] nv[a].name@, #[trigger] nv[b].name@) by {
                    if b < i {
                        assert(nv[a] == ov[a] && nv[b] == ov[b]);
                    } else if a < i {
                        assert(nv[a] == ov[a] && nv[b] == ov[b + 1]);
                    } else {
                        assert(nv[a] == ov[a + 1] && nv[b] == ov[b + 1]);
                    }
                }
                assert(!has_name(nv, name@)) by {
                    if has_name(nv, name@) {
                        let j = choose|j: int| 0 <= j < nv.len() && (#[trigger] nv[j]).name@ == name@;
                        if j < i {
                            assert(nv[j] == ov[j]);
                        } else {
                            assert(nv[j] == ov[j + 1]);
                        }
                    }
                }
                assert forall|n: Seq<char>, c: ConfigView| n != name@ implies (has_domain(nv, n, c) <==> has_domain(ov, n, c)) by {
                    if has_domain(nv, n, c) {
                        let j = choose|j: int| 0 <= j < nv.len() && (#[trigger] nv[j]).name@ == n && config_view(nv[j].config) == c;
                        if j < i {
                            assert(nv[j] == ov[j]);
                        } else {
                            assert(nv[j] == ov[j + 1]);
                        }
                    }
                    if has_domain(ov, n, c) {
                        let j = choose|j: int| 0 <= j < ov.len() && (#[trigger] ov[j]).name@ == n && config_view(ov[j].config) == c;
                        assert(j != i);
                        if j < i {
                            assert(nv[j] == ov[j]);
                        } else {
                            assert(nv[j - 1] == ov[j]);
                        }
                    }
                }
            }
            Ok(())
        },
    }
}

} // verus!
