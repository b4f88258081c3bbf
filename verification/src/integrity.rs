//! The catalogue digest and the check of a catalogue read back from storage.
use vstd::prelude::*;

use crate::catalog::{
    dep_views, kind_text, Catalog, CatalogEntry, CatalogRoot, Dependency, SkillleafError,
    SkillleafResult, CATALOG_SCHEMA,
};
use crate::digest::{digest_hex, sha256_text};
use crate::json::{decimal, join_comma, json_array, json_str, json_strs, push_decimal, push_json_str, push_json_strs};
use crate::security::TrustLevel;
use crate::strset::views;
use crate::text::{owned, push_char, push_text, same_text};

verus! {

/// The JSON object of a dependency.
pub open spec fn json_dep(d: Seq<char>) -> Seq<char> {
    "{\"selector\":"@ + json_str(d) + "}"@
}

/// The fields of an entry's JSON object that are always written.
pub open spec fn json_entry_head(e: CatalogEntry) -> Seq<char> {
    "{\"source\":"@ + json_str(e.source@) + ",\"kind\":"@ + json_str(kind_text(e.kind))
        + ",\"name\":"@ + json_str(e.name@) + ",\"description\":"@ + json_str(e.description@)
        + ",\"relative_path\":"@ + json_str(e.relative_path@) + ",\"content_sha256\":"@ + json_str(
        e.content_sha256@,
    ) + ",\"bytes\":"@ + decimal(e.bytes as nat)
}

/// The aliases field, written only when there are aliases.
pub open spec fn json_entry_aliases(e: CatalogEntry) -> Seq<char> {
    if e.aliases@.len() > 0 {
        ",\"aliases\":"@ + json_strs(views(e.aliases@))
    } else {
        Seq::empty()
    }
}

/// The trust field, written only for untrusted entries.
pub open spec fn json_entry_trust(e: CatalogEntry) -> Seq<char> {
    if e.trust == TrustLevel::Untrusted {
        ",\"trust\":\"untrusted\""@
    } else {
        Seq::empty()
    }
}

/// The capabilities field, written only when there are capabilities.
pub open spec fn json_entry_capabilities(e: CatalogEntry) -> Seq<char> {
    if e.capabilities@.len() > 0 {
        ",\"capabilities\":"@ + json_strs(views(e.capabilities@))
    } else {
        Seq::empty()
    }
}

/// The dependencies field, written only when there are dependencies.
pub open spec fn json_entry_dependencies(e: CatalogEntry) -> Seq<char> {
    if e.dependencies@.len() > 0 {
        ",\"dependencies\":"@ + json_array(dep_views(e).map_values(|d: Seq<char>| json_dep(d)))
    } else {
        Seq::empty()
    }
}

/// The JSON object of a catalogue entry (empty lists and the trusted level are left out).
pub open spec fn json_entry(e: CatalogEntry) -> Seq<char> {
    json_entry_head(e) + json_entry_aliases(e) + json_entry_trust(e) + json_entry_capabilities(e)
        + json_entry_dependencies(e) + "}"@
}

/// The JSON object of the roots of a catalogue, in their order.
pub open spec fn json_roots(roots: Seq<CatalogRoot>) -> Seq<char> {
    seq!['{'] + join_comma(roots.map_values(|r: CatalogRoot| json_str(r.key@) + seq![':'] + json_str(r.path@))) + seq!['}']
}

/// The JSON text over which a catalogue's digest is taken.
pub open spec fn json_material(roots: Seq<CatalogRoot>, entries: Seq<CatalogEntry>) -> Seq<char> {
    "{\"schema\":"@ + json_str(CATALOG_SCHEMA@) + ",\"roots\":"@ + json_roots(roots) + ",\"entries\":"@
        + json_array(entries.map_values(|e: CatalogEntry| json_entry(e))) + "}"@
}

/// The JSON object of a whole catalogue, its fields in declaration order.
pub open spec fn json_catalog(c: Catalog) -> Seq<char> {
    "{\"schema\":"@ + json_str(c.schema@) + ",\"catalog_sha256\":"@ + json_str(c.catalog_sha256@) + ",\"roots\":"@
        + json_roots(c.roots@) + ",\"entries\":"@ + json_array(c.entries@.map_values(|e: CatalogEntry| json_entry(e)))
        + "}"@
}

/// The digest of a catalogue's schema, roots and entries.
pub open spec fn catalog_digest(roots: Seq<CatalogRoot>, entries: Seq<CatalogEntry>) -> Seq<char> {
    digest_hex(vstd::utf8::encode_utf8(json_material(roots, entries)))
}

/// A catalogue of the supported schema whose recorded digest matches its content.
pub open spec fn catalog_valid(c: Catalog) -> bool {
    c.schema@ == CATALOG_SCHEMA@ && c.catalog_sha256@ == catalog_digest(c.roots@, c.entries@)
}

fn push_dependencies(out: &mut String, deps: &Vec<Dependency>, e: Ghost<CatalogEntry>)
    requires
        e@.dependencies@ == deps@,
    ensures
        final(out)@ == old(out)@ + json_array(dep_views(e@).map_values(|d: Seq<char>| json_dep(d))),
{
    let ghost start = out@;
    let ghost items = dep_views(e@).map_values(|d: Seq<char>| json_dep(d));
    push_char(out, '[');
    let mut i: usize = 0;
    while i < deps.len()
        invariant
            i <= deps.len(),
            e@.dependencies@ == deps@,
            items == dep_views(e@).map_values(|d: Seq<char>| json_dep(d)),
            out@ == start + seq!['['] + join_comma(items.take(i as int)),
        decreases deps.len() - i,
    {
        if i > 0 {
            push_char(out, ',');
        }
        push_text(out, "{\"selector\":");
        push_json_str(out, deps[i].selector.as_str());
        push_text(out, "}");
        proof {
            assert(items.take(i + 1).drop_last() =~= items.take(i as int));
            assert(items.take(i + 1).last() == json_dep(deps@[i as int].selector@));
            assert(out@ =~= start + seq!['['] + join_comma(items.take(i + 1)));
        }
        i += 1;
    }
    push_char(out, ']');
    proof {
        assert(items.take(deps.len() as int) =~= items);
        assert(out@ =~= start + json_array(items));
    }
}

fn push_entry_head(out: &mut String, e: &CatalogEntry)
    ensures
        final(out)@ == old(out)@ + json_entry_head(*e),
{
    let ghost start = out@;
    push_text(out, "{\"source\":");
    push_json_str(out, e.source.as_str());
    push_text(out, ",\"kind\":");
    push_json_str(out, e.kind.as_str());
    push_text(out, ",\"name\":");
    push_json_str(out, e.name.as_str());
    push_text(out, ",\"description\":");
    push_json_str(out, e.description.as_str());
    push_text(out, ",\"relative_path\":");
    push_json_str(out, e.relative_path.as_str());
    push_text(out, ",\"content_sha256\":");
    push_json_str(out, e.content_sha256.as_str());
    push_text(out, ",\"bytes\":");
    push_decimal(out, e.bytes);
    proof {
        assert(out@ =~= start + json_entry_head(*e));
    }
}

fn push_entry_optional(out: &mut String, e: &CatalogEntry)
    ensures
        final(out)@ == old(out)@ + json_entry_aliases(*e) + json_entry_trust(*e) + json_entry_capabilities(*e)
            + json_entry_dependencies(*e),
{
    let ghost start = out@;
    if e.aliases.len() > 0 {
        push_text(out, ",\"aliases\":");
        push_json_strs(out, &e.aliases);
    }
    let ghost a = out@;
    assert(a =~= start + json_entry_aliases(*e));
    if e.trust == TrustLevel::Untrusted {
        push_text(out, ",\"trust\":\"untrusted\"");
    }
    let ghost t = out@;
    assert(t =~= a + json_entry_trust(*e));
    if e.capabilities.len() > 0 {
        push_text(out, ",\"capabilities\":");
        push_json_strs(out, &e.capabilities);
    }
    let ghost c = out@;
    assert(c =~= t + json_entry_capabilities(*e));
    if e.dependencies.len() > 0 {
        push_text(out, ",\"dependencies\":");
        push_dependencies(out, &e.dependencies, Ghost(*e));
    }
    assert(out@ =~= c + json_entry_dependencies(*e));
}

/// Appends the JSON object of an entry.
pub fn push_entry_json(out: &mut String, e: &CatalogEntry)
    ensures
        final(out)@ == old(out)@ + json_entry(*e),
{
    let ghost start = out@;
    push_entry_head(out, e);
    let ghost h = out@;
    push_entry_optional(out, e);
    let ghost o = out@;
    push_text(out, "}");
    proof {
        assert(out@ =~= start + json_entry(*e));
    }
}

/// Appends the JSON object of the roots.
pub(crate) fn push_roots(out: &mut String, roots: &Vec<CatalogRoot>)
    ensures
        final(out)@ == old(out)@ + json_roots(roots@),
{
    let ghost start = out@;
    let ghost items = roots@.map_values(|r: CatalogRoot| json_str(r.key@) + seq![':'] + json_str(r.path@));
    push_char(out, '{');
    let mut i: usize = 0;
    while i < roots.len()
        invariant
            i <= roots.len(),
            items == roots@.map_values(|r: CatalogRoot| json_str(r.key@) + seq![':'] + json_str(r.path@)),
            out@ == start + seq!['{'] + join_comma(items.take(i as int)),
        decreases roots.len() - i,
    {
        if i > 0 {
            push_char(out, ',');
        }
        push_json_str(out, roots[i].key.as_str());
        push_char(out, ':');
        push_json_str(out, roots[i].path.as_str());
        proof {
            assert(items.take(i + 1).drop_last() =~= items.take(i as int));
            assert(out@ =~= start + seq!['{'] + join_comma(items.take(i + 1)));
        }
        i += 1;
    }
    push_char(out, '}');
    proof {
        assert(items.take(roots.len() as int) =~= items);
        assert(out@ =~= start + json_roots(roots@));
    }
}

/// Appends the JSON array of entries.
pub(crate) fn push_entries(out: &mut String, entries: &Vec<CatalogEntry>)
    ensures
        final(out)@ == old(out)@ + json_array(entries@.map_values(|e: CatalogEntry| json_entry(e))),
{
    let ghost before = out@;
    let ghost items = entries@.map_values(|e: CatalogEntry| json_entry(e));
    push_char(out, '[');
    let mut i: usize = 0;
    while i < entries.len()
        invariant
            i <= entries.len(),
            items == entries@.map_values(|e: CatalogEntry| json_entry(e)),
            out@ == before + seq!['['] + join_comma(items.take(i as int)),
        decreases entries.len() - i,
    {
        if i > 0 {
            push_char(out, ',');
        }
        push_entry_json(out, &entries[i]);
        proof {
            assert(items.take(i + 1).drop_last() =~= items.take(i as int));
            assert(out@ =~= before + seq!['['] + join_comma(items.take(i + 1)));
        }
        i += 1;
    }
    push_char(out, ']');
    proof {
        assert(items.take(entries.len() as int) =~= items);
    }
}

/// The JSON text over which a catalogue's digest is taken.
pub fn catalog_material(roots: &Vec<CatalogRoot>, entries: &Vec<CatalogEntry>) -> (out: String)
    ensures
        out@ == json_material(roots@, entries@),
{
    let mut out = String::new();
    push_text(&mut out, "{\"schema\":");
    push_json_str(&mut out, CATALOG_SCHEMA);
    push_text(&mut out, ",\"roots\":");
    push_roots(&mut out, roots);
    push_text(&mut out, ",\"entries\":");
    push_entries(&mut out, entries);
    push_text(&mut out, "}");
    out
}

/// Appends the JSON object of a whole catalogue.
pub(crate) fn push_catalog_json(out: &mut String, c: &Catalog)
    ensures
        final(out)@ == old(out)@ + json_catalog(*c),
{
    let ghost start = out@;
    push_text(out, "{\"schema\":");
    push_json_str(out, c.schema.as_str());
    push_text(out, ",\"catalog_sha256\":");
    push_json_str(out, c.catalog_sha256.as_str());
    push_text(out, ",\"roots\":");
    push_roots(out, &c.roots);
    push_text(out, ",\"entries\":");
    push_entries(out, &c.entries);
    push_text(out, "}");
    proof {
        assert(out@ =~= start + json_catalog(*c));
    }
}

/// The digest of a catalogue's schema, roots and entries.
pub fn catalog_hash(roots: &Vec<CatalogRoot>, entries: &Vec<CatalogEntry>) -> (r: String)
    ensures
        r@ == catalog_digest(roots@, entries@),
{
    let material = catalog_material(roots, entries);
    sha256_text(material.as_str())
}

/// Accepts a catalogue decoded from storage when its schema is supported and
/// its recorded digest matches its content.
pub fn load_catalog(catalog: Catalog) -> (r: SkillleafResult<Catalog>)
    ensures
        catalog.schema@ != CATALOG_SCHEMA@ ==> (r matches Err(SkillleafError::Integrity(m)) && m@
            == "unsupported catalog schema: "@ + catalog.schema@),
        catalog.schema@ == CATALOG_SCHEMA@ && !catalog_valid(catalog) ==> (r matches Err(
            SkillleafError::Integrity(m),
        ) && m@ == "catalog hash mismatch; rebuild the index before using it"@),
        catalog_valid(catalog) ==> (r matches Ok(c) && c == catalog),
{
    if !same_text(catalog.schema.as_str(), CATALOG_SCHEMA) {
        return Err(SkillleafError::Integrity(crate::text::concat2("unsupported catalog schema: ", catalog.schema.as_str())));
    }
    let expected = catalog_hash(&catalog.roots, &catalog.entries);
    if !same_text(expected.as_str(), catalog.catalog_sha256.as_str()) {
        return Err(SkillleafError::Integrity(owned("catalog hash mismatch; rebuild the index before using it")));
    }
    Ok(catalog)
}

} // verus!
