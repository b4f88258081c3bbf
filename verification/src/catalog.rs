//! The catalogue: its entries, selectors and error type.
use vstd::prelude::*;

use crate::security::TrustLevel;
use crate::strset::views;
use crate::text::{owned, push_text};

verus! {

/// The schema tag of every catalogue this library writes and accepts.
pub const CATALOG_SCHEMA: &'static str = "skillleaf.catalog.v1";

/// The default bound on the size of one indexed file.
pub const DEFAULT_MAX_FILE_BYTES: u64 = 262144;

/// Errors of the library, by the stage that refused the request.
#[derive(Clone, Debug)]
pub enum SkillleafError {
    CatalogInput(String),
    Storage(String),
    Resolution(String),
    Integrity(String),
}

impl SkillleafError {
    /// The text of the error, prefixed by its stage.
    pub fn message(&self) -> (m: String)
        ensures
            m@ == self.message_view(),
    {
        match self {
            SkillleafError::CatalogInput(s) => crate::text::concat2("catalog input error: ", s.as_str()),
            SkillleafError::Storage(s) => crate::text::concat2("catalog storage error: ", s.as_str()),
            SkillleafError::Resolution(s) => crate::text::concat2("resolution error: ", s.as_str()),
            SkillleafError::Integrity(s) => crate::text::concat2("catalog integrity error: ", s.as_str()),
        }
    }

    pub open spec fn message_view(&self) -> Seq<char> {
        match self {
            SkillleafError::CatalogInput(s) => "catalog input error: "@ + s@,
            SkillleafError::Storage(s) => "catalog storage error: "@ + s@,
            SkillleafError::Resolution(s) => "resolution error: "@ + s@,
            SkillleafError::Integrity(s) => "catalog integrity error: "@ + s@,
        }
    }

    /// The detail text carried by the error.
    pub open spec fn detail(&self) -> Seq<char> {
        match self {
            SkillleafError::CatalogInput(s) => s@,
            SkillleafError::Storage(s) => s@,
            SkillleafError::Resolution(s) => s@,
            SkillleafError::Integrity(s) => s@,
        }
    }
}

pub type SkillleafResult<T> = Result<T, SkillleafError>;

/// What a catalogue entry is.
#[derive(Clone, Copy, Debug, PartialEq, Eq, Structural)]
pub enum EntryKind {
    Skill,
    Command,
    Resource,
}

/// The word for a kind in selectors and root keys.
pub open spec fn kind_text(k: EntryKind) -> Seq<char> {
    match k {
        EntryKind::Skill => "skill"@,
        EntryKind::Command => "command"@,
        EntryKind::Resource => "resource"@,
    }
}

impl EntryKind {
    pub fn as_str(self) -> (s: &'static str)
        ensures
            s@ == kind_text(self),
    {
        match self {
            EntryKind::Skill => "skill",
            EntryKind::Command => "command",
            EntryKind::Resource => "resource",
        }
    }
}

/// A dependency of an entry on another entry, by selector.
#[derive(Clone, Debug)]
pub struct Dependency {
    pub selector: String,
}

/// One indexed skill, command or resource.
#[derive(Clone, Debug)]
pub struct CatalogEntry {
    pub source: String,
    pub kind: EntryKind,
    pub name: String,
    pub description: String,
    pub relative_path: String,
    pub content_sha256: String,
    pub bytes: u64,
    pub aliases: Vec<String>,
    pub trust: TrustLevel,
    pub capabilities: Vec<String>,
    pub dependencies: Vec<Dependency>,
}

/// The selector `<source>/<kind>:<name>` of an entry.
pub open spec fn selector_of(e: CatalogEntry) -> Seq<char> {
    e.source@ + "/"@ + kind_text(e.kind) + ":"@ + e.name@
}

/// The selectors an entry depends on.
pub open spec fn dep_views(e: CatalogEntry) -> Seq<Seq<char>> {
    e.dependencies@.map_values(|d: Dependency| d.selector@)
}

impl CatalogEntry {
    pub fn selector(&self) -> (s: String)
        ensures
            s@ == selector_of(*self),
    {
        let mut s = owned(self.source.as_str());
        push_text(&mut s, "/");
        push_text(&mut s, self.kind.as_str());
        push_text(&mut s, ":");
        push_text(&mut s, self.name.as_str());
        s
    }
}

/// One source root of a catalogue: its key `<source>/<kind>` and directory.
#[derive(Clone, Debug)]
pub struct CatalogRoot {
    pub key: String,
    pub path: String,
}

/// A hash-verified catalogue.
#[derive(Clone, Debug)]
pub struct Catalog {
    pub schema: String,
    pub catalog_sha256: String,
    pub roots: Vec<CatalogRoot>,
    pub entries: Vec<CatalogEntry>,
}

/// An entry as plain values.
pub struct EntryView {
    pub source: Seq<char>,
    pub kind: EntryKind,
    pub name: Seq<char>,
    pub description: Seq<char>,
    pub relative_path: Seq<char>,
    pub content_sha256: Seq<char>,
    pub bytes: u64,
    pub aliases: Seq<Seq<char>>,
    pub trust: TrustLevel,
    pub capabilities: Seq<Seq<char>>,
    pub dependencies: Seq<Seq<char>>,
}

pub open spec fn entry_view(e: CatalogEntry) -> EntryView {
    EntryView {
        source: e.source@,
        kind: e.kind,
        name: e.name@,
        description: e.description@,
        relative_path: e.relative_path@,
        content_sha256: e.content_sha256@,
        bytes: e.bytes,
        aliases: views(e.aliases@),
        trust: e.trust,
        capabilities: views(e.capabilities@),
        dependencies: dep_views(e),
    }
}

pub open spec fn entry_views(es: Seq<CatalogEntry>) -> Seq<EntryView> {
    es.map_values(|e: CatalogEntry| entry_view(e))
}

/// The selector of an entry view.
pub open spec fn view_selector(v: EntryView) -> Seq<char> {
    v.source + "/"@ + kind_text(v.kind) + ":"@ + v.name
}

/// The selectors of a sequence of entries.
pub open spec fn selectors(es: Seq<CatalogEntry>) -> Seq<Seq<char>> {
    es.map_values(|e: CatalogEntry| selector_of(e))
}

} // verus!
