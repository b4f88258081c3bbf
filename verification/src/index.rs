//! Indexing: the catalogue entries of the files found under source roots.
//!
//! A walk of each root (which does not follow links) is handed in as a list
//! of files; everything the catalogue makes of them is decided here.
use pulldown_cmark::{Event, Options, Parser, Tag};
use vstd::prelude::*;

use crate::catalog::{kind_text, view_selector, CatalogEntry, Dependency, EntryKind, EntryView, entry_view};
use crate::digest::{digest_hex, sha256};
use crate::frontmatter::{
    char_views, compact_description, compact_description_text, first_heading, first_heading_text, frontmatter_of,
    fm_view, join_chars, join_sep, opt_view, parse_frontmatter, FmView,
};
use crate::hydrate::{escapes, path_escapes, root_key, root_key_of};
use crate::json::decimal;
use crate::security::{
    effective_trust, hidden_error, lemma_trust_never_upgrades, plain_instructions, trust_after, trust_error, validate_instruction_text,
    TrustLevel,
};
use crate::strset::{copy_string, lemma_ordered_of_seq, ordered, sorted_strict, strs_contain, strset_from, text_set, views};
use crate::sync::segments;
use crate::text::{
    chars_of, concat2, concat3, contains_pair, contains_pair_chars, is_plain_name, is_plain_name_text, owned,
    push_text, same_chars, same_text, slice_chars, starts_with, starts_with_chars, string_of,
};

verus! {

// ---------------------------------------------------------------------------
// What a walk of a source root reports
// ---------------------------------------------------------------------------
/// One path under a source root.
#[derive(Clone, Debug)]
pub struct SourceFile {
    /// The path relative to the root, its segments separated by `/`.
    pub path: String,
    /// The path itself is a symbolic link.
    pub is_symlink: bool,
    /// The path names a regular file (following links).
    pub is_file: bool,
    /// Its length in bytes.
    pub len: u64,
    /// Its contents, when it is a regular file that could be read.
    pub bytes: Option<Vec<u8>>,
}

/// What resolving and walking a source root gave.
#[derive(Clone, Debug)]
pub enum RootScan {
    /// The root's canonical directory and every path under it, in walk order.
    Listed { canonical: String, files: Vec<SourceFile> },
    /// Why the root could not be used.
    Unavailable(String),
}

/// A named directory of skills or of commands.
#[derive(Clone, Debug)]
pub struct SourceRoot {
    pub name: String,
    pub kind: EntryKind,
    pub path: String,
}

/// A source root with the result of walking it.
#[derive(Clone, Debug)]
pub struct ScannedRoot {
    pub root: SourceRoot,
    pub scan: RootScan,
}

/// Roots whose entries are indexed as untrusted.
#[derive(Clone, Debug)]
pub struct BuildOptions {
    /// Whole sources, by name.
    pub untrusted_sources: Vec<String>,
    /// Roots of one kind, by root key `<source>/<skill|command>`.
    pub untrusted_roots: Vec<String>,
}

impl Default for BuildOptions {
    fn default() -> (o: Self)
        ensures
            o.untrusted_sources@.len() == 0,
            o.untrusted_roots@.len() == 0,
    {
        BuildOptions { untrusted_sources: Vec::new(), untrusted_roots: Vec::new() }
    }
}

// ---------------------------------------------------------------------------
// Names
// ---------------------------------------------------------------------------
/// A safe entry name: not empty, without `..`, not starting with `/` or `\`.
pub open spec fn valid_entry_name(n: Seq<char>) -> bool {
    n.len() > 0 && !contains_pair(n, '.', '.') && n[0] != '/' && n[0] != '\\'
}

pub open spec fn name_error(n: Seq<char>) -> Seq<char> {
    "unsafe or empty catalog entry name: "@ + n
}

pub open spec fn capability_error(c: Seq<char>) -> Seq<char> {
    "capabilities must contain only letters, numbers, '-' or '_': "@ + c
}

pub open spec fn source_name_error(n: Seq<char>) -> Seq<char> {
    "source names must contain only letters, numbers, '-' or '_': "@ + n
}

/// Refuses an unsafe or empty entry name.
pub fn validate_entry_name(name: &str) -> (r: Result<(), String>)
    ensures
        r is Ok <==> valid_entry_name(name@),
        r matches Err(m) ==> m@ == name_error(name@),
{
    let v = chars_of(name);
    if v.len() == 0 || contains_pair_chars(v.as_slice(), '.', '.') || v[0] == '/' || v[0] == '\\' {
        return Err(concat2("unsafe or empty catalog entry name: ", name));
    }
    Ok(())
}

/// Refuses a capability that is not a plain name.
pub fn validate_capability(value: &str) -> (r: Result<(), String>)
    ensures
        r is Ok <==> is_plain_name(value@),
        r matches Err(m) ==> m@ == capability_error(value@),
{
    if !is_plain_name_text(value) {
        return Err(concat2("capabilities must contain only letters, numbers, '-' or '_': ", value));
    }
    Ok(())
}

/// Refuses a source name that is not a plain name.
pub fn validate_source_name(name: &str) -> (r: Result<(), String>)
    ensures
        r is Ok <==> is_plain_name(name@),
        r matches Err(m) ==> m@ == source_name_error(name@),
{
    if !is_plain_name_text(name) {
        return Err(concat2("source names must contain only letters, numbers, '-' or '_': ", name));
    }
    Ok(())
}

/// The trust of a root: untrusted when its source or its root key is listed as untrusted.
pub open spec fn source_trust_of(sources: Set<Seq<char>>, roots: Set<Seq<char>>, source: Seq<char>, kind: EntryKind) -> TrustLevel {
    if sources.contains(source) || roots.contains(root_key_of(source, kind)) {
        TrustLevel::Untrusted
    } else {
        TrustLevel::Trusted
    }
}

pub fn source_trust(source: &str, kind: EntryKind, options: &BuildOptions) -> (t: TrustLevel)
    ensures
        t == source_trust_of(text_set(options.untrusted_sources@), text_set(options.untrusted_roots@), source@, kind),
{
    let key = root_key(source, kind);
    if strs_contain(&options.untrusted_sources, source) || strs_contain(&options.untrusted_roots, key.as_str()) {
        TrustLevel::Untrusted
    } else {
        TrustLevel::Trusted
    }
}

/// The first text of a sequence (from position `k`) that fails a test, if any.
pub open spec fn first_failing(s: Seq<Seq<char>>, k: int, ok: spec_fn(Seq<char>) -> bool) -> Option<Seq<char>>
    decreases s.len() - k,
{
    if 0 <= k < s.len() {
        if !ok(s[k]) {
            Some(s[k])
        } else {
            first_failing(s, k + 1, ok)
        }
    } else {
        None
    }
}

// ---------------------------------------------------------------------------
// Paths under a root
// ---------------------------------------------------------------------------
/// A path none of whose segments starts with `.` (a walk skips hidden entries).
pub open spec fn visible(p: Seq<char>) -> bool {
    forall|k: int| 0 <= k < segments(p).len() ==> (#[trigger] segments(p)[k]).len() == 0 || segments(p)[k][0] != '.'
}

/// The last segment of a path.
pub open spec fn file_name(p: Seq<char>) -> Seq<char> {
    segments(p).last()
}

/// The path without its last segment.
pub open spec fn parent(p: Seq<char>) -> Seq<char> {
    join_sep(segments(p).drop_last(), "/"@)
}

/// A file name whose extension is `md` (`Path::extension`: the part after the
/// last dot, when something precedes that dot).
pub open spec fn is_md_name(n: Seq<char>) -> bool {
    n.len() >= 4 && n.subrange(n.len() - 3, n.len() as int) == ".md"@
}

/// A visible regular file that is not a link: what indexing reads.
pub open spec fn candidate(f: SourceFile) -> bool {
    visible(f.path@) && !f.is_symlink && f.is_file
}

/// The path of a file below a package directory of the root (`""` is the root itself).
pub open spec fn under(pkg: Seq<char>, rel: Seq<char>) -> Seq<char> {
    if pkg.len() == 0 {
        rel
    } else {
        pkg + "/"@ + rel
    }
}

/// A path relative to a package directory, when it lies inside it.
pub open spec fn inside(pkg: Seq<char>, p: Seq<char>) -> Option<Seq<char>> {
    if pkg.len() == 0 {
        Some(p)
    } else if starts_with(p, pkg + "/"@) {
        Some(p.skip(pkg.len() as int + 1))
    } else {
        None
    }
}

/// The listing has a regular file (following links) at a path.
pub open spec fn has_file(files: Seq<SourceFile>, p: Seq<char>) -> bool {
    exists|i: int| 0 <= i < files.len() && (#[trigger] files[i]).path@ == p && files[i].is_file
}

/// The listing has a regular file that is not a link at a path.
pub open spec fn has_plain_file(files: Seq<SourceFile>, p: Seq<char>) -> bool {
    exists|i: int| 0 <= i < files.len() && (#[trigger] files[i]).path@ == p && files[i].is_file && !files[i].is_symlink
}

/// A file of a package that lies in a nested skill package: some directory
/// strictly between the package and the file holds a `SKILL.md`.
pub open spec fn owned_by_nested(files: Seq<SourceFile>, pkg: Seq<char>, rel: Seq<char>) -> bool {
    let q = segments(rel);
    exists|t: int| 1 <= t < q.len() && #[trigger] has_file(files, under(pkg, join_sep(q.take(t), "/"@) + "/SKILL.md"@))
}

/// The full path of a file, for messages.
pub open spec fn full_path(canonical: Seq<char>, rel: Seq<char>) -> Seq<char> {
    canonical + "/"@ + rel
}

/// The bytes read for a file (none when it was not read).
pub open spec fn bytes_of(f: SourceFile) -> Seq<u8> {
    match f.bytes {
        Some(b) => b@,
        None => Seq::empty(),
    }
}

/// The text of a file that indexing reads: refused when longer than the
/// bound, unread, or not UTF-8.
pub open spec fn read_body(canonical: Seq<char>, max: u64, f: SourceFile) -> Result<Seq<char>, Seq<char>> {
    let full = full_path(canonical, f.path@);
    if f.len > max {
        Err("catalog input exceeds "@ + decimal(max as nat) + " bytes: "@ + full)
    } else {
        match f.bytes {
            None => Err("catalog input is not UTF-8: "@ + full),
            Some(b) => if vstd::utf8::valid_utf8(b@) {
                Ok(vstd::utf8::decode_utf8(b@))
            } else {
                Err("catalog input is not UTF-8: "@ + full)
            },
        }
    }
}

/// The segments of a path.
fn split_segments(s: &[char]) -> (out: Vec<Vec<char>>)
    ensures
        char_views(out@) == segments(s@),
        out@.len() >= 1,
{
    let mut out: Vec<Vec<char>> = Vec::new();
    let mut i: usize = 0;
    loop
        invariant
            i <= s.len(),
            char_views(out@) + crate::sync::segments_from(s@, i as int) == segments(s@),
        decreases s.len() - i,
    {
        let mut j = i;
        while j < s.len() && s[j] != '/'
            invariant
                i <= j <= s.len(),
                crate::sync::next_slash(s@, j as int) == crate::sync::next_slash(s@, i as int),
            decreases s.len() - j,
        {
            j += 1;
        }
        proof {
            crate::sync::lemma_next_slash(s@, i as int);
        }
        let seg = slice_chars(s, i, j);
        proof {
            assert(char_views(out@.push(seg)) =~= char_views(out@).push(seg@));
        }
        if j >= s.len() {
            proof {
                assert(crate::sync::segments_from(s@, i as int) == seq![seg@]);
                assert(char_views(out@).push(seg@) =~= char_views(out@) + seq![seg@]);
            }
            out.push(seg);
            return out;
        }
        proof {
            assert(crate::sync::segments_from(s@, i as int) == seq![seg@] + crate::sync::segments_from(s@, j + 1));
            assert(char_views(out@).push(seg@) + crate::sync::segments_from(s@, j + 1) =~= char_views(out@) + (seq![seg@]
                + crate::sync::segments_from(s@, j + 1)));
        }
        out.push(seg);
        i = j + 1;
    }
}

fn is_visible(p: &[char]) -> (r: bool)
    ensures
        r == visible(p@),
{
    let segs = split_segments(p);
    let mut k: usize = 0;
    while k < segs.len()
        invariant
            k <= segs@.len(),
            char_views(segs@) == segments(p@),
            forall|j: int| 0 <= j < k ==> (#[trigger] segments(p@)[j]).len() == 0 || segments(p@)[j][0] != '.',
        decreases segs@.len() - k,
    {
        proof {
            assert(segments(p@)[k as int] == segs@[k as int]@);
        }
        if segs[k].len() > 0 && segs[k][0] == '.' {
            return false;
        }
        k += 1;
    }
    true
}

fn is_md_name_chars(n: &[char]) -> (r: bool)
    ensures
        r == is_md_name(n@),
{
    if n.len() < 4 {
        return false;
    }
    let tail = slice_chars(n, n.len() - 3, n.len());
    let md = chars_of(".md");
    same_chars(tail.as_slice(), md.as_slice())
}

/// The last segment of a path and the path of its directory.
fn name_and_parent(p: &[char]) -> (r: (Vec<char>, Vec<char>))
    ensures
        r.0@ == file_name(p@),
        r.1@ == parent(p@),
{
    let segs = split_segments(p);
    let n = segs.len();
    let name = slice_chars(segs[n - 1].as_slice(), 0, segs[n - 1].len());
    let sep = chars_of("/");
    let dir = join_chars(&segs, 0, n - 1, sep.as_slice());
    proof {
        assert(name@ =~= segs@[n - 1]@);
        assert(char_views(segs@).subrange(0, n - 1) =~= segments(p@).drop_last());
    }
    (name, dir)
}

/// Whether the listing has a regular file (following links) at a path.
fn listed_file(files: &Vec<SourceFile>, p: &[char]) -> (r: bool)
    ensures
        r == has_file(files@, p@),
{
    let s = string_of(p);
    let mut i: usize = 0;
    while i < files.len()
        invariant
            i <= files@.len(),
            s@ == p@,
            forall|j: int| 0 <= j < i ==> !((#[trigger] files@[j]).path@ == p@ && files@[j].is_file),
        decreases files@.len() - i,
    {
        if files[i].is_file && same_text(files[i].path.as_str(), s.as_str()) {
            return true;
        }
        i += 1;
    }
    false
}

/// Whether the listing has a regular file that is not a link at a path.
fn listed_plain_file(files: &Vec<SourceFile>, p: &[char]) -> (r: bool)
    ensures
        r == has_plain_file(files@, p@),
{
    let s = string_of(p);
    let mut i: usize = 0;
    while i < files.len()
        invariant
            i <= files@.len(),
            s@ == p@,
            forall|j: int| 0 <= j < i ==> !((#[trigger] files@[j]).path@ == p@ && files@[j].is_file && !files@[j].is_symlink),
        decreases files@.len() - i,
    {
        if files[i].is_file && !files[i].is_symlink && same_text(files[i].path.as_str(), s.as_str()) {
            return true;
        }
        i += 1;
    }
    false
}

fn under_chars(pkg: &[char], rel: &[char]) -> (r: Vec<char>)
    ensures
        r@ == under(pkg@, rel@),
{
    if pkg.len() == 0 {
        slice_chars(rel, 0, rel.len())
    } else {
        let mut r = slice_chars(pkg, 0, pkg.len());
        r.push('/');
        let mut i: usize = 0;
        let ghost start = r@;
        while i < rel.len()
            invariant
                i <= rel.len(),
                r@ == start + rel@.take(i as int),
            decreases rel.len() - i,
        {
            r.push(rel[i]);
            proof {
                assert(rel@.take(i + 1) == rel@.take(i as int).push(rel@[i as int]));
            }
            i += 1;
        }
        proof {
            assert(rel@.take(rel.len() as int) =~= rel@);
            assert(r@ =~= pkg@ + "/"@ + rel@) by {
                reveal_strlit("/");
            }
        }
        r
    }
}

fn inside_chars(pkg: &[char], p: &[char]) -> (r: Option<Vec<char>>)
    ensures
        match r {
            Some(x) => inside(pkg@, p@) == Some(x@),
            None => inside(pkg@, p@) is None,
        },
{
    if pkg.len() == 0 {
        return Some(slice_chars(p, 0, p.len()));
    }
    let mut prefix = slice_chars(pkg, 0, pkg.len());
    prefix.push('/');
    proof {
        assert(prefix@ =~= pkg@ + "/"@) by {
            reveal_strlit("/");
        }
    }
    if starts_with_chars(p, prefix.as_slice()) {
        let rest = slice_chars(p, prefix.len(), p.len());
        proof {
            assert(rest@ =~= p@.skip(pkg@.len() as int + 1));
        }
        Some(rest)
    } else {
        None
    }
}

/// Whether a file of a package lies in a nested skill package.
fn nested_owner(files: &Vec<SourceFile>, pkg: &[char], rel: &[char]) -> (r: bool)
    ensures
        r == owned_by_nested(files@, pkg@, rel@),
{
    let q = split_segments(rel);
    let sep = chars_of("/");
    let skill = chars_of("/SKILL.md");
    let mut t: usize = 1;
    while t < q.len()
        invariant
            1 <= t <= q@.len(),
            char_views(q@) == segments(rel@),
            sep@ == "/"@,
            skill@ == "/SKILL.md"@,
            forall|u: int| 1 <= u < t ==> !#[trigger] has_file(files@, under(pkg@, join_sep(segments(rel@).take(u), "/"@) + "/SKILL.md"@)),
        decreases q@.len() - t,
    {
        let mut dir = join_chars(&q, 0, t, sep.as_slice());
        let mut k: usize = 0;
        let ghost d0 = dir@;
        while k < skill.len()
            invariant
                k <= skill@.len(),
                dir@ == d0 + skill@.take(k as int),
            decreases skill@.len() - k,
        {
            dir.push(skill[k]);
            proof {
                assert(skill@.take(k + 1) == skill@.take(k as int).push(skill@[k as int]));
            }
            k += 1;
        }
        let full = under_chars(pkg, dir.as_slice());
        proof {
            assert(skill@.take(skill@.len() as int) =~= skill@);
            assert(char_views(q@).subrange(0, t as int) =~= segments(rel@).take(t as int));
        }
        if listed_file(files, full.as_slice()) {
            return true;
        }
        t += 1;
    }
    false
}

pub(crate) fn copy_bytes(b: &Vec<u8>) -> (r: Vec<u8>)
    ensures
        r@ == b@,
{
    let mut r: Vec<u8> = Vec::new();
    let mut i: usize = 0;
    while i < b.len()
        invariant
            i <= b@.len(),
            r@ == b@.take(i as int),
        decreases b@.len() - i,
    {
        r.push(b[i]);
        proof {
            assert(b@.take(i + 1) == b@.take(i as int).push(b@[i as int]));
        }
        i += 1;
    }
    proof {
        assert(b@.take(b@.len() as int) =~= b@);
    }
    r
}

/// The text of a file that indexing reads.
fn read_text(canonical: &str, max: u64, f: &SourceFile) -> (r: Result<String, String>)
    ensures
        match read_body(canonical@, max, *f) {
            Ok(b) => r matches Ok(s) && s@ == b,
            Err(m) => r matches Err(x) && x@ == m,
        },
{
    let mut full = concat3(canonical, "/", f.path.as_str());
    if f.len > max {
        let mut m = owned("catalog input exceeds ");
        crate::json::push_decimal(&mut m, max);
        push_text(&mut m, " bytes: ");
        push_text(&mut m, full.as_str());
        return Err(m);
    }
    match &f.bytes {
        None => Err(concat2("catalog input is not UTF-8: ", full.as_str())),
        Some(b) => match crate::hydrate::utf8_text(copy_bytes(b)) {
            Some(s) => Ok(s),
            None => Err(concat2("catalog input is not UTF-8: ", full.as_str())),
        },
    }
}

// ---------------------------------------------------------------------------
// Entries
// ---------------------------------------------------------------------------
/// The entry a file makes, given its metadata: refused when an alias is not a
/// safe entry name or a capability is not a plain name; otherwise aliases and
/// capabilities become ordered sets and the description is compacted.
pub open spec fn make_view(
    source: Seq<char>,
    kind: EntryKind,
    name: Seq<char>,
    description: Seq<char>,
    rel: Seq<char>,
    bytes: Seq<u8>,
    aliases: Seq<Seq<char>>,
    trust: TrustLevel,
    capabilities: Seq<Seq<char>>,
    dependencies: Seq<Seq<char>>,
) -> Result<EntryView, Seq<char>> {
    match first_failing(aliases, 0, |a: Seq<char>| valid_entry_name(a)) {
        Some(a) => Err(name_error(a)),
        None => match first_failing(capabilities, 0, |c: Seq<char>| is_plain_name(c)) {
            Some(c) => Err(capability_error(c)),
            None => Ok(
                EntryView {
                    source,
                    kind,
                    name,
                    description: compact_description(description),
                    relative_path: rel,
                    content_sha256: digest_hex(bytes),
                    bytes: bytes.len() as u64,
                    aliases: ordered(aliases.to_set()),
                    trust,
                    capabilities: ordered(capabilities.to_set()),
                    dependencies,
                },
            ),
        },
    }
}

/// Either result as plain values.
pub open spec fn entry_result(r: Result<CatalogEntry, String>) -> Result<EntryView, Seq<char>> {
    match r {
        Ok(e) => Ok(entry_view(e)),
        Err(m) => Err(m@),
    }
}

fn deps_of(v: &Vec<String>) -> (r: Vec<Dependency>)
    ensures
        r@.map_values(|d: Dependency| d.selector@) == views(v@),
{
    let mut r: Vec<Dependency> = Vec::new();
    let mut i: usize = 0;
    while i < v.len()
        invariant
            i <= v@.len(),
            r@.map_values(|d: Dependency| d.selector@) == views(v@).take(i as int),
        decreases v@.len() - i,
    {
        let ghost before = r@;
        let d = Dependency { selector: copy_string(&v[i]) };
        r.push(d);
        proof {
            assert(r@ == before.push(d));
            assert(before.map_values(|d: Dependency| d.selector@) == views(v@).take(i as int));
            assert(r@.map_values(|d: Dependency| d.selector@) =~= before.map_values(|d: Dependency| d.selector@).push(d.selector@));
            assert(views(v@).take(i + 1) =~= views(v@).take(i as int).push(v@[i as int]@));
        }
        i += 1;
    }
    proof {
        assert(views(v@).take(v@.len() as int) =~= views(v@));
    }
    r
}

fn check_names(v: &Vec<String>) -> (r: Result<(), String>)
    ensures
        match first_failing(views(v@), 0, |a: Seq<char>| valid_entry_name(a)) {
            Some(a) => r matches Err(m) && m@ == name_error(a),
            None => r is Ok,
        },
{
    let mut i: usize = 0;
    while i < v.len()
        invariant
            i <= v@.len(),
            first_failing(views(v@), i as int, |a: Seq<char>| valid_entry_name(a)) == first_failing(views(v@), 0, |a: Seq<char>| valid_entry_name(a)),
        decreases v@.len() - i,
    {
        match validate_entry_name(v[i].as_str()) {
            Err(m) => {
                return Err(m);
            },
            Ok(()) => {},
        }
        i += 1;
    }
    Ok(())
}

fn check_capabilities(v: &Vec<String>) -> (r: Result<(), String>)
    ensures
        match first_failing(views(v@), 0, |c: Seq<char>| is_plain_name(c)) {
            Some(c) => r matches Err(m) && m@ == capability_error(c),
            None => r is Ok,
        },
{
    let mut i: usize = 0;
    while i < v.len()
        invariant
            i <= v@.len(),
            first_failing(views(v@), i as int, |c: Seq<char>| is_plain_name(c)) == first_failing(views(v@), 0, |c: Seq<char>| is_plain_name(c)),
        decreases v@.len() - i,
    {
        match validate_capability(v[i].as_str()) {
            Err(m) => {
                return Err(m);
            },
            Ok(()) => {},
        }
        i += 1;
    }
    Ok(())
}

/// The entry a file makes.
fn make_entry(
    source: &str,
    kind: EntryKind,
    name: String,
    description: &str,
    rel: &String,
    bytes: &Vec<u8>,
    aliases: &Vec<String>,
    trust: TrustLevel,
    capabilities: &Vec<String>,
    dependencies: &Vec<String>,
) -> (r: Result<CatalogEntry, String>)
    ensures
        entry_result(r) == make_view(
            source@,
            kind,
            name@,
            description@,
            rel@,
            bytes@,
            views(aliases@),
            trust,
            views(capabilities@),
            views(dependencies@),
        ),
{
    match check_names(aliases) {
        Err(m) => {
            return Err(m);
        },
        Ok(()) => {},
    }
    match check_capabilities(capabilities) {
        Err(m) => {
            return Err(m);
        },
        Ok(()) => {},
    }
    let len = bytes.len() as u64;
    let e = CatalogEntry {
        source: owned(source),
        kind,
        name,
        description: compact_description_text(description),
        relative_path: copy_string(rel),
        content_sha256: sha256(bytes.as_slice()),
        bytes: len,
        aliases: strset_from(aliases),
        trust,
        capabilities: strset_from(capabilities),
        dependencies: deps_of(dependencies),
    };
    proof {
        assert(crate::catalog::dep_views(e) == views(dependencies@));
    }
    Ok(e)
}

// ---------------------------------------------------------------------------
// Links from a skill to its resources
// ---------------------------------------------------------------------------
/// The name for what `pulldown_cmark::Parser::new_ext(body, Options::all())`
/// yields for a body: one item per event, holding the destination of each
/// link start and nothing for every other event.
pub uninterp spec fn markdown_link_events(body: Seq<char>) -> Seq<Option<Seq<char>>>;

pub open spec fn opt_views(v: Seq<Option<String>>) -> Seq<Option<Seq<char>>> {
    v.map_values(|o: Option<String>| opt_view(o))
}

/// `pulldown_cmark::Parser::new_ext` with every extension, as the events it
/// yields for a body: the destination of each link start, nothing for the rest.
/// What the parser recognises as a link is not stated; it is named by
/// `markdown_link_events`.
#[verifier::external_body]
fn link_events(body: &str) -> (r: Vec<Option<String>>)
    ensures
        opt_views(r@) == markdown_link_events(body@),
{
    let mut out = Vec::new();
    for event in Parser::new_ext(body, Options::all()) {
        match event {
            Event::Start(Tag::Link { dest_url, .. }) => out.push(Some(dest_url.to_string())),
            _ => out.push(None),
        }
    }
    out
}

/// `t` occurs in `s`.
pub open spec fn contains_text(s: Seq<char>, t: Seq<char>) -> bool {
    exists|i: int| 0 <= i && i + t.len() <= s.len() && #[trigger] s.subrange(i, i + t.len()) == t
}

/// The first index at or after `i` that holds `#`, or the length.
pub open spec fn next_hash(s: Seq<char>, i: int) -> int
    decreases s.len() - i,
{
    if 0 <= i < s.len() && s[i] != '#' {
        next_hash(s, i + 1)
    } else {
        i
    }
}

/// A link destination without its fragment.
pub open spec fn before_hash(d: Seq<char>) -> Seq<char> {
    d.take(next_hash(d, 0))
}

/// The segments of a path that name something: not empty and not `.`.
pub open spec fn clean_segments(ss: Seq<Seq<char>>) -> Seq<Seq<char>>
    decreases ss.len(),
{
    if ss.len() == 0 {
        Seq::empty()
    } else if ss.last().len() > 0 && ss.last() != "."@ {
        clean_segments(ss.drop_last()).push(ss.last())
    } else {
        clean_segments(ss.drop_last())
    }
}

/// `Path::file_name` of a relative path.
pub open spec fn link_file_name(p: Seq<char>) -> Option<Seq<char>> {
    let c = clean_segments(segments(p));
    if c.len() == 0 || c.last() == ".."@ {
        None
    } else {
        Some(c.last())
    }
}

/// What one link destination of a skill adds: nothing for external links,
/// fragments and non-Markdown targets; otherwise the selector of the linked
/// resource, which must be a plain file inside the package.
pub open spec fn link_step(source: Seq<char>, files: Seq<SourceFile>, pkg: Seq<char>, name: Seq<char>, d: Seq<char>) -> Result<
    Option<Seq<char>>,
    Seq<char>,
> {
    if contains_text(d, "://"@) || (d.len() > 0 && d[0] == '#') {
        Ok(None)
    } else {
        let po = before_hash(d);
        match link_file_name(po) {
            None => Ok(None),
            Some(n) => if !is_md_name(n) {
                Ok(None)
            } else if escapes(po) {
                Err("catalog path escapes its source root: "@ + po)
            } else {
                let rel = join_sep(clean_segments(segments(po)), "/"@);
                if !has_plain_file(files, under(pkg, rel)) {
                    Err("linked skill resource is unavailable: "@ + d)
                } else {
                    Ok(Some(source + "/resource:"@ + name + "/"@ + rel))
                }
            },
        }
    }
}

/// The linked resources of the first `k` events of a skill body.
pub open spec fn link_deps(
    source: Seq<char>,
    files: Seq<SourceFile>,
    pkg: Seq<char>,
    name: Seq<char>,
    evs: Seq<Option<Seq<char>>>,
    k: int,
) -> Result<Set<Seq<char>>, Seq<char>>
    decreases k,
{
    if k <= 0 {
        Ok(Set::empty())
    } else {
        match link_deps(source, files, pkg, name, evs, k - 1) {
            Err(m) => Err(m),
            Ok(s) => match evs[k - 1] {
                None => Ok(s),
                Some(d) => match link_step(source, files, pkg, name, d) {
                    Err(m) => Err(m),
                    Ok(None) => Ok(s),
                    Ok(Some(x)) => Ok(s.insert(x)),
                },
            },
        }
    }
}

proof fn lemma_link_deps_err(
    source: Seq<char>,
    files: Seq<SourceFile>,
    pkg: Seq<char>,
    name: Seq<char>,
    evs: Seq<Option<Seq<char>>>,
    k: int,
    n: int,
)
    requires
        1 <= k <= n,
        link_deps(source, files, pkg, name, evs, k) is Err,
    ensures
        link_deps(source, files, pkg, name, evs, n) == link_deps(source, files, pkg, name, evs, k),
    decreases n - k,
{
    if k < n {
        lemma_link_deps_err(source, files, pkg, name, evs, k, n - 1);
    }
}

fn contains_text_chars(s: &[char], t: &[char]) -> (r: bool)
    ensures
        r == contains_text(s@, t@),
{
    if t.len() > s.len() {
        proof {
            assert forall|i: int| 0 <= i && i + t@.len() <= s@.len() implies #[trigger] s@.subrange(i, i + t@.len()) != t@ by {}
        }
        return false;
    }
    if t.len() == 0 {
        proof {
            assert(s@.subrange(0, 0 + t@.len() as int) =~= t@);
        }
        return true;
    }
    let last = s.len() - t.len();
    let mut i: usize = 0;
    while i <= last
        invariant
            1 <= t.len() <= s.len(),
            last == s.len() - t.len(),
            i <= last + 1,
            forall|j: int| 0 <= j < i && j + t@.len() <= s@.len() ==> #[trigger] s@.subrange(j, j + t@.len()) != t@,
        decreases last + 1 - i,
    {
        let w = slice_chars(s, i, i + t.len());
        if same_chars(w.as_slice(), t) {
            return true;
        }
        i += 1;
    }
    false
}

pub(crate) fn clean_segments_of(p: &[char]) -> (r: Vec<Vec<char>>)
    ensures
        char_views(r@) == clean_segments(segments(p@)),
{
    let segs = split_segments(p);
    let dot = chars_of(".");
    let mut r: Vec<Vec<char>> = Vec::new();
    let mut k: usize = 0;
    while k < segs.len()
        invariant
            k <= segs@.len(),
            dot@ == "."@,
            char_views(segs@) == segments(p@),
            char_views(r@) == clean_segments(segments(p@).take(k as int)),
        decreases segs@.len() - k,
    {
        proof {
            assert(segments(p@).take(k + 1).drop_last() =~= segments(p@).take(k as int));
            assert(segments(p@).take(k + 1).last() == segs@[k as int]@);
        }
        if segs[k].len() > 0 && !same_chars(segs[k].as_slice(), dot.as_slice()) {
            let c = slice_chars(segs[k].as_slice(), 0, segs[k].len());
            proof {
                assert(c@ =~= segs@[k as int]@);
                assert(char_views(r@.push(c)) =~= char_views(r@).push(c@));
            }
            r.push(c);
        }
        k += 1;
    }
    proof {
        assert(segments(p@).take(segs@.len() as int) =~= segments(p@));
    }
    r
}

/// What one link destination adds.
fn link_dependency(source: &str, files: &Vec<SourceFile>, pkg: &[char], name: &str, d: &String) -> (r: Result<Option<String>, String>)
    ensures
        match link_step(source@, files@, pkg@, name@, d@) {
            Ok(None) => r matches Ok(None),
            Ok(Some(x)) => r matches Ok(Some(y)) && y@ == x,
            Err(m) => r matches Err(y) && y@ == m,
        },
{
    let dv = chars_of(d.as_str());
    let sep = chars_of("://");
    if contains_text_chars(dv.as_slice(), sep.as_slice()) || (dv.len() > 0 && dv[0] == '#') {
        return Ok(None);
    }
    let mut h: usize = 0;
    while h < dv.len() && dv[h] != '#'
        invariant
            h <= dv.len(),
            next_hash(dv@, h as int) == next_hash(dv@, 0),
        decreases dv.len() - h,
    {
        h += 1;
    }
    let po = slice_chars(dv.as_slice(), 0, h);
    proof {
        assert(po@ =~= before_hash(d@));
    }
    let clean = clean_segments_of(po.as_slice());
    let dots = chars_of("..");
    if clean.len() == 0 || same_chars(clean[clean.len() - 1].as_slice(), dots.as_slice()) {
        proof {
            if clean@.len() > 0 {
                assert(char_views(clean@).last() == clean@[clean@.len() - 1]@);
            }
        }
        return Ok(None);
    }
    proof {
        assert(char_views(clean@).last() == clean@[clean@.len() - 1]@);
    }
    if !is_md_name_chars(clean[clean.len() - 1].as_slice()) {
        return Ok(None);
    }
    let pos = string_of(po.as_slice());
    if path_escapes(pos.as_str()) {
        return Err(concat2("catalog path escapes its source root: ", pos.as_str()));
    }
    let slash = chars_of("/");
    let rel = join_chars(&clean, 0, clean.len(), slash.as_slice());
    proof {
        assert(char_views(clean@).subrange(0, clean@.len() as int) =~= char_views(clean@));
    }
    let target = under_chars(pkg, rel.as_slice());
    if !listed_plain_file(files, target.as_slice()) {
        return Err(concat2("linked skill resource is unavailable: ", d.as_str()));
    }
    let mut x = concat3(source, "/resource:", name);
    push_text(&mut x, "/");
    let rels = string_of(rel.as_slice());
    push_text(&mut x, rels.as_str());
    Ok(Some(x))
}

/// The selectors of the resources that a skill body links to, as an ordered set.
fn linked_resources(source: &str, files: &Vec<SourceFile>, pkg: &[char], name: &str, body: &str) -> (r: Result<Vec<String>, String>)
    ensures
        ({
            let evs = markdown_link_events(body@);
            match link_deps(source@, files@, pkg@, name@, evs, evs.len() as int) {
                Ok(s) => r matches Ok(v) && crate::strset::is_strset(v@) && text_set(v@) == s,
                Err(m) => r matches Err(y) && y@ == m,
            }
        }),
{
    let evs = link_events(body);
    linked_resources_of(source, files, pkg, name, &evs)
}

/// The resource dependencies that the links of a skill body make, given the
/// parser's events for the body (the destination of each link start, nothing
/// for other events): an ordered set of selectors, or the first refusal.
pub fn linked_resources_of(source: &str, files: &Vec<SourceFile>, pkg: &[char], name: &str, events: &Vec<Option<String>>) -> (r: Result<
    Vec<String>,
    String,
>)
    ensures
        ({
            let evs = opt_views(events@);
            match link_deps(source@, files@, pkg@, name@, evs, evs.len() as int) {
                Ok(s) => r matches Ok(v) && crate::strset::is_strset(v@) && text_set(v@) == s,
                Err(m) => r matches Err(y) && y@ == m,
            }
        }),
{
    let evs = events;
    let ghost ev = opt_views(events@);
    let mut out = crate::strset::strset_new();
    let mut k: usize = 0;
    while k < evs.len()
        invariant
            k <= evs@.len(),
            evs == events,
            opt_views(evs@) == ev,
            crate::strset::is_strset(out@),
            link_deps(source@, files@, pkg@, name@, ev, k as int) == Ok::<Set<Seq<char>>, Seq<char>>(text_set(out@)),
        decreases evs@.len() - k,
    {
        proof {
            assert(ev[k as int] == opt_view(evs@[k as int]));
        }
        match &evs[k] {
            None => {},
            Some(d) => match link_dependency(source, files, pkg, name, d) {
                Err(m) => {
                    proof {
                        assert(ev[k as int] == Some(d@));
                        assert(link_step(source@, files@, pkg@, name@, d@) == Err::<Option<Seq<char>>, Seq<char>>(m@));
                        assert(link_deps(source@, files@, pkg@, name@, ev, k + 1) == Err::<Set<Seq<char>>, Seq<char>>(m@));
                        assert(ev.len() == evs@.len());
                        lemma_link_deps_err(source@, files@, pkg@, name@, ev, k + 1, ev.len() as int);
                        assert(link_deps(source@, files@, pkg@, name@, ev, ev.len() as int) == Err::<Set<Seq<char>>, Seq<char>>(m@));
                    }
                    return Err(m);
                },
                Ok(None) => {},
                Ok(Some(x)) => {
                    crate::strset::strset_insert(&mut out, x);
                },
            },
        }
        k += 1;
    }
    Ok(out)
}

// ---------------------------------------------------------------------------
// The entries of one file
// ---------------------------------------------------------------------------
/// The entries of several files, as plain values.
pub open spec fn entries_result(r: Result<Vec<CatalogEntry>, String>) -> Result<Seq<EntryView>, Seq<char>> {
    match r {
        Ok(v) => Ok(crate::catalog::entry_views(v@)),
        Err(m) => Err(m@),
    }
}

/// The description of an entry: its frontmatter's, else its first heading.
pub open spec fn description_of(fm: FmView, body: Seq<char>) -> Seq<char> {
    match fm.description {
        Some(d) => d,
        None => first_heading(body),
    }
}

/// The resource entry that the `j`-th file makes for the skill package `pkg`
/// (named `name`), if it is one: a visible Markdown file of the package other
/// than its `SKILL.md`, and not inside a nested skill package.
pub open spec fn resource_at(
    source: Seq<char>,
    canonical: Seq<char>,
    files: Seq<SourceFile>,
    max: u64,
    pkg: Seq<char>,
    name: Seq<char>,
    trust: TrustLevel,
    j: int,
) -> Result<Seq<EntryView>, Seq<char>> {
    let f = files[j];
    match inside(pkg, f.path@) {
        None => Ok(Seq::empty()),
        Some(rel) => if !(candidate(f) && rel != "SKILL.md"@ && is_md_name(file_name(f.path@)) && !owned_by_nested(
            files,
            pkg,
            rel,
        )) {
            Ok(Seq::empty())
        } else {
            match read_body(canonical, max, f) {
                Err(m) => Err(m),
                Ok(body) => if !plain_instructions(body) {
                    Err(hidden_error(full_path(canonical, f.path@)))
                } else {
                    match make_view(
                        source,
                        EntryKind::Resource,
                        name + "/"@ + rel,
                        "Resource for skill "@ + name,
                        f.path@,
                        bytes_of(f),
                        Seq::empty(),
                        trust,
                        Seq::empty(),
                        Seq::empty(),
                    ) {
                        Err(m) => Err(m),
                        Ok(v) => Ok(seq![v]),
                    }
                },
            }
        },
    }
}

/// The resource entries of a skill package among the first `n` files.
pub open spec fn resource_entries(
    source: Seq<char>,
    canonical: Seq<char>,
    files: Seq<SourceFile>,
    max: u64,
    pkg: Seq<char>,
    name: Seq<char>,
    trust: TrustLevel,
    n: int,
) -> Result<Seq<EntryView>, Seq<char>>
    decreases n,
{
    if n <= 0 {
        Ok(Seq::empty())
    } else {
        match resource_entries(source, canonical, files, max, pkg, name, trust, n - 1) {
            Err(m) => Err(m),
            Ok(a) => match resource_at(source, canonical, files, max, pkg, name, trust, n - 1) {
                Err(m) => Err(m),
                Ok(b) => Ok(a + b),
            },
        }
    }
}

/// The entries that the `k`-th file of a skill root makes: for a visible
/// `SKILL.md`, the skill (named by its frontmatter, else by its directory;
/// depending on its declared dependencies and the resources it links to)
/// followed by the resources of its package.
pub open spec fn skill_file_entries(
    source: Seq<char>,
    canonical: Seq<char>,
    files: Seq<SourceFile>,
    max: u64,
    base: TrustLevel,
    k: int,
) -> Result<Seq<EntryView>, Seq<char>> {
    let f = files[k];
    let p = f.path@;
    let full = full_path(canonical, p);
    if !(candidate(f) && file_name(p) == "SKILL.md"@) {
        Ok(Seq::empty())
    } else {
        match read_body(canonical, max, f) {
            Err(m) => Err(m),
            Ok(body) => if !plain_instructions(body) {
                Err(hidden_error(full))
            } else {
                let fm = frontmatter_of(body);
                match trust_after(base, fm.trust) {
                    None => Err(trust_error(fm.trust->0, full)),
                    Some(trust) => {
                        let pkg = parent(p);
                        let name = match fm.name {
                            Some(n) => n,
                            None => pkg,
                        };
                        if !valid_entry_name(name) {
                            Err(name_error(name))
                        } else {
                            let evs = markdown_link_events(body);
                            match link_deps(source, files, pkg, name, evs, evs.len() as int) {
                                Err(m) => Err(m),
                                Ok(links) => {
                                    let deps = ordered(fm.dependencies.to_set().union(links));
                                    match make_view(
                                        source,
                                        EntryKind::Skill,
                                        name,
                                        description_of(fm, body),
                                        p,
                                        bytes_of(f),
                                        fm.aliases,
                                        trust,
                                        fm.capabilities,
                                        deps,
                                    ) {
                                        Err(m) => Err(m),
                                        Ok(v) => match resource_entries(
                                            source,
                                            canonical,
                                            files,
                                            max,
                                            pkg,
                                            name,
                                            trust,
                                            files.len() as int,
                                        ) {
                                            Err(m) => Err(m),
                                            Ok(rs) => Ok(seq![v] + rs),
                                        },
                                    }
                                },
                            }
                        }
                    },
                }
            },
        }
    }
}

/// The entry that the `k`-th file of a command root makes: every visible
/// Markdown file is a command, named by its frontmatter or else by its path
/// without the extension.
pub open spec fn command_file_entries(
    source: Seq<char>,
    canonical: Seq<char>,
    files: Seq<SourceFile>,
    max: u64,
    base: TrustLevel,
    k: int,
) -> Result<Seq<EntryView>, Seq<char>> {
    let f = files[k];
    let p = f.path@;
    let full = full_path(canonical, p);
    if !(candidate(f) && is_md_name(file_name(p))) {
        Ok(Seq::empty())
    } else {
        match read_body(canonical, max, f) {
            Err(m) => Err(m),
            Ok(body) => if !plain_instructions(body) {
                Err(hidden_error(full))
            } else {
                let fm = frontmatter_of(body);
                match trust_after(base, fm.trust) {
                    None => Err(trust_error(fm.trust->0, full)),
                    Some(trust) => {
                        let name = match fm.name {
                            Some(n) => n,
                            None => p.take(p.len() - 3),
                        };
                        if !valid_entry_name(name) {
                            Err(name_error(name))
                        } else {
                            match make_view(
                                source,
                                EntryKind::Command,
                                name,
                                description_of(fm, body),
                                p,
                                bytes_of(f),
                                fm.aliases,
                                trust,
                                fm.capabilities,
                                fm.dependencies,
                            ) {
                                Err(m) => Err(m),
                                Ok(v) => Ok(seq![v]),
                            }
                        }
                    },
                }
            },
        }
    }
}

/// An indexed entry's shape: aliases and capabilities strictly ordered (so
/// without repeats) and a description of at most 240 characters.
pub open spec fn well_shaped(v: EntryView) -> bool {
    &&& sorted_strict(v.aliases)
    &&& sorted_strict(v.capabilities)
    &&& v.description.len() <= 240
}

proof fn lemma_make_view(
    source: Seq<char>,
    kind: EntryKind,
    name: Seq<char>,
    description: Seq<char>,
    rel: Seq<char>,
    bytes: Seq<u8>,
    aliases: Seq<Seq<char>>,
    trust: TrustLevel,
    capabilities: Seq<Seq<char>>,
    dependencies: Seq<Seq<char>>,
)
    ensures
        make_view(source, kind, name, description, rel, bytes, aliases, trust, capabilities, dependencies) matches Ok(v)
            ==> well_shaped(v) && v.source == source && v.kind == kind && v.trust == trust,
{
    lemma_ordered_of_seq(aliases);
    lemma_ordered_of_seq(capabilities);
}

proof fn lemma_resource_entries_shaped(
    source: Seq<char>,
    canonical: Seq<char>,
    files: Seq<SourceFile>,
    max: u64,
    pkg: Seq<char>,
    name: Seq<char>,
    trust: TrustLevel,
    n: int,
)
    ensures
        resource_entries(source, canonical, files, max, pkg, name, trust, n) matches Ok(a) ==> forall|i: int|
            0 <= i < a.len() ==> well_shaped(#[trigger] a[i]) && a[i].source == source && a[i].kind == EntryKind::Resource
                && a[i].trust == trust,
    decreases n,
{
    if n > 0 {
        lemma_resource_entries_shaped(source, canonical, files, max, pkg, name, trust, n - 1);
        let f = files[n - 1];
        if let Some(rel) = inside(pkg, f.path@) {
            lemma_make_view(
                source,
                EntryKind::Resource,
                name + "/"@ + rel,
                "Resource for skill "@ + name,
                f.path@,
                bytes_of(f),
                Seq::empty(),
                trust,
                Seq::empty(),
                Seq::empty(),
            );
        }
        if let Ok(a) = resource_entries(source, canonical, files, max, pkg, name, trust, n) {
            let a0 = resource_entries(source, canonical, files, max, pkg, name, trust, n - 1)->Ok_0;
            let b = resource_at(source, canonical, files, max, pkg, name, trust, n - 1)->Ok_0;
            assert(a == a0 + b);
            assert forall|i: int| 0 <= i < a.len() implies well_shaped(#[trigger] a[i]) && a[i].source == source
                && a[i].kind == EntryKind::Resource && a[i].trust == trust by {
                if i >= a0.len() {
                    assert(a[i] == b[i - a0.len()]);
                }
            }
        }
    }
}

/// Every entry that a file of a skill root makes is well shaped, carries the
/// root's source, is a skill or a resource, and is untrusted when the root is.
pub proof fn lemma_skill_file_entries_shaped(
    source: Seq<char>,
    canonical: Seq<char>,
    files: Seq<SourceFile>,
    max: u64,
    base: TrustLevel,
    k: int,
)
    ensures
        skill_file_entries(source, canonical, files, max, base, k) matches Ok(a) ==> forall|i: int|
            0 <= i < a.len() ==> well_shaped(#[trigger] a[i]) && a[i].source == source && (a[i].kind == EntryKind::Skill
                || a[i].kind == EntryKind::Resource) && (base == TrustLevel::Untrusted ==> a[i].trust == TrustLevel::Untrusted),
{
    let f = files[k];
    let p = f.path@;
    if candidate(f) && file_name(p) == "SKILL.md"@ {
        if let Ok(body) = read_body(canonical, max, f) {
            let fm = frontmatter_of(body);
            if let Some(trust) = trust_after(base, fm.trust) {
                lemma_trust_never_upgrades(base, fm.trust);
                assert(base == TrustLevel::Untrusted ==> trust == TrustLevel::Untrusted);
                let pkg = parent(p);
                let name = match fm.name {
                    Some(n) => n,
                    None => pkg,
                };
                let evs = markdown_link_events(body);
                if let Ok(links) = link_deps(source, files, pkg, name, evs, evs.len() as int) {
                    let deps = ordered(fm.dependencies.to_set().union(links));
                    lemma_make_view(
                        source,
                        EntryKind::Skill,
                        name,
                        description_of(fm, body),
                        p,
                        bytes_of(f),
                        fm.aliases,
                        trust,
                        fm.capabilities,
                        deps,
                    );
                    lemma_resource_entries_shaped(source, canonical, files, max, pkg, name, trust, files.len() as int);
                    if let Ok(a) = skill_file_entries(source, canonical, files, max, base, k) {
                        let v = make_view(
                            source,
                            EntryKind::Skill,
                            name,
                            description_of(fm, body),
                            p,
                            bytes_of(f),
                            fm.aliases,
                            trust,
                            fm.capabilities,
                            deps,
                        )->Ok_0;
                        let rs = resource_entries(source, canonical, files, max, pkg, name, trust, files.len() as int)->Ok_0;
                        assert(a == seq![v] + rs);
                        assert forall|i: int| 0 <= i < a.len() implies well_shaped(#[trigger] a[i]) && a[i].source == source
                            && (a[i].kind == EntryKind::Skill || a[i].kind == EntryKind::Resource) && (base == TrustLevel::Untrusted
                            ==> a[i].trust == TrustLevel::Untrusted) by {
                            if i >= 1 {
                                assert(a[i] == rs[i - 1]);
                            }
                        }
                    }
                }
            }
        }
    }
}

/// Every entry that a file of a command root makes is a well-shaped command
/// of the root's source, untrusted when the root is.
pub proof fn lemma_command_file_entries_shaped(
    source: Seq<char>,
    canonical: Seq<char>,
    files: Seq<SourceFile>,
    max: u64,
    base: TrustLevel,
    k: int,
)
    ensures
        command_file_entries(source, canonical, files, max, base, k) matches Ok(a) ==> forall|i: int|
            0 <= i < a.len() ==> well_shaped(#[trigger] a[i]) && a[i].source == source && a[i].kind == EntryKind::Command
                && (base == TrustLevel::Untrusted ==> a[i].trust == TrustLevel::Untrusted),
{
    let f = files[k];
    let p = f.path@;
    if candidate(f) && is_md_name(file_name(p)) {
        if let Ok(body) = read_body(canonical, max, f) {
            let fm = frontmatter_of(body);
            if let Some(trust) = trust_after(base, fm.trust) {
                lemma_trust_never_upgrades(base, fm.trust);
                let name = match fm.name {
                    Some(n) => n,
                    None => p.take(p.len() - 3),
                };
                lemma_make_view(
                    source,
                    EntryKind::Command,
                    name,
                    description_of(fm, body),
                    p,
                    bytes_of(f),
                    fm.aliases,
                    trust,
                    fm.capabilities,
                    fm.dependencies,
                );
                if let Ok(a) = command_file_entries(source, canonical, files, max, base, k) {
                    assert forall|i: int| 0 <= i < a.len() implies well_shaped(#[trigger] a[i]) && a[i].source == source
                        && a[i].kind == EntryKind::Command && (base == TrustLevel::Untrusted ==> a[i].trust
                        == TrustLevel::Untrusted) by {
                        assert(i == 0);
                    }
                }
            }
        }
    }
}

proof fn lemma_resource_entries_err(
    source: Seq<char>,
    canonical: Seq<char>,
    files: Seq<SourceFile>,
    max: u64,
    pkg: Seq<char>,
    name: Seq<char>,
    trust: TrustLevel,
    k: int,
    n: int,
)
    requires
        1 <= k <= n,
        resource_entries(source, canonical, files, max, pkg, name, trust, k) is Err,
    ensures
        resource_entries(source, canonical, files, max, pkg, name, trust, n) == resource_entries(
            source,
            canonical,
            files,
            max,
            pkg,
            name,
            trust,
            k,
        ),
    decreases n - k,
{
    if k < n {
        lemma_resource_entries_err(source, canonical, files, max, pkg, name, trust, k, n - 1);
    }
}

proof fn lemma_views_concat(a: Seq<CatalogEntry>, b: Seq<CatalogEntry>)
    ensures
        crate::catalog::entry_views(a + b) == crate::catalog::entry_views(a) + crate::catalog::entry_views(b),
{
    assert(crate::catalog::entry_views(a + b) =~= crate::catalog::entry_views(a) + crate::catalog::entry_views(b));
}

pub(crate) fn append_entries(out: &mut Vec<CatalogEntry>, more: Vec<CatalogEntry>)
    ensures
        crate::catalog::entry_views(final(out)@) == crate::catalog::entry_views(old(out)@) + crate::catalog::entry_views(more@),
{
    let ghost a = out@;
    let mut more = more;
    let ghost b = more@;
    out.append(&mut more);
    proof {
        lemma_views_concat(a, b);
    }
}

/// The resource entries of a skill package.
fn resources(
    source: &str,
    canonical: &str,
    files: &Vec<SourceFile>,
    max: u64,
    pkg: &[char],
    name: &str,
    trust: TrustLevel,
) -> (r: Result<Vec<CatalogEntry>, String>)
    ensures
        entries_result(r) == resource_entries(source@, canonical@, files@, max, pkg@, name@, trust, files@.len() as int),
{
    let mut out: Vec<CatalogEntry> = Vec::new();
    let mut j: usize = 0;
    let skill_md = chars_of("SKILL.md");
    proof {
        assert(crate::catalog::entry_views(out@) =~= Seq::<EntryView>::empty());
    }
    while j < files.len()
        invariant
            j <= files@.len(),
            skill_md@ == "SKILL.md"@,
            resource_entries(source@, canonical@, files@, max, pkg@, name@, trust, j as int) == Ok::<
                Seq<EntryView>,
                Seq<char>,
            >(crate::catalog::entry_views(out@)),
        decreases files@.len() - j,
    {
        let f = &files[j];
        let p = chars_of(f.path.as_str());
        match inside_chars(pkg, p.as_slice()) {
            None => {},
            Some(rel) => {
                let (fname, _dir) = name_and_parent(p.as_slice());
                if is_visible(p.as_slice()) && !f.is_symlink && f.is_file && !same_chars(rel.as_slice(), skill_md.as_slice())
                    && is_md_name_chars(fname.as_slice()) && !nested_owner(files, pkg, rel.as_slice()) {
                    let full = concat3(canonical, "/", f.path.as_str());
                    let body = match read_text(canonical, max, f) {
                        Err(m) => {
                            proof {
                                lemma_resource_entries_err(source@, canonical@, files@, max, pkg@, name@, trust, j + 1, files@.len() as int);
                            }
                            return Err(m);
                        },
                        Ok(b) => b,
                    };
                    match validate_instruction_text(full.as_str(), body.as_str()) {
                        Err(m) => {
                            proof {
                                lemma_resource_entries_err(source@, canonical@, files@, max, pkg@, name@, trust, j + 1, files@.len() as int);
                            }
                            return Err(m);
                        },
                        Ok(()) => {},
                    }
                    let mut rname = concat2(name, "/");
                    let rels = string_of(rel.as_slice());
                    push_text(&mut rname, rels.as_str());
                    let desc = concat2("Resource for skill ", name);
                    let bytes = match &f.bytes {
                        Some(b) => b,
                        None => {
                            return Err(owned("catalog input is not UTF-8"));
                        },
                    };
                    let none: Vec<String> = Vec::new();
                    proof {
                        assert(views(none@) =~= Seq::<Seq<char>>::empty());
                    }
                    match make_entry(source, EntryKind::Resource, rname, desc.as_str(), &f.path, bytes, &none, trust, &none, &none) {
                        Err(m) => {
                            proof {
                                lemma_resource_entries_err(source@, canonical@, files@, max, pkg@, name@, trust, j + 1, files@.len() as int);
                            }
                            return Err(m);
                        },
                        Ok(e) => {
                            let ghost before = out@;
                            out.push(e);
                            proof {
                                assert(crate::catalog::entry_views(out@) =~= crate::catalog::entry_views(before) + seq![entry_view(e)]);
                            }
                        },
                    }
                } else {
                    proof {
                        assert(crate::catalog::entry_views(out@) + Seq::<EntryView>::empty() =~= crate::catalog::entry_views(out@));
                    }
                }
            },
        }
        proof {
            if inside(pkg@, p@) is None {
                assert(crate::catalog::entry_views(out@) + Seq::<EntryView>::empty() =~= crate::catalog::entry_views(out@));
            }
        }
        j += 1;
    }
    Ok(out)
}

fn bytes_ref(f: &SourceFile) -> (r: Option<&Vec<u8>>)
    ensures
        match f.bytes {
            Some(b) => r == Some(&b),
            None => r is None,
        },
{
    match &f.bytes {
        Some(b) => Some(b),
        None => None,
    }
}

/// The entries of the `k`-th file of a skill root.
pub(crate) fn skill_file(source: &str, canonical: &str, files: &Vec<SourceFile>, max: u64, base: TrustLevel, k: usize) -> (r: Result<
    Vec<CatalogEntry>,
    String,
>)
    requires
        k < files@.len(),
    ensures
        entries_result(r) == skill_file_entries(source@, canonical@, files@, max, base, k as int),
{
    let f = &files[k];
    let p = chars_of(f.path.as_str());
    let (fname, pkg) = name_and_parent(p.as_slice());
    let skill_md = chars_of("SKILL.md");
    if !(is_visible(p.as_slice()) && !f.is_symlink && f.is_file && same_chars(fname.as_slice(), skill_md.as_slice())) {
        let none: Vec<CatalogEntry> = Vec::new();
        proof {
            assert(crate::catalog::entry_views(none@) =~= Seq::<EntryView>::empty());
        }
        return Ok(none);
    }
    let full = concat3(canonical, "/", f.path.as_str());
    let body = read_text(canonical, max, f)?;
    validate_instruction_text(full.as_str(), body.as_str())?;
    let bv = chars_of(body.as_str());
    let fm = parse_frontmatter(bv.as_slice());
    let trust = effective_trust(base, &fm.trust, full.as_str())?;
    let name = match &fm.name {
        Some(n) => copy_string(n),
        None => string_of(pkg.as_slice()),
    };
    validate_entry_name(name.as_str())?;
    let links = linked_resources(source, files, pkg.as_slice(), name.as_str(), body.as_str())?;
    let mut deps = strset_from(&fm.dependencies);
    crate::strset::strset_extend(&mut deps, &links);
    proof {
        crate::strset::lemma_ordered(deps@);
        assert(text_set(deps@) == fm_view(fm).dependencies.to_set().union(text_set(links@)));
    }
    let desc = match &fm.description {
        Some(d) => copy_string(d),
        None => first_heading_text(bv.as_slice()),
    };
    let bytes = match bytes_ref(f) {
        Some(b) => b,
        None => {
            return Err(owned("catalog input is not UTF-8"));
        },
    };
    let e = make_entry(source, EntryKind::Skill, copy_string(&name), desc.as_str(), &f.path, bytes, &fm.aliases, trust, &fm.capabilities, &deps)?;
    let rs = resources(source, canonical, files, max, pkg.as_slice(), name.as_str(), trust)?;
    let mut out: Vec<CatalogEntry> = Vec::new();
    out.push(e);
    proof {
        assert(crate::catalog::entry_views(out@) =~= seq![entry_view(e)]);
    }
    append_entries(&mut out, rs);
    Ok(out)
}

/// The entries of the `k`-th file of a command root.
pub(crate) fn command_file(source: &str, canonical: &str, files: &Vec<SourceFile>, max: u64, base: TrustLevel, k: usize) -> (r: Result<
    Vec<CatalogEntry>,
    String,
>)
    requires
        k < files@.len(),
    ensures
        entries_result(r) == command_file_entries(source@, canonical@, files@, max, base, k as int),
{
    let f = &files[k];
    let p = chars_of(f.path.as_str());
    let (fname, _pkg) = name_and_parent(p.as_slice());
    if !(is_visible(p.as_slice()) && !f.is_symlink && f.is_file && is_md_name_chars(fname.as_slice())) {
        let none: Vec<CatalogEntry> = Vec::new();
        proof {
            assert(crate::catalog::entry_views(none@) =~= Seq::<EntryView>::empty());
        }
        return Ok(none);
    }
    let full = concat3(canonical, "/", f.path.as_str());
    let body = read_text(canonical, max, f)?;
    validate_instruction_text(full.as_str(), body.as_str())?;
    let bv = chars_of(body.as_str());
    let fm = parse_frontmatter(bv.as_slice());
    let trust = effective_trust(base, &fm.trust, full.as_str())?;
    let name = match &fm.name {
        Some(n) => copy_string(n),
        None => {
            proof {
                lemma_md_path(p@);
            }
            let stem = slice_chars(p.as_slice(), 0, p.len() - 3);
            string_of(stem.as_slice())
        },
    };
    validate_entry_name(name.as_str())?;
    let desc = match &fm.description {
        Some(d) => copy_string(d),
        None => first_heading_text(bv.as_slice()),
    };
    let bytes = match bytes_ref(f) {
        Some(b) => b,
        None => {
            return Err(owned("catalog input is not UTF-8"));
        },
    };
    let e = make_entry(source, EntryKind::Command, name, desc.as_str(), &f.path, bytes, &fm.aliases, trust, &fm.capabilities, &fm.dependencies)?;
    let mut out: Vec<CatalogEntry> = Vec::new();
    out.push(e);
    proof {
        assert(crate::catalog::entry_views(out@) =~= seq![entry_view(e)]);
    }
    Ok(out)
}

/// A path whose last segment is a Markdown file name has at least three characters.
proof fn lemma_md_path(p: Seq<char>)
    requires
        is_md_name(file_name(p)),
    ensures
        p.len() >= 3,
{
    lemma_last_segment(p, 0);
}

/// The last segment of a path from index `i` on is a suffix of the path.
proof fn lemma_last_segment(s: Seq<char>, i: int)
    requires
        0 <= i <= s.len(),
    ensures
        crate::sync::segments_from(s, i).len() > 0,
        crate::sync::segments_from(s, i).last().len() <= s.len() - i,
    decreases s.len() - i,
{
    crate::sync::lemma_next_slash(s, i);
    let j = crate::sync::next_slash(s, i);
    if i <= j < s.len() {
        lemma_last_segment(s, j + 1);
        assert(crate::sync::segments_from(s, i) == seq![s.subrange(i, j)] + crate::sync::segments_from(s, j + 1));
    }
}

// ---------------------------------------------------------------------------
// Source arguments
// ---------------------------------------------------------------------------
/// The first index at or after `i` that holds `=`, or the length.
pub open spec fn next_eq(s: Seq<char>, i: int) -> int
    decreases s.len() - i,
{
    if 0 <= i < s.len() && s[i] != '=' {
        next_eq(s, i + 1)
    } else {
        i
    }
}

/// A source root written `NAME=PATH` (split at the first `=`): refused
/// without `=` or with an empty name or path.
pub fn parse_source(value: &str, kind: EntryKind) -> (r: Result<SourceRoot, String>)
    ensures
        ({
            let v = value@;
            let k = next_eq(v, 0);
            if k >= v.len() {
                r matches Err(m) && m@ == "source must use NAME=PATH: "@ + v
            } else if k == 0 || k + 1 == v.len() {
                r matches Err(m) && m@ == "source must use a non-empty NAME=PATH: "@ + v
            } else {
                r matches Ok(root) && root.name@ == v.take(k) && root.path@ == v.skip(k + 1) && root.kind == kind
            }
        }),
{
    let v = chars_of(value);
    let mut k: usize = 0;
    while k < v.len() && v[k] != '='
        invariant
            k <= v.len(),
            next_eq(v@, k as int) == next_eq(v@, 0),
        decreases v.len() - k,
    {
        k += 1;
    }
    if k >= v.len() {
        return Err(concat2("source must use NAME=PATH: ", value));
    }
    if k == 0 || k + 1 == v.len() {
        return Err(concat2("source must use a non-empty NAME=PATH: ", value));
    }
    let name = slice_chars(v.as_slice(), 0, k);
    let path = slice_chars(v.as_slice(), k + 1, v.len());
    proof {
        assert(name@ =~= value@.take(k as int));
        assert(path@ =~= value@.skip(k + 1));
    }
    Ok(SourceRoot { name: string_of(name.as_slice()), kind, path: string_of(path.as_slice()) })
}

} // verus!
