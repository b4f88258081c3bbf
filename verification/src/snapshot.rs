//! Shared snapshots: manifests, their digests and checks, publishing a
//! catalogue as chunked files, and the decisions of pulling one.
use vstd::prelude::*;

use crate::builder::root_pairs;
use crate::catalog::{selector_of, Catalog, CatalogEntry, CatalogRoot, SkillleafError, SkillleafResult};
use crate::hydrate::{doctor, doctor_failure, escapes, find_root, path_escapes, root_index, root_key, root_key_of, BodyRead};
use crate::integrity::catalog_digest;
use crate::digest::{digest_hex, sha256, sha256_text};
use crate::integrity::{json_catalog, push_catalog_json};
use crate::json::{decimal, join_comma, json_array, json_str, push_decimal, push_json_str};
use crate::strset::copy_string;
use crate::sync::{
    is_portable, is_snapshot_id, negotiate_protocol, portable_path, protocol_error, validate_snapshot_id,
    MAX_SYNC_CHUNK_BYTES, MAX_SYNC_FILES, MAX_SYNC_FILE_BYTES, MAX_SYNC_TOTAL_BYTES, SYNC_PROTOCOL_VERSION,
};
use crate::text::{concat2, is_plain_name, lex_lt, owned, push_char, push_text, same_text, text_less};

verus! {

pub const MANIFEST_SCHEMA: &'static str = "skillleaf.sync-manifest.v1";

pub const POINTER_SCHEMA: &'static str = "skillleaf.sync-pointer.v1";

pub const RECEIPT_SCHEMA: &'static str = "skillleaf.sync-receipt.v1";

pub const STATUS_SCHEMA: &'static str = "skillleaf.sync-status.v1";

pub const LOCAL_STATE_SCHEMA: &'static str = "skillleaf.sync-local-state.v1";

/// One content-addressed chunk of a file.
#[derive(Clone, Debug)]
pub struct SyncChunk {
    pub sha256: String,
    pub bytes: u64,
}

/// One file of a snapshot and its chunks, in order.
#[derive(Clone, Debug)]
pub struct SyncFile {
    pub path: String,
    pub sha256: String,
    pub bytes: u64,
    pub chunks: Vec<SyncChunk>,
}

/// An immutable snapshot: a catalogue and the files its entries read.
#[derive(Clone, Debug)]
pub struct SyncManifest {
    pub schema: String,
    pub protocol_min: u32,
    pub protocol_max: u32,
    pub snapshot_id: String,
    pub catalog: Catalog,
    pub files: Vec<SyncFile>,
}

/// The pointer to a remote's current snapshot.
#[derive(Clone, Debug)]
pub struct SyncPointer {
    pub schema: String,
    pub protocol_min: u32,
    pub protocol_max: u32,
    pub snapshot_id: String,
}

// ---------------------------------------------------------------------------
// The manifest digest
// ---------------------------------------------------------------------------
pub open spec fn json_chunk(c: SyncChunk) -> Seq<char> {
    "{\"sha256\":"@ + json_str(c.sha256@) + ",\"bytes\":"@ + decimal(c.bytes as nat) + "}"@
}

pub open spec fn json_file(f: SyncFile) -> Seq<char> {
    "{\"path\":"@ + json_str(f.path@) + ",\"sha256\":"@ + json_str(f.sha256@) + ",\"bytes\":"@ + decimal(f.bytes as nat)
        + ",\"chunks\":"@ + json_array(f.chunks@.map_values(|c: SyncChunk| json_chunk(c))) + "}"@
}

/// The JSON text over which a manifest's digest is taken: everything but its identifier.
pub open spec fn manifest_material(m: SyncManifest) -> Seq<char> {
    "{\"schema\":"@ + json_str(m.schema@) + ",\"protocol_min\":"@ + decimal(m.protocol_min as nat) + ",\"protocol_max\":"@
        + decimal(m.protocol_max as nat) + ",\"catalog\":"@ + json_catalog(m.catalog) + ",\"files\":"@ + json_array(
        m.files@.map_values(|f: SyncFile| json_file(f)),
    ) + "}"@
}

/// The digest that identifies a manifest.
pub open spec fn manifest_digest(m: SyncManifest) -> Seq<char> {
    digest_hex(vstd::utf8::encode_utf8(manifest_material(m)))
}

fn push_chunk(out: &mut String, c: &SyncChunk)
    ensures
        final(out)@ == old(out)@ + json_chunk(*c),
{
    let ghost start = out@;
    push_text(out, "{\"sha256\":");
    push_json_str(out, c.sha256.as_str());
    push_text(out, ",\"bytes\":");
    push_decimal(out, c.bytes);
    push_text(out, "}");
    proof {
        assert(out@ =~= start + json_chunk(*c));
    }
}

fn push_file(out: &mut String, f: &SyncFile)
    ensures
        final(out)@ == old(out)@ + json_file(*f),
{
    let ghost start = out@;
    push_text(out, "{\"path\":");
    push_json_str(out, f.path.as_str());
    push_text(out, ",\"sha256\":");
    push_json_str(out, f.sha256.as_str());
    push_text(out, ",\"bytes\":");
    push_decimal(out, f.bytes);
    push_text(out, ",\"chunks\":");
    let ghost before = out@;
    let ghost items = f.chunks@.map_values(|c: SyncChunk| json_chunk(c));
    push_char(out, '[');
    let mut i: usize = 0;
    while i < f.chunks.len()
        invariant
            i <= f.chunks@.len(),
            items == f.chunks@.map_values(|c: SyncChunk| json_chunk(c)),
            out@ == before + seq!['['] + join_comma(items.take(i as int)),
        decreases f.chunks@.len() - i,
    {
        if i > 0 {
            push_char(out, ',');
        }
        push_chunk(out, &f.chunks[i]);
        proof {
            assert(items.take(i + 1).drop_last() =~= items.take(i as int));
        }
        i += 1;
    }
    push_char(out, ']');
    push_text(out, "}");
    proof {
        assert(items.take(f.chunks@.len() as int) =~= items);
        assert(out@ =~= start + json_file(*f));
    }
}

fn push_files(out: &mut String, files: &Vec<SyncFile>)
    ensures
        final(out)@ == old(out)@ + json_array(files@.map_values(|f: SyncFile| json_file(f))),
{
    let ghost before = out@;
    let ghost items = files@.map_values(|f: SyncFile| json_file(f));
    push_char(out, '[');
    let mut i: usize = 0;
    while i < files.len()
        invariant
            i <= files@.len(),
            items == files@.map_values(|f: SyncFile| json_file(f)),
            out@ == before + seq!['['] + join_comma(items.take(i as int)),
        decreases files@.len() - i,
    {
        if i > 0 {
            push_char(out, ',');
        }
        push_file(out, &files[i]);
        proof {
            assert(items.take(i + 1).drop_last() =~= items.take(i as int));
        }
        i += 1;
    }
    push_char(out, ']');
    proof {
        assert(items.take(files@.len() as int) =~= items);
    }
}

/// The digest that identifies a manifest.
pub fn manifest_hash(m: &SyncManifest) -> (r: String)
    ensures
        r@ == manifest_digest(*m),
        is_snapshot_id(r@),
{
    let mut out = String::new();
    push_text(&mut out, "{\"schema\":");
    push_json_str(&mut out, m.schema.as_str());
    push_text(&mut out, ",\"protocol_min\":");
    push_decimal(&mut out, m.protocol_min as u64);
    push_text(&mut out, ",\"protocol_max\":");
    push_decimal(&mut out, m.protocol_max as u64);
    push_text(&mut out, ",\"catalog\":");
    push_catalog_json(&mut out, &m.catalog);
    push_text(&mut out, ",\"files\":");
    push_files(&mut out, &m.files);
    push_text(&mut out, "}");
    proof {
        assert(out@ =~= manifest_material(*m));
    }
    sha256_text(out.as_str())
}

// ---------------------------------------------------------------------------
// Checking pointers and manifests
// ---------------------------------------------------------------------------
/// What is wrong with a remote pointer, if anything.
pub open spec fn pointer_error(p: SyncPointer) -> Option<Seq<char>> {
    if p.schema@ != POINTER_SCHEMA@ {
        Some("unsupported sync pointer schema: "@ + p.schema@)
    } else if !(p.protocol_min <= SYNC_PROTOCOL_VERSION <= p.protocol_max) {
        Some(protocol_error(p.protocol_min, p.protocol_max))
    } else if !is_snapshot_id(p.snapshot_id@) {
        Some("invalid snapshot or chunk identifier"@)
    } else {
        None
    }
}

/// Checks a remote pointer.
pub fn validate_pointer(p: &SyncPointer) -> (r: Result<(), String>)
    ensures
        match pointer_error(*p) {
            Some(m) => r matches Err(x) && x@ == m,
            None => r is Ok,
        },
{
    if !same_text(p.schema.as_str(), POINTER_SCHEMA) {
        return Err(concat2("unsupported sync pointer schema: ", p.schema.as_str()));
    }
    negotiate_protocol(p.protocol_min, p.protocol_max)?;
    validate_snapshot_id(p.snapshot_id.as_str())
}

/// The sum of the declared chunk sizes of a file.
pub open spec fn chunk_sum(cs: Seq<SyncChunk>) -> int
    decreases cs.len(),
{
    if cs.len() == 0 {
        0
    } else {
        chunk_sum(cs.drop_last()) + cs.last().bytes
    }
}

/// What is wrong with a chunk of a file, if anything.
pub open spec fn chunk_problem(path: Seq<char>, c: SyncChunk) -> Option<Seq<char>> {
    if !is_snapshot_id(c.sha256@) {
        Some("invalid snapshot or chunk identifier"@)
    } else if c.bytes == 0 || c.bytes > MAX_SYNC_CHUNK_BYTES {
        Some("invalid sync chunk size for "@ + path)
    } else {
        None
    }
}

/// The first problem among the chunks of a file from position `j` on.
pub open spec fn chunks_problem(path: Seq<char>, cs: Seq<SyncChunk>, j: int) -> Option<Seq<char>>
    decreases cs.len() - j,
{
    if 0 <= j < cs.len() {
        match chunk_problem(path, cs[j]) {
            Some(m) => Some(m),
            None => chunks_problem(path, cs, j + 1),
        }
    } else {
        None
    }
}

/// What is wrong with the `k`-th file of a manifest, if anything.
pub open spec fn file_problem(fs: Seq<SyncFile>, k: int) -> Option<Seq<char>> {
    let f = fs[k];
    let p = f.path@;
    if !is_portable(p) {
        Some("sync path must be a non-empty portable relative path: "@ + p)
    } else if exists|i: int| 0 <= i < k && (#[trigger] fs[i]).path@ == p {
        Some("duplicate sync file path: "@ + p)
    } else if f.bytes > MAX_SYNC_FILE_BYTES {
        Some("sync file exceeds 16777216 bytes: "@ + p)
    } else if chunk_sum(f.chunks@) != f.bytes {
        Some("sync chunk lengths do not match file length: "@ + p)
    } else {
        chunks_problem(p, f.chunks@, 0)
    }
}

/// The first problem among the files of a manifest from position `k` on.
pub open spec fn files_problem(fs: Seq<SyncFile>, k: int) -> Option<Seq<char>>
    decreases fs.len() - k,
{
    if 0 <= k < fs.len() {
        match file_problem(fs, k) {
            Some(m) => Some(m),
            None => files_problem(fs, k + 1),
        }
    } else {
        None
    }
}

/// The sum of the sizes of the first `k` files.
pub open spec fn files_bytes(fs: Seq<SyncFile>, k: int) -> int
    decreases k,
{
    if k <= 0 {
        0
    } else {
        files_bytes(fs, k - 1) + fs[k - 1].bytes
    }
}

/// What is wrong with a manifest, if anything: its schema, protocol range,
/// identifier (which must be its digest), number of files, files, or total size.
pub open spec fn manifest_error(m: SyncManifest) -> Option<Seq<char>> {
    if m.schema@ != MANIFEST_SCHEMA@ {
        Some("unsupported sync manifest schema: "@ + m.schema@)
    } else if !(m.protocol_min <= SYNC_PROTOCOL_VERSION <= m.protocol_max) {
        Some(protocol_error(m.protocol_min, m.protocol_max))
    } else if !is_snapshot_id(m.snapshot_id@) {
        Some("invalid snapshot or chunk identifier"@)
    } else if manifest_digest(m) != m.snapshot_id@ {
        Some("sync manifest hash mismatch"@)
    } else if m.files@.len() > MAX_SYNC_FILES {
        Some("sync manifest exceeds 10000 files"@)
    } else {
        match files_problem(m.files@, 0) {
            Some(x) => Some(x),
            None => if files_bytes(m.files@, m.files@.len() as int) > MAX_SYNC_TOTAL_BYTES {
                Some("sync manifest exceeds 536870912 bytes"@)
            } else {
                None
            },
        }
    }
}

fn check_chunks(path: &String, cs: &Vec<SyncChunk>) -> (r: Result<(), String>)
    ensures
        match chunks_problem(path@, cs@, 0) {
            Some(m) => r matches Err(x) && x@ == m,
            None => r is Ok,
        },
{
    let mut j: usize = 0;
    while j < cs.len()
        invariant
            j <= cs@.len(),
            chunks_problem(path@, cs@, j as int) == chunks_problem(path@, cs@, 0),
        decreases cs@.len() - j,
    {
        validate_snapshot_id(cs[j].sha256.as_str())?;
        if cs[j].bytes == 0 || cs[j].bytes > MAX_SYNC_CHUNK_BYTES as u64 {
            return Err(concat2("invalid sync chunk size for ", path.as_str()));
        }
        j += 1;
    }
    Ok(())
}

fn chunk_total(cs: &Vec<SyncChunk>) -> (r: u128)
    ensures
        r == chunk_sum(cs@),
{
    let mut t: u128 = 0;
    let mut j: usize = 0;
    while j < cs.len()
        invariant
            j <= cs@.len(),
            t == chunk_sum(cs@.take(j as int)),
            t <= j * 0x1_0000_0000_0000_0000,
        decreases cs@.len() - j,
    {
        proof {
            assert(cs@.take(j + 1).drop_last() =~= cs@.take(j as int));
        }
        t = t + cs[j].bytes as u128;
        j += 1;
    }
    proof {
        assert(cs@.take(cs@.len() as int) =~= cs@);
    }
    t
}

/// Checks a manifest.
pub fn validate_manifest(m: &SyncManifest) -> (r: Result<(), String>)
    ensures
        match manifest_error(*m) {
            Some(x) => r matches Err(y) && y@ == x,
            None => r is Ok,
        },
{
    if !same_text(m.schema.as_str(), MANIFEST_SCHEMA) {
        return Err(concat2("unsupported sync manifest schema: ", m.schema.as_str()));
    }
    negotiate_protocol(m.protocol_min, m.protocol_max)?;
    validate_snapshot_id(m.snapshot_id.as_str())?;
    let digest = manifest_hash(m);
    if !same_text(digest.as_str(), m.snapshot_id.as_str()) {
        return Err(owned("sync manifest hash mismatch"));
    }
    if m.files.len() > MAX_SYNC_FILES {
        return Err(owned("sync manifest exceeds 10000 files"));
    }
    let mut total: u64 = 0;
    let mut k: usize = 0;
    while k < m.files.len()
        invariant
            k <= m.files@.len(),
            m.files@.len() <= MAX_SYNC_FILES,
            m.schema@ == MANIFEST_SCHEMA@,
            m.protocol_min <= SYNC_PROTOCOL_VERSION <= m.protocol_max,
            is_snapshot_id(m.snapshot_id@),
            manifest_digest(*m) == m.snapshot_id@,
            files_problem(m.files@, k as int) == files_problem(m.files@, 0),
            forall|i: int| 0 <= i < k ==> (#[trigger] m.files@[i]).bytes <= MAX_SYNC_FILE_BYTES,
            total == files_bytes(m.files@, k as int),
            total <= k * MAX_SYNC_FILE_BYTES,
        decreases m.files@.len() - k,
    {
        let f = &m.files[k];
        portable_path(f.path.as_str())?;
        let mut i: usize = 0;
        while i < k
            invariant
                i <= k < m.files@.len(),
                *f == m.files@[k as int],
                is_portable(f.path@),
                m.files@.len() <= MAX_SYNC_FILES,
                m.schema@ == MANIFEST_SCHEMA@,
                m.protocol_min <= SYNC_PROTOCOL_VERSION <= m.protocol_max,
                is_snapshot_id(m.snapshot_id@),
                manifest_digest(*m) == m.snapshot_id@,
                files_problem(m.files@, k as int) == files_problem(m.files@, 0),
                forall|j: int| 0 <= j < i ==> (#[trigger] m.files@[j]).path@ != f.path@,
            decreases k - i,
        {
            if same_text(m.files[i].path.as_str(), f.path.as_str()) {
                proof {
                    assert(m.files@[i as int].path@ == f.path@);
                }
                return Err(concat2("duplicate sync file path: ", f.path.as_str()));
            }
            i += 1;
        }
        if f.bytes > MAX_SYNC_FILE_BYTES {
            return Err(concat2("sync file exceeds 16777216 bytes: ", f.path.as_str()));
        }
        if chunk_total(&f.chunks) != f.bytes as u128 {
            return Err(concat2("sync chunk lengths do not match file length: ", f.path.as_str()));
        }
        check_chunks(&f.path, &f.chunks)?;
        total = total + f.bytes;
        k += 1;
    }
    if total > MAX_SYNC_TOTAL_BYTES {
        return Err(owned("sync manifest exceeds 536870912 bytes"));
    }
    Ok(())
}

// ---------------------------------------------------------------------------
// Chunking
// ---------------------------------------------------------------------------
/// `<[u8]>::chunks(n)`: the bytes cut into pieces of `n` bytes, the last one
/// possibly shorter.
pub open spec fn chunk_pieces(b: Seq<u8>, n: nat) -> Seq<Seq<u8>>
    decreases b.len(),
{
    if b.len() == 0 || n == 0 {
        Seq::empty()
    } else if b.len() <= n {
        seq![b]
    } else {
        seq![b.take(n as int)] + chunk_pieces(b.skip(n as int), n)
    }
}

/// Pieces joined back together.
pub open spec fn joined(ps: Seq<Seq<u8>>) -> Seq<u8>
    decreases ps.len(),
{
    if ps.len() == 0 {
        Seq::empty()
    } else {
        ps[0] + joined(ps.drop_first())
    }
}

/// Chunking loses nothing: the chunks of a body, joined, are the body, and
/// each chunk holds between one and `n` bytes.
pub proof fn lemma_chunks_rejoin(b: Seq<u8>, n: nat)
    requires
        n > 0,
    ensures
        joined(chunk_pieces(b, n)) == b,
        forall|i: int| 0 <= i < chunk_pieces(b, n).len() ==> 0 < (#[trigger] chunk_pieces(b, n)[i]).len() <= n,
    decreases b.len(),
{
    if b.len() == 0 {
    } else if b.len() <= n {
        let ps = seq![b];
        assert(ps.drop_first() =~= Seq::<Seq<u8>>::empty());
        assert(joined(ps.drop_first()) == Seq::<u8>::empty());
        assert(joined(ps) == ps[0] + joined(ps.drop_first()));
        assert(b + Seq::<u8>::empty() =~= b);
    } else {
        lemma_chunks_rejoin(b.skip(n as int), n);
        let ps = chunk_pieces(b, n);
        assert(ps.drop_first() =~= chunk_pieces(b.skip(n as int), n));
        assert(b.take(n as int) + b.skip(n as int) =~= b);
        assert forall|i: int| 0 <= i < ps.len() implies 0 < (#[trigger] ps[i]).len() <= n by {
            if i > 0 {
                assert(ps[i] == chunk_pieces(b.skip(n as int), n)[i - 1]);
            }
        }
    }
}

/// The declared form of a chunk: its digest and size.
pub open spec fn chunk_entry(p: Seq<u8>) -> (Seq<char>, u64) {
    (digest_hex(p), p.len() as u64)
}

pub open spec fn chunk_views(cs: Seq<SyncChunk>) -> Seq<(Seq<char>, u64)> {
    cs.map_values(|c: SyncChunk| (c.sha256@, c.bytes))
}

/// A published file holds a body: its size, digest and chunks are those of the body.
pub open spec fn file_holds(f: SyncFile, b: Seq<u8>, n: nat) -> bool {
    &&& f.bytes == b.len()
    &&& f.sha256@ == digest_hex(b)
    &&& chunk_views(f.chunks@) == chunk_pieces(b, n).map_values(|p: Seq<u8>| chunk_entry(p))
}

/// Each chunk of a file is named by a well-formed identifier.
pub open spec fn chunk_ids_ok(f: SyncFile) -> bool {
    forall|j: int| 0 <= j < f.chunks@.len() ==> is_snapshot_id(#[trigger] f.chunks@[j].sha256@)
}

/// The bytes of one chunk to store under its digest.
#[derive(Clone, Debug)]
pub struct ChunkPayload {
    pub sha256: String,
    pub bytes: Vec<u8>,
}

fn slice_bytes(b: &Vec<u8>, a: usize, e: usize) -> (r: Vec<u8>)
    requires
        a <= e <= b@.len(),
    ensures
        r@ == b@.subrange(a as int, e as int),
{
    let mut r: Vec<u8> = Vec::new();
    let mut i = a;
    while i < e
        invariant
            a <= i <= e <= b@.len(),
            r@ == b@.subrange(a as int, i as int),
        decreases e - i,
    {
        r.push(b[i]);
        proof {
            assert(b@.subrange(a as int, i + 1) == b@.subrange(a as int, i as int).push(b@[i as int]));
        }
        i += 1;
    }
    r
}

/// The file of a body under a path, and the payloads of its chunks.
fn chunk_file(path: String, b: &Vec<u8>, n: usize) -> (r: (SyncFile, Vec<ChunkPayload>))
    requires
        n > 0,
    ensures
        r.0.path@ == path@,
        file_holds(r.0, b@, n as nat),
        chunk_ids_ok(r.0),
        r.1@.len() == chunk_pieces(b@, n as nat).len(),
        forall|i: int| 0 <= i < r.1@.len() ==> (#[trigger] r.1@[i]).bytes@ == chunk_pieces(b@, n as nat)[i] && r.1@[i].sha256@
            == digest_hex(chunk_pieces(b@, n as nat)[i]),
{
    let mut chunks: Vec<SyncChunk> = Vec::new();
    let mut payloads: Vec<ChunkPayload> = Vec::new();
    let mut off: usize = 0;
    let ghost mut done: Seq<Seq<u8>> = Seq::empty();
    proof {
        assert(b@.skip(0) =~= b@);
    }
    while off < b.len()
        invariant
            n > 0,
            off <= b@.len(),
            done + chunk_pieces(b@.skip(off as int), n as nat) == chunk_pieces(b@, n as nat),
            chunk_views(chunks@) == done.map_values(|p: Seq<u8>| chunk_entry(p)),
            forall|j: int| 0 <= j < chunks@.len() ==> is_snapshot_id(#[trigger] chunks@[j].sha256@),
            payloads@.len() == done.len(),
            forall|i: int| 0 <= i < payloads@.len() ==> (#[trigger] payloads@[i]).bytes@ == done[i] && payloads@[i].sha256@ == digest_hex(done[i]),
        decreases b@.len() - off,
    {
        let end = if b.len() - off <= n {
            b.len()
        } else {
            off + n
        };
        let piece = slice_bytes(b, off, end);
        let digest = sha256(piece.as_slice());
        let len = piece.len() as u64;
        let ghost rest = b@.skip(off as int);
        proof {
            if b@.len() - off <= n {
                assert(piece@ =~= rest);
                assert(chunk_pieces(rest, n as nat) == seq![rest]);
                assert(b@.skip(end as int).len() == 0);
                assert(chunk_pieces(b@.skip(end as int), n as nat) =~= Seq::<Seq<u8>>::empty());
            } else {
                assert(piece@ =~= rest.take(n as int));
                assert(rest.skip(n as int) =~= b@.skip(end as int));
                assert(chunk_pieces(rest, n as nat) == seq![rest.take(n as int)] + chunk_pieces(rest.skip(n as int), n as nat));
            }
            assert(done.push(piece@) + chunk_pieces(b@.skip(end as int), n as nat) =~= done + chunk_pieces(rest, n as nat));
        }
        let ghost old_chunks = chunks@;
        chunks.push(SyncChunk { sha256: copy_string(&digest), bytes: len });
        payloads.push(ChunkPayload { sha256: digest, bytes: piece });
        proof {
            assert(chunk_views(chunks@) =~= chunk_views(old_chunks).push(chunk_entry(done.push(piece@).last())));
            assert(done.push(piece@).map_values(|p: Seq<u8>| chunk_entry(p)) =~= done.map_values(|p: Seq<u8>| chunk_entry(p)).push(chunk_entry(piece@)));
            done = done.push(piece@);
        }
        off = end;
    }
    proof {
        assert(b@.skip(off as int).len() == 0);
        assert(done + Seq::<Seq<u8>>::empty() =~= done);
    }
    let sha = sha256(b.as_slice());
    let bytes = b.len() as u64;
    (SyncFile { path, sha256: sha, bytes, chunks }, payloads)
}

// ---------------------------------------------------------------------------
// Publishing
// ---------------------------------------------------------------------------
/// Why the body of the `k`-th entry cannot be located, if it cannot.
pub open spec fn location_error(c: Catalog, k: int) -> Option<Seq<char>> {
    let e = c.entries@[k];
    if root_index(c.roots@, root_key_of(e.source@, e.kind)) < 0 {
        Some("catalogue entry has no source root: "@ + selector_of(e))
    } else if escapes(e.relative_path@) {
        Some("catalog path escapes its source root: "@ + e.relative_path@)
    } else {
        None
    }
}

/// The directory of the root of the `k`-th entry and the entry's relative
/// path, from which its body is read.
pub fn entry_location(c: &Catalog, k: usize) -> (r: Result<(String, String), String>)
    requires
        k < c.entries@.len(),
    ensures
        match location_error(*c, k as int) {
            Some(m) => r matches Err(x) && x@ == m,
            None => r matches Ok((root, rel)) && ({
                let e = c.entries@[k as int];
                &&& root@ == c.roots@[root_index(c.roots@, root_key_of(e.source@, e.kind))].path@
                &&& rel@ == e.relative_path@
            }),
        },
{
    let e = &c.entries[k];
    let key = root_key(e.source.as_str(), e.kind);
    match find_root(&c.roots, key.as_str()) {
        None => {
            let sel = e.selector();
            Err(concat2("catalogue entry has no source root: ", sel.as_str()))
        },
        Some(j) => {
            if path_escapes(e.relative_path.as_str()) {
                return Err(concat2("catalog path escapes its source root: ", e.relative_path.as_str()));
            }
            Ok((copy_string(&c.roots[j].path), copy_string(&e.relative_path)))
        },
    }
}

/// The path under which the `k`-th entry's body is published.
pub open spec fn snapshot_path(c: Catalog, k: int) -> Seq<char> {
    let e = c.entries@[k];
    "roots/"@ + root_key_of(e.source@, e.kind) + "/"@ + e.relative_path@
}

/// The body recorded under a path, if any.
pub open spec fn body_at(ps: Seq<(Seq<char>, Seq<u8>)>, p: Seq<char>) -> Option<Seq<u8>>
    decreases ps.len(),
{
    if ps.len() == 0 {
        None
    } else if ps.last().0 == p {
        Some(ps.last().1)
    } else {
        body_at(ps.drop_last(), p)
    }
}

/// The published bodies (each path once, in order of first use) and their
/// total size after the first `k` entries, or the first refusal.
pub open spec fn collect_bodies(c: Catalog, bodies: Seq<BodyRead>, k: int) -> Result<(Seq<(Seq<char>, Seq<u8>)>, int), Seq<char>>
    decreases k,
{
    if k <= 0 {
        Ok((Seq::empty(), 0))
    } else {
        match collect_bodies(c, bodies, k - 1) {
            Err(x) => Err(x),
            Ok((ps, total)) => {
                let e = c.entries@[k - 1];
                match location_error(c, k - 1) {
                    Some(x) => Err(x),
                    None => if k - 1 >= bodies.len() {
                        Err("sync input was not read: "@ + selector_of(e))
                    } else {
                        match bodies[k - 1] {
                            BodyRead::Failed(x) => Err(x@),
                            BodyRead::Read { path, bytes } => {
                                let p = snapshot_path(c, k - 1);
                                if bytes@.len() > MAX_SYNC_FILE_BYTES {
                                    Err("sync input exceeds 16777216 bytes: "@ + path@)
                                } else if digest_hex(bytes@) != e.content_sha256@ {
                                    Err("catalogue body changed before sync: "@ + selector_of(e))
                                } else if !is_portable(p) {
                                    Err("sync path must be a non-empty portable relative path: "@ + p)
                                } else {
                                    match body_at(ps, p) {
                                        Some(b) => if b != bytes@ {
                                            Err("two catalogue entries map to different content at "@ + p)
                                        } else {
                                            Ok((ps, total))
                                        },
                                        None => Ok((ps.push((p, bytes@)), total + bytes@.len())),
                                    }
                                }
                            },
                        }
                    },
                }
            },
        }
    }
}

/// The first root key (in order) that is not `<source>/<skill|command>`.
pub open spec fn first_bad_key(rs: Seq<CatalogRoot>, k: int) -> Option<Seq<char>>
    decreases rs.len() - k,
{
    if 0 <= k < rs.len() {
        if !crate::sync::is_root_key(rs[k].key@) {
            Some(rs[k].key@)
        } else {
            first_bad_key(rs, k + 1)
        }
    } else {
        None
    }
}

/// A published snapshot and the chunks to store.
#[derive(Clone, Debug)]
pub struct PublishedSnapshot {
    pub manifest: SyncManifest,
    pub chunks: Vec<ChunkPayload>,
}

/// Files in strictly increasing path order.
pub open spec fn files_sorted(fs: Seq<SyncFile>) -> bool {
    forall|i: int, j: int| 0 <= i < j < fs.len() ==> lex_lt(#[trigger] fs[i].path@, #[trigger] fs[j].path@)
}

/// A snapshot published from a catalogue whose bodies are `ps`, chunked by `n` bytes.
pub open spec fn published(s: PublishedSnapshot, c: Catalog, ps: Seq<(Seq<char>, Seq<u8>)>, n: nat) -> bool {
    let m = s.manifest;
    &&& m.schema@ == MANIFEST_SCHEMA@
    &&& m.protocol_min == SYNC_PROTOCOL_VERSION && m.protocol_max == SYNC_PROTOCOL_VERSION
    &&& m.catalog.schema == c.schema
    &&& m.catalog.entries == c.entries
    &&& root_pairs(m.catalog.roots@) == c.roots@.map_values(|r: CatalogRoot| (r.key@, "roots/"@ + r.key@))
    &&& m.catalog.catalog_sha256@ == catalog_digest(m.catalog.roots@, m.catalog.entries@)
    &&& files_sorted(m.files@)
    &&& m.files@.len() == ps.len()
    &&& forall|i: int| 0 <= i < m.files@.len() ==> exists|j: int| 0 <= j < ps.len() && #[trigger] ps[j].0 == (#[trigger] m.files@[i]).path@
        && file_holds(m.files@[i], ps[j].1, n)
    &&& forall|j: int| 0 <= j < ps.len() ==> exists|i: int| 0 <= i < m.files@.len() && (#[trigger] m.files@[i]).path@ == #[trigger] ps[j].0
    &&& m.snapshot_id@ == manifest_digest(m)
    &&& is_snapshot_id(m.snapshot_id@)
    &&& forall|i: int| 0 <= i < m.files@.len() ==> chunk_ids_ok(#[trigger] m.files@[i])
    &&& forall|k: int| 0 <= k < s.chunks@.len() ==> chunk_published(m.files@, ps, n, #[trigger] s.chunks@[k])
    &&& forall|t: int, j: int| 0 <= t < ps.len() && 0 <= j < chunk_pieces(ps[t].1, n).len() ==> #[trigger] piece_stored(
        s.chunks@,
        chunk_pieces(ps[t].1, n)[j],
    )
}

/// Some payload holds these bytes under their digest.
pub open spec fn piece_stored(cs: Seq<ChunkPayload>, b: Seq<u8>) -> bool {
    exists|k: int| 0 <= k < cs.len() && (#[trigger] cs[k]).bytes@ == b && cs[k].sha256@ == digest_hex(b)
}

/// A payload is a chunk of one of the published files.
pub open spec fn chunk_published(fs: Seq<SyncFile>, ps: Seq<(Seq<char>, Seq<u8>)>, n: nat, p: ChunkPayload) -> bool {
    exists|i: int, j: int| 0 <= i < fs.len() && #[trigger] file_piece(fs[i], ps, n, j, p)
}

/// A payload is the `j`-th chunk of a published file.
pub open spec fn file_piece(f: SyncFile, ps: Seq<(Seq<char>, Seq<u8>)>, n: nat, j: int, p: ChunkPayload) -> bool {
    exists|t: int| 0 <= t < ps.len() && ps[t].0 == f.path@ && 0 <= j < chunk_pieces(ps[t].1, n).len() && p.bytes@
        == chunk_pieces(ps[t].1, n)[j] && p.sha256@ == digest_hex(p.bytes@)
}

/// A body to publish under a path.
#[derive(Clone, Debug)]
pub struct PathBody {
    pub path: String,
    pub bytes: Vec<u8>,
}

pub open spec fn body_views(v: Seq<PathBody>) -> Seq<(Seq<char>, Seq<u8>)> {
    v.map_values(|x: PathBody| (x.path@, x.bytes@))
}

/// The total size of the bodies.
pub open spec fn bodies_sum(v: Seq<PathBody>) -> int
    decreases v.len(),
{
    if v.len() == 0 {
        0
    } else {
        bodies_sum(v.drop_last()) + v.last().bytes@.len()
    }
}

proof fn lemma_bodies_sum_insert(v: Seq<PathBody>, q: int, x: PathBody)
    requires
        0 <= q <= v.len(),
    ensures
        bodies_sum(v.insert(q, x)) == bodies_sum(v) + x.bytes@.len(),
    decreases v.len(),
{
    let w = v.insert(q, x);
    if q == v.len() {
        assert(w.drop_last() =~= v);
    } else {
        lemma_bodies_sum_insert(v.drop_last(), q, x);
        assert(w.drop_last() =~= v.drop_last().insert(q, x));
        assert(w.last() == v.last());
    }
}

proof fn lemma_files_bytes(fs: Seq<SyncFile>, acc: Seq<PathBody>, k: int)
    requires
        fs.len() == acc.len(),
        0 <= k <= fs.len(),
        forall|i: int| 0 <= i < fs.len() ==> (#[trigger] fs[i]).bytes == acc[i].bytes@.len(),
    ensures
        files_bytes(fs, k) == bodies_sum(acc.take(k)),
    decreases k,
{
    if k > 0 {
        lemma_files_bytes(fs, acc, k - 1);
        assert(acc.take(k).drop_last() =~= acc.take(k - 1));
    }
}

/// Each path occurs once.
pub open spec fn paths_unique(ps: Seq<(Seq<char>, Seq<u8>)>) -> bool {
    forall|i: int, j: int| 0 <= i < ps.len() && 0 <= j < ps.len() && i != j ==> #[trigger] ps[i].0 != #[trigger] ps[j].0
}

/// Bodies in strictly increasing path order.
pub open spec fn bodies_sorted(v: Seq<PathBody>) -> bool {
    forall|i: int, j: int| 0 <= i < j < v.len() ==> lex_lt(#[trigger] v[i].path@, #[trigger] v[j].path@)
}

proof fn lemma_body_at(ps: Seq<(Seq<char>, Seq<u8>)>, p: Seq<char>)
    requires
        paths_unique(ps),
    ensures
        forall|t: int| 0 <= t < ps.len() && #[trigger] ps[t].0 == p ==> body_at(ps, p) == Some(ps[t].1),
        (forall|t: int| 0 <= t < ps.len() ==> #[trigger] ps[t].0 != p) ==> body_at(ps, p) is None,
    decreases ps.len(),
{
    if ps.len() > 0 {
        let q = ps.drop_last();
        assert(paths_unique(q)) by {
            assert forall|i: int, j: int| 0 <= i < q.len() && 0 <= j < q.len() && i != j implies #[trigger] q[i].0 != #[trigger] q[j].0 by {
                assert(q[i] == ps[i] && q[j] == ps[j]);
            }
        }
        lemma_body_at(q, p);
        assert forall|t: int| 0 <= t < ps.len() && #[trigger] ps[t].0 == p implies body_at(ps, p) == Some(ps[t].1) by {
            if t < ps.len() - 1 {
                assert(q[t] == ps[t]);
                assert(ps.last().0 != p);
            }
        }
        if forall|t: int| 0 <= t < ps.len() ==> #[trigger] ps[t].0 != p {
            assert(ps.last().0 != p);
            assert forall|t: int| 0 <= t < q.len() implies #[trigger] q[t].0 != p by {
                assert(q[t] == ps[t]);
            }
        }
    }
}

/// Inserts a body under a new path at its place in path order.
fn insert_body(v: &mut Vec<PathBody>, x: PathBody)
    requires
        bodies_sorted(old(v)@),
        forall|i: int| 0 <= i < old(v)@.len() ==> (#[trigger] old(v)@[i]).path@ != x.path@,
    ensures
        bodies_sorted(final(v)@),
        exists|p: int| 0 <= p <= old(v)@.len() && final(v)@ == old(v)@.insert(p, x),
{
    let ghost ov = v@;
    let ghost xp = x.path@;
    let mut p: usize = 0;
    while p < v.len() && text_less(v[p].path.as_str(), x.path.as_str())
        invariant
            p <= v@.len(),
            v@ == ov,
            xp == x.path@,
            bodies_sorted(ov),
            forall|i: int| 0 <= i < ov.len() ==> (#[trigger] ov[i]).path@ != xp,
            forall|j: int| 0 <= j < p ==> lex_lt(#[trigger] ov[j].path@, xp),
        decreases v@.len() - p,
    {
        p += 1;
    }
    proof {
        if p < ov.len() {
            crate::text::lemma_lex_total(ov[p as int].path@, xp);
        }
    }
    v.insert(p, x);
    proof {
        assert forall|i: int, j: int| 0 <= i < j < v@.len() implies lex_lt(#[trigger] v@[i].path@, #[trigger] v@[j].path@) by {
            if j < p {
                assert(v@[i] == ov[i] && v@[j] == ov[j]);
            } else if j == p {
                assert(v@[i] == ov[i]);
            } else if i < p {
                assert(v@[i] == ov[i] && v@[j] == ov[j - 1]);
                if j - 1 > p {
                    crate::text::lemma_lex_transitive(xp, ov[p as int].path@, ov[j - 1].path@);
                }
                crate::text::lemma_lex_transitive(ov[i].path@, xp, ov[j - 1].path@);
            } else if i == p {
                assert(v@[j] == ov[j - 1]);
                if j - 1 > p {
                    crate::text::lemma_lex_transitive(xp, ov[p as int].path@, ov[j - 1].path@);
                }
            } else {
                assert(v@[i] == ov[i - 1] && v@[j] == ov[j - 1]);
            }
        }
    }
}

fn same_bytes(a: &Vec<u8>, b: &Vec<u8>) -> (r: bool)
    ensures
        r == (a@ == b@),
{
    if a.len() != b.len() {
        return false;
    }
    let mut i: usize = 0;
    while i < a.len()
        invariant
            a@.len() == b@.len(),
            i <= a@.len(),
            forall|j: int| 0 <= j < i ==> a@[j] == b@[j],
        decreases a@.len() - i,
    {
        if a[i] != b[i] {
            return false;
        }
        i += 1;
    }
    proof {
        assert(a@ =~= b@);
    }
    true
}

proof fn lemma_collect_err(c: Catalog, bodies: Seq<BodyRead>, k: int, n: int)
    requires
        1 <= k <= n,
        collect_bodies(c, bodies, k) is Err,
    ensures
        collect_bodies(c, bodies, n) == collect_bodies(c, bodies, k),
    decreases n - k,
{
    if k < n {
        lemma_collect_err(c, bodies, k, n - 1);
    }
}

/// The bodies to publish, in path order, and their total size.
fn collect(c: &Catalog, bodies: &Vec<BodyRead>) -> (r: Result<(Vec<PathBody>, u128), String>)
    ensures
        match collect_bodies(*c, bodies@, c.entries@.len() as int) {
            Err(x) => r matches Err(y) && y@ == x,
            Ok((ps, total)) => r matches Ok((v, t)) && bodies_sorted(v@) && v@.len() == ps.len() && body_views(v@).to_set()
                == ps.to_set() && t == total && t == bodies_sum(v@),
        },
{
    let mut acc: Vec<PathBody> = Vec::new();
    let mut total: u128 = 0;
    let ghost mut ps: Seq<(Seq<char>, Seq<u8>)> = Seq::empty();
    proof {
        assert(body_views(acc@).to_set() =~= ps.to_set());
    }
    let mut k: usize = 0;
    while k < c.entries.len()
        invariant
            k <= c.entries@.len(),
            collect_bodies(*c, bodies@, k as int) == Ok::<(Seq<(Seq<char>, Seq<u8>)>, int), Seq<char>>((ps, total as int)),
            bodies_sorted(acc@),
            acc@.len() == ps.len(),
            body_views(acc@).to_set() == ps.to_set(),
            paths_unique(ps),
            total <= k * MAX_SYNC_FILE_BYTES,
            total == bodies_sum(acc@),
        decreases c.entries@.len() - k,
    {
        let e = &c.entries[k];
        match entry_location(c, k) {
            Err(m) => {
                proof {
                    lemma_collect_err(*c, bodies@, k + 1, c.entries@.len() as int);
                }
                return Err(m);
            },
            Ok(_) => {},
        }
        if k >= bodies.len() {
            let sel = e.selector();
            proof {
                lemma_collect_err(*c, bodies@, k + 1, c.entries@.len() as int);
            }
            return Err(concat2("sync input was not read: ", sel.as_str()));
        }
        match &bodies[k] {
            BodyRead::Failed(m) => {
                proof {
                    lemma_collect_err(*c, bodies@, k + 1, c.entries@.len() as int);
                }
                return Err(copy_string(m));
            },
            BodyRead::Read { path, bytes } => {
                if bytes.len() as u64 > MAX_SYNC_FILE_BYTES {
                    proof {
                        lemma_collect_err(*c, bodies@, k + 1, c.entries@.len() as int);
                    }
                    return Err(concat2("sync input exceeds 16777216 bytes: ", path.as_str()));
                }
                let digest = sha256(bytes.as_slice());
                if !same_text(digest.as_str(), e.content_sha256.as_str()) {
                    let sel = e.selector();
                    proof {
                        lemma_collect_err(*c, bodies@, k + 1, c.entries@.len() as int);
                    }
                    return Err(concat2("catalogue body changed before sync: ", sel.as_str()));
                }
                let key = root_key(e.source.as_str(), e.kind);
                let mut p = concat2("roots/", key.as_str());
                push_text(&mut p, "/");
                push_text(&mut p, e.relative_path.as_str());
                match portable_path(p.as_str()) {
                    Err(m) => {
                        proof {
                            lemma_collect_err(*c, bodies@, k + 1, c.entries@.len() as int);
                        }
                        return Err(m);
                    },
                    Ok(_) => {},
                }
                proof {
                    lemma_body_at(ps, p@);
                }
                let mut i: usize = 0;
                while i < acc.len() && !same_text(acc[i].path.as_str(), p.as_str())
                    invariant
                        i <= acc@.len(),
                        forall|j: int| 0 <= j < i ==> (#[trigger] acc@[j]).path@ != p@,
                    decreases acc@.len() - i,
                {
                    i += 1;
                }
                if i < acc.len() {
                    proof {
                        assert(body_views(acc@)[i as int] == (acc@[i as int].path@, acc@[i as int].bytes@));
                        assert(ps.to_set().contains(body_views(acc@)[i as int]));
                        let t = choose|t: int| 0 <= t < ps.len() && ps[t] == body_views(acc@)[i as int];
                        assert(ps[t].0 == p@);
                    }
                    if !same_bytes(&acc[i].bytes, bytes) {
                        proof {
                            lemma_collect_err(*c, bodies@, k + 1, c.entries@.len() as int);
                        }
                        return Err(concat2("two catalogue entries map to different content at ", p.as_str()));
                    }
                } else {
                    proof {
                        assert forall|t: int| 0 <= t < ps.len() implies #[trigger] ps[t].0 != p@ by {
                            assert(ps.to_set().contains(ps[t]));
                            assert(body_views(acc@).to_set().contains(ps[t]));
                            let j = choose|j: int| 0 <= j < body_views(acc@).len() && body_views(acc@)[j] == ps[t];
                            assert(acc@[j].path@ == ps[t].0);
                        }
                    }
                    let ghost old_acc = acc@;
                    let item = PathBody { path: copy_string(&p), bytes: crate::index::copy_bytes(bytes) };
                    let ghost iv = (item.path@, item.bytes@);
                    insert_body(&mut acc, item);
                    total = total + bytes.len() as u128;
                    proof {
                        let q = choose|q: int| 0 <= q <= old_acc.len() && acc@ == old_acc.insert(q, item);
                        lemma_bodies_sum_insert(old_acc, q, item);
                        assert(body_views(acc@) =~= body_views(old_acc).insert(q, iv));
                        let old_ps = ps;
                        ps = ps.push(iv);
                        assert(body_views(acc@).to_set() =~= ps.to_set()) by {
                            assert forall|x| body_views(acc@).to_set().contains(x) <==> ps.to_set().contains(x) by {
                                if body_views(acc@).to_set().contains(x) {
                                    let j = choose|j: int| 0 <= j < body_views(acc@).len() && body_views(acc@)[j] == x;
                                    if j < q {
                                        assert(body_views(old_acc)[j] == x);
                                        assert(old_ps.to_set().contains(x));
                                        let t = choose|t: int| 0 <= t < old_ps.len() && old_ps[t] == x;
                                        assert(ps[t] == x);
                                    } else if j > q {
                                        assert(body_views(old_acc)[j - 1] == x);
                                        assert(old_ps.to_set().contains(x));
                                        let t = choose|t: int| 0 <= t < old_ps.len() && old_ps[t] == x;
                                        assert(ps[t] == x);
                                    } else {
                                        assert(ps[ps.len() - 1] == x);
                                    }
                                }
                                if ps.to_set().contains(x) {
                                    let t = choose|t: int| 0 <= t < ps.len() && ps[t] == x;
                                    if t < old_ps.len() {
                                        assert(old_ps[t] == x);
                                        assert(body_views(old_acc).to_set().contains(x));
                                        let j = choose|j: int| 0 <= j < body_views(old_acc).len() && body_views(old_acc)[j] == x;
                                        if j < q {
                                            assert(body_views(acc@)[j] == x);
                                        } else {
                                            assert(body_views(acc@)[j + 1] == x);
                                        }
                                    } else {
                                        assert(body_views(acc@)[q] == x);
                                    }
                                }
                            }
                        }
                        assert(paths_unique(ps)) by {
                            assert forall|a: int, b: int| 0 <= a < ps.len() && 0 <= b < ps.len() && a != b implies #[trigger] ps[a].0 != #[trigger] ps[b].0 by {
                                if a < old_ps.len() && b < old_ps.len() {
                                    assert(ps[a] == old_ps[a] && ps[b] == old_ps[b]);
                                } else if a < old_ps.len() {
                                    assert(ps[a] == old_ps[a]);
                                } else if b < old_ps.len() {
                                    assert(ps[b] == old_ps[b]);
                                }
                            }
                        }
                    }
                }
            },
        }
        k += 1;
    }
    Ok((acc, total))
}

/// A payload is the `j`-th chunk of a body.
pub open spec fn piece_at(b: PathBody, n: nat, j: int, p: ChunkPayload) -> bool {
    0 <= j < chunk_pieces(b.bytes@, n).len() && p.bytes@ == chunk_pieces(b.bytes@, n)[j] && p.sha256@ == digest_hex(p.bytes@)
}

/// A payload is a chunk of one of the bodies.
pub open spec fn payload_of(bs: Seq<PathBody>, n: nat, p: ChunkPayload) -> bool {
    exists|i: int, j: int| 0 <= i < bs.len() && #[trigger] piece_at(bs[i], n, j, p)
}

/// The files of the bodies (in path order) and the payloads of their chunks.
fn build_files(acc: Vec<PathBody>, n: usize) -> (r: (Vec<SyncFile>, Vec<ChunkPayload>))
    requires
        n > 0,
        bodies_sorted(acc@),
    ensures
        r.0@.len() == acc@.len(),
        forall|i: int| 0 <= i < acc@.len() ==> (#[trigger] r.0@[i]).path@ == acc@[i].path@ && file_holds(r.0@[i], acc@[i].bytes@, n as nat),
        forall|i: int| 0 <= i < acc@.len() ==> chunk_ids_ok(#[trigger] r.0@[i]),
        forall|k: int| 0 <= k < r.1@.len() ==> payload_of(acc@, n as nat, #[trigger] r.1@[k]),
        forall|i: int, j: int| 0 <= i < acc@.len() && 0 <= j < chunk_pieces(acc@[i].bytes@, n as nat).len() ==> #[trigger] piece_stored(
            r.1@,
            chunk_pieces(acc@[i].bytes@, n as nat)[j],
        ),
{
    let ghost a0 = acc@;
    let mut files: Vec<SyncFile> = Vec::new();
    let mut payloads: Vec<ChunkPayload> = Vec::new();
    let ghost mut origin: Seq<(int, int)> = Seq::empty();
    let mut i: usize = 0;
    while i < acc.len()
        invariant
            n > 0,
            acc@ == a0,
            i <= a0.len(),
            files@.len() == i,
            forall|t: int| 0 <= t < i ==> (#[trigger] files@[t]).path@ == a0[t].path@ && file_holds(files@[t], a0[t].bytes@, n as nat),
            forall|t: int| 0 <= t < i ==> chunk_ids_ok(#[trigger] files@[t]),
            origin.len() == payloads@.len(),
            forall|k: int| 0 <= k < payloads@.len() ==> 0 <= (#[trigger] origin[k]).0 < a0.len() && 0 <= origin[k].1 < chunk_pieces(
                a0[origin[k].0].bytes@,
                n as nat,
            ).len() && payloads@[k].bytes@ == chunk_pieces(a0[origin[k].0].bytes@, n as nat)[origin[k].1] && payloads@[k].sha256@
                == digest_hex(payloads@[k].bytes@),
            forall|t: int, j: int| 0 <= t < i && 0 <= j < chunk_pieces(a0[t].bytes@, n as nat).len() ==> #[trigger] piece_stored(
                payloads@,
                chunk_pieces(a0[t].bytes@, n as nat)[j],
            ),
        decreases a0.len() - i,
    {
        let (f, ps) = chunk_file(copy_string(&acc[i].path), &acc[i].bytes, n);
        files.push(f);
        let ghost before = payloads@;
        let ghost old_origin = origin;
        let mut ps = ps;
        let ghost pv = ps@;
        payloads.append(&mut ps);
        proof {
            origin = old_origin + Seq::new(pv.len(), |j: int| (i as int, j));
            assert forall|k: int| 0 <= k < payloads@.len() implies 0 <= (#[trigger] origin[k]).0 < a0.len() && 0 <= origin[k].1 < chunk_pieces(
                a0[origin[k].0].bytes@,
                n as nat,
            ).len() && payloads@[k].bytes@ == chunk_pieces(a0[origin[k].0].bytes@, n as nat)[origin[k].1] && payloads@[k].sha256@
                == digest_hex(payloads@[k].bytes@) by {
                if k < before.len() {
                    assert(payloads@[k] == before[k]);
                    assert(origin[k] == old_origin[k]);
                } else {
                    let j = k - before.len();
                    assert(payloads@[k] == pv[j]);
                    assert(origin[k] == (i as int, j));
                }
            }
            assert forall|t: int, j: int| 0 <= t < i + 1 && 0 <= j < chunk_pieces(a0[t].bytes@, n as nat).len() implies #[trigger] piece_stored(
                payloads@,
                chunk_pieces(a0[t].bytes@, n as nat)[j],
            ) by {
                let b = chunk_pieces(a0[t].bytes@, n as nat)[j];
                if t < i {
                    assert(piece_stored(before, b));
                    let k = choose|k: int| 0 <= k < before.len() && (#[trigger] before[k]).bytes@ == b && before[k].sha256@ == digest_hex(b);
                    assert(payloads@[k] == before[k]);
                } else {
                    assert(payloads@[before.len() + j] == pv[j]);
                }
            }
        }
        i += 1;
    }
    proof {
        assert forall|k: int| 0 <= k < payloads@.len() implies payload_of(a0, n as nat, #[trigger] payloads@[k]) by {
            let o = origin[k];
            assert(piece_at(a0[o.0], n as nat, o.1, payloads@[k]));
        }
    }
    (files, payloads)
}

/// What publishing a catalogue gives: refusals in order (the chunk size, the
/// doctor's check, a root key, a body, the number of files, their total
/// size); otherwise the snapshot of the catalogue with its roots moved under
/// `roots/` and its bodies chunked.
pub open spec fn publish_outcome(
    r: SkillleafResult<PublishedSnapshot>,
    c: Catalog,
    n: usize,
    checked: Seq<BodyRead>,
    bodies: Seq<BodyRead>,
) -> bool {
    if !(1 <= n <= MAX_SYNC_CHUNK_BYTES) {
        r matches Err(SkillleafError::Storage(m)) && m@ == "sync chunk size must be between 1 and 4194304 bytes"@
    } else {
        match doctor_failure(c, checked) {
            Some(x) => r matches Err(SkillleafError::Storage(m)) && m@ == "catalog integrity error: "@ + x,
            None => match first_bad_key(c.roots@, 0) {
                Some(k) => r matches Err(SkillleafError::Storage(m)) && m@ == "invalid catalogue root key: "@ + k,
                None => match collect_bodies(c, bodies, c.entries@.len() as int) {
                    Err(x) => r matches Err(SkillleafError::Storage(m)) && m@ == x,
                    Ok((ps, total)) => if ps.len() > MAX_SYNC_FILES {
                        r matches Err(SkillleafError::Storage(m)) && m@ == "sync snapshot exceeds 10000 files"@
                    } else if total > MAX_SYNC_TOTAL_BYTES {
                        r matches Err(SkillleafError::Storage(m)) && m@ == "sync snapshot exceeds 536870912 bytes"@
                    } else {
                        r matches Ok(s) && published(s, c, ps, n as nat) && files_bytes(
                            s.manifest.files@,
                            s.manifest.files@.len() as int,
                        ) == total
                    },
                },
            },
        }
    }
}

/// The roots of a published catalogue: each key under `roots/`.
fn published_roots(rs: &Vec<CatalogRoot>) -> (r: Result<Vec<CatalogRoot>, String>)
    ensures
        match first_bad_key(rs@, 0) {
            Some(k) => r matches Err(m) && m@ == "invalid catalogue root key: "@ + k,
            None => r matches Ok(v) && root_pairs(v@) == rs@.map_values(|x: CatalogRoot| (x.key@, "roots/"@ + x.key@)),
        },
{
    let mut out: Vec<CatalogRoot> = Vec::new();
    let mut i: usize = 0;
    while i < rs.len()
        invariant
            i <= rs@.len(),
            first_bad_key(rs@, i as int) == first_bad_key(rs@, 0),
            root_pairs(out@) == rs@.take(i as int).map_values(|x: CatalogRoot| (x.key@, "roots/"@ + x.key@)),
        decreases rs@.len() - i,
    {
        crate::sync::validate_root_key(rs[i].key.as_str())?;
        let ghost before = out@;
        let r = CatalogRoot { key: copy_string(&rs[i].key), path: concat2("roots/", rs[i].key.as_str()) };
        out.push(r);
        proof {
            assert(root_pairs(out@) =~= root_pairs(before).push((r.key@, r.path@)));
            assert(rs@.take(i + 1).map_values(|x: CatalogRoot| (x.key@, "roots/"@ + x.key@)) =~= rs@.take(i as int).map_values(
                |x: CatalogRoot| (x.key@, "roots/"@ + x.key@),
            ).push((rs@[i as int].key@, "roots/"@ + rs@[i as int].key@)));
        }
        i += 1;
    }
    proof {
        assert(rs@.take(rs@.len() as int) =~= rs@);
    }
    Ok(out)
}

#[verifier::rlimit(60)]
proof fn lemma_published(
    s: PublishedSnapshot,
    c: Catalog,
    ps: Seq<(Seq<char>, Seq<u8>)>,
    acc_v: Seq<PathBody>,
    n: nat,
)
    requires
        n > 0,
        bodies_sorted(acc_v),
        acc_v.len() == ps.len(),
        body_views(acc_v).to_set() == ps.to_set(),
        s.manifest.files@.len() == acc_v.len(),
        forall|i: int| 0 <= i < acc_v.len() ==> (#[trigger] s.manifest.files@[i]).path@ == acc_v[i].path@ && file_holds(s.manifest.files@[i], acc_v[i].bytes@, n),
        forall|k: int| 0 <= k < s.chunks@.len() ==> payload_of(acc_v, n, #[trigger] s.chunks@[k]),
        s.manifest.schema@ == MANIFEST_SCHEMA@,
        s.manifest.protocol_min == SYNC_PROTOCOL_VERSION && s.manifest.protocol_max == SYNC_PROTOCOL_VERSION,
        s.manifest.catalog.schema == c.schema,
        s.manifest.catalog.entries == c.entries,
        root_pairs(s.manifest.catalog.roots@) == c.roots@.map_values(|r: CatalogRoot| (r.key@, "roots/"@ + r.key@)),
        s.manifest.catalog.catalog_sha256@ == catalog_digest(s.manifest.catalog.roots@, s.manifest.catalog.entries@),
        s.manifest.snapshot_id@ == manifest_digest(s.manifest),
        is_snapshot_id(s.manifest.snapshot_id@),
        forall|i: int| 0 <= i < s.manifest.files@.len() ==> chunk_ids_ok(#[trigger] s.manifest.files@[i]),
        forall|i: int, j: int| 0 <= i < acc_v.len() && 0 <= j < chunk_pieces(acc_v[i].bytes@, n).len() ==> #[trigger] piece_stored(
            s.chunks@,
            chunk_pieces(acc_v[i].bytes@, n)[j],
        ),
    ensures
        published(s, c, ps, n),
{
    let fs = s.manifest.files@;
    assert(files_sorted(fs)) by {
        assert forall|i: int, j: int| 0 <= i < j < fs.len() implies lex_lt(#[trigger] fs[i].path@, #[trigger] fs[j].path@) by {
            assert(fs[i].path@ == acc_v[i].path@ && fs[j].path@ == acc_v[j].path@);
        }
    }
    assert forall|i: int| 0 <= i < fs.len() implies exists|j: int| 0 <= j < ps.len() && #[trigger] ps[j].0 == (#[trigger] fs[i]).path@
        && file_holds(fs[i], ps[j].1, n) by {
        assert(body_views(acc_v)[i] == (acc_v[i].path@, acc_v[i].bytes@));
        assert(ps.to_set().contains(body_views(acc_v)[i]));
        let j = choose|j: int| 0 <= j < ps.len() && ps[j] == body_views(acc_v)[i];
        assert(ps[j].0 == fs[i].path@);
    }
    assert forall|j: int| 0 <= j < ps.len() implies exists|i: int| 0 <= i < fs.len() && (#[trigger] fs[i]).path@ == #[trigger] ps[j].0 by {
        assert(body_views(acc_v).to_set().contains(ps[j]));
        let i = choose|i: int| 0 <= i < body_views(acc_v).len() && body_views(acc_v)[i] == ps[j];
        assert(fs[i].path@ == ps[j].0);
    }
    assert forall|k: int| 0 <= k < s.chunks@.len() implies chunk_published(fs, ps, n, #[trigger] s.chunks@[k]) by {
        let (i, j) = choose|i: int, j: int| 0 <= i < acc_v.len() && #[trigger] piece_at(acc_v[i], n, j, s.chunks@[k]);
        assert(body_views(acc_v)[i] == (acc_v[i].path@, acc_v[i].bytes@));
        assert(ps.to_set().contains(body_views(acc_v)[i]));
        let t = choose|t: int| 0 <= t < ps.len() && ps[t] == body_views(acc_v)[i];
        assert(file_piece(fs[i], ps, n, j, s.chunks@[k]));
    }
    assert forall|t: int, j: int| 0 <= t < ps.len() && 0 <= j < chunk_pieces(ps[t].1, n).len() implies #[trigger] piece_stored(
        s.chunks@,
        chunk_pieces(ps[t].1, n)[j],
    ) by {
        assert(ps.to_set().contains(ps[t]));
        let i = choose|i: int| 0 <= i < body_views(acc_v).len() && body_views(acc_v)[i] == ps[t];
        assert(acc_v[i].bytes@ == ps[t].1);
        assert(piece_stored(s.chunks@, chunk_pieces(acc_v[i].bytes@, n)[j]));
    }
}

/// Publishes a catalogue as a snapshot, given the bodies read for the
/// doctor's check of it (as for `doctor`) and the bodies read for its entries
/// (at the locations `entry_location` gives).
#[verifier::rlimit(60)]
pub fn publish_snapshot(catalog: Catalog, chunk_bytes: usize, checked: Vec<BodyRead>, bodies: Vec<BodyRead>) -> (r: SkillleafResult<
    PublishedSnapshot,
>)
    ensures
        publish_outcome(r, catalog, chunk_bytes, checked@, bodies@),
{
    if chunk_bytes < 1 || chunk_bytes > MAX_SYNC_CHUNK_BYTES {
        return Err(SkillleafError::Storage(owned("sync chunk size must be between 1 and 4194304 bytes")));
    }
    match doctor(&catalog, checked) {
        Err(e) => {
            return Err(SkillleafError::Storage(e.message()));
        },
        Ok(()) => {},
    }
    let roots = match published_roots(&catalog.roots) {
        Err(m) => {
            return Err(SkillleafError::Storage(m));
        },
        Ok(v) => v,
    };
    let (acc, total) = match collect(&catalog, &bodies) {
        Err(m) => {
            return Err(SkillleafError::Storage(m));
        },
        Ok(p) => p,
    };
    if acc.len() > MAX_SYNC_FILES {
        return Err(SkillleafError::Storage(owned("sync snapshot exceeds 10000 files")));
    }
    if total > MAX_SYNC_TOTAL_BYTES as u128 {
        return Err(SkillleafError::Storage(owned("sync snapshot exceeds 536870912 bytes")));
    }
    let ghost acc_v = acc@;
    let ghost ps = match collect_bodies(catalog, bodies@, catalog.entries@.len() as int) {
        Ok((ps, _)) => ps,
        Err(_) => Seq::empty(),
    };
    let (files, chunks) = build_files(acc, chunk_bytes);
    let ghost cat0 = catalog;
    let hash = crate::integrity::catalog_hash(&roots, &catalog.entries);
    let published_catalog = Catalog { schema: catalog.schema, catalog_sha256: hash, roots, entries: catalog.entries };
    let mut manifest = SyncManifest {
        schema: owned(MANIFEST_SCHEMA),
        protocol_min: SYNC_PROTOCOL_VERSION,
        protocol_max: SYNC_PROTOCOL_VERSION,
        snapshot_id: String::new(),
        catalog: published_catalog,
        files,
    };
    let id = manifest_hash(&manifest);
    let ghost m0 = manifest;
    manifest.snapshot_id = id;
    let out = PublishedSnapshot { manifest, chunks };
    proof {
        assert(manifest_material(out.manifest) == manifest_material(m0));
        lemma_published(out, cat0, ps, acc_v, chunk_bytes as nat);
        lemma_files_bytes(out.manifest.files@, acc_v, acc_v.len() as int);
        assert(acc_v.take(acc_v.len() as int) =~= acc_v);
    }
    Ok(out)
}

// ---------------------------------------------------------------------------
// Pulling
// ---------------------------------------------------------------------------
/// How a pull treats the remote.
#[derive(Clone, Debug)]
pub struct PullOptions {
    /// The snapshot the remote must currently hold.
    pub expected_snapshot: Option<String>,
    /// Keep the publisher's trust levels without a pin.
    pub trust_remote: bool,
    /// Rebind the last verified local snapshot when the remote cannot be read.
    pub allow_offline_fallback: bool,
}

/// What a domain records of the snapshot it is bound to.
#[derive(Clone, Debug)]
pub struct LocalState {
    pub schema: String,
    pub protocol: u32,
    pub snapshot_id: String,
    pub catalog_path: String,
    pub trusted: bool,
}

/// The receipt of a pull.
#[derive(Clone, Debug)]
pub struct SyncReceipt {
    pub schema: &'static str,
    pub mode: &'static str,
    pub snapshot_id: String,
    pub domain: String,
    pub catalog_path: String,
    pub trusted: bool,
}

/// The freshness of a domain against a remote.
#[derive(Clone, Debug)]
pub struct SyncStatus {
    pub schema: &'static str,
    pub remote_available: bool,
    pub remote_snapshot: Option<String>,
    pub local_snapshot: Option<String>,
    pub local_verified: bool,
    pub update_available: bool,
    pub fallback_ready: bool,
}

/// Checks a pull before the remote is read: a plain domain name, and not both a pin and `--trust-remote`.
pub fn check_pull_request(domain: &str, options: &PullOptions) -> (r: Result<(), String>)
    ensures
        !is_plain_name(domain@) ==> (r matches Err(m) && m@ == crate::domain::domain_name_error(domain@)),
        is_plain_name(domain@) && options.expected_snapshot is Some && options.trust_remote ==> (r matches Err(m) && m@
            == "use either an expected snapshot pin or --trust-remote, not both"@),
        is_plain_name(domain@) && !(options.expected_snapshot is Some && options.trust_remote) ==> r is Ok,
{
    crate::domain::validate_domain_name(domain)?;
    if options.expected_snapshot.is_some() && options.trust_remote {
        return Err(owned("use either an expected snapshot pin or --trust-remote, not both"));
    }
    Ok(())
}

/// What accepting a remote's pointer and manifest gives: the refusal, or
/// whether the snapshot keeps its publisher's trust levels (only when pinned
/// or explicitly trusted).
pub open spec fn remote_outcome(p: SyncPointer, m: SyncManifest, o: PullOptions) -> Result<bool, Seq<char>> {
    match pointer_error(p) {
        Some(x) => Err(x),
        None => match manifest_error(m) {
            Some(x) => Err(x),
            None => if m.snapshot_id@ != p.snapshot_id@ {
                Err("remote pointer and manifest snapshot identifiers differ"@)
            } else {
                match o.expected_snapshot {
                    Some(e) if e@ != m.snapshot_id@ => Err(
                        "remote snapshot does not match the pinned snapshot: expected "@ + e@ + ", found "@ + m.snapshot_id@,
                    ),
                    _ => Ok(o.trust_remote || o.expected_snapshot is Some),
                }
            },
        },
    }
}

/// Accepts a remote's pointer and the manifest it names.
pub fn accept_remote(pointer: &SyncPointer, manifest: &SyncManifest, options: &PullOptions) -> (r: Result<bool, String>)
    ensures
        match remote_outcome(*pointer, *manifest, *options) {
            Ok(t) => r == Ok::<bool, String>(t),
            Err(x) => r matches Err(y) && y@ == x,
        },
{
    validate_pointer(pointer)?;
    validate_manifest(manifest)?;
    if !same_text(manifest.snapshot_id.as_str(), pointer.snapshot_id.as_str()) {
        return Err(owned("remote pointer and manifest snapshot identifiers differ"));
    }
    match &options.expected_snapshot {
        Some(e) => {
            if !same_text(e.as_str(), manifest.snapshot_id.as_str()) {
                let mut m = concat2("remote snapshot does not match the pinned snapshot: expected ", e.as_str());
                push_text(&mut m, ", found ");
                push_text(&mut m, manifest.snapshot_id.as_str());
                return Err(m);
            }
            Ok(true)
        },
        None => Ok(options.trust_remote),
    }
}

/// Checks a chunk read back from the remote against its declaration.
pub fn verify_chunk(chunk: &SyncChunk, bytes: &Vec<u8>) -> (r: Result<(), String>)
    ensures
        r is Ok <==> (bytes@.len() == chunk.bytes && digest_hex(bytes@) == chunk.sha256@),
        r matches Err(m) ==> m@ == "sync chunk failed verification: "@ + chunk.sha256@,
{
    if bytes.len() as u64 != chunk.bytes {
        return Err(concat2("sync chunk failed verification: ", chunk.sha256.as_str()));
    }
    let d = sha256(bytes.as_slice());
    if !same_text(d.as_str(), chunk.sha256.as_str()) {
        return Err(concat2("sync chunk failed verification: ", chunk.sha256.as_str()));
    }
    Ok(())
}

/// Checks a file rebuilt from its chunks against its declaration.
pub fn verify_file(file: &SyncFile, written: &Vec<u8>) -> (r: Result<(), String>)
    ensures
        r is Ok <==> (written@.len() == file.bytes && digest_hex(written@) == file.sha256@),
        r matches Err(m) ==> m@ == "materialized file failed verification: "@ + file.path@,
{
    if written.len() as u64 != file.bytes {
        return Err(concat2("materialized file failed verification: ", file.path.as_str()));
    }
    let d = sha256(written.as_slice());
    if !same_text(d.as_str(), file.sha256.as_str()) {
        return Err(concat2("materialized file failed verification: ", file.path.as_str()));
    }
    Ok(())
}

/// `Path::join` of a directory and a relative path.
pub open spec fn path_join(root: Seq<char>, rel: Seq<char>) -> Seq<char> {
    if root.len() == 0 {
        rel
    } else if root.last() == '/' {
        root + rel
    } else {
        root + "/"@ + rel
    }
}

/// The first root whose directory is not a portable relative path.
pub open spec fn first_unportable(rs: Seq<CatalogRoot>, k: int) -> Option<Seq<char>>
    decreases rs.len() - k,
{
    if 0 <= k < rs.len() {
        if !is_portable(rs[k].path@) {
            Some(rs[k].path@)
        } else {
            first_unportable(rs, k + 1)
        }
    } else {
        None
    }
}

/// The trust of an entry of a pulled catalogue.
pub open spec fn pulled_trust(t: crate::security::TrustLevel, trusted: bool) -> crate::security::TrustLevel {
    if trusted {
        t
    } else {
        crate::security::TrustLevel::Untrusted
    }
}

/// A pulled catalogue: every entry untrusted unless the snapshot is trusted,
/// every root directory below `root`, and the digest recomputed.
pub open spec fn localized(out: Catalog, c: Catalog, trusted: bool, root: Seq<char>) -> bool {
    &&& out.schema == c.schema
    &&& out.entries@.len() == c.entries@.len()
    &&& forall|i: int| 0 <= i < c.entries@.len() ==> (#[trigger] out.entries@[i]) == (CatalogEntry {
        trust: pulled_trust(c.entries@[i].trust, trusted),
        ..c.entries@[i]
    })
    &&& root_pairs(out.roots@) == c.roots@.map_values(|r: CatalogRoot| (r.key@, path_join(root, r.path@)))
    &&& out.catalog_sha256@ == catalog_digest(out.roots@, out.entries@)
}

/// The local catalogue of a pulled snapshot under a directory.
pub fn local_catalog(catalog: Catalog, trusted: bool, root: &str) -> (r: Result<Catalog, String>)
    ensures
        match first_unportable(catalog.roots@, 0) {
            Some(p) => r matches Err(m) && m@ == "sync path must be a non-empty portable relative path: "@ + p,
            None => r matches Ok(c) && localized(c, catalog, trusted, root@),
        },
{
    let ghost c0 = catalog;
    let Catalog { schema, catalog_sha256: _, roots, entries } = catalog;
    let mut new_roots: Vec<CatalogRoot> = Vec::new();
    let rv = crate::text::chars_of(root);
    let mut i: usize = 0;
    while i < roots.len()
        invariant
            i <= roots@.len(),
            c0 == catalog,
            roots@ == c0.roots@,
            rv@ == root@,
            first_unportable(roots@, i as int) == first_unportable(roots@, 0),
            root_pairs(new_roots@) == roots@.take(i as int).map_values(|r: CatalogRoot| (r.key@, path_join(root@, r.path@))),
        decreases roots@.len() - i,
    {
        let safe = match portable_path(roots[i].path.as_str()) {
            Err(m) => {
                proof {
                    assert(first_unportable(roots@, i as int) == Some(roots@[i as int].path@));
                    assert(c0.roots@ == roots@);
                }
                return Err(m);
            },
            Ok(x) => x,
        };
        let mut p = owned(root);
        if rv.len() > 0 && rv[rv.len() - 1] != '/' {
            push_text(&mut p, "/");
        }
        push_text(&mut p, safe.as_str());
        let ghost before = new_roots@;
        let nr = CatalogRoot { key: copy_string(&roots[i].key), path: p };
        new_roots.push(nr);
        proof {
            assert(nr.path@ == path_join(root@, roots@[i as int].path@));
            assert(root_pairs(new_roots@) =~= root_pairs(before).push((nr.key@, nr.path@)));
            assert(roots@.take(i + 1).map_values(|r: CatalogRoot| (r.key@, path_join(root@, r.path@))) =~= roots@.take(i as int).map_values(
                |r: CatalogRoot| (r.key@, path_join(root@, r.path@)),
            ).push((roots@[i as int].key@, path_join(root@, roots@[i as int].path@))));
        }
        i += 1;
    }
    proof {
        assert(roots@.take(roots@.len() as int) =~= roots@);
    }
    let mut entries = entries;
    if !trusted {
        let mut k: usize = 0;
        while k < entries.len()
            invariant
                k <= entries@.len(),
                entries@.len() == c0.entries@.len(),
                forall|j: int| 0 <= j < k ==> (#[trigger] entries@[j]) == (CatalogEntry {
                    trust: crate::security::TrustLevel::Untrusted,
                    ..c0.entries@[j]
                }),
                forall|j: int| k <= j < entries@.len() ==> #[trigger] entries@[j] == c0.entries@[j],
            decreases entries@.len() - k,
        {
            let mut e = entries.remove(k);
            e.trust = crate::security::TrustLevel::Untrusted;
            entries.insert(k, e);
            k += 1;
        }
    }
    let hash = crate::integrity::catalog_hash(&new_roots, &entries);
    Ok(Catalog { schema, catalog_sha256: hash, roots: new_roots, entries })
}

/// Checks what a domain records of its bound snapshot.
pub fn check_local_state(state: &LocalState) -> (r: Result<(), String>)
    ensures
        r is Ok <==> (state.schema@ == LOCAL_STATE_SCHEMA@ && state.protocol == SYNC_PROTOCOL_VERSION),
        r matches Err(m) ==> m@ == "unsupported local sync state"@,
{
    if !same_text(state.schema.as_str(), LOCAL_STATE_SCHEMA) || state.protocol != SYNC_PROTOCOL_VERSION {
        return Err(owned("unsupported local sync state"));
    }
    Ok(())
}

/// Binds a domain to a pulled catalogue, keeping the usage ledger and account
/// it already had (a ledger in the domain's directory otherwise).
pub fn bind_domain(registry: &mut crate::domain::DomainRegistry, domain: String, default_usage: String, catalog_path: String)
    requires
        crate::domain::domains_sorted(old(registry).domains@),
    ensures
        crate::domain::domains_sorted(final(registry).domains@),
        final(registry).schema == old(registry).schema,
        crate::domain::has_name(old(registry).domains@, domain@) ==> exists|i: int| 0 <= i < old(registry).domains@.len()
            && (#[trigger] old(registry).domains@[i]).name@ == domain@ && crate::domain::has_domain(
            final(registry).domains@,
            domain@,
            (
                catalog_path@,
                match old(registry).domains@[i].config.usage_file {
                    Some(u) => Some(u@),
                    None => Some(default_usage@),
                },
                crate::frontmatter::opt_view(old(registry).domains@[i].config.account),
            ),
        ),
        !crate::domain::has_name(old(registry).domains@, domain@) ==> crate::domain::has_domain(
            final(registry).domains@,
            domain@,
            (catalog_path@, Some(default_usage@), None),
        ),
        forall|n: Seq<char>, c: crate::domain::ConfigView| n != domain@ ==> (crate::domain::has_domain(final(registry).domains@, n, c)
            <==> crate::domain::has_domain(old(registry).domains@, n, c)),
{
    let (usage_file, account) = match crate::domain::find_domain(&registry.domains, domain.as_str()) {
        Some(i) => {
            let c = &registry.domains[i].config;
            let u = match &c.usage_file {
                Some(u) => Some(copy_string(u)),
                None => Some(default_usage),
            };
            let a = match &c.account {
                Some(a) => Some(copy_string(a)),
                None => None,
            };
            (u, a)
        },
        None => (Some(default_usage), None),
    };
    crate::domain::set_domain(&mut registry.domains, domain, crate::domain::DomainConfig { catalog: catalog_path, usage_file, account });
}

/// The status of a domain against a remote: the remote's pointer (none when
/// it could not be read; a decode failure otherwise), the domain's local state
/// (likewise) and whether its catalogue passed the doctor's check.
pub fn sync_status(
    domain: &str,
    remote: Option<Result<SyncPointer, String>>,
    local: Option<Result<LocalState, String>>,
    local_verified: bool,
) -> (r: SkillleafResult<SyncStatus>)
    ensures
        !is_plain_name(domain@) ==> (r matches Err(SkillleafError::Integrity(m)) && m@ == crate::domain::domain_name_error(domain@)),
        is_plain_name(domain@) ==> match remote {
            Some(Err(x)) => r matches Err(SkillleafError::Integrity(m)) && m@ == x@,
            Some(Ok(p)) if pointer_error(p) is Some => r matches Err(SkillleafError::Integrity(m)) && m@ == pointer_error(p)->0,
            _ => match local {
                Some(Err(x)) => r matches Err(SkillleafError::Integrity(m)) && m@ == x@,
                Some(Ok(st)) if !(st.schema@ == LOCAL_STATE_SCHEMA@ && st.protocol == SYNC_PROTOCOL_VERSION) => r matches Err(
                    SkillleafError::Integrity(m),
                ) && m@ == "unsupported local sync state"@,
                _ => r matches Ok(s) && s.schema@ == STATUS_SCHEMA@ && s.remote_available == (remote is Some) && opt_id(
                    s.remote_snapshot,
                ) == match remote {
                    Some(Ok(p)) => Some(p.snapshot_id@),
                    _ => None::<Seq<char>>,
                } && opt_id(s.local_snapshot) == match local {
                    Some(Ok(st)) => Some(st.snapshot_id@),
                    _ => None::<Seq<char>>,
                } && s.local_verified == (local is Some && local_verified) && s.fallback_ready == s.local_verified
                    && s.update_available == (s.remote_snapshot is Some && opt_id(s.remote_snapshot) != opt_id(s.local_snapshot)),
            },
        },
{
    match crate::domain::validate_domain_name(domain) {
        Err(m) => {
            return Err(SkillleafError::Integrity(m));
        },
        Ok(()) => {},
    }
    let remote_snapshot = match remote {
        None => None,
        Some(Err(x)) => {
            return Err(SkillleafError::Integrity(x));
        },
        Some(Ok(p)) => {
            match validate_pointer(&p) {
                Err(m) => {
                    return Err(SkillleafError::Integrity(m));
                },
                Ok(()) => {},
            }
            Some(p.snapshot_id)
        },
    };
    let (local_snapshot, verified) = match local {
        None => (None, false),
        Some(Err(x)) => {
            return Err(SkillleafError::Integrity(x));
        },
        Some(Ok(st)) => {
            match check_local_state(&st) {
                Err(m) => {
                    return Err(SkillleafError::Integrity(m));
                },
                Ok(()) => {},
            }
            (Some(st.snapshot_id), local_verified)
        },
    };
    let update_available = match (&remote_snapshot, &local_snapshot) {
        (Some(a), Some(b)) => !same_text(a.as_str(), b.as_str()),
        (Some(_), None) => true,
        (None, _) => false,
    };
    let remote_available = remote_snapshot.is_some();
    Ok(SyncStatus {
        schema: STATUS_SCHEMA,
        remote_available,
        remote_snapshot,
        local_snapshot,
        local_verified: verified,
        update_available,
        fallback_ready: verified,
    })
}

/// An optional identifier as text.
pub open spec fn opt_id(o: Option<String>) -> Option<Seq<char>> {
    match o {
        Some(s) => Some(s@),
        None => None,
    }
}

/// The receipt of a pull from the remote.
pub fn remote_receipt(snapshot_id: String, domain: String, catalog_path: String, trusted: bool) -> (r: SyncReceipt)
    ensures
        r.schema@ == RECEIPT_SCHEMA@,
        r.mode@ == "remote"@,
        r.snapshot_id == snapshot_id,
        r.domain == domain,
        r.catalog_path == catalog_path,
        r.trusted == trusted,
{
    SyncReceipt { schema: RECEIPT_SCHEMA, mode: "remote", snapshot_id, domain, catalog_path, trusted }
}

/// The receipt of a pull that fell back on the last verified local snapshot.
pub fn offline_receipt(state: LocalState, domain: String) -> (r: SyncReceipt)
    ensures
        r.schema@ == RECEIPT_SCHEMA@,
        r.mode@ == "offline_fallback"@,
        r.snapshot_id == state.snapshot_id,
        r.domain == domain,
        r.catalog_path == state.catalog_path,
        r.trusted == state.trusted,
{
    SyncReceipt {
        schema: RECEIPT_SCHEMA,
        mode: "offline_fallback",
        snapshot_id: state.snapshot_id,
        domain,
        catalog_path: state.catalog_path,
        trusted: state.trusted,
    }
}

/// Where a chunk is stored on the remote, relative to it.
pub fn chunk_path(digest: &str) -> (r: String)
    requires
        is_snapshot_id(digest@),
    ensures
        r@ == "chunks/"@ + digest@.take(2) + "/"@ + digest@ + ".chunk"@,
{
    let v = crate::text::chars_of(digest);
    let prefix = crate::text::slice_chars(v.as_slice(), 0, 2);
    let mut p = owned("chunks/");
    crate::text::push_chars(&mut p, prefix.as_slice());
    push_text(&mut p, "/");
    push_text(&mut p, digest);
    push_text(&mut p, ".chunk");
    proof {
        assert(prefix@ =~= digest@.take(2));
    }
    p
}


/// The directory name of a pulled generation: its snapshot and whether it kept the publisher's trust.
pub fn generation_name(snapshot_id: &str, trusted: bool) -> (r: String)
    ensures
        r@ == snapshot_id@ + (if trusted {
            "-trusted"@
        } else {
            "-untrusted"@
        }),
{
    if trusted {
        concat2(snapshot_id, "-trusted")
    } else {
        concat2(snapshot_id, "-untrusted")
    }
}

/// The pointer that makes a manifest a remote's current snapshot.
pub open spec fn points_to(p: SyncPointer, m: SyncManifest) -> bool {
    &&& p.schema@ == POINTER_SCHEMA@
    &&& p.protocol_min == SYNC_PROTOCOL_VERSION && p.protocol_max == SYNC_PROTOCOL_VERSION
    &&& p.snapshot_id@ == m.snapshot_id@
}

/// The pointer to publish once a snapshot is stored in full.
pub fn current_pointer(m: &SyncManifest) -> (p: SyncPointer)
    ensures
        points_to(p, *m),
{
    SyncPointer {
        schema: owned(POINTER_SCHEMA),
        protocol_min: SYNC_PROTOCOL_VERSION,
        protocol_max: SYNC_PROTOCOL_VERSION,
        snapshot_id: copy_string(&m.snapshot_id),
    }
}

// ---------------------------------------------------------------------------
// What is published is accepted
// ---------------------------------------------------------------------------
proof fn lemma_collect_facts(c: Catalog, bodies: Seq<BodyRead>, k: int)
    requires
        collect_bodies(c, bodies, k) is Ok,
    ensures
        ({
            let ps = collect_bodies(c, bodies, k)->Ok_0.0;
            forall|t: int| 0 <= t < ps.len() ==> is_portable(#[trigger] ps[t].0) && ps[t].1.len() <= MAX_SYNC_FILE_BYTES
        }),
    decreases k,
{
    if k > 0 {
        let prev = collect_bodies(c, bodies, k - 1);
        assert(prev is Ok);
        lemma_collect_facts(c, bodies, k - 1);
        let pv = prev->Ok_0.0;
        let cur = collect_bodies(c, bodies, k)->Ok_0.0;
        if cur.len() != pv.len() {
            let e = c.entries@[k - 1];
            let b = bodies[k - 1];
            assert(b is Read);
            let p = snapshot_path(c, k - 1);
            assert(cur == pv.push((p, b->bytes@)));
            assert forall|t: int| 0 <= t < cur.len() implies is_portable(#[trigger] cur[t].0) && cur[t].1.len()
                <= MAX_SYNC_FILE_BYTES by {
                if t < pv.len() {
                    assert(cur[t] == pv[t]);
                }
            }
        } else {
            assert(cur == pv);
        }
    }
}

proof fn lemma_joined_last(ps: Seq<Seq<u8>>)
    requires
        ps.len() > 0,
    ensures
        joined(ps) == joined(ps.drop_last()) + ps.last(),
    decreases ps.len(),
{
    if ps.len() == 1 {
        assert(ps.drop_first().len() == 0);
        assert(ps.drop_last().len() == 0);
        assert(joined(ps.drop_first()) == Seq::<u8>::empty());
        assert(joined(ps.drop_last()) == Seq::<u8>::empty());
        assert(joined(ps) == ps[0] + joined(ps.drop_first()));
        assert(joined(ps) =~= joined(ps.drop_last()) + ps.last());
    } else {
        let d = ps.drop_first();
        lemma_joined_last(d);
        assert(d.drop_last() =~= ps.drop_last().drop_first());
        assert(joined(ps) =~= joined(ps.drop_last()) + ps.last());
    }
}

proof fn lemma_chunk_sum(cs: Seq<SyncChunk>, ps: Seq<Seq<u8>>, n: nat)
    requires
        chunk_views(cs) == ps.map_values(|p: Seq<u8>| chunk_entry(p)),
        n <= MAX_SYNC_CHUNK_BYTES,
        forall|i: int| 0 <= i < ps.len() ==> 0 < (#[trigger] ps[i]).len() <= n,
    ensures
        chunk_sum(cs) == joined(ps).len(),
        forall|j: int| 0 <= j < cs.len() ==> 0 < (#[trigger] cs[j]).bytes <= n,
    decreases cs.len(),
{
    assert(cs.len() == ps.len()) by {
        assert(chunk_views(cs).len() == cs.len());
    }
    assert forall|j: int| 0 <= j < cs.len() implies 0 < (#[trigger] cs[j]).bytes <= n by {
        assert(chunk_views(cs)[j] == (cs[j].sha256@, cs[j].bytes));
        assert(ps[j].len() <= n);
    }
    if cs.len() > 0 {
        let k = cs.len() - 1;
        assert(chunk_views(cs.drop_last()) =~= ps.drop_last().map_values(|p: Seq<u8>| chunk_entry(p))) by {
            assert forall|j: int| 0 <= j < k implies chunk_views(cs.drop_last())[j] == ps.drop_last().map_values(
                |p: Seq<u8>| chunk_entry(p),
            )[j] by {
                assert(chunk_views(cs)[j] == chunk_views(cs.drop_last())[j]);
            }
        }
        lemma_chunk_sum(cs.drop_last(), ps.drop_last(), n);
        lemma_joined_last(ps);
        assert(chunk_views(cs)[k] == (cs[k].sha256@, cs[k].bytes));
    } else {
        assert(ps.len() == 0);
        assert(joined(ps).len() == 0);
    }
}

proof fn lemma_chunks_ok(path: Seq<char>, cs: Seq<SyncChunk>, j: int)
    requires
        0 <= j <= cs.len(),
        forall|i: int| 0 <= i < cs.len() ==> chunk_problem(path, #[trigger] cs[i]) is None,
    ensures
        chunks_problem(path, cs, j) is None,
    decreases cs.len() - j,
{
    if j < cs.len() {
        lemma_chunks_ok(path, cs, j + 1);
    }
}

proof fn lemma_files_ok(fs: Seq<SyncFile>, k: int)
    requires
        0 <= k <= fs.len(),
        forall|i: int| 0 <= i < fs.len() ==> #[trigger] file_problem(fs, i) is None,
    ensures
        files_problem(fs, k) is None,
    decreases fs.len() - k,
{
    if k < fs.len() {
        lemma_files_ok(fs, k + 1);
    }
}

/// A snapshot that publishing produces passes every check that a pull makes
/// of a remote: its manifest is well formed (identifier, files, chunks and
/// sizes), its current pointer names it, a pull pinned to its identifier
/// accepts it and keeps the publisher's trust levels, and every chunk it
/// declares has a payload that passes that chunk's check.
pub proof fn lemma_published_snapshot_accepted(
    s: PublishedSnapshot,
    c: Catalog,
    n: usize,
    checked: Seq<BodyRead>,
    bodies: Seq<BodyRead>,
    pointer: SyncPointer,
    options: PullOptions,
)
    requires
        publish_outcome(Ok(s), c, n, checked, bodies),
        points_to(pointer, s.manifest),
        options.expected_snapshot matches Some(e) && e@ == s.manifest.snapshot_id@,
    ensures
        manifest_error(s.manifest) is None,
        remote_outcome(pointer, s.manifest, options) == Ok::<bool, Seq<char>>(true),
        forall|i: int, j: int|
            0 <= i < s.manifest.files@.len() && 0 <= j < s.manifest.files@[i].chunks@.len() ==> #[trigger] chunk_payload_present(
                s.chunks@,
                s.manifest.files@[i].chunks@[j],
            ),
{
    let m = s.manifest;
    let fs = m.files@;
    let k = c.entries@.len() as int;
    let ps = collect_bodies(c, bodies, k)->Ok_0.0;
    lemma_collect_facts(c, bodies, k);
    assert forall|i: int| 0 <= i < fs.len() implies #[trigger] file_problem(fs, i) is None by {
        let j = choose|j: int| 0 <= j < ps.len() && #[trigger] ps[j].0 == fs[i].path@ && file_holds(fs[i], ps[j].1, n as nat);
        lemma_published_file_ok(fs, i, ps[j], n as nat);
    }
    lemma_files_ok(fs, 0);
    assert forall|i: int, j: int| 0 <= i < fs.len() && 0 <= j < fs[i].chunks@.len() implies #[trigger] chunk_payload_present(
        s.chunks@,
        fs[i].chunks@[j],
    ) by {
        let t = choose|t: int| 0 <= t < ps.len() && #[trigger] ps[t].0 == fs[i].path@ && file_holds(fs[i], ps[t].1, n as nat);
        lemma_chunk_payload(fs[i], ps[t].1, n as nat, s.chunks@, j);
    }
}

proof fn lemma_chunk_payload(f: SyncFile, b: Seq<u8>, n: nat, cs: Seq<ChunkPayload>, j: int)
    requires
        1 <= n <= MAX_SYNC_CHUNK_BYTES,
        file_holds(f, b, n),
        0 <= j < f.chunks@.len(),
        forall|jj: int| 0 <= jj < chunk_pieces(b, n).len() ==> #[trigger] piece_stored(cs, chunk_pieces(b, n)[jj]),
    ensures
        chunk_payload_present(cs, f.chunks@[j]),
{
    let pieces = chunk_pieces(b, n);
    lemma_chunks_rejoin(b, n);
    assert(chunk_views(f.chunks@).len() == f.chunks@.len());
    assert(pieces.map_values(|p: Seq<u8>| chunk_entry(p)).len() == pieces.len());
    assert(chunk_views(f.chunks@)[j] == (f.chunks@[j].sha256@, f.chunks@[j].bytes));
    assert(pieces.map_values(|p: Seq<u8>| chunk_entry(p))[j] == chunk_entry(pieces[j]));
    assert(piece_stored(cs, pieces[j]));
}

/// A payload that passes the check of a declared chunk: its digest and length.
pub open spec fn chunk_payload_present(cs: Seq<ChunkPayload>, c: SyncChunk) -> bool {
    exists|k: int|
        0 <= k < cs.len() && (#[trigger] cs[k]).sha256@ == c.sha256@ && cs[k].bytes@.len() == c.bytes && digest_hex(cs[k].bytes@)
            == c.sha256@
}

proof fn lemma_published_file_ok(fs: Seq<SyncFile>, i: int, pb: (Seq<char>, Seq<u8>), n: nat)
    requires
        0 <= i < fs.len(),
        files_sorted(fs),
        chunk_ids_ok(fs[i]),
        1 <= n <= MAX_SYNC_CHUNK_BYTES,
        pb.0 == fs[i].path@,
        file_holds(fs[i], pb.1, n),
        is_portable(pb.0),
        pb.1.len() <= MAX_SYNC_FILE_BYTES,
    ensures
        file_problem(fs, i) is None,
{
    let f = fs[i];
    let b = pb.1;
    assert forall|t: int| 0 <= t < i implies (#[trigger] fs[t]).path@ != f.path@ by {
        crate::text::lemma_lex_irreflexive(f.path@);
    }
    lemma_chunks_rejoin(b, n);
    lemma_chunk_sum(f.chunks@, chunk_pieces(b, n), n);
    assert forall|t: int| 0 <= t < f.chunks@.len() implies chunk_problem(f.path@, #[trigger] f.chunks@[t]) is None by {
        assert(is_snapshot_id(f.chunks@[t].sha256@));
    }
    lemma_chunks_ok(f.path@, f.chunks@, 0);
}

/// A pull that is neither pinned nor told to trust the remote keeps none of
/// the publisher's trust: every entry of the catalogue it binds is untrusted.
pub proof fn lemma_unpinned_pull_is_untrusted(
    pointer: SyncPointer,
    manifest: SyncManifest,
    options: PullOptions,
    local: Catalog,
    root: Seq<char>,
)
    requires
        options.expected_snapshot is None,
        !options.trust_remote,
        remote_outcome(pointer, manifest, options) is Ok,
        localized(local, manifest.catalog, remote_outcome(pointer, manifest, options)->Ok_0, root),
    ensures
        remote_outcome(pointer, manifest, options) == Ok::<bool, Seq<char>>(false),
        forall|i: int| 0 <= i < local.entries@.len() ==> (#[trigger] local.entries@[i]).trust == crate::security::TrustLevel::Untrusted,
{
    assert forall|i: int| 0 <= i < local.entries@.len() implies (#[trigger] local.entries@[i]).trust
        == crate::security::TrustLevel::Untrusted by {
        assert(local.entries@[i] == (CatalogEntry {
            trust: pulled_trust(manifest.catalog.entries@[i].trust, false),
            ..manifest.catalog.entries@[i]
        }));
    }
}

} // verus!
