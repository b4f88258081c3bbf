//! The shared-snapshot format: protocol negotiation, portable paths,
//! identifiers, pointers and manifests.
use vstd::prelude::*;

use crate::text::{chars_of, contains_char, is_control, is_control_char, is_hex, is_hex_char, is_plain_name, owned, same_chars, string_of};

verus! {

/// The one protocol version this library speaks.
pub const SYNC_PROTOCOL_VERSION: u32 = 1;

/// The default size of one chunk of a published file.
pub const DEFAULT_SYNC_CHUNK_BYTES: usize = 262144;

/// The largest chunk a manifest may declare.
pub const MAX_SYNC_CHUNK_BYTES: usize = 4194304;

/// The largest file a snapshot may hold.
pub const MAX_SYNC_FILE_BYTES: u64 = 16777216;

/// The largest total size of a snapshot.
pub const MAX_SYNC_TOTAL_BYTES: u64 = 536870912;

/// The most files a snapshot may hold.
pub const MAX_SYNC_FILES: usize = 10000;

// ---------------------------------------------------------------------------
// Protocol negotiation
// ---------------------------------------------------------------------------
/// The refusal of a peer's protocol range.
pub open spec fn protocol_error(minimum: u32, maximum: u32) -> Seq<char> {
    let range = crate::json::decimal(minimum as nat) + "..="@ + crate::json::decimal(maximum as nat);
    if minimum > maximum {
        "invalid sync protocol range "@ + range
    } else {
        "incompatible sync protocol "@ + range + "; this client supports "@ + crate::json::decimal(SYNC_PROTOCOL_VERSION as nat)
    }
}

/// Agrees on a protocol version with a peer that supports `minimum..=maximum`:
/// this client's version when the range holds it.
pub fn negotiate_protocol(minimum: u32, maximum: u32) -> (r: Result<u32, String>)
    ensures
        r is Ok <==> minimum <= SYNC_PROTOCOL_VERSION <= maximum,
        r matches Ok(v) ==> v == SYNC_PROTOCOL_VERSION,
        r matches Err(m) ==> m@ == protocol_error(minimum, maximum),
{
    if minimum > maximum || minimum > SYNC_PROTOCOL_VERSION || maximum < SYNC_PROTOCOL_VERSION {
        let mut m = if minimum > maximum {
            owned("invalid sync protocol range ")
        } else {
            owned("incompatible sync protocol ")
        };
        crate::json::push_decimal(&mut m, minimum as u64);
        crate::text::push_text(&mut m, "..=");
        crate::json::push_decimal(&mut m, maximum as u64);
        if minimum <= maximum {
            crate::text::push_text(&mut m, "; this client supports ");
            crate::json::push_decimal(&mut m, SYNC_PROTOCOL_VERSION as u64);
        }
        return Err(m);
    }
    Ok(SYNC_PROTOCOL_VERSION)
}

// ---------------------------------------------------------------------------
// Portable paths
// ---------------------------------------------------------------------------
/// The first index at or after `i` that holds `/`.
pub open spec fn next_slash(s: Seq<char>, i: int) -> int
    decreases s.len() - i,
{
    if 0 <= i < s.len() && s[i] != '/' {
        next_slash(s, i + 1)
    } else {
        i
    }
}

pub proof fn lemma_next_slash(s: Seq<char>, i: int)
    requires
        0 <= i <= s.len(),
    ensures
        i <= next_slash(s, i) <= s.len(),
        forall|j: int| i <= j < next_slash(s, i) ==> s[j] != '/',
        next_slash(s, i) < s.len() ==> s[next_slash(s, i)] == '/',
    decreases s.len() - i,
{
    if i < s.len() && s[i] != '/' {
        lemma_next_slash(s, i + 1);
    }
}

/// The `/`-separated segments of `s` from index `i` on, as `str::split('/')` gives them.
pub open spec fn segments_from(s: Seq<char>, i: int) -> Seq<Seq<char>>
    decreases s.len() - i,
{
    if 0 <= i <= s.len() {
        let j = next_slash(s, i);
        if i <= j < s.len() {
            seq![s.subrange(i, j)] + segments_from(s, j + 1)
        } else {
            seq![s.subrange(i, s.len() as int)]
        }
    } else {
        Seq::empty()
    }
}

/// The `/`-separated segments of `s`.
pub open spec fn segments(s: Seq<char>) -> Seq<Seq<char>> {
    segments_from(s, 0)
}

/// A segment of a portable path: not empty, not `.` or `..`, without `:` or control characters.
pub open spec fn portable_segment(seg: Seq<char>) -> bool {
    &&& seg.len() > 0
    &&& seg != "."@
    &&& seg != ".."@
    &&& !seg.contains(':')
    &&& forall|k: int| 0 <= k < seg.len() ==> !is_control(#[trigger] seg[k])
}

/// A non-empty relative path of portable segments separated by `/`, without `\`.
pub open spec fn is_portable(s: Seq<char>) -> bool {
    &&& s.len() > 0
    &&& !s.contains('\\')
    &&& forall|k: int| 0 <= k < segments(s).len() ==> portable_segment(#[trigger] segments(s)[k])
}

fn segment_ok(v: &[char], a: usize, b: usize) -> (r: bool)
    requires
        a <= b <= v.len(),
    ensures
        r == portable_segment(v@.subrange(a as int, b as int)),
{
    let seg = crate::text::slice_chars(v, a, b);
    if seg.len() == 0 {
        return false;
    }
    let dot = chars_of(".");
    let dots = chars_of("..");
    if same_chars(seg.as_slice(), dot.as_slice()) || same_chars(seg.as_slice(), dots.as_slice()) {
        return false;
    }
    if contains_char(seg.as_slice(), ':') {
        return false;
    }
    let mut k: usize = 0;
    while k < seg.len()
        invariant
            k <= seg.len(),
            a <= b <= v.len(),
            seg@ == v@.subrange(a as int, b as int),
            forall|j: int| 0 <= j < k ==> !is_control(#[trigger] seg@[j]),
        decreases seg.len() - k,
    {
        if is_control_char(seg[k]) {
            proof {
                assert(is_control(v@.subrange(a as int, b as int)[k as int]));
            }
            return false;
        }
        k += 1;
    }
    true
}

/// Checks that a path is portable and relative; the accepted path is returned unchanged.
pub fn portable_path(value: &str) -> (r: Result<String, String>)
    ensures
        r is Ok <==> is_portable(value@),
        r matches Ok(p) ==> p@ == value@,
        r matches Err(m) ==> m@ == "sync path must be a non-empty portable relative path: "@ + value@,
{
    let v = chars_of(value);
    let bad = crate::text::concat2("sync path must be a non-empty portable relative path: ", value);
    if v.len() == 0 || contains_char(v.as_slice(), '\\') {
        return Err(bad);
    }
    let ghost s = v@;
    let mut i: usize = 0;
    loop
        invariant
            s == v@,
            s == value@,
            s.len() > 0,
            !s.contains('\\'),
            i <= s.len(),
            (forall|k: int| 0 <= k < segments(s).len() ==> portable_segment(#[trigger] segments(s)[k]))
                <==> (forall|k: int| 0 <= k < segments_from(s, i as int).len() ==> portable_segment(
                #[trigger] segments_from(s, i as int)[k],
            )),
            bad@ == "sync path must be a non-empty portable relative path: "@ + value@,
        decreases s.len() - i,
    {
        let mut j = i;
        while j < v.len() && v[j] != '/'
            invariant
                i <= j <= v.len(),
                next_slash(v@, j as int) == next_slash(v@, i as int),
            decreases v.len() - j,
        {
            j += 1;
        }
        proof {
            lemma_next_slash(s, i as int);
        }
        let ok = segment_ok(v.as_slice(), i, j);
        let ghost seg = s.subrange(i as int, j as int);
        if j == v.len() {
            proof {
                assert(segments_from(s, i as int) == seq![seg]);
            }
            if ok {
                return Ok(owned(value));
            } else {
                proof {
                    assert(!portable_segment(segments_from(s, i as int)[0]));
                }
                return Err(bad);
            }
        }
        proof {
            let rest = segments_from(s, j + 1);
            assert(segments_from(s, i as int) == seq![seg] + rest);
            assert((forall|k: int| 0 <= k < (seq![seg] + rest).len() ==> portable_segment(#[trigger] (seq![seg] + rest)[k]))
                <==> portable_segment(seg) && (forall|k: int| 0 <= k < rest.len() ==> portable_segment(#[trigger] rest[k]))) by {
                if portable_segment(seg) && (forall|k: int| 0 <= k < rest.len() ==> portable_segment(#[trigger] rest[k])) {
                    assert forall|k: int| 0 <= k < (seq![seg] + rest).len() implies portable_segment(#[trigger] (seq![seg] + rest)[k]) by {
                        if k > 0 {
                            assert((seq![seg] + rest)[k] == rest[k - 1]);
                        }
                    }
                }
                if forall|k: int| 0 <= k < (seq![seg] + rest).len() ==> portable_segment(#[trigger] (seq![seg] + rest)[k]) {
                    assert(portable_segment((seq![seg] + rest)[0]));
                    assert forall|k: int| 0 <= k < rest.len() implies portable_segment(#[trigger] rest[k]) by {
                        assert((seq![seg] + rest)[k + 1] == rest[k]);
                    }
                }
            }
        }
        if !ok {
            return Err(bad);
        }
        i = j + 1;
    }
}

// ---------------------------------------------------------------------------
// Identifiers
// ---------------------------------------------------------------------------
/// A catalogue root key `<source>/<skill|command>`.
pub open spec fn is_root_key(key: Seq<char>) -> bool {
    exists|i: int|
        0 <= i < key.len() && #[trigger] key[i] == '/' && !key.take(i).contains('/') && is_plain_name(key.take(i))
            && (key.skip(i + 1) == "skill"@ || key.skip(i + 1) == "command"@)
}

/// Checks that a text is a catalogue root key.
pub fn validate_root_key(key: &str) -> (r: Result<(), String>)
    ensures
        r is Ok <==> is_root_key(key@),
        r matches Err(m) ==> m@ == "invalid catalogue root key: "@ + key@,
{
    let v = chars_of(key);
    let bad = crate::text::concat2("invalid catalogue root key: ", key);
    let mut i: usize = 0;
    while i < v.len() && v[i] != '/'
        invariant
            i <= v.len(),
            forall|j: int| 0 <= j < i ==> v@[j] != '/',
        decreases v.len() - i,
    {
        i += 1;
    }
    if i == v.len() {
        proof {
            assert forall|k: int| 0 <= k < v@.len() implies #[trigger] v@[k] != '/' by {}
        }
        return Err(bad);
    }
    proof {
        assert(!v@.take(i as int).contains('/')) by {
            assert forall|k: int| 0 <= k < i implies v@.take(i as int)[k] != '/' by {}
        }
    }
    let source = crate::text::slice_chars(v.as_slice(), 0, i);
    let kind = crate::text::slice_chars(v.as_slice(), i + 1, v.len());
    let source_text = string_of(source.as_slice());
    let skill = chars_of("skill");
    let command = chars_of("command");
    proof {
        assert(source@ == v@.take(i as int));
        assert(kind@ == v@.skip(i + 1));
    }
    let ok = crate::text::is_plain_name_text(source_text.as_str()) && (same_chars(kind.as_slice(), skill.as_slice())
        || same_chars(kind.as_slice(), command.as_slice()));
    proof {
        if !ok {
            assert forall|k: int|
                0 <= k < v@.len() && #[trigger] v@[k] == '/' && !v@.take(k).contains('/') implies !(is_plain_name(v@.take(k))
                    && (v@.skip(k + 1) == "skill"@ || v@.skip(k + 1) == "command"@)) by {
                if k < i {
                } else if k > i {
                    assert(v@.take(k)[i as int] == '/');
                }
            }
        }
    }
    if ok {
        Ok(())
    } else {
        Err(bad)
    }
}

/// A snapshot or chunk identifier: 64 hexadecimal digits.
pub open spec fn is_snapshot_id(value: Seq<char>) -> bool {
    value.len() == 64 && forall|i: int| 0 <= i < value.len() ==> is_hex(#[trigger] value[i])
}

/// Checks that a text is a snapshot or chunk identifier.
pub fn validate_snapshot_id(value: &str) -> (r: Result<(), String>)
    ensures
        r is Ok <==> is_snapshot_id(value@),
        r matches Err(m) ==> m@ == "invalid snapshot or chunk identifier"@,
{
    let v = chars_of(value);
    if v.len() != 64 {
        return Err(owned("invalid snapshot or chunk identifier"));
    }
    let mut i: usize = 0;
    while i < v.len()
        invariant
            i <= v.len(),
            v@ == value@,
            forall|j: int| 0 <= j < i ==> is_hex(#[trigger] v@[j]),
        decreases v.len() - i,
    {
        if !is_hex_char(v[i]) {
            proof {
                assert(!is_hex(value@[i as int]));
            }
            return Err(owned("invalid snapshot or chunk identifier"));
        }
        i += 1;
    }
    Ok(())
}

} // verus!
