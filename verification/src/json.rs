//! Compact JSON text, written exactly as `serde_json::to_vec` writes it:
//! the framing over which catalogue, manifest and plan digests are taken.
use vstd::prelude::*;

use crate::digest::{hex_digit, hex_digit_char};
use crate::strset::views;
use crate::text::{chars_of, push_char, push_text};

verus! {

/// The JSON escape of one character.
pub open spec fn esc(c: char) -> Seq<char> {
    if c == '"' {
        seq!['\\', '"']
    } else if c == '\\' {
        seq!['\\', '\\']
    } else if c == '\u{8}' {
        seq!['\\', 'b']
    } else if c == '\t' {
        seq!['\\', 't']
    } else if c == '\n' {
        seq!['\\', 'n']
    } else if c == '\u{c}' {
        seq!['\\', 'f']
    } else if c == '\r' {
        seq!['\\', 'r']
    } else if '\u{1f}' >= c {
        seq!['\\', 'u', '0', '0', hex_digit((c as u32) as int / 16), hex_digit((c as u32) as int % 16)]
    } else {
        seq![c]
    }
}

/// The JSON escape of a text.
pub open spec fn escaped(s: Seq<char>) -> Seq<char>
    decreases s.len(),
{
    if s.len() == 0 {
        Seq::empty()
    } else {
        escaped(s.drop_last()) + esc(s.last())
    }
}

/// A JSON string literal.
pub open spec fn json_str(s: Seq<char>) -> Seq<char> {
    seq!['"'] + escaped(s) + seq!['"']
}

/// The decimal digit of a number below 10.
pub open spec fn digit(n: int) -> char {
    (48 + n) as char
}

/// A natural number in decimal.
pub open spec fn decimal(n: nat) -> Seq<char>
    decreases n,
{
    if n < 10 {
        seq![digit(n as int)]
    } else {
        decimal(n / 10).push(digit((n % 10) as int))
    }
}

/// Items separated by commas.
pub open spec fn join_comma(items: Seq<Seq<char>>) -> Seq<char>
    decreases items.len(),
{
    if items.len() == 0 {
        Seq::empty()
    } else if items.len() == 1 {
        items[0]
    } else {
        join_comma(items.drop_last()) + seq![','] + items.last()
    }
}

/// A JSON array of encoded items.
pub open spec fn json_array(items: Seq<Seq<char>>) -> Seq<char> {
    seq!['['] + join_comma(items) + seq![']']
}

/// A JSON array of strings.
pub open spec fn json_strs(v: Seq<Seq<char>>) -> Seq<char> {
    json_array(v.map_values(|s: Seq<char>| json_str(s)))
}

/// Appends the JSON escape of one character.
pub fn push_escaped_char(out: &mut String, c: char)
    ensures
        final(out)@ == old(out)@ + esc(c),
{
    let ghost start = out@;
    if c == '"' {
        push_char(out, '\\');
        push_char(out, '"');
    } else if c == '\\' {
        push_char(out, '\\');
        push_char(out, '\\');
    } else if c == '\u{8}' {
        push_char(out, '\\');
        push_char(out, 'b');
    } else if c == '\t' {
        push_char(out, '\\');
        push_char(out, 't');
    } else if c == '\n' {
        push_char(out, '\\');
        push_char(out, 'n');
    } else if c == '\u{c}' {
        push_char(out, '\\');
        push_char(out, 'f');
    } else if c == '\r' {
        push_char(out, '\\');
        push_char(out, 'r');
    } else if '\u{1f}' >= c {
        let u: u32 = c as u32;
        let b: u8 = u as u8;
        push_char(out, '\\');
        push_char(out, 'u');
        push_char(out, '0');
        push_char(out, '0');
        push_char(out, hex_digit_char(b / 16));
        push_char(out, hex_digit_char(b % 16));
    } else {
        push_char(out, c);
    }
    proof {
        assert(out@ =~= start + esc(c));
    }
}

/// Appends a JSON string literal.
pub fn push_json_str(out: &mut String, s: &str)
    ensures
        final(out)@ == old(out)@ + json_str(s@),
{
    let ghost start = out@;
    let v = chars_of(s);
    push_char(out, '"');
    let mut i: usize = 0;
    while i < v.len()
        invariant
            i <= v.len(),
            out@ == start + seq!['"'] + escaped(v@.take(i as int)),
        decreases v.len() - i,
    {
        push_escaped_char(out, v[i]);
        proof {
            assert(v@.take(i + 1).drop_last() =~= v@.take(i as int));
            assert(v@.take(i + 1).last() == v@[i as int]);
            assert(out@ =~= start + seq!['"'] + escaped(v@.take(i + 1)));
        }
        i += 1;
    }
    push_char(out, '"');
    proof {
        assert(v@.take(v.len() as int) =~= v@);
        assert(out@ =~= start + json_str(s@));
    }
}

/// Appends a number in decimal.
pub fn push_decimal(out: &mut String, n: u64)
    ensures
        final(out)@ == old(out)@ + decimal(n as nat),
    decreases n,
{
    let ghost start = out@;
    if n >= 10 {
        push_decimal(out, n / 10);
    }
    let d: u8 = (n % 10) as u8;
    let b: u8 = 48 + d;
    push_char(out, b as char);
    proof {
        assert(out@ =~= start + decimal(n as nat));
    }
}

/// Appends a JSON array of strings.
pub fn push_json_strs(out: &mut String, v: &Vec<String>)
    ensures
        final(out)@ == old(out)@ + json_strs(views(v@)),
{
    let ghost start = out@;
    let ghost items = views(v@).map_values(|s: Seq<char>| json_str(s));
    push_char(out, '[');
    let mut i: usize = 0;
    while i < v.len()
        invariant
            i <= v.len(),
            items == views(v@).map_values(|s: Seq<char>| json_str(s)),
            out@ == start + seq!['['] + join_comma(items.take(i as int)),
        decreases v.len() - i,
    {
        let ghost before = out@;
        if i > 0 {
            push_char(out, ',');
        }
        push_json_str(out, v[i].as_str());
        proof {
            assert(items.take(i + 1).drop_last() =~= items.take(i as int));
            assert(items.take(i + 1).last() == json_str(v@[i as int]@));
            if i == 0 {
                assert(items.take(1).len() == 1);
            }
            assert(out@ =~= start + seq!['['] + join_comma(items.take(i + 1)));
        }
        i += 1;
    }
    push_char(out, ']');
    proof {
        assert(items.take(v.len() as int) =~= items);
        assert(out@ =~= start + json_strs(views(v@)));
    }
}

} // verus!
