//! The YAML-like frontmatter of skill and command files, and the texts that
//! indexing derives from a body: lines, headings and compact descriptions.
use vstd::prelude::*;

use crate::strset::views;
use crate::text::{
    chars_of, is_ws, lemma_skip_ws, lemma_trim_end, skip_ws, skip_ws_from, slice_chars, trim_end_at,
    starts_with, starts_with_chars, string_of, trim, trim_chars, words,
};

verus! {

// ---------------------------------------------------------------------------
// Lines
// ---------------------------------------------------------------------------
/// The first index at or after `i` that holds a line feed, or the length.
pub open spec fn next_nl(s: Seq<char>, i: int) -> int
    decreases s.len() - i,
{
    if 0 <= i < s.len() && s[i] != '\n' {
        next_nl(s, i + 1)
    } else {
        i
    }
}

pub proof fn lemma_next_nl(s: Seq<char>, i: int)
    requires
        0 <= i <= s.len(),
    ensures
        i <= next_nl(s, i) <= s.len(),
        forall|j: int| i <= j < next_nl(s, i) ==> s[j] != '\n',
        next_nl(s, i) < s.len() ==> s[next_nl(s, i)] == '\n',
    decreases s.len() - i,
{
    if i < s.len() && s[i] != '\n' {
        lemma_next_nl(s, i + 1);
    }
}

/// A line as `str::lines` gives it: without its line feed, and without the
/// carriage return that precedes a line feed.
pub open spec fn line_at(s: Seq<char>, i: int) -> Seq<char> {
    let j = next_nl(s, i);
    let piece = s.subrange(i, j);
    if j < s.len() && piece.len() > 0 && piece.last() == '\r' {
        piece.drop_last()
    } else {
        piece
    }
}

/// `str::lines` from index `i`.
pub open spec fn lines_from(s: Seq<char>, i: int) -> Seq<Seq<char>>
    decreases s.len() - i,
{
    if 0 <= i < s.len() {
        let j = next_nl(s, i);
        if j < i || j >= s.len() {
            seq![line_at(s, i)]
        } else {
            seq![line_at(s, i)] + lines_from(s, j + 1)
        }
    } else {
        Seq::empty()
    }
}

/// `str::lines`.
pub open spec fn str_lines(s: Seq<char>) -> Seq<Seq<char>> {
    lines_from(s, 0)
}

/// The texts of a sequence of character vectors.
pub open spec fn char_views(v: Seq<Vec<char>>) -> Seq<Seq<char>> {
    v.map_values(|x: Vec<char>| x@)
}

/// The lines of a text, as `str::lines` gives them.
pub fn split_lines(s: &[char]) -> (out: Vec<Vec<char>>)
    ensures
        char_views(out@) == str_lines(s@),
{
    let mut out: Vec<Vec<char>> = Vec::new();
    let mut i: usize = 0;
    while i < s.len()
        invariant
            i <= s.len(),
            char_views(out@) + lines_from(s@, i as int) == str_lines(s@),
        decreases s.len() - i,
    {
        let mut j = i;
        while j < s.len() && s[j] != '\n'
            invariant
                i <= j <= s.len(),
                next_nl(s@, j as int) == next_nl(s@, i as int),
            decreases s.len() - j,
        {
            j += 1;
        }
        proof {
            lemma_next_nl(s@, i as int);
        }
        let end = if j < s.len() && j > i && s[j - 1] == '\r' {
            j - 1
        } else {
            j
        };
        let line = slice_chars(s, i, end);
        proof {
            assert(line@ == line_at(s@, i as int));
            assert(char_views(out@.push(line)) =~= char_views(out@).push(line@));
        }
        if j >= s.len() {
            proof {
                assert(lines_from(s@, i as int) == seq![line@]);
                assert(lines_from(s@, s.len() as int) == Seq::<Seq<char>>::empty());
                assert(char_views(out@).push(line@) + lines_from(s@, s.len() as int) =~= char_views(out@) + seq![line@]);
            }
            out.push(line);
            i = s.len();
        } else {
            proof {
                assert(lines_from(s@, i as int) == seq![line@] + lines_from(s@, j + 1));
                assert(char_views(out@).push(line@) + lines_from(s@, j + 1) =~= char_views(out@) + (seq![line@]
                    + lines_from(s@, j + 1)));
            }
            out.push(line);
            i = j + 1;
        }
    }
    proof {
        assert(char_views(out@) + lines_from(s@, i as int) =~= char_views(out@));
    }
    out
}

/// The texts of a sequence joined with a separator between each two.
pub open spec fn join_sep(ls: Seq<Seq<char>>, sep: Seq<char>) -> Seq<char>
    decreases ls.len(),
{
    if ls.len() == 0 {
        Seq::empty()
    } else if ls.len() == 1 {
        ls[0]
    } else {
        join_sep(ls.drop_last(), sep) + sep + ls.last()
    }
}

/// Joins character vectors `a..b` with a separator.
pub fn join_chars(ls: &Vec<Vec<char>>, a: usize, b: usize, sep: &[char]) -> (r: Vec<char>)
    requires
        a <= b <= ls@.len(),
    ensures
        r@ == join_sep(char_views(ls@).subrange(a as int, b as int), sep@),
{
    let mut r: Vec<char> = Vec::new();
    let mut k = a;
    while k < b
        invariant
            a <= k <= b <= ls@.len(),
            r@ == join_sep(char_views(ls@).subrange(a as int, k as int), sep@),
        decreases b - k,
    {
        let ghost before = r@;
        if k > a {
            let mut t: usize = 0;
            while t < sep.len()
                invariant
                    t <= sep.len(),
                    r@ == before + sep@.take(t as int),
                decreases sep.len() - t,
            {
                r.push(sep[t]);
                proof {
                    assert(sep@.take(t + 1) == sep@.take(t as int).push(sep@[t as int]));
                }
                t += 1;
            }
            proof {
                assert(sep@.take(sep.len() as int) == sep@);
            }
        }
        let ghost mid = r@;
        let line = &ls[k];
        let mut t: usize = 0;
        while t < line.len()
            invariant
                t <= line@.len(),
                r@ == mid + line@.take(t as int),
            decreases line@.len() - t,
        {
            r.push(line[t]);
            proof {
                assert(line@.take(t + 1) == line@.take(t as int).push(line@[t as int]));
            }
            t += 1;
        }
        proof {
            assert(line@.take(line@.len() as int) == line@);
            let sub = char_views(ls@).subrange(a as int, k + 1);
            assert(sub.drop_last() =~= char_views(ls@).subrange(a as int, k as int));
            assert(sub.last() == line@);
            if k == a {
                assert(before == Seq::<char>::empty());
                assert(r@ =~= line@);
            } else {
                assert(r@ =~= before + sep@ + line@);
            }
        }
        k += 1;
    }
    r
}

// ---------------------------------------------------------------------------
// Scalars
// ---------------------------------------------------------------------------
pub open spec fn is_quote(c: char) -> bool {
    c == '\'' || c == '"'
}

pub open spec fn skip_quotes(s: Seq<char>, i: int) -> int
    decreases s.len() - i,
{
    if 0 <= i < s.len() && is_quote(s[i]) {
        skip_quotes(s, i + 1)
    } else {
        i
    }
}

pub open spec fn trim_quotes_end(s: Seq<char>, j: int) -> int
    decreases j,
{
    if 0 < j <= s.len() && is_quote(s[j - 1]) {
        trim_quotes_end(s, j - 1)
    } else {
        j
    }
}

/// `str::trim_matches(['\'', '"'])`: the text without leading and trailing quotes.
pub open spec fn trim_quotes(s: Seq<char>) -> Seq<char> {
    let a = skip_quotes(s, 0);
    let b = trim_quotes_end(s, s.len() as int);
    if a < b {
        s.subrange(a, b)
    } else {
        Seq::empty()
    }
}

proof fn lemma_skip_quotes(s: Seq<char>, i: int)
    requires
        0 <= i <= s.len(),
    ensures
        i <= skip_quotes(s, i) <= s.len(),
    decreases s.len() - i,
{
    if i < s.len() && is_quote(s[i]) {
        lemma_skip_quotes(s, i + 1);
    }
}

proof fn lemma_trim_quotes_end(s: Seq<char>, j: int)
    requires
        0 <= j <= s.len(),
    ensures
        0 <= trim_quotes_end(s, j) <= j,
    decreases j,
{
    if 0 < j && is_quote(s[j - 1]) {
        lemma_trim_quotes_end(s, j - 1);
    }
}

pub fn trim_quotes_chars(s: &[char]) -> (r: Vec<char>)
    ensures
        r@ == trim_quotes(s@),
{
    let mut a: usize = 0;
    while a < s.len() && (s[a] == '\'' || s[a] == '"')
        invariant
            a <= s.len(),
            skip_quotes(s@, a as int) == skip_quotes(s@, 0),
        decreases s.len() - a,
    {
        a += 1;
    }
    let mut b: usize = s.len();
    while b > 0 && (s[b - 1] == '\'' || s[b - 1] == '"')
        invariant
            b <= s.len(),
            trim_quotes_end(s@, b as int) == trim_quotes_end(s@, s.len() as int),
        decreases b,
    {
        b -= 1;
    }
    if a < b {
        slice_chars(s, a, b)
    } else {
        Vec::new()
    }
}

/// A frontmatter value: trimmed of whitespace, then of quotes; absent when empty.
pub open spec fn nonempty_scalar(v: Seq<char>) -> Option<Seq<char>> {
    let t = trim_quotes(trim(v));
    if t.len() > 0 {
        Some(t)
    } else {
        None
    }
}

pub fn nonempty_scalar_chars(v: &[char]) -> (r: Option<Vec<char>>)
    ensures
        match r {
            Some(x) => nonempty_scalar(v@) == Some(x@),
            None => nonempty_scalar(v@) is None,
        },
{
    let t = trim_chars(v);
    let q = trim_quotes_chars(t.as_slice());
    if q.len() > 0 {
        Some(q)
    } else {
        None
    }
}

/// A YAML block scalar indicator: `>` or `|`, then only chomping and indentation marks.
pub open spec fn is_block_indicator(v: Seq<char>) -> bool {
    &&& v.len() > 0
    &&& (v[0] == '>' || v[0] == '|')
    &&& forall|i: int| 1 <= i < v.len() ==> (#[trigger] v[i] == '+' || v[i] == '-' || ('1' <= v[i] && v[i] <= '9'))
}

pub fn is_block_indicator_chars(v: &[char]) -> (r: bool)
    ensures
        r == is_block_indicator(v@),
{
    if v.len() == 0 || !(v[0] == '>' || v[0] == '|') {
        return false;
    }
    let mut i: usize = 1;
    while i < v.len()
        invariant
            1 <= i <= v.len(),
            forall|j: int| 1 <= j < i ==> (#[trigger] v@[j] == '+' || v@[j] == '-' || ('1' <= v@[j] && v@[j] <= '9')),
        decreases v.len() - i,
    {
        let c = v[i];
        if !(c == '+' || c == '-' || ('1' <= c && c <= '9')) {
            return false;
        }
        i += 1;
    }
    true
}

// ---------------------------------------------------------------------------
// Block scalars (indentation is counted in UTF-8 bytes, as `str::len` does)
// ---------------------------------------------------------------------------
/// The length of a character in UTF-8.
pub open spec fn char_bytes(c: char) -> int {
    if (c as u32) < 0x80 {
        1
    } else if (c as u32) < 0x800 {
        2
    } else if (c as u32) < 0x10000 {
        3
    } else {
        4
    }
}

pub fn char_bytes_of(c: char) -> (r: u128)
    ensures
        r == char_bytes(c),
{
    let u = c as u32;
    if u < 0x80 {
        1
    } else if u < 0x800 {
        2
    } else if u < 0x10000 {
        3
    } else {
        4
    }
}

/// The UTF-8 length of a text.
pub open spec fn text_bytes(s: Seq<char>) -> int
    decreases s.len(),
{
    if s.len() == 0 {
        0
    } else {
        text_bytes(s.drop_last()) + char_bytes(s.last())
    }
}

/// The indentation of a line in bytes: the length of its leading whitespace.
pub open spec fn byte_indent(l: Seq<char>) -> int {
    text_bytes(l.take(skip_ws(l, 0)))
}

/// `str::get(n..)` from character `i` on: the text after its first `n` bytes,
/// or `None` when `n` is past the end or inside a character.
pub open spec fn drop_bytes_from(s: Seq<char>, i: int, n: int) -> Option<Seq<char>>
    decreases s.len() - i,
{
    if n == 0 && 0 <= i <= s.len() {
        Some(s.skip(i))
    } else if i < 0 || i >= s.len() || n < 0 {
        None
    } else if char_bytes(s[i]) <= n {
        drop_bytes_from(s, i + 1, n - char_bytes(s[i]))
    } else {
        None
    }
}

/// `line.get(n..).unwrap_or_default()`.
pub open spec fn drop_bytes_or_empty(s: Seq<char>, n: int) -> Seq<char> {
    match drop_bytes_from(s, 0, n) {
        Some(t) => t,
        None => Seq::empty(),
    }
}

/// The least indentation of the non-blank lines, if any line is non-blank.
pub open spec fn min_indent(ls: Seq<Seq<char>>) -> Option<int>
    decreases ls.len(),
{
    if ls.len() == 0 {
        None
    } else {
        let m = min_indent(ls.drop_last());
        let l = ls.last();
        if trim(l).len() == 0 {
            m
        } else {
            match m {
                None => Some(byte_indent(l)),
                Some(x) => Some(if x <= byte_indent(l) { x } else { byte_indent(l) }),
            }
        }
    }
}

/// A block scalar: its lines without their common indentation, joined, trimmed;
/// absent when empty.
pub open spec fn block_scalar(ls: Seq<Seq<char>>) -> Option<Seq<char>> {
    match min_indent(ls) {
        None => None,
        Some(k) => {
            let v = trim(join_sep(ls.map_values(|l: Seq<char>| drop_bytes_or_empty(l, k)), seq!['\n']));
            if v.len() > 0 {
                Some(v)
            } else {
                None
            }
        },
    }
}

proof fn lemma_trim_empty(l: Seq<char>)
    ensures
        (trim(l).len() == 0) <==> (skip_ws(l, 0) >= l.len()),
{
    lemma_skip_ws(l, 0);
    lemma_trim_end(l, l.len() as int);
    if skip_ws(l, 0) < l.len() {
        let a = skip_ws(l, 0);
        assert(!is_ws(l[a]));
        assert(trim_end_at(l, l.len() as int) > a);
    }
}

/// The indentation of a line in bytes.
fn byte_indent_of(l: &[char]) -> (r: u128)
    ensures
        r == byte_indent(l@),
{
    let k = skip_ws_from(l, 0);
    proof {
        lemma_skip_ws(l@, 0);
    }
    let mut n: u128 = 0;
    let mut i: usize = 0;
    while i < k
        invariant
            i <= k <= l.len(),
            n == text_bytes(l@.take(i as int)),
            n <= 4 * i,
        decreases k - i,
    {
        proof {
            assert(l@.take(i + 1).drop_last() =~= l@.take(i as int));
        }
        n = n + char_bytes_of(l[i]);
        i += 1;
    }
    n
}

/// The text after the first `n` bytes of a line, or the empty text.
fn drop_bytes_chars(l: &[char], n: u128) -> (r: Vec<char>)
    ensures
        r@ == drop_bytes_or_empty(l@, n as int),
{
    let mut i: usize = 0;
    let mut m: u128 = n;
    while m > 0 && i < l.len() && char_bytes_of(l[i]) <= m
        invariant
            i <= l.len(),
            drop_bytes_from(l@, i as int, m as int) == drop_bytes_from(l@, 0, n as int),
        decreases l.len() - i,
    {
        m = m - char_bytes_of(l[i]);
        i += 1;
    }
    if m == 0 {
        slice_chars(l, i, l.len())
    } else {
        Vec::new()
    }
}

/// The block scalar made of lines `a..b`.
fn block_scalar_lines(ls: &Vec<Vec<char>>, a: usize, b: usize) -> (r: Option<Vec<char>>)
    requires
        a <= b <= ls@.len(),
    ensures
        match r {
            Some(x) => block_scalar(char_views(ls@).subrange(a as int, b as int)) == Some(x@),
            None => block_scalar(char_views(ls@).subrange(a as int, b as int)) is None,
        },
{
    let ghost sub = char_views(ls@).subrange(a as int, b as int);
    let mut best: Option<u128> = None;
    let mut k = a;
    while k < b
        invariant
            a <= k <= b <= ls@.len(),
            sub == char_views(ls@).subrange(a as int, b as int),
            match best {
                None => min_indent(char_views(ls@).subrange(a as int, k as int)) is None,
                Some(x) => min_indent(char_views(ls@).subrange(a as int, k as int)) == Some(x as int),
            },
        decreases b - k,
    {
        let line = &ls[k];
        proof {
            let s2 = char_views(ls@).subrange(a as int, k + 1);
            assert(s2.drop_last() =~= char_views(ls@).subrange(a as int, k as int));
            assert(s2.last() == line@);
            lemma_trim_empty(line@);
        }
        let s = skip_ws_from(line.as_slice(), 0);
        if s < line.len() {
            let d = byte_indent_of(line.as_slice());
            best = match best {
                None => Some(d),
                Some(x) => Some(if x <= d { x } else { d }),
            };
        }
        k += 1;
    }
    match best {
        None => None,
        Some(ind) => {
            let mut stripped: Vec<Vec<char>> = Vec::new();
            let mut j = a;
            while j < b
                invariant
                    a <= j <= b <= ls@.len(),
                    sub == char_views(ls@).subrange(a as int, b as int),
                    stripped@.len() == j - a,
                    forall|t: int| 0 <= t < j - a ==> (#[trigger] stripped@[t])@ == drop_bytes_or_empty(sub[t], ind as int),
                decreases b - j,
            {
                let x = drop_bytes_chars(ls[j].as_slice(), ind);
                proof {
                    assert(sub[j - a] == ls@[j as int]@);
                }
                stripped.push(x);
                j += 1;
            }
            let sep = vec!['\n'];
            let joined = join_chars(&stripped, 0, stripped.len(), sep.as_slice());
            proof {
                let f = |l: Seq<char>| drop_bytes_or_empty(l, ind as int);
                assert(char_views(stripped@).subrange(0, stripped@.len() as int) =~= sub.map_values(f));
                assert(sep@ =~= seq!['\n']);
            }
            let v = trim_chars(joined.as_slice());
            if v.len() > 0 {
                Some(v)
            } else {
                None
            }
        },
    }
}

// ---------------------------------------------------------------------------
// Frontmatter fields
// ---------------------------------------------------------------------------
/// The list that indented `- item` lines add to.
#[derive(Clone, Copy, PartialEq, Eq, Structural)]
pub enum ListKind {
    NoList,
    Dependencies,
    Aliases,
    Capabilities,
}

/// The fields of a frontmatter block.
#[derive(Clone, Debug)]
pub struct Frontmatter {
    pub name: Option<String>,
    pub description: Option<String>,
    pub trust: Option<String>,
    pub dependencies: Vec<String>,
    pub aliases: Vec<String>,
    pub capabilities: Vec<String>,
}

/// The fields of a frontmatter block, as texts.
pub struct FmView {
    pub name: Option<Seq<char>>,
    pub description: Option<Seq<char>>,
    pub trust: Option<Seq<char>>,
    pub dependencies: Seq<Seq<char>>,
    pub aliases: Seq<Seq<char>>,
    pub capabilities: Seq<Seq<char>>,
}

pub open spec fn opt_view(o: Option<String>) -> Option<Seq<char>> {
    match o {
        Some(s) => Some(s@),
        None => None,
    }
}

pub open spec fn fm_view(f: Frontmatter) -> FmView {
    FmView {
        name: opt_view(f.name),
        description: opt_view(f.description),
        trust: opt_view(f.trust),
        dependencies: views(f.dependencies@),
        aliases: views(f.aliases@),
        capabilities: views(f.capabilities@),
    }
}

pub open spec fn empty_fm() -> FmView {
    FmView {
        name: None,
        description: None,
        trust: None,
        dependencies: Seq::empty(),
        aliases: Seq::empty(),
        capabilities: Seq::empty(),
    }
}

/// The end of a block scalar that starts at line `i`: the first line that is
/// neither blank nor indented.
pub open spec fn block_end(ls: Seq<Seq<char>>, i: int) -> int
    decreases ls.len() - i,
{
    if 0 <= i < ls.len() && !(trim(ls[i]).len() > 0 && skip_ws(ls[i], 0) == 0) {
        block_end(ls, i + 1)
    } else {
        i
    }
}

pub proof fn lemma_block_end(ls: Seq<Seq<char>>, i: int)
    requires
        0 <= i <= ls.len(),
    ensures
        i <= block_end(ls, i) <= ls.len(),
    decreases ls.len() - i,
{
    if i < ls.len() && !(trim(ls[i]).len() > 0 && skip_ws(ls[i], 0) == 0) {
        lemma_block_end(ls, i + 1);
    }
}

/// Adds an item to the active list.
pub open spec fn add_item(fm: FmView, list: ListKind, v: Seq<char>) -> FmView {
    match list {
        ListKind::Dependencies => FmView { dependencies: fm.dependencies.push(v), ..fm },
        ListKind::Aliases => FmView { aliases: fm.aliases.push(v), ..fm },
        ListKind::Capabilities => FmView { capabilities: fm.capabilities.push(v), ..fm },
        ListKind::NoList => fm,
    }
}

/// The fields read from line `i` on, given the fields so far and the active list.
pub open spec fn fields_from(ls: Seq<Seq<char>>, i: int, fm: FmView, list: ListKind) -> FmView
    decreases ls.len() - i,
{
    if i < 0 || i >= ls.len() {
        fm
    } else {
        let line = ls[i];
        let t = trim(line);
        if skip_ws(line, 0) == 0 {
            if starts_with(t, "name:"@) {
                fields_from(ls, i + 1, FmView { name: nonempty_scalar(t.skip("name:"@.len() as int)), ..fm }, ListKind::NoList)
            } else if starts_with(t, "description:"@) {
                let v = trim(t.skip("description:"@.len() as int));
                if is_block_indicator(v) {
                    let end = block_end(ls, i + 1);
                    if end <= i || end > ls.len() {
                        fm
                    } else {
                        fields_from(
                            ls,
                            end,
                            FmView { description: block_scalar(ls.subrange(i + 1, end)), ..fm },
                            ListKind::NoList,
                        )
                    }
                } else {
                    fields_from(ls, i + 1, FmView { description: nonempty_scalar(v), ..fm }, ListKind::NoList)
                }
            } else if starts_with(t, "trust:"@) {
                fields_from(
                    ls,
                    i + 1,
                    FmView { trust: Some(trim_quotes(trim(t.skip("trust:"@.len() as int)))), ..fm },
                    ListKind::NoList,
                )
            } else if t == "dependencies:"@ {
                fields_from(ls, i + 1, fm, ListKind::Dependencies)
            } else if t == "aliases:"@ {
                fields_from(ls, i + 1, fm, ListKind::Aliases)
            } else if t == "capabilities:"@ {
                fields_from(ls, i + 1, fm, ListKind::Capabilities)
            } else if t.len() > 0 {
                fields_from(ls, i + 1, fm, ListKind::NoList)
            } else {
                fields_from(ls, i + 1, fm, list)
            }
        } else if list == ListKind::NoList {
            fields_from(ls, i + 1, fm, list)
        } else if starts_with(t, "-"@) {
            match nonempty_scalar(t.skip("-"@.len() as int)) {
                Some(v) => fields_from(ls, i + 1, add_item(fm, list, v), list),
                None => fields_from(ls, i + 1, fm, list),
            }
        } else if t.len() > 0 {
            fields_from(ls, i + 1, fm, ListKind::NoList)
        } else {
            fields_from(ls, i + 1, fm, list)
        }
    }
}

/// A `description:` line whose value is a block scalar indicator, folded
/// (`>`) or literal (`|`), with any chomping and indentation marks, takes the
/// more-indented lines that follow, de-indented, as the description; both
/// indicators read the block alike, and reading goes on after the block.
pub proof fn lemma_block_description(ls: Seq<Seq<char>>, i: int, c: char, m: Seq<char>, fm: FmView, list: ListKind)
    requires
        0 <= i < ls.len(),
        c == '>' || c == '|',
        forall|j: int| 0 <= j < m.len() ==> (#[trigger] m[j] == '+' || m[j] == '-' || ('1' <= m[j] && m[j] <= '9')),
        ls[i] == "description: "@ + seq![c] + m,
    ensures
        fields_from(ls, i, fm, list) == fields_from(
            ls,
            block_end(ls, i + 1),
            FmView { description: block_scalar(ls.subrange(i + 1, block_end(ls, i + 1))), ..fm },
            ListKind::NoList,
        ),
{
    reveal_strlit("description: ");
    reveal_strlit("description:");
    reveal_strlit("name:");
    let line = ls[i];
    let v0 = seq![c] + m;
    assert(line.len() == 13 + v0.len());
    assert(line[0] == 'd');
    assert(!is_ws(line[0]));
    assert(skip_ws(line, 0) == 0);
    let last = line[line.len() - 1];
    assert(last == v0[v0.len() - 1]);
    assert(!is_ws(last)) by {
        if m.len() > 0 {
            assert(v0[v0.len() - 1] == m[m.len() - 1]);
        }
    }
    assert(trim_end_at(line, line.len() as int) == line.len());
    assert(trim(line) =~= line);
    assert(!starts_with(line, "name:"@)) by {
        if starts_with(line, "name:"@) {
            assert(line.take(5)[0] == "name:"@[0]);
        }
    }
    assert(line.take(12) =~= "description:"@);
    assert(starts_with(line, "description:"@));
    let u = line.skip(12);
    assert(u =~= seq![' '] + v0);
    assert(is_ws(u[0]));
    assert(u[1] == c);
    assert(!is_ws(u[1]));
    assert(skip_ws(u, 1) == 1);
    assert(skip_ws(u, 0) == 1);
    assert(u[u.len() - 1] == last);
    assert(trim_end_at(u, u.len() as int) == u.len());
    assert(trim(u) =~= v0);
    assert(is_block_indicator(v0)) by {
        assert forall|j: int| 1 <= j < v0.len() implies (#[trigger] v0[j] == '+' || v0[j] == '-' || ('1' <= v0[j] && v0[j]
            <= '9')) by {
            assert(v0[j] == m[j - 1]);
        }
    }
    lemma_block_end(ls, i + 1);
}

/// The lines of the frontmatter block of a body: after a first line `---`, up
/// to the next line `---` (or the end).
pub open spec fn block_lines_from(ls: Seq<Seq<char>>, i: int) -> int
    decreases ls.len() - i,
{
    if 0 <= i < ls.len() && ls[i] != "---"@ {
        block_lines_from(ls, i + 1)
    } else {
        i
    }
}

/// The frontmatter of a body: the fields of the block between the opening and
/// closing `---` lines (its lines joined and split again), or no field when
/// the body does not open with `---`.
pub open spec fn frontmatter_of(body: Seq<char>) -> FmView {
    let ls = str_lines(body);
    if ls.len() > 0 && ls[0] == "---"@ {
        let end = block_lines_from(ls, 1);
        let yaml = join_sep(ls.subrange(1, end), seq!['\n']);
        fields_from(str_lines(yaml), 0, empty_fm(), ListKind::NoList)
    } else {
        empty_fm()
    }
}

proof fn lemma_block_lines_from(ls: Seq<Seq<char>>, i: int)
    requires
        0 <= i <= ls.len(),
    ensures
        i <= block_lines_from(ls, i) <= ls.len(),
    decreases ls.len() - i,
{
    if i < ls.len() && ls[i] != "---"@ {
        lemma_block_lines_from(ls, i + 1);
    }
}

fn vec_string(v: &Vec<char>) -> (s: String)
    ensures
        s@ == v@,
{
    string_of(v.as_slice())
}

fn opt_string(v: Option<Vec<char>>) -> (s: Option<String>)
    ensures
        opt_view(s) == match v {
            Some(x) => Some(x@),
            None => None::<Seq<char>>,
        },
{
    match v {
        Some(x) => Some(string_of(x.as_slice())),
        None => None,
    }
}

fn push_item(fm: &mut Frontmatter, list: ListKind, v: Vec<char>)
    ensures
        fm_view(*final(fm)) == add_item(fm_view(*old(fm)), list, v@),
{
    let s = string_of(v.as_slice());
    let ghost f0 = fm_view(*fm);
    match list {
        ListKind::Dependencies => {
            fm.dependencies.push(s);
            proof {
                assert(views(fm.dependencies@) =~= f0.dependencies.push(v@));
            }
        },
        ListKind::Aliases => {
            fm.aliases.push(s);
            proof {
                assert(views(fm.aliases@) =~= f0.aliases.push(v@));
            }
        },
        ListKind::Capabilities => {
            fm.capabilities.push(s);
            proof {
                assert(views(fm.capabilities@) =~= f0.capabilities.push(v@));
            }
        },
        ListKind::NoList => {},
    }
}

/// The fields of frontmatter lines.
pub fn parse_frontmatter_fields(ls: &Vec<Vec<char>>) -> (fm: Frontmatter)
    ensures
        fm_view(fm) == fields_from(char_views(ls@), 0, empty_fm(), ListKind::NoList),
{
    let ghost lv = char_views(ls@);
    let mut fm = Frontmatter {
        name: None,
        description: None,
        trust: None,
        dependencies: Vec::new(),
        aliases: Vec::new(),
        capabilities: Vec::new(),
    };
    proof {
        assert(fm_view(fm) == empty_fm()) by {
            assert(views(fm.dependencies@) =~= Seq::<Seq<char>>::empty());
            assert(views(fm.aliases@) =~= Seq::<Seq<char>>::empty());
            assert(views(fm.capabilities@) =~= Seq::<Seq<char>>::empty());
        }
    }
    let mut list = ListKind::NoList;
    let p_name = chars_of("name:");
    let p_desc = chars_of("description:");
    let p_trust = chars_of("trust:");
    let p_dash = chars_of("-");
    let w_deps = chars_of("dependencies:");
    let w_aliases = chars_of("aliases:");
    let w_caps = chars_of("capabilities:");
    let mut i: usize = 0;
    while i < ls.len()
        invariant
            i <= ls@.len(),
            lv == char_views(ls@),
            p_name@ == "name:"@,
            p_desc@ == "description:"@,
            p_trust@ == "trust:"@,
            p_dash@ == "-"@,
            w_deps@ == "dependencies:"@,
            w_aliases@ == "aliases:"@,
            w_caps@ == "capabilities:"@,
            fields_from(lv, i as int, fm_view(fm), list) == fields_from(lv, 0, empty_fm(), ListKind::NoList),
        decreases ls@.len() - i,
    {
        let line = &ls[i];
        proof {
            assert(lv[i as int] == line@);
        }
        let t = trim_chars(line.as_slice());
        let indent = skip_ws_from(line.as_slice(), 0);
        if indent == 0 {
            if starts_with_chars(t.as_slice(), p_name.as_slice()) {
                let rest = slice_chars(t.as_slice(), p_name.len(), t.len());
                proof {
                    assert(rest@ == t@.skip("name:"@.len() as int));
                }
                fm.name = opt_string(nonempty_scalar_chars(rest.as_slice()));
                list = ListKind::NoList;
            } else if starts_with_chars(t.as_slice(), p_desc.as_slice()) {
                let rest = slice_chars(t.as_slice(), p_desc.len(), t.len());
                let v = trim_chars(rest.as_slice());
                proof {
                    assert(rest@ == t@.skip("description:"@.len() as int));
                }
                if is_block_indicator_chars(v.as_slice()) {
                    let start = i + 1;
                    let mut end = start;
                    proof {
                        lemma_block_end(lv, start as int);
                    }
                    while end < ls.len() && !(skip_ws_from(ls[end].as_slice(), 0) < ls[end].len() && skip_ws_from(
                        ls[end].as_slice(),
                        0,
                    ) == 0)
                        invariant
                            start <= end <= ls@.len(),
                            lv == char_views(ls@),
                            block_end(lv, end as int) == block_end(lv, start as int),
                        decreases ls@.len() - end,
                    {
                        proof {
                            assert(lv[end as int] == ls@[end as int]@);
                            lemma_trim_empty(ls@[end as int]@);
                        }
                        end += 1;
                    }
                    proof {
                        if end < ls@.len() {
                            assert(lv[end as int] == ls@[end as int]@);
                            lemma_trim_empty(ls@[end as int]@);
                        }
                        assert(lv.subrange(start as int, end as int) == char_views(ls@).subrange(start as int, end as int));
                    }
                    fm.description = opt_string(block_scalar_lines(ls, start, end));
                    list = ListKind::NoList;
                    i = end;
                    continue;
                }
                fm.description = opt_string(nonempty_scalar_chars(v.as_slice()));
                list = ListKind::NoList;
            } else if starts_with_chars(t.as_slice(), p_trust.as_slice()) {
                let rest = slice_chars(t.as_slice(), p_trust.len(), t.len());
                proof {
                    assert(rest@ == t@.skip("trust:"@.len() as int));
                }
                let v = trim_chars(rest.as_slice());
                let q = trim_quotes_chars(v.as_slice());
                fm.trust = Some(vec_string(&q));
                list = ListKind::NoList;
            } else if crate::text::same_chars(t.as_slice(), w_deps.as_slice()) {
                list = ListKind::Dependencies;
            } else if crate::text::same_chars(t.as_slice(), w_aliases.as_slice()) {
                list = ListKind::Aliases;
            } else if crate::text::same_chars(t.as_slice(), w_caps.as_slice()) {
                list = ListKind::Capabilities;
            } else if t.len() > 0 {
                list = ListKind::NoList;
            }
        } else if list != ListKind::NoList {
            if starts_with_chars(t.as_slice(), p_dash.as_slice()) {
                let rest = slice_chars(t.as_slice(), p_dash.len(), t.len());
                proof {
                    assert(rest@ == t@.skip("-"@.len() as int));
                }
                match nonempty_scalar_chars(rest.as_slice()) {
                    Some(v) => {
                        push_item(&mut fm, list, v);
                    },
                    None => {},
                }
            } else if t.len() > 0 {
                list = ListKind::NoList;
            }
        }
        i += 1;
    }
    fm
}

/// The frontmatter of a body.
pub fn parse_frontmatter(body: &[char]) -> (fm: Frontmatter)
    ensures
        fm_view(fm) == frontmatter_of(body@),
{
    let ls = split_lines(body);
    let dashes = chars_of("---");
    if ls.len() == 0 || !crate::text::same_chars(ls[0].as_slice(), dashes.as_slice()) {
        let fm = Frontmatter {
            name: None,
            description: None,
            trust: None,
            dependencies: Vec::new(),
            aliases: Vec::new(),
            capabilities: Vec::new(),
        };
        proof {
            if ls@.len() > 0 {
                assert(char_views(ls@)[0] == ls@[0]@);
            }
            assert(views(fm.dependencies@) =~= Seq::<Seq<char>>::empty());
            assert(views(fm.aliases@) =~= Seq::<Seq<char>>::empty());
            assert(views(fm.capabilities@) =~= Seq::<Seq<char>>::empty());
        }
        return fm;
    }
    proof {
        assert(char_views(ls@)[0] == ls@[0]@);
    }
    let mut end: usize = 1;
    proof {
        lemma_block_lines_from(char_views(ls@), 1);
    }
    while end < ls.len() && !crate::text::same_chars(ls[end].as_slice(), dashes.as_slice())
        invariant
            1 <= end <= ls@.len(),
            dashes@ == "---"@,
            block_lines_from(char_views(ls@), end as int) == block_lines_from(char_views(ls@), 1),
        decreases ls@.len() - end,
    {
        proof {
            assert(char_views(ls@)[end as int] == ls@[end as int]@);
        }
        end += 1;
    }
    proof {
        if end < ls@.len() {
            assert(char_views(ls@)[end as int] == ls@[end as int]@);
        }
    }
    let sep = vec!['\n'];
    let yaml = join_chars(&ls, 1, end, sep.as_slice());
    proof {
        assert(sep@ =~= seq!['\n']);
    }
    let yl = split_lines(yaml.as_slice());
    parse_frontmatter_fields(&yl)
}

// ---------------------------------------------------------------------------
// Headings and descriptions
// ---------------------------------------------------------------------------
/// The first line of a body that starts with `# `, from line `i` on.
pub open spec fn heading_from(ls: Seq<Seq<char>>, i: int) -> Option<Seq<char>>
    decreases ls.len() - i,
{
    if 0 <= i < ls.len() {
        if starts_with(ls[i], "# "@) {
            Some(trim(ls[i].skip("# "@.len() as int)))
        } else {
            heading_from(ls, i + 1)
        }
    } else {
        None
    }
}

/// The text of the first `# ` heading of a body, or "Agent capability" when
/// there is none or it is empty.
pub open spec fn first_heading(body: Seq<char>) -> Seq<char> {
    match heading_from(str_lines(body), 0) {
        Some(h) => if h.len() > 0 {
            h
        } else {
            "Agent capability"@
        },
        None => "Agent capability"@,
    }
}

pub fn first_heading_text(body: &[char]) -> (r: String)
    ensures
        r@ == first_heading(body@),
{
    let ls = split_lines(body);
    let p = chars_of("# ");
    let mut i: usize = 0;
    while i < ls.len()
        invariant
            i <= ls@.len(),
            p@ == "# "@,
            char_views(ls@) == str_lines(body@),
            heading_from(char_views(ls@), i as int) == heading_from(char_views(ls@), 0),
        decreases ls@.len() - i,
    {
        proof {
            assert(char_views(ls@)[i as int] == ls@[i as int]@);
        }
        if starts_with_chars(ls[i].as_slice(), p.as_slice()) {
            let rest = slice_chars(ls[i].as_slice(), p.len(), ls[i].len());
            proof {
                assert(rest@ == ls@[i as int]@.skip("# "@.len() as int));
            }
            let h = trim_chars(rest.as_slice());
            proof {
                assert(heading_from(char_views(ls@), i as int) == Some(h@));
                assert(char_views(ls@) == str_lines(body@));
            }
            if h.len() > 0 {
                return string_of(h.as_slice());
            } else {
                return crate::text::owned("Agent capability");
            }
        }
        i += 1;
    }
    crate::text::owned("Agent capability")
}

/// A description on one line: its words joined by single spaces, cut to its
/// first 240 characters.
pub open spec fn compact_description(v: Seq<char>) -> Seq<char> {
    let c = join_sep(words(v), " "@);
    if c.len() <= 240 {
        c
    } else {
        c.take(240)
    }
}

pub fn compact_description_text(v: &str) -> (r: String)
    ensures
        r@ == compact_description(v@),
{
    let c = chars_of(v);
    let ws = crate::text::split_words(c.as_slice());
    let sep = chars_of(" ");
    proof {
        assert(char_views(ws@) =~= words(v@));
    }
    let joined = join_chars(&ws, 0, ws.len(), sep.as_slice());
    proof {
        assert(char_views(ws@).subrange(0, ws@.len() as int) =~= char_views(ws@));
    }
    if joined.len() <= 240 {
        string_of(joined.as_slice())
    } else {
        let cut = slice_chars(joined.as_slice(), 0, 240);
        proof {
            assert(cut@ =~= joined@.take(240));
        }
        string_of(cut.as_slice())
    }
}

} // verus!
