//! Character-level text operations used by the translators.
//!
//! Every operation works on sequences of `char` and is specified by a spec
//! function over `Seq<char>` that states what the matching operation of
//! `str` computes (`trim`, `find`, `replace`, `split`, `lines`, ...).
//! Positions are character positions.
use vstd::prelude::*;

verus! {

// ---------------------------------------------------------------------------
// Character classes
// ---------------------------------------------------------------------------
/// The Unicode `White_Space` property, which `char::is_whitespace` tests.
pub open spec fn is_ws(c: char) -> bool {
    ||| c == '\t'
    ||| c == '\n'
    ||| c == '\u{0B}'
    ||| c == '\u{0C}'
    ||| c == '\r'
    ||| c == ' '
    ||| c == '\u{85}'
    ||| c == '\u{A0}'
    ||| c == '\u{1680}'
    ||| ('\u{2000}' <= c && c <= '\u{200A}')
    ||| c == '\u{2028}'
    ||| c == '\u{2029}'
    ||| c == '\u{202F}'
    ||| c == '\u{205F}'
    ||| c == '\u{3000}'
}

/// Whether `c` is white space (the Unicode `White_Space` property).
pub fn is_whitespace(c: char) -> (r: bool)
    ensures
        r == is_ws(c),
{
    c == '\t' || c == '\n' || c == '\u{0B}' || c == '\u{0C}' || c == '\r' || c == ' ' || c
        == '\u{85}' || c == '\u{A0}' || c == '\u{1680}' || ('\u{2000}' <= c && c <= '\u{200A}')
        || c == '\u{2028}' || c == '\u{2029}' || c == '\u{202F}' || c == '\u{205F}' || c
        == '\u{3000}'
}

/// What `char::is_alphanumeric` answers for `c` (Unicode `Alphabetic` or `Numeric`).
pub uninterp spec fn char_alphanumeric(c: char) -> bool;

/// What `char::is_alphabetic` answers for `c` (Unicode `Alphabetic`).
pub uninterp spec fn char_alphabetic(c: char) -> bool;

/// An ASCII letter, `a` to `z` or `A` to `Z`.
pub open spec fn is_ascii_letter(c: char) -> bool {
    ('a' <= c && c <= 'z') || ('A' <= c && c <= 'Z')
}

/// An ASCII digit, `0` to `9`.
pub open spec fn is_ascii_digit(c: char) -> bool {
    '0' <= c && c <= '9'
}

/// Calls `char::is_alphanumeric` (the Unicode `Alphabetic` or `Numeric`
/// classes); the contract names its answer `char_alphanumeric(c)`. Of the
/// tables it states the ASCII part alone: there the letters and the digits
/// are alphanumeric and nothing else is.
#[verifier::external_body]
pub(crate) fn is_alphanumeric(c: char) -> (r: bool)
    ensures
        r == char_alphanumeric(c),
        (c as u32) < 128 ==> (r == (is_ascii_letter(c) || is_ascii_digit(c))),
{
    c.is_alphanumeric()
}

/// Calls `char::is_alphabetic` (the Unicode `Alphabetic` class); the
/// contract names its answer `char_alphabetic(c)`. Of the tables it states
/// the ASCII part alone: there the letters are alphabetic and nothing else is.
#[verifier::external_body]
pub(crate) fn is_alphabetic(c: char) -> (r: bool)
    ensures
        r == char_alphabetic(c),
        (c as u32) < 128 ==> (r == is_ascii_letter(c)),
{
    c.is_alphabetic()
}

/// The sets of characters that the trimming operations strip.
#[derive(Clone, Copy)]
pub enum Strip {
    /// White space, as `str::trim`.
    Space,
    /// `;`
    Semi,
    /// `=`
    Equals,
    /// `)`
    CloseParen,
    /// `[` and `]`
    Brackets,
}

pub open spec fn strips(k: Strip, c: char) -> bool {
    match k {
        Strip::Space => is_ws(c),
        Strip::Semi => c == ';',
        Strip::Equals => c == '=',
        Strip::CloseParen => c == ')',
        Strip::Brackets => c == '[' || c == ']',
    }
}

fn is_stripped(k: Strip, c: char) -> (r: bool)
    ensures
        r == strips(k, c),
{
    match k {
        Strip::Space => is_whitespace(c),
        Strip::Semi => c == ';',
        Strip::Equals => c == '=',
        Strip::CloseParen => c == ')',
        Strip::Brackets => c == '[' || c == ']',
    }
}

// ---------------------------------------------------------------------------
// Specifications
// ---------------------------------------------------------------------------
/// `s` with the leading characters of class `k` removed.
pub open spec fn strip_start(s: Seq<char>, k: Strip) -> Seq<char>
    decreases s.len(),
{
    if s.len() > 0 && strips(k, s[0]) {
        strip_start(s.drop_first(), k)
    } else {
        s
    }
}

/// `s` with the trailing characters of class `k` removed.
pub open spec fn strip_end(s: Seq<char>, k: Strip) -> Seq<char>
    decreases s.len(),
{
    if s.len() > 0 && strips(k, s.last()) {
        strip_end(s.drop_last(), k)
    } else {
        s
    }
}

/// `str::trim_start`
pub open spec fn trim_start_of(s: Seq<char>) -> Seq<char> {
    strip_start(s, Strip::Space)
}

/// `str::trim_end`
pub open spec fn trim_end_of(s: Seq<char>) -> Seq<char> {
    strip_end(s, Strip::Space)
}

/// `str::trim`
pub open spec fn trim_of(s: Seq<char>) -> Seq<char> {
    strip_end(strip_start(s, Strip::Space), Strip::Space)
}

/// `p` occurs in `s` at position `i`.
pub open spec fn matches_at(s: Seq<char>, i: int, p: Seq<char>) -> bool {
    0 <= i && i + p.len() <= s.len() && s.subrange(i, i + p.len()) == p
}

/// `str::starts_with`
pub open spec fn starts_with_of(s: Seq<char>, p: Seq<char>) -> bool {
    matches_at(s, 0, p)
}

/// `str::ends_with`
pub open spec fn ends_with_of(s: Seq<char>, p: Seq<char>) -> bool {
    p.len() <= s.len() && matches_at(s, s.len() - p.len(), p)
}

/// The first position at or after `i` where `p` occurs in `s`.
pub open spec fn find_from(s: Seq<char>, p: Seq<char>, i: int) -> Option<int>
    decreases s.len() - i,
{
    if i < 0 || i + p.len() > s.len() {
        None
    } else if s.subrange(i, i + p.len()) == p {
        Some(i)
    } else {
        proof {
            if p.len() == 0 {
                assert(s.subrange(i, i + p.len()) =~= p);
            }
        }
        find_from(s, p, i + 1)
    }
}

/// `str::find`: the first position where `p` occurs in `s`.
pub open spec fn find_of(s: Seq<char>, p: Seq<char>) -> Option<int> {
    find_from(s, p, 0)
}

/// `str::contains`
pub open spec fn contains_of(s: Seq<char>, p: Seq<char>) -> bool {
    find_of(s, p) is Some
}

/// `str::rfind` with a character: the last position of `c` in `s`.
pub open spec fn rfind_of(s: Seq<char>, c: char) -> Option<int>
    decreases s.len(),
{
    if s.len() == 0 {
        None
    } else if s.last() == c {
        Some(s.len() - 1)
    } else {
        rfind_of(s.drop_last(), c)
    }
}

/// `str::replace` for a non-empty pattern: every occurrence of `from`,
/// left to right and without overlap, replaced by `to`.
pub open spec fn replace_of(s: Seq<char>, from: Seq<char>, to: Seq<char>) -> Seq<char>
    decreases s.len(),
{
    if s.len() == 0 || from.len() == 0 {
        s
    } else if matches_at(s, 0, from) {
        to + replace_of(s.skip(from.len() as int), from, to)
    } else {
        seq![s[0]] + replace_of(s.drop_first(), from, to)
    }
}

/// The pieces of `s` between occurrences of `c`, `cur` being the piece read so far.
pub open spec fn split_acc(s: Seq<char>, c: char, cur: Seq<char>) -> Seq<Seq<char>>
    decreases s.len(),
{
    if s.len() == 0 {
        seq![cur]
    } else if s[0] == c {
        seq![cur] + split_acc(s.drop_first(), c, Seq::empty())
    } else {
        split_acc(s.drop_first(), c, cur.push(s[0]))
    }
}

/// `str::split` with a character.
pub open spec fn split_of(s: Seq<char>, c: char) -> Seq<Seq<char>> {
    split_acc(s, c, Seq::empty())
}

/// `s.split(c).next()`: the part of `s` before the first `c`.
pub open spec fn before_of(s: Seq<char>, c: char) -> Seq<char>
    decreases s.len(),
{
    if s.len() == 0 || s[0] == c {
        Seq::empty()
    } else {
        seq![s[0]] + before_of(s.drop_first(), c)
    }
}

/// The white-space separated words of `s`, `cur` being the word read so far.
pub open spec fn words_acc(s: Seq<char>, cur: Seq<char>) -> Seq<Seq<char>>
    decreases s.len(),
{
    if s.len() == 0 {
        if cur.len() > 0 {
            seq![cur]
        } else {
            Seq::empty()
        }
    } else if is_ws(s[0]) {
        (if cur.len() > 0 {
            seq![cur]
        } else {
            Seq::empty()
        }) + words_acc(s.drop_first(), Seq::empty())
    } else {
        words_acc(s.drop_first(), cur.push(s[0]))
    }
}

/// `str::split_whitespace`
pub open spec fn words_of(s: Seq<char>) -> Seq<Seq<char>> {
    words_acc(s, Seq::empty())
}

/// A line that ended in `\n`, without a final `\r`.
pub open spec fn strip_cr(s: Seq<char>) -> Seq<char> {
    if s.len() > 0 && s.last() == '\r' {
        s.drop_last()
    } else {
        s
    }
}

/// The lines of `s`, `cur` being the line read so far.
pub open spec fn lines_acc(s: Seq<char>, cur: Seq<char>) -> Seq<Seq<char>>
    decreases s.len(),
{
    if s.len() == 0 {
        if cur.len() > 0 {
            seq![cur]
        } else {
            Seq::empty()
        }
    } else if s[0] == '\n' {
        seq![strip_cr(cur)] + lines_acc(s.drop_first(), Seq::empty())
    } else {
        lines_acc(s.drop_first(), cur.push(s[0]))
    }
}

/// `str::lines`
pub open spec fn lines_of(s: Seq<char>) -> Seq<Seq<char>> {
    lines_acc(s, Seq::empty())
}

/// `join` of the pieces with `sep` between them.
pub open spec fn join_of(parts: Seq<Seq<char>>, sep: Seq<char>) -> Seq<char>
    decreases parts.len(),
{
    if parts.len() == 0 {
        Seq::empty()
    } else if parts.len() == 1 {
        parts[0]
    } else {
        join_of(parts.drop_last(), sep) + sep + parts.last()
    }
}

/// `n` spaces (`" ".repeat(n)`).
pub open spec fn spaces_of(n: nat) -> Seq<char> {
    Seq::new(n, |i: int| ' ')
}

/// The number of spaces at the start of `s`.
pub open spec fn leading_spaces(s: Seq<char>) -> nat
    decreases s.len(),
{
    if s.len() > 0 && s[0] == ' ' {
        1 + leading_spaces(s.drop_first())
    } else {
        0
    }
}

/// Every character of `s` is alphanumeric or `_`.
pub open spec fn is_ident_of(s: Seq<char>) -> bool {
    forall|i: int| 0 <= i < s.len() ==> #[trigger] char_alphanumeric(s[i]) || s[i] == '_'
}

/// The character sequences held by a vector of strings.
pub open spec fn views(v: Seq<Vec<char>>) -> Seq<Seq<char>> {
    v.map_values(|x: Vec<char>| x@)
}

pub open spec fn opt_int(o: Option<usize>) -> Option<int> {
    match o {
        Some(i) => Some(i as int),
        None => None,
    }
}

// ---------------------------------------------------------------------------
// Conversions
// ---------------------------------------------------------------------------
/// Appends one character to a `String` (`String::push`).
#[verifier::external_body]
fn string_push(s: &mut String, c: char)
    ensures
        final(s)@ == old(s)@.push(c),
{
    s.push(c);
}

/// Whether `x` is a Unicode scalar value: a code point that is not a
/// surrogate.
pub open spec fn is_scalar_value(x: u32) -> bool {
    x < 0xD800 || (0xE000 <= x && x <= 0x10FFFF)
}

/// Calls `char::from_u32`, which gives the character with code point `x`
/// when `x` is a Unicode scalar value and `None` otherwise.
#[verifier::external_body]
pub(crate) fn char_from_u32(x: u32) -> (r: Option<char>)
    ensures
        r is Some <==> is_scalar_value(x),
        r matches Some(c) ==> c as u32 == x,
{
    char::from_u32(x)
}

/// `s` without its last character when that is `c`.
pub open spec fn without_last(s: Seq<char>, c: char) -> Seq<char> {
    if s.len() > 0 && s.last() == c {
        s.drop_last()
    } else {
        s
    }
}

/// `s` without its last character when that is `c`.
pub fn drop_last_if(s: &Vec<char>, c: char) -> (r: Vec<char>)
    ensures
        r@ == without_last(s@, c),
{
    let n = s.len();
    if n > 0 && s[n - 1] == c {
        let r = slice_of(s, 0, n - 1);
        assert(r@ =~= s@.drop_last());
        r
    } else {
        let r = s.clone();
        assert(r@ == s@);
        r
    }
}

/// The characters of `s`, in order.
pub fn chars_of(s: &str) -> (r: Vec<char>)
    ensures
        r@ == s@,
{
    let mut r: Vec<char> = Vec::new();
    for c in it: s.chars()
        invariant
            r@ == it.seq().take(it.index() as int),
    {
        r.push(c);
    }
    r
}

/// A `String` holding the characters of `v`.
pub fn string_of(v: &Vec<char>) -> (r: String)
    ensures
        r@ == v@,
{
    let mut r = String::new();
    let mut i: usize = 0;
    while i < v.len()
        invariant
            i <= v.len(),
            r@ == v@.take(i as int),
        decreases v.len() - i,
    {
        string_push(&mut r, v[i]);
        assert(v@.take(i + 1) =~= v@.take(i as int).push(v@[i as int]));
        i += 1;
    }
    assert(v@.take(v.len() as int) =~= v@);
    r
}

// ---------------------------------------------------------------------------
// Building
// ---------------------------------------------------------------------------
/// Appends the characters of `v` to `out`.
pub fn push_chars(out: &mut Vec<char>, v: &Vec<char>)
    ensures
        final(out)@ == old(out)@ + v@,
{
    let mut i: usize = 0;
    while i < v.len()
        invariant
            i <= v.len(),
            out@ == old(out)@ + v@.take(i as int),
        decreases v.len() - i,
    {
        out.push(v[i]);
        assert(v@.take(i + 1) =~= v@.take(i as int).push(v@[i as int]));
        i += 1;
    }
    assert(v@.take(v.len() as int) =~= v@);
}

/// Appends the characters of `s` to `out`.
pub fn push_str(out: &mut Vec<char>, s: &str)
    ensures
        final(out)@ == old(out)@ + s@,
{
    let v = chars_of(s);
    push_chars(out, &v);
}

/// `a` followed by `b`.
pub fn cat(a: &Vec<char>, b: &Vec<char>) -> (r: Vec<char>)
    ensures
        r@ == a@ + b@,
{
    let mut r = a.clone();
    assert(r@ =~= a@);
    push_chars(&mut r, b);
    r
}

/// The characters of `s` from position `a` up to position `b`.
pub fn slice_of(s: &Vec<char>, a: usize, b: usize) -> (r: Vec<char>)
    requires
        a <= b <= s.len(),
    ensures
        r@ == s@.subrange(a as int, b as int),
{
    let mut r: Vec<char> = Vec::new();
    let mut i = a;
    while i < b
        invariant
            a <= i <= b <= s.len(),
            r@ == s@.subrange(a as int, i as int),
        decreases b - i,
    {
        r.push(s[i]);
        assert(s@.subrange(a as int, i + 1) =~= s@.subrange(a as int, i as int).push(s@[i as int]));
        i += 1;
    }
    r
}

/// `n` spaces.
pub fn spaces(n: usize) -> (r: Vec<char>)
    ensures
        r@ == spaces_of(n as nat),
{
    let mut r: Vec<char> = Vec::new();
    let mut i: usize = 0;
    while i < n
        invariant
            i <= n,
            r@ =~= spaces_of(i as nat),
        decreases n - i,
    {
        r.push(' ');
        i += 1;
    }
    r
}

// ---------------------------------------------------------------------------
// Trimming
// ---------------------------------------------------------------------------
/// Removes the leading characters of class `k`.
pub fn strip_start_by(s: &Vec<char>, k: Strip) -> (r: Vec<char>)
    ensures
        r@ == strip_start(s@, k),
{
    let mut i: usize = 0;
    assert(s@.skip(0) =~= s@);
    while i < s.len() && is_stripped(k, s[i])
        invariant
            i <= s.len(),
            strip_start(s@, k) == strip_start(s@.skip(i as int), k),
        decreases s.len() - i,
    {
        assert(s@.skip(i as int).drop_first() =~= s@.skip(i + 1));
        i += 1;
    }
    assert(s@.skip(i as int) =~= s@.subrange(i as int, s.len() as int));
    slice_of(s, i, s.len())
}

/// Removes the trailing characters of class `k`.
pub fn strip_end_by(s: &Vec<char>, k: Strip) -> (r: Vec<char>)
    ensures
        r@ == strip_end(s@, k),
{
    let mut j: usize = s.len();
    assert(s@.take(j as int) =~= s@);
    while j > 0 && is_stripped(k, s[j - 1])
        invariant
            j <= s.len(),
            strip_end(s@, k) == strip_end(s@.take(j as int), k),
        decreases j,
    {
        assert(s@.take(j as int).drop_last() =~= s@.take(j - 1));
        j -= 1;
    }
    assert(s@.take(j as int) =~= s@.subrange(0, j as int));
    slice_of(s, 0, j)
}

/// `str::trim`
pub fn trim(s: &Vec<char>) -> (r: Vec<char>)
    ensures
        r@ == trim_of(s@),
{
    let a = strip_start_by(s, Strip::Space);
    strip_end_by(&a, Strip::Space)
}

/// `str::trim_start`
pub fn trim_start(s: &Vec<char>) -> (r: Vec<char>)
    ensures
        r@ == trim_start_of(s@),
{
    strip_start_by(s, Strip::Space)
}

/// `str::trim_end`
pub fn trim_end(s: &Vec<char>) -> (r: Vec<char>)
    ensures
        r@ == trim_end_of(s@),
{
    strip_end_by(s, Strip::Space)
}

// ---------------------------------------------------------------------------
// Searching
// ---------------------------------------------------------------------------
/// Whether `p` occurs in `s` at position `i`.
pub fn matches_at_vec(s: &Vec<char>, i: usize, p: &Vec<char>) -> (r: bool)
    ensures
        r == matches_at(s@, i as int, p@),
{
    if i > s.len() || p.len() > s.len() - i {
        return false;
    }
    let mut k: usize = 0;
    while k < p.len()
        invariant
            k <= p.len(),
            i + p.len() <= s.len(),
            forall|m: int| 0 <= m < k ==> s@[i + m] == p@[m],
        decreases p.len() - k,
    {
        if s[i + k] != p[k] {
            assert(s@.subrange(i as int, i + p.len())[k as int] != p@[k as int]);
            return false;
        }
        k += 1;
    }
    assert(s@.subrange(i as int, i + p.len()) =~= p@);
    true
}

/// `str::starts_with`
pub fn starts_with(s: &Vec<char>, p: &str) -> (r: bool)
    ensures
        r == starts_with_of(s@, p@),
{
    let pv = chars_of(p);
    matches_at_vec(s, 0, &pv)
}

/// `str::ends_with`
pub fn ends_with(s: &Vec<char>, p: &str) -> (r: bool)
    ensures
        r == ends_with_of(s@, p@),
{
    let pv = chars_of(p);
    if pv.len() > s.len() {
        false
    } else {
        matches_at_vec(s, s.len() - pv.len(), &pv)
    }
}

/// `s` equals `p`.
pub fn eq_str(s: &Vec<char>, p: &str) -> (r: bool)
    ensures
        r == (s@ == p@),
{
    let pv = chars_of(p);
    if pv.len() != s.len() {
        false
    } else {
        let r = matches_at_vec(s, 0, &pv);
        assert(s@.subrange(0, s@.len() as int) =~= s@);
        r
    }
}

/// `str::find`
pub fn find_vec(s: &Vec<char>, p: &Vec<char>) -> (r: Option<usize>)
    ensures
        opt_int(r) == find_of(s@, p@),
{
    if p.len() == 0 {
        assert(s@.subrange(0, 0) =~= p@);
        return Some(0);
    }
    if p.len() > s.len() {
        return None;
    }
    let mut i: usize = 0;
    while i <= s.len() - p.len()
        invariant
            p.len() > 0,
            p.len() <= s.len(),
            find_of(s@, p@) == find_from(s@, p@, i as int),
        decreases s.len() - i,
    {
        if matches_at_vec(s, i, p) {
            return Some(i);
        }
        i += 1;
    }
    None
}

/// `str::find`
pub fn find(s: &Vec<char>, p: &str) -> (r: Option<usize>)
    ensures
        opt_int(r) == find_of(s@, p@),
{
    let pv = chars_of(p);
    find_vec(s, &pv)
}

/// `str::contains`
pub fn contains(s: &Vec<char>, p: &str) -> (r: bool)
    ensures
        r == contains_of(s@, p@),
{
    find(s, p).is_some()
}

/// `str::rfind` with a character.
pub fn rfind_char(s: &Vec<char>, c: char) -> (r: Option<usize>)
    ensures
        opt_int(r) == rfind_of(s@, c),
        r matches Some(i) ==> i < s.len(),
{
    let mut j: usize = s.len();
    assert(s@.take(j as int) =~= s@);
    while j > 0
        invariant
            j <= s.len(),
            rfind_of(s@, c) == rfind_of(s@.take(j as int), c),
        decreases j,
    {
        if s[j - 1] == c {
            return Some(j - 1);
        }
        assert(s@.take(j as int).drop_last() =~= s@.take(j - 1));
        j -= 1;
    }
    None
}

// ---------------------------------------------------------------------------
// Rewriting
// ---------------------------------------------------------------------------
pub proof fn lemma_replace_step(s: Seq<char>, i: int, from: Seq<char>, to: Seq<char>)
    requires
        0 <= i < s.len(),
        from.len() > 0,
    ensures
        matches_at(s, i, from) ==> replace_of(s.skip(i), from, to) == to + replace_of(
            s.skip(i + from.len()),
            from,
            to,
        ),
        !matches_at(s, i, from) ==> replace_of(s.skip(i), from, to) == seq![s[i]] + replace_of(
            s.skip(i + 1),
            from,
            to,
        ),
{
    let t = s.skip(i);
    if matches_at(s, i, from) {
        assert(t.subrange(0, from.len() as int) =~= s.subrange(i, i + from.len()));
        assert(t.skip(from.len() as int) =~= s.skip(i + from.len()));
    } else {
        if matches_at(t, 0, from) {
            assert(t.subrange(0, from.len() as int) =~= s.subrange(i, i + from.len()));
        }
        assert(t.drop_first() =~= s.skip(i + 1));
    }
}

/// `str::replace` for a non-empty pattern.
pub fn replace_vec(s: &Vec<char>, from: &Vec<char>, to: &Vec<char>) -> (r: Vec<char>)
    requires
        from@.len() > 0,
    ensures
        r@ == replace_of(s@, from@, to@),
{
    let mut out: Vec<char> = Vec::new();
    let mut i: usize = 0;
    assert(s@.skip(0) =~= s@);
    while i < s.len()
        invariant
            i <= s.len(),
            from@.len() > 0,
            out@ + replace_of(s@.skip(i as int), from@, to@) == replace_of(s@, from@, to@),
        decreases s.len() - i,
    {
        proof {
            lemma_replace_step(s@, i as int, from@, to@);
        }
        if matches_at_vec(s, i, from) {
            let ghost prev = out@;
            push_chars(&mut out, to);
            assert(out@ + replace_of(s@.skip(i + from@.len()), from@, to@) =~= prev + (to@
                + replace_of(s@.skip(i + from@.len()), from@, to@)));
            i += from.len();
        } else {
            let ghost prev = out@;
            out.push(s[i]);
            assert(out@ + replace_of(s@.skip(i + 1), from@, to@) =~= prev + (seq![s@[i as int]]
                + replace_of(s@.skip(i + 1), from@, to@)));
            i += 1;
        }
    }
    assert(s@.skip(i as int) =~= Seq::<char>::empty());
    assert(out@ + Seq::<char>::empty() =~= out@);
    out
}

/// `str::replace` with literal pattern and replacement.
pub fn replace(s: &Vec<char>, from: &str, to: &str) -> (r: Vec<char>)
    requires
        from@.len() > 0,
    ensures
        r@ == replace_of(s@, from@, to@),
{
    let f = chars_of(from);
    let t = chars_of(to);
    replace_vec(s, &f, &t)
}

// ---------------------------------------------------------------------------
// Splitting
// ---------------------------------------------------------------------------
/// `str::split` with a character.
pub fn split_char(s: &Vec<char>, c: char) -> (r: Vec<Vec<char>>)
    ensures
        views(r@) == split_of(s@, c),
{
    let mut out: Vec<Vec<char>> = Vec::new();
    let mut cur: Vec<char> = Vec::new();
    let mut i: usize = 0;
    assert(s@.skip(0) =~= s@);
    while i < s.len()
        invariant
            i <= s.len(),
            views(out@) + split_acc(s@.skip(i as int), c, cur@) == split_of(s@, c),
        decreases s.len() - i,
    {
        assert(s@.skip(i as int).drop_first() =~= s@.skip(i + 1));
        if s[i] == c {
            let ghost prev = views(out@);
            let ghost pc = cur@;
            out.push(cur);
            assert(views(out@) =~= prev.push(pc));
            cur = Vec::new();
            assert(views(out@) + split_acc(s@.skip(i + 1), c, cur@) =~= prev + (seq![pc]
                + split_acc(s@.skip(i + 1), c, Seq::empty())));
        } else {
            cur.push(s[i]);
        }
        i += 1;
    }
    let ghost prev = views(out@);
    let ghost pc = cur@;
    out.push(cur);
    assert(views(out@) =~= prev.push(pc));
    assert(views(out@) =~= prev + seq![pc]);
    out
}

/// `s.split(c).next()`: the part of `s` before the first `c`.
pub fn before_char(s: &Vec<char>, c: char) -> (r: Vec<char>)
    ensures
        r@ == before_of(s@, c),
{
    let mut r: Vec<char> = Vec::new();
    let mut i: usize = 0;
    assert(s@.skip(0) =~= s@);
    while i < s.len() && s[i] != c
        invariant
            i <= s.len(),
            r@ + before_of(s@.skip(i as int), c) == before_of(s@, c),
        decreases s.len() - i,
    {
        assert(s@.skip(i as int).drop_first() =~= s@.skip(i + 1));
        let ghost prev = r@;
        r.push(s[i]);
        assert(r@ + before_of(s@.skip(i + 1), c) =~= prev + (seq![s@[i as int]] + before_of(
            s@.skip(i + 1),
            c,
        )));
        i += 1;
    }
    assert(r@ + Seq::<char>::empty() =~= r@);
    r
}

/// `str::split_whitespace`
pub fn words(s: &Vec<char>) -> (r: Vec<Vec<char>>)
    ensures
        views(r@) == words_of(s@),
{
    let mut out: Vec<Vec<char>> = Vec::new();
    let mut cur: Vec<char> = Vec::new();
    let mut i: usize = 0;
    assert(s@.skip(0) =~= s@);
    assert(views(out@) + words_of(s@) =~= words_of(s@));
    while i < s.len()
        invariant
            i <= s.len(),
            views(out@) + words_acc(s@.skip(i as int), cur@) == words_of(s@),
        decreases s.len() - i,
    {
        assert(s@.skip(i as int).drop_first() =~= s@.skip(i + 1));
        if is_whitespace(s[i]) {
            let ghost prev = views(out@);
            let ghost pc = cur@;
            if cur.len() > 0 {
                out.push(cur);
                assert(views(out@) =~= prev + seq![pc]);
            } else {
                assert(views(out@) =~= prev + Seq::<Seq<char>>::empty());
            }
            cur = Vec::new();
            assert(views(out@) + words_acc(s@.skip(i + 1), cur@) =~= prev + ((if pc.len()
                > 0 {
                seq![pc]
            } else {
                Seq::<Seq<char>>::empty()
            }) + words_acc(s@.skip(i + 1), Seq::empty())));
        } else {
            cur.push(s[i]);
        }
        i += 1;
    }
    let ghost prev = views(out@);
    let ghost pc = cur@;
    if cur.len() > 0 {
        out.push(cur);
        assert(views(out@) =~= prev + seq![pc]);
    } else {
        assert(views(out@) =~= prev + Seq::<Seq<char>>::empty());
    }
    out
}

/// `str::lines`
pub fn lines(s: &Vec<char>) -> (r: Vec<Vec<char>>)
    ensures
        views(r@) == lines_of(s@),
{
    let mut out: Vec<Vec<char>> = Vec::new();
    let mut cur: Vec<char> = Vec::new();
    let mut i: usize = 0;
    assert(s@.skip(0) =~= s@);
    assert(views(out@) + lines_of(s@) =~= lines_of(s@));
    while i < s.len()
        invariant
            i <= s.len(),
            views(out@) + lines_acc(s@.skip(i as int), cur@) == lines_of(s@),
        decreases s.len() - i,
    {
        assert(s@.skip(i as int).drop_first() =~= s@.skip(i + 1));
        if s[i] == '\n' {
            let ghost prev = views(out@);
            let ghost pc = cur@;
            if cur.len() > 0 && cur[cur.len() - 1] == '\r' {
                cur.pop();
            }
            assert(cur@ == strip_cr(pc));
            let ghost stripped = cur@;
            out.push(cur);
            assert(views(out@) =~= prev + seq![stripped]);
            cur = Vec::new();
            assert(views(out@) + lines_acc(s@.skip(i + 1), cur@) =~= prev + (seq![
                strip_cr(pc),
            ] + lines_acc(s@.skip(i + 1), Seq::empty())));
        } else {
            cur.push(s[i]);
        }
        i += 1;
    }
    let ghost prev = views(out@);
    let ghost pc = cur@;
    if cur.len() > 0 {
        out.push(cur);
        assert(views(out@) =~= prev + seq![pc]);
    } else {
        assert(views(out@) =~= prev + Seq::<Seq<char>>::empty());
    }
    out
}

/// The pieces joined, with `sep` between them.
pub fn join(parts: &Vec<Vec<char>>, sep: &str) -> (r: Vec<char>)
    ensures
        r@ == join_of(views(parts@), sep@),
{
    let ghost ps = views(parts@);
    if parts.len() == 0 {
        return Vec::new();
    }
    let sv = chars_of(sep);
    let mut r = parts[0].clone();
    assert(r@ =~= parts[0]@);
    assert(ps.take(1).drop_last() =~= Seq::<Seq<char>>::empty());
    let mut i: usize = 1;
    while i < parts.len()
        invariant
            1 <= i <= parts.len(),
            ps == views(parts@),
            sv@ == sep@,
            r@ == join_of(ps.take(i as int), sep@),
        decreases parts.len() - i,
    {
        let ghost prev = r@;
        push_chars(&mut r, &sv);
        assert(r@ == prev + sep@);
        let part = &parts[i];
        assert(part@ == parts@[i as int]@);
        push_chars(&mut r, part);
        assert(ps.take(i + 1).drop_last() =~= ps.take(i as int));
        assert(ps.take(i + 1).last() == parts@[i as int]@);
        assert(join_of(ps.take(i + 1), sep@) == join_of(ps.take(i + 1).drop_last(), sep@) + sep@
            + ps.take(i + 1).last());
        assert(r@ =~= prev + sep@ + parts@[i as int]@);
        i += 1;
    }
    assert(ps.take(parts.len() as int) =~= ps);
    r
}

/// The number of spaces at the start of `s`.
pub fn count_leading_spaces(s: &Vec<char>) -> (r: usize)
    ensures
        r as nat == leading_spaces(s@),
        r <= s.len(),
{
    let mut i: usize = 0;
    assert(s@.skip(0) =~= s@);
    while i < s.len() && s[i] == ' '
        invariant
            i <= s.len(),
            i + leading_spaces(s@.skip(i as int)) == leading_spaces(s@),
        decreases s.len() - i,
    {
        assert(s@.skip(i as int).drop_first() =~= s@.skip(i + 1));
        i += 1;
    }
    i
}

/// Every character of `s` is alphanumeric or `_`.
pub fn is_ident(s: &Vec<char>) -> (r: bool)
    ensures
        r == is_ident_of(s@),
{
    let mut i: usize = 0;
    while i < s.len()
        invariant
            i <= s.len(),
            forall|k: int| 0 <= k < i ==> #[trigger] char_alphanumeric(s@[k]) || s@[k] == '_',
        decreases s.len() - i,
    {
        if !(is_alphanumeric(s[i]) || s[i] == '_') {
            return false;
        }
        i += 1;
    }
    true
}

} // verus!

verus! {

/// A match reported by `find_from` lies inside `s`, at or after `i`.
pub proof fn lemma_find_from_bounds(s: Seq<char>, p: Seq<char>, i: int)
    requires
        0 <= i,
    ensures
        find_from(s, p, i) matches Some(k) ==> i <= k && matches_at(s, k, p),
        find_from(s, p, i) is None ==> forall|k: int| i <= k ==> !matches_at(s, k, p),
    decreases s.len() - i,
{
    if i + p.len() > s.len() {
    } else if s.subrange(i, i + p.len()) == p {
    } else {
        if p.len() == 0 {
            assert(s.subrange(i, i + p.len()) =~= p);
        }
        lemma_find_from_bounds(s, p, i + 1);
    }
}

/// A match reported by `find_of` lies inside `s`.
pub proof fn lemma_find_bounds(s: Seq<char>, p: Seq<char>)
    ensures
        find_of(s, p) matches Some(k) ==> 0 <= k && k + p.len() <= s.len() && s.subrange(
            k,
            k + p.len(),
        ) == p,
        find_of(s, p) is None ==> forall|k: int| !matches_at(s, k, p),
{
    lemma_find_from_bounds(s, p, 0);
}

/// Stripping never makes a sequence longer; it keeps a suffix (start) or prefix (end).
pub proof fn lemma_strip_len(s: Seq<char>, k: Strip)
    ensures
        strip_start(s, k).len() <= s.len(),
        strip_end(s, k).len() <= s.len(),
        strip_start(s, k) == s.skip(s.len() - strip_start(s, k).len()),
        strip_end(s, k) == s.take(strip_end(s, k).len() as int),
    decreases s.len(),
{
    if s.len() > 0 && strips(k, s[0]) {
        lemma_strip_len(s.drop_first(), k);
        assert(s.drop_first().skip(s.drop_first().len() - strip_start(s, k).len()) =~= s.skip(
            s.len() - strip_start(s, k).len(),
        ));
    } else {
        assert(s.skip(0) =~= s);
    }
    if s.len() > 0 && strips(k, s.last()) {
        lemma_strip_len(s.drop_last(), k);
        assert(s.drop_last().take(strip_end(s, k).len() as int) =~= s.take(
            strip_end(s, k).len() as int,
        ));
    } else {
        assert(s.take(s.len() as int) =~= s);
    }
}

/// `str::trim` never makes a sequence longer.
pub proof fn lemma_trim_len(s: Seq<char>)
    ensures
        trim_of(s).len() <= s.len(),
{
    lemma_strip_len(s, Strip::Space);
    lemma_strip_len(strip_start(s, Strip::Space), Strip::Space);
}


/// A sequence that starts and ends with a character other than white space
/// is its own trim.
pub proof fn lemma_trim_unchanged(s: Seq<char>)
    requires
        s.len() > 0,
        !is_ws(s[0]),
        !is_ws(s.last()),
    ensures
        trim_of(s) == s,
{
    assert(strip_start(s, Strip::Space) == s);
    assert(strip_end(s, Strip::Space) == s);
}

/// The last character of `s` is where `rfind` finds it.
pub proof fn lemma_rfind_last(s: Seq<char>, c: char)
    requires
        s.len() > 0,
        s.last() == c,
    ensures
        rfind_of(s, c) == Some(s.len() - 1),
{
}

proof fn lemma_find_from_reaches(s: Seq<char>, p: Seq<char>, j: int, i: int)
    requires
        0 <= j <= i,
        matches_at(s, i, p),
    ensures
        find_from(s, p, j) is Some,
    decreases i - j,
{
    if s.subrange(j, j + p.len()) != p {
        lemma_find_from_reaches(s, p, j + 1, i);
    }
}

/// An occurrence of `p` makes `s` contain `p`.
pub proof fn lemma_matches_contains(s: Seq<char>, p: Seq<char>, i: int)
    requires
        matches_at(s, i, p),
    ensures
        contains_of(s, p),
{
    lemma_find_from_reaches(s, p, 0, i);
}

proof fn lemma_find_from_none(s: Seq<char>, p: Seq<char>, k: int, j: int)
    requires
        0 <= k < p.len(),
        0 <= j,
        forall|i: int| 0 <= i < s.len() ==> s[i] != p[k],
    ensures
        find_from(s, p, j) is None,
    decreases s.len() - j,
{
    if j + p.len() <= s.len() {
        assert(s.subrange(j, j + p.len())[k] == s[j + k]);
        lemma_find_from_none(s, p, k, j + 1);
    }
}

/// `s` does not contain `p` when one of the characters of `p` never occurs in `s`.
pub proof fn lemma_not_contains(s: Seq<char>, p: Seq<char>, k: int)
    requires
        0 <= k < p.len(),
        forall|i: int| 0 <= i < s.len() ==> s[i] != p[k],
    ensures
        find_of(s, p) is None,
        !contains_of(s, p),
{
    lemma_find_from_none(s, p, k, 0);
}

proof fn lemma_find_from_char(s: Seq<char>, c: char, i: int, j: int)
    requires
        0 <= j <= i < s.len(),
        s[i] == c,
        forall|k: int| 0 <= k < i ==> s[k] != c,
    ensures
        find_from(s, seq![c], j) == Some(i),
    decreases i - j,
{
    if j < i {
        assert(s.subrange(j, j + 1)[0] == s[j]);
        lemma_find_from_char(s, c, i, j + 1);
    } else {
        assert(s.subrange(j, j + 1) =~= seq![c]);
    }
}

/// The first occurrence of the character `c` is where `find` finds it.
pub proof fn lemma_find_first_char(s: Seq<char>, c: char, i: int)
    requires
        0 <= i < s.len(),
        s[i] == c,
        forall|k: int| 0 <= k < i ==> s[k] != c,
    ensures
        find_of(s, seq![c]) == Some(i),
{
    lemma_find_from_char(s, c, i, 0);
}

/// Stripping the end of `x + y` stops inside `y` when `x` ends in a
/// character that is kept.
pub proof fn lemma_strip_end_concat(x: Seq<char>, y: Seq<char>, k: Strip)
    requires
        x.len() > 0,
        !strips(k, x.last()),
    ensures
        strip_end(x + y, k) == x + strip_end(y, k),
    decreases y.len(),
{
    if y.len() == 0 {
        assert(x + y =~= x);
        assert(strip_end(x, k) == x);
    } else if strips(k, y.last()) {
        assert((x + y).drop_last() =~= x + y.drop_last());
        lemma_strip_end_concat(x, y.drop_last(), k);
    } else {
        assert((x + y).last() == y.last());
    }
}

/// The part of `x + [c] + y` before the first `c` is `x` when `x` holds no `c`.
pub proof fn lemma_before_char(x: Seq<char>, c: char, y: Seq<char>)
    requires
        forall|i: int| 0 <= i < x.len() ==> x[i] != c,
    ensures
        before_of(x + seq![c] + y, c) == x,
    decreases x.len(),
{
    let s = x + seq![c] + y;
    if x.len() > 0 {
        assert(s.drop_first() =~= x.drop_first() + seq![c] + y);
        lemma_before_char(x.drop_first(), c, y);
        assert(x =~= seq![x[0]] + x.drop_first());
    }
}

/// `replace` changes nothing where `from` never occurs.
pub proof fn lemma_replace_none(s: Seq<char>, from: Seq<char>, to: Seq<char>)
    requires
        from.len() > 0,
        forall|j: int| !matches_at(s, j, from),
    ensures
        replace_of(s, from, to) == s,
    decreases s.len(),
{
    if s.len() > 0 {
        assert(!matches_at(s, 0, from));
        let t = s.drop_first();
        assert forall|j: int| !matches_at(t, j, from) by {
            if matches_at(t, j, from) {
                assert(s.subrange(j + 1, j + 1 + from.len()) =~= t.subrange(j, j + from.len()));
                assert(matches_at(s, j + 1, from));
            }
        }
        lemma_replace_none(t, from, to);
        assert(s =~= seq![s[0]] + t);
    }
}

/// `replace` changes nothing when a character of `from` never occurs in `s`.
pub proof fn lemma_replace_absent(s: Seq<char>, from: Seq<char>, to: Seq<char>, k: int)
    requires
        0 <= k < from.len(),
        forall|i: int| 0 <= i < s.len() ==> s[i] != from[k],
    ensures
        replace_of(s, from, to) == s,
{
    assert forall|j: int| !matches_at(s, j, from) by {
        if matches_at(s, j, from) {
            assert(s.subrange(j, j + from.len())[k] == s[j + k]);
        }
    }
    lemma_replace_none(s, from, to);
}

/// `replace` on a text that starts with the pattern replaces that occurrence first.
pub proof fn lemma_replace_prefix(from: Seq<char>, x: Seq<char>, to: Seq<char>)
    requires
        from.len() > 0,
    ensures
        replace_of(from + x, from, to) == to + replace_of(x, from, to),
{
    let s = from + x;
    assert(s.subrange(0, from.len() as int) =~= from);
    assert(s.skip(from.len() as int) =~= x);
}


/// `x + p + y` contains `p`.
pub proof fn lemma_contains_middle(x: Seq<char>, p: Seq<char>, y: Seq<char>)
    ensures
        contains_of(x + p + y, p),
{
    let s = x + p + y;
    assert(s.subrange(x.len() as int, (x.len() + p.len()) as int) =~= p);
    lemma_matches_contains(s, p, x.len() as int);
}

proof fn lemma_replace_shows_to(s: Seq<char>, from: Seq<char>, to: Seq<char>, i: int)
    requires
        from.len() > 0,
        matches_at(s, i, from),
    ensures
        contains_of(replace_of(s, from, to), to),
    decreases s.len(),
{
    if matches_at(s, 0, from) {
        lemma_contains_middle(Seq::empty(), to, replace_of(s.skip(from.len() as int), from, to));
        assert(Seq::<char>::empty() + to + replace_of(s.skip(from.len() as int), from, to)
            =~= replace_of(s, from, to));
    } else {
        let t = s.drop_first();
        assert(t.subrange(i - 1, i - 1 + from.len()) =~= s.subrange(i, i + from.len()));
        lemma_replace_shows_to(t, from, to, i - 1);
        let r = replace_of(t, from, to);
        lemma_find_bounds(r, to);
        let k = find_of(r, to)->Some_0;
        let whole = seq![s[0]] + r;
        assert(whole.subrange(k + 1, k + 1 + to.len()) =~= r.subrange(k, k + to.len()));
        lemma_matches_contains(whole, to, k + 1);
    }
}

/// Replacing a pattern that occurs puts the replacement into the result.
pub proof fn lemma_replace_contains(s: Seq<char>, from: Seq<char>, to: Seq<char>)
    requires
        from.len() > 0,
        contains_of(s, from),
    ensures
        contains_of(replace_of(s, from, to), to),
{
    lemma_find_bounds(s, from);
    lemma_replace_shows_to(s, from, to, find_of(s, from)->Some_0);
}


/// Where a character of `p` occurs only once in `s`, `p` can only be found
/// at the one position that lines it up with that occurrence.
pub proof fn lemma_find_by_unique(s: Seq<char>, p: Seq<char>, k: int, q: int)
    requires
        0 <= k < p.len(),
        0 <= q < s.len(),
        s[q] == p[k],
        forall|i: int| 0 <= i < s.len() && i != q ==> s[i] != p[k],
    ensures
        find_of(s, p) == (if matches_at(s, q - k, p) {
            Some(q - k)
        } else {
            None
        }),
{
    assert forall|j: int| j != q - k implies !matches_at(s, j, p) by {
        if matches_at(s, j, p) {
            assert(s.subrange(j, j + p.len())[k] == s[j + k]);
        }
    }
    lemma_find_bounds(s, p);
    if matches_at(s, q - k, p) {
        lemma_matches_contains(s, p, q - k);
    }
}

/// A text `v + " " + t` whose first word `v` has no space starts with a
/// pattern `w + " " + ...` (`w` without spaces) only when `v` is `w`.
pub proof fn lemma_first_word(v: Seq<char>, t: Seq<char>, p: Seq<char>, n: int)
    requires
        0 <= n < p.len(),
        p[n] == ' ',
        forall|i: int| 0 <= i < n ==> p[i] != ' ',
        forall|i: int| 0 <= i < v.len() ==> v[i] != ' ',
        starts_with_of(v + " "@ + t, p),
    ensures
        v == p.take(n),
{
    reveal_strlit(" ");
    let s = v + " "@ + t;
    assert(forall|i: int| 0 <= i < p.len() ==> s[i] == s.subrange(0, p.len() as int)[i]);
    if v.len() < n {
        assert(s[v.len() as int] == ' ');
    } else if v.len() > n {
        assert(s[n] == v[n]);
    }
    assert(v =~= p.take(n));
}

/// A text `v + " " + t` starts with a pattern without spaces only when its
/// first word `v` does.
pub proof fn lemma_first_word_prefix(v: Seq<char>, t: Seq<char>, p: Seq<char>)
    requires
        forall|i: int| 0 <= i < p.len() ==> p[i] != ' ',
        starts_with_of(v + " "@ + t, p),
    ensures
        starts_with_of(v, p),
{
    reveal_strlit(" ");
    let s = v + " "@ + t;
    assert(forall|i: int| 0 <= i < p.len() ==> s[i] == s.subrange(0, p.len() as int)[i]);
    if v.len() < p.len() {
        assert(s[v.len() as int] == ' ');
    }
    assert(v.subrange(0, p.len() as int) =~= p);
}


/// The last `c` of `x + [c] + tail` is the one after `x` when `tail` holds no `c`.
pub proof fn lemma_rfind_before_tail(x: Seq<char>, c: char, tail: Seq<char>)
    requires
        forall|i: int| 0 <= i < tail.len() ==> tail[i] != c,
    ensures
        rfind_of(x + seq![c] + tail, c) == Some(x.len() as int),
    decreases tail.len(),
{
    let s = x + seq![c] + tail;
    if tail.len() > 0 {
        assert(s.drop_last() =~= x + seq![c] + tail.drop_last());
        assert(s.last() == tail.last());
        lemma_rfind_before_tail(x, c, tail.drop_last());
    } else {
        assert(s =~= x + seq![c]);
    }
}


/// A word with a space before or after it trims back to the word.
pub proof fn lemma_trim_word_space(v: Seq<char>)
    requires
        v.len() > 0,
        !is_ws(v[0]),
        !is_ws(v.last()),
    ensures
        trim_of(v + " "@) == v,
        trim_of(" "@ + v) == v,
{
    reveal_strlit(" ");
    assert((v + " "@)[0] == v[0]);
    assert(strip_start(v + " "@, Strip::Space) == v + " "@);
    lemma_strip_end_concat(v, " "@, Strip::Space);
    assert(" "@.drop_last() =~= Seq::<char>::empty());
    assert(strip_end(" "@, Strip::Space) == Seq::<char>::empty()) by {
        assert(strip_end(Seq::<char>::empty(), Strip::Space) == Seq::<char>::empty());
    }
    assert(v + Seq::<char>::empty() =~= v);
    assert((" "@ + v).drop_first() =~= v);
    assert(strip_start(v, Strip::Space) == v);
    assert(strip_end(v, Strip::Space) == v);
}

} // verus!
