//! Character-level helpers: strings as sequences of characters, ASCII case
//! folding, Unicode white space, searching and joining.
use vstd::prelude::*;
use vstd::string::*;

verus! {

/// Appends one character to a string.
///
/// Trusted: calls `String::push`, which std documents as appending the given
/// `char` to the end of the string; the contract says exactly that.
#[verifier::external_body]
pub(crate) fn push_char(s: &mut String, c: char)
    ensures
        final(s)@ == old(s)@.push(c),
{
    s.push(c);
}

/// The characters of a string slice, in order.
pub fn chars_of(s: &str) -> (v: Vec<char>)
    ensures
        v@ == s@,
{
    let mut v: Vec<char> = Vec::new();
    for c in it: s.chars()
        invariant
            v@ == it.seq().take(it.index() as int),
    {
        v.push(c);
    }
    v
}

/// The ASCII lower-case form of a character: `A`..=`Z` map to `a`..=`z`,
/// every other character is left as it is.
pub open spec fn lower_char(c: char) -> char {
    if 'A' <= c && c <= 'Z' {
        ((c as u32) + 32) as char
    } else {
        c
    }
}

/// The ASCII lower-case form of a sequence of characters.
pub open spec fn lower_seq(s: Seq<char>) -> Seq<char> {
    s.map_values(|c: char| lower_char(c))
}

pub fn lower(c: char) -> (r: char)
    ensures
        r == lower_char(c),
{
    if 'A' <= c && c <= 'Z' {
        ((c as u8) + 32) as char
    } else {
        c
    }
}

/// ASCII lower-casing of a character sequence (as `str::to_ascii_lowercase`).
pub fn to_ascii_lower(v: &Vec<char>) -> (r: Vec<char>)
    ensures
        r@ == lower_seq(v@),
{
    let mut r: Vec<char> = Vec::new();
    for i in 0..v.len()
        invariant
            r@ == lower_seq(v@.take(i as int)),
    {
        r.push(lower(v[i]));
        assert(lower_seq(v@.take(i + 1)) =~= lower_seq(v@.take(i as int)).push(lower_char(v@[i as int])));
    }
    assert(v@.take(v.len() as int) =~= v@);
    r
}

/// The characters with the Unicode `White_Space` property, which is what
/// `char::is_whitespace` and `str::trim` go by.
pub open spec fn is_white_space(c: char) -> bool {
    ||| ('\u{9}' <= c && c <= '\u{d}')
    ||| c == ' '
    ||| c == '\u{85}'
    ||| c == '\u{a0}'
    ||| c == '\u{1680}'
    ||| ('\u{2000}' <= c && c <= '\u{200a}')
    ||| c == '\u{2028}'
    ||| c == '\u{2029}'
    ||| c == '\u{202f}'
    ||| c == '\u{205f}'
    ||| c == '\u{3000}'
}

/// A text is blank when trimming white space from both ends leaves nothing,
/// that is, when every one of its characters is white space.
pub open spec fn is_blank(s: Seq<char>) -> bool {
    forall|i: int| 0 <= i < s.len() ==> is_white_space(#[trigger] s[i])
}

pub fn white_space(c: char) -> (r: bool)
    ensures
        r == is_white_space(c),
{
    ('\u{9}' <= c && c <= '\u{d}') || c == ' ' || c == '\u{85}' || c == '\u{a0}' || c == '\u{1680}'
        || ('\u{2000}' <= c && c <= '\u{200a}') || c == '\u{2028}' || c == '\u{2029}' || c
        == '\u{202f}' || c == '\u{205f}' || c == '\u{3000}'
}

/// Whether a string is empty once white space is trimmed from both ends.
pub fn blank(s: &str) -> (r: bool)
    ensures
        r == is_blank(s@),
{
    let v = chars_of(s);
    for i in 0..v.len()
        invariant
            v@ == s@,
            forall|j: int| 0 <= j < i ==> is_white_space(#[trigger] v@[j]),
    {
        if !white_space(v[i]) {
            return false;
        }
    }
    true
}

/// `needle` stands in `hay` starting at position `i`.
pub open spec fn occurs_at(hay: Seq<char>, needle: Seq<char>, i: int) -> bool {
    0 <= i && i + needle.len() <= hay.len() && hay.subrange(i, i + needle.len()) == needle
}

/// `needle` stands somewhere in `hay` (as `str::contains`).
pub open spec fn occurs_in(hay: Seq<char>, needle: Seq<char>) -> bool {
    exists|i: int| occurs_at(hay, needle, i)
}

/// `hay` begins with `needle` (as `str::starts_with`).
pub open spec fn begins_with(hay: Seq<char>, needle: Seq<char>) -> bool {
    occurs_at(hay, needle, 0)
}

/// `hay` ends with `needle` (as `str::ends_with`).
pub open spec fn finishes_with(hay: Seq<char>, needle: Seq<char>) -> bool {
    occurs_at(hay, needle, hay.len() - needle.len())
}

pub fn matches_at(hay: &Vec<char>, needle: &Vec<char>, i: usize) -> (r: bool)
    ensures
        r == occurs_at(hay@, needle@, i as int),
{
    if i > hay.len() || needle.len() > hay.len() - i {
        return false;
    }
    for j in 0..needle.len()
        invariant
            i + needle.len() <= hay.len(),
            forall|k: int| 0 <= k < j ==> hay@[i + k] == needle@[k],
    {
        if hay[i + j] != needle[j] {
            assert(hay@.subrange(i as int, i + needle@.len())[j as int] != needle@[j as int]);
            return false;
        }
    }
    assert(hay@.subrange(i as int, i + needle@.len()) =~= needle@);
    true
}

pub fn same_chars(a: &Vec<char>, b: &Vec<char>) -> (r: bool)
    ensures
        r == (a@ == b@),
{
    if a.len() != b.len() {
        return false;
    }
    let r = matches_at(a, b, 0);
    assert(a@.subrange(0, a@.len() as int) =~= a@);
    r
}

pub fn starts_with(hay: &Vec<char>, needle: &Vec<char>) -> (r: bool)
    ensures
        r == begins_with(hay@, needle@),
{
    matches_at(hay, needle, 0)
}

pub fn ends_with(hay: &Vec<char>, needle: &Vec<char>) -> (r: bool)
    ensures
        r == finishes_with(hay@, needle@),
{
    if needle.len() > hay.len() {
        return false;
    }
    matches_at(hay, needle, hay.len() - needle.len())
}

pub fn contains(hay: &Vec<char>, needle: &Vec<char>) -> (r: bool)
    ensures
        r == occurs_in(hay@, needle@),
{
    if needle.len() > hay.len() {
        return false;
    }
    let last = hay.len() - needle.len();
    let mut i: usize = 0;
    while i <= last
        invariant
            last + needle@.len() == hay@.len(),
            i <= last + 1,
            forall|k: int| 0 <= k < i ==> !occurs_at(hay@, needle@, k),
        decreases last + 1 - i,
    {
        if matches_at(hay, needle, i) {
            return true;
        }
        if i == last {
            return false;
        }
        i += 1;
    }
    false
}

/// The pieces joined with `sep` between each two of them (as `[String]::join`).
pub open spec fn join(pieces: Seq<Seq<char>>, sep: Seq<char>) -> Seq<char>
    decreases pieces.len(),
{
    if pieces.len() == 0 {
        Seq::empty()
    } else if pieces.len() == 1 {
        pieces[0]
    } else {
        join(pieces.drop_last(), sep) + sep + pieces.last()
    }
}

/// The views of a list of strings.
pub open spec fn views(v: Seq<String>) -> Seq<Seq<char>> {
    v.map_values(|s: String| s@)
}

/// Joins strings with a separator.
pub fn join_strings(pieces: &Vec<String>, sep: &str) -> (r: String)
    ensures
        r@ == join(views(pieces@), sep@),
{
    let mut r = String::new();
    for i in 0..pieces.len()
        invariant
            r@ == join(views(pieces@.take(i as int)), sep@),
    {
        let ghost before = r@;
        assert(views(pieces@.take(i + 1)).drop_last() =~= views(pieces@.take(i as int)));
        if i != 0 {
            r.append(sep);
        }
        r.append(pieces[i].as_str());
        assert(views(pieces@.take(i + 1)).last() == pieces@[i as int]@);
        if i == 0 {
            assert(r@ =~= join(views(pieces@.take(i + 1)), sep@));
        }
    }
    assert(pieces@.take(pieces.len() as int) =~= pieces@);
    r
}

} // verus!
