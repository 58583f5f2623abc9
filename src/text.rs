//! Path-like identifier helpers: vendor detection, package names, folders.

use vstd::prelude::*;
use vstd::utf8::{encode_utf8, is_char_boundary, encode_utf8_valid_utf8, is_continuation_byte, is_leading_byte_width_1, length_of_first_scalar, pop_first_scalar, valid_utf8};
use vstd::string::StringSliceAdditionalSpecFns;

verus! {

/// The path marker that separates first-party code from third-party code.
pub open spec fn marker() -> Seq<char> {
    seq!['/', 'n', 'o', 'd', 'e', '_', 'm', 'o', 'd', 'u', 'l', 'e', 's', '/']
}

/// `p` occurs in `s` starting at position `i`.
pub open spec fn occurs_at(s: Seq<char>, p: Seq<char>, i: int) -> bool {
    0 <= i && i + p.len() <= s.len() && s.subrange(i, i + p.len()) == p
}

/// `p` occurs somewhere in `s`.
pub open spec fn contains_seq(s: Seq<char>, p: Seq<char>) -> bool {
    exists|i: int| occurs_at(s, p, i)
}

/// Relies on `str::chars`: the characters of `s`, in order.
#[verifier::external_body]
pub(crate) fn chars_of(s: &str) -> (r: Vec<char>)
    ensures
        r@ == s@,
{
    s.chars().collect()
}

/// Relies on `String: FromIterator<char>`: the string of the characters of `v`.
#[verifier::external_body]
pub(crate) fn string_of(v: &[char]) -> (r: String)
    ensures
        r@ == v@,
{
    v.iter().collect()
}

/// Whether `p` occurs in `s` at position `i`.
fn occurs_at_exec(s: &[char], p: &[char], i: usize) -> (r: bool)
    requires
        i <= s@.len(),
    ensures
        r == occurs_at(s@, p@, i as int),
{
    if p.len() > s.len() - i {
        return false;
    }
    let mut j: usize = 0;
    while j < p.len()
        invariant
            i + p@.len() <= s@.len(),
            s@.len() <= usize::MAX,
            j <= p@.len(),
            forall|k: int| 0 <= k < j ==> s@[i + k] == p@[k],
        decreases p@.len() - j,
    {
        if s[i + j] != p[j] {
            assert(s@.subrange(i as int, i + p@.len())[j as int] != p@[j as int]);
            return false;
        }
        j = j + 1;
    }
    assert(s@.subrange(i as int, i + p@.len()) =~= p@);
    true
}

/// Whether `p` occurs anywhere in `s`.
pub(crate) fn contains_exec(s: &[char], p: &[char]) -> (r: bool)
    ensures
        r == contains_seq(s@, p@),
{
    let mut i: usize = 0;
    while i < s.len()
        invariant
            i <= s@.len(),
            forall|k: int| 0 <= k < i ==> !occurs_at(s@, p@, k),
        decreases s@.len() - i,
    {
        if occurs_at_exec(s, p, i) {
            return true;
        }
        i = i + 1;
    }
    if occurs_at_exec(s, p, i) {
        return true;
    }
    assert forall|k: int| !occurs_at(s@, p@, k) by {
        if 0 <= k && k + p@.len() <= s@.len() {
            assert(k <= i);
        }
    }
    false
}

/// The marker as executable characters.
fn marker_chars() -> (r: Vec<char>)
    ensures
        r@ == marker(),
{
    let r = vec!['/', 'n', 'o', 'd', 'e', '_', 'm', 'o', 'd', 'u', 'l', 'e', 's', '/'];
    assert(r@ =~= marker());
    r
}

/// Returns `true` if `ident` is first-party code: it does not contain the
/// `/node_modules/` marker.
pub fn is_app_code(ident: &str) -> (r: bool)
    ensures
        r == !contains_seq(ident@, marker()),
{
    let chars = chars_of(ident);
    let m = marker_chars();
    !contains_exec(chars.as_slice(), m.as_slice())
}

/// `s` has no `/` at any position in `[from, to)`.
pub open spec fn no_slash_between(s: Seq<char>, from: int, to: int) -> bool {
    forall|k: int| from <= k < to ==> s[k] != '/'
}

/// The folder of the characters `s` at the character position `l`: the prefix
/// of `s` through the first `/` at or after `l` and the position just past it,
/// or all of `s` and no position where there is no such `/`.
pub open spec fn folder_spec(s: Seq<char>, l: int, folder: Seq<char>, next: Option<usize>) -> bool {
    match next {
        Some(n) => l < n <= s.len() && s[n - 1] == '/' && no_slash_between(s, l, n - 1)
            && folder == s.subrange(0, n as int),
        None => no_slash_between(s, l, s.len() as int) && folder == s,
    }
}

/// The first `n` characters of `s`.
pub(crate) fn prefix_of(s: &[char], n: usize) -> (r: Vec<char>)
    requires
        n <= s@.len(),
    ensures
        r@ == s@.subrange(0, n as int),
{
    let mut r: Vec<char> = Vec::new();
    let mut j: usize = 0;
    while j < n
        invariant
            n <= s@.len(),
            j <= n,
            r@ == s@.subrange(0, j as int),
        decreases n - j,
    {
        r.push(s[j]);
        j = j + 1;
        assert(r@ =~= s@.subrange(0, j as int));
    }
    r
}

/// The first `/` in `s` at or after `l`.
pub open spec fn slash_from(s: Seq<char>, l: int) -> Option<int>
    decreases s.len() - l,
{
    if l < 0 || l >= s.len() {
        None
    } else if s[l] == '/' {
        Some(l)
    } else {
        slash_from(s, l + 1)
    }
}

/// The folder of `s` at `l`: through the next `/`, or all of `s`.
pub open spec fn folder_key(s: Seq<char>, l: int) -> Seq<char> {
    match slash_from(s, l) {
        Some(o) => s.subrange(0, o + 1),
        None => s,
    }
}

/// The location past the folder of `s` at `l`, if `s` goes deeper.
pub open spec fn folder_next(s: Seq<char>, l: int) -> Option<usize> {
    match slash_from(s, l) {
        Some(o) => Some((o + 1) as usize),
        None => None,
    }
}

proof fn lemma_slash_from(s: Seq<char>, l: int, from: int)
    requires
        0 <= l <= from <= s.len(),
        no_slash_between(s, l, from),
    ensures
        slash_from(s, l) == slash_from(s, from),
    decreases from - l,
{
    if l < from {
        lemma_slash_from(s, l + 1, from);
    }
}

/// `folder_spec` has one solution: `folder_key` and `folder_next`.
pub proof fn lemma_folder_spec_unique(s: Seq<char>, l: int, folder: Seq<char>, next: Option<usize>)
    requires
        0 <= l <= s.len(),
        folder_spec(s, l, folder, next),
    ensures
        folder == folder_key(s, l),
        next == folder_next(s, l),
{
    match next {
        Some(n) => {
            lemma_slash_from(s, l, n - 1);
        },
        None => {
            lemma_slash_from(s, l, s.len() as int);
        },
    }
}

/// The folder of `ident` at `location`, on characters.
pub(crate) fn folder_of(ident: &[char], location: usize) -> (r: (Vec<char>, Option<usize>))
    requires
        location <= ident@.len(),
    ensures
        folder_spec(ident@, location as int, r.0@, r.1),
        r.0@ == ident@.subrange(0, r.0@.len() as int),
{
    let mut i: usize = location;
    while i < ident.len()
        invariant
            location <= i <= ident@.len(),
            no_slash_between(ident@, location as int, i as int),
        decreases ident@.len() - i,
    {
        if ident[i] == '/' {
            let n = i + 1;
            let folder = prefix_of(ident, n);
            return (folder, Some(n));
        }
        i = i + 1;
    }
    let whole = prefix_of(ident, ident.len());
    assert(whole@ =~= ident@);
    (whole, None)
}

/// What `folder_name` returns for the UTF-8 bytes `b` of an identifier and the
/// byte offset `l`: the identifier through the first `/` byte at or after `l`
/// and the offset just past it, or the whole identifier and no offset where
/// there is no such byte. `folder` is given by its characters.
pub open spec fn folder_bytes_spec(b: Seq<u8>, whole: Seq<char>, l: int, folder: Seq<char>, next: Option<usize>) -> bool {
    match next {
        Some(n) => l < n <= b.len() && b[n - 1] == 0x2f && (forall|k: int| l <= k < n - 1 ==> b[k] != 0x2f)
            && encode_utf8(folder) == b.subrange(0, n as int),
        None => (forall|k: int| l <= k < b.len() ==> b[k] != 0x2f) && folder == whole,
    }
}

/// The offset just past an ASCII byte of valid UTF-8 is a character boundary.
proof fn lemma_ascii_boundary(bytes: Seq<u8>, n: int)
    requires
        valid_utf8(bytes),
        0 < n <= bytes.len(),
        bytes[n - 1] < 0x80,
    ensures
        is_char_boundary(bytes, n),
    decreases bytes.len(),
{
    let l = length_of_first_scalar(bytes);
    let rest = pop_first_scalar(bytes);
    if n - 1 < l {
        if l == 1 {
            assert(is_char_boundary(rest, 0));
        } else if n - 1 == 0 {
            assert(!is_leading_byte_width_1(bytes[0]));
        } else {
            assert(is_continuation_byte(bytes[n - 1]));
        }
    } else {
        assert(rest[n - l - 1] == bytes[n - 1]);
        lemma_ascii_boundary(rest, n - l);
    }
}

/// Returns the folder of `ident` at the byte offset `location`: the prefix
/// through the next `/` at or after `location`, with the offset just past that
/// `/`; or `ident` itself and `None` where no `/` follows.
pub fn folder_name(ident: &str, location: usize) -> (r: (String, Option<usize>))
    requires
        location <= ident.spec_bytes().len(),
        is_char_boundary(ident.spec_bytes(), location as int),
    ensures
        folder_bytes_spec(ident.spec_bytes(), ident@, location as int, r.0@, r.1),
{
    let b = ident.as_bytes();
    let mut i: usize = location;
    while i < b.len()
        invariant
            b@ == ident.spec_bytes(),
            location <= i <= b@.len(),
            forall|k: int| location <= k < i ==> b@[k] != 0x2f,
        decreases b@.len() - i,
    {
        if b[i] == 0x2f {
            let n = i + 1;
            proof {
                encode_utf8_valid_utf8(ident@);
                lemma_ascii_boundary(b@, n as int);
            }
            let (head, _) = ident.split_at(n);
            let folder = head.to_owned();
            return (folder, Some(n));
        }
        i = i + 1;
    }
    (ident.to_owned(), None)
}

/// The package pattern: `/node_modules/`, an optional `@scope/`, and one path
/// segment.
pub open spec fn package_pattern() -> Seq<char> {
    "/node_modules/((?:@[^/]+/)?[^/]+)"@
}

/// The non-overlapping matches of the regular expression `pattern` in `s`, in
/// the order the regex engine reports them.
pub uninterp spec fn regex_matches(pattern: Seq<char>, s: Seq<char>) -> Seq<Seq<char>>;

/// The characters of each string.
pub open spec fn views(ms: Seq<String>) -> Seq<Seq<char>> {
    Seq::new(ms.len(), |i: int| ms[i]@)
}

/// Relies on `regex::Regex::new` and `regex::Regex::find_iter`: the matches of
/// `pattern` in `s`, in order. The package pattern compiles; each of its
/// matches starts with the literal `/node_modules/`, and a text without that
/// literal has none.
#[verifier::external_body]
fn find_matches(pattern: &str, s: &str) -> (r: Vec<String>)
    requires
        pattern@ == package_pattern(),
    ensures
        views(r@) == regex_matches(pattern@, s@),
        forall|i: int| 0 <= i < r@.len() ==> (#[trigger] r@[i])@.len() >= marker().len()
            && r@[i]@.subrange(0, marker().len() as int) == marker(),
        !contains_seq(s@, marker()) ==> r@.len() == 0,
{
    let re = regex::Regex::new(pattern).unwrap();
    re.find_iter(s).map(|m| m.as_str().to_string()).collect()
}

/// The package named by a list of package matches: the last match without its
/// leading marker, or empty where there is no match.
pub open spec fn package_of(ms: Seq<Seq<char>>) -> Seq<char> {
    if ms.len() > 0 && ms.last().len() >= marker().len() {
        ms.last().skip(marker().len() as int)
    } else {
        Seq::empty()
    }
}

/// The package name of `s`: its last package match without the leading marker,
/// or empty where there is none.
pub open spec fn package_spec(s: Seq<char>) -> Seq<char> {
    package_of(regex_matches(package_pattern(), s))
}

/// Returns the package named by the package matches `ms` of an identifier: the
/// last match with its leading `/node_modules/` removed, or the empty string.
pub fn package_of_matches(ms: &Vec<String>) -> (r: String)
    ensures
        r@ == package_of(views(ms@)),
{
    assert(marker().len() == 14);
    if ms.len() == 0 {
        return String::new();
    }
    let chars = chars_of(ms[ms.len() - 1].as_str());
    assert(views(ms@).last() == chars@);
    if chars.len() < 14 {
        return String::new();
    }
    let mut tail: Vec<char> = Vec::new();
    let mut j: usize = 14;
    while j < chars.len()
        invariant
            14 <= j <= chars@.len(),
            tail@ == chars@.subrange(14, j as int),
        decreases chars@.len() - j,
    {
        tail.push(chars[j]);
        j = j + 1;
        assert(tail@ =~= chars@.subrange(14, j as int));
    }
    assert(tail@ =~= chars@.skip(14));
    string_of(tail.as_slice())
}

/// Returns the package name of `ident`: the package segment after the last
/// `/node_modules/` (`@scope/name` for a scoped package), or the empty string.
pub fn package_name(ident: &str) -> (r: String)
    ensures
        r@ == package_spec(ident@),
        !contains_seq(ident@, marker()) ==> r@.len() == 0,
{
    let pattern = "/node_modules/((?:@[^/]+/)?[^/]+)";
    let ms = find_matches(pattern, ident);
    package_of_matches(&ms)
}

} // verus!
