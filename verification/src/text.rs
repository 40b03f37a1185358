//! Text primitives over characters: searching, splitting, trimming, ordering.
//!
//! A string is modelled by its sequence of characters.
use vstd::prelude::*;
use vstd::utf8::{
    decode_utf8, encode_scalar, encode_utf8, encode_utf8_decode_utf8, encode_utf8_first_scalar,
    encode_utf8_valid_utf8, is_char_boundary, pop_first_scalar,
};

verus! {

// ── Trusted: std string and character functions ─────────────────────────────

/// `String::push` appends the given character to the end of the string.
pub assume_specification[ String::push ](s: &mut String, c: char)
    ensures
        final(s)@ == old(s)@.push(c),
;

/// What `str::to_lowercase` returns for a string that holds characters outside
/// ASCII, by its characters.
pub uninterp spec fn unicode_lowercase(s: Seq<char>) -> Seq<char>;

/// What `char::is_alphanumeric` answers for a character outside ASCII.
pub uninterp spec fn unicode_alphanumeric(c: char) -> bool;

/// What `char::is_numeric` answers for a character outside ASCII.
pub uninterp spec fn unicode_numeric(c: char) -> bool;

/// `str::to_lowercase`: the Unicode lowercase of the string.  On a string of
/// ASCII characters it changes `A`..=`Z` to `a`..=`z` and nothing else.
#[verifier::external_body]
pub(crate) fn to_lowercase(s: &str) -> (r: String)
    ensures
        r@ == lowercase(s@),
        !all_ascii(s@) ==> r@ == unicode_lowercase(s@),
{
    s.to_lowercase()
}

/// `char::is_alphanumeric`: among ASCII characters exactly the letters and the
/// digits satisfy it.
#[verifier::external_body]
pub(crate) fn is_alphanumeric(c: char) -> (r: bool)
    ensures
        r == alphanumeric(c),
        !is_ascii_char(c) ==> r == unicode_alphanumeric(c),
{
    c.is_alphanumeric()
}

/// `char::is_numeric`: among ASCII characters exactly the digits satisfy it.
#[verifier::external_body]
pub(crate) fn is_numeric(c: char) -> (r: bool)
    ensures
        r == numeric(c),
        !is_ascii_char(c) ==> r == unicode_numeric(c),
{
    c.is_numeric()
}

// ── Characters ──────────────────────────────────────────────────────────────

pub open spec fn is_ascii_char(c: char) -> bool {
    (c as u32) < 128
}

pub open spec fn is_ascii_digit(c: char) -> bool {
    '0' <= c <= '9'
}

pub open spec fn is_ascii_upper(c: char) -> bool {
    'A' <= c <= 'Z'
}

pub open spec fn is_ascii_letter(c: char) -> bool {
    is_ascii_upper(c) || 'a' <= c <= 'z'
}

pub open spec fn all_ascii(s: Seq<char>) -> bool {
    forall|i: int| 0 <= i < s.len() ==> is_ascii_char(#[trigger] s[i])
}

pub open spec fn ascii_lower(c: char) -> char {
    if is_ascii_upper(c) {
        ((c as u32) + 32) as char
    } else {
        c
    }
}

pub open spec fn ascii_lowercase(s: Seq<char>) -> Seq<char> {
    s.map_values(|c: char| ascii_lower(c))
}

/// The string in lowercase.
pub open spec fn lowercase(s: Seq<char>) -> Seq<char> {
    if all_ascii(s) {
        ascii_lowercase(s)
    } else {
        unicode_lowercase(s)
    }
}

/// The character is a letter or a number.
pub open spec fn alphanumeric(c: char) -> bool {
    if is_ascii_char(c) {
        is_ascii_digit(c) || is_ascii_letter(c)
    } else {
        unicode_alphanumeric(c)
    }
}

/// The character is a number.
pub open spec fn numeric(c: char) -> bool {
    if is_ascii_char(c) {
        is_ascii_digit(c)
    } else {
        unicode_numeric(c)
    }
}

/// The characters with the Unicode `White_Space` property.
pub open spec fn is_white_space(c: char) -> bool {
    let n = c as u32;
    ||| 0x9 <= n <= 0xd
    ||| n == 0x20
    ||| n == 0x85
    ||| n == 0xa0
    ||| n == 0x1680
    ||| 0x2000 <= n <= 0x200a
    ||| n == 0x2028
    ||| n == 0x2029
    ||| n == 0x202f
    ||| n == 0x205f
    ||| n == 0x3000
}

/// Whether `c` has the Unicode `White_Space` property.
pub fn is_whitespace(c: char) -> (r: bool)
    ensures
        r == is_white_space(c),
{
    let n: u32 = c as u32;
    (0x9 <= n && n <= 0xd) || n == 0x20 || n == 0x85 || n == 0xa0 || n == 0x1680 || (0x2000 <= n
        && n <= 0x200a) || n == 0x2028 || n == 0x2029 || n == 0x202f || n == 0x205f || n == 0x3000
}

/// Whether `c` is one of `0`..=`9`.
pub fn is_digit(c: char) -> (r: bool)
    ensures
        r == is_ascii_digit(c),
{
    '0' <= c && c <= '9'
}

/// Lowercases an ASCII letter and leaves every other character alone.
pub fn lower_ascii_char(c: char) -> (r: char)
    ensures
        r == ascii_lower(c),
{
    if 'A' <= c && c <= 'Z' {
        ((c as u8) + 32u8) as char
    } else {
        c
    }
}

// ── Conversions ─────────────────────────────────────────────────────────────

/// The characters of a string.
pub fn chars_of(s: &str) -> (r: Vec<char>)
    ensures
        r@ == s@,
{
    let mut r: Vec<char> = Vec::new();
    for c in it: s.chars()
        invariant
            it.seq() == s@,
            r@ == s@.take(it.index() as int),
    {
        r.push(c);
    }
    r
}

/// The string with the characters `v[from..to]`.
pub fn string_between(v: &Vec<char>, from: usize, to: usize) -> (r: String)
    requires
        from <= to <= v@.len(),
    ensures
        r@ == v@.subrange(from as int, to as int),
{
    let mut r: String = String::new();
    for i in from..to
        invariant
            from <= to <= v@.len(),
            r@ == v@.subrange(from as int, i as int),
    {
        r.push(v[i]);
        assert(v@.subrange(from as int, i + 1) =~= v@.subrange(from as int, i as int).push(
            v@[i as int],
        ));
    }
    r
}

/// The string with the characters `v`.
pub fn string_of(v: &Vec<char>) -> (r: String)
    ensures
        r@ == v@,
{
    let r = string_between(v, 0, v.len());
    assert(v@.subrange(0, v@.len() as int) =~= v@);
    r
}

/// An owned copy of a string slice.
pub fn owned(s: &str) -> (r: String)
    ensures
        r@ == s@,
{
    s.to_owned()
}

/// `a` followed by `b`.
pub fn concat2(a: &str, b: &str) -> (r: String)
    ensures
        r@ == a@ + b@,
{
    let mut r: String = a.to_owned();
    r.append(b);
    r
}

/// `a` followed by `b` followed by `c`.
pub fn concat3(a: &str, b: &str, c: &str) -> (r: String)
    ensures
        r@ == a@ + b@ + c@,
{
    let mut r: String = a.to_owned();
    r.append(b);
    r.append(c);
    r
}

/// Whether two strings have the same characters.
pub fn same(a: &str, b: &str) -> (r: bool)
    ensures
        r == (a@ == b@),
{
    a.to_owned() == b.to_owned()
}

/// The ASCII lowercase of a string: other characters stay.
pub fn to_ascii_lowercase(s: &str) -> (r: String)
    ensures
        r@ == ascii_lowercase(s@),
{
    let v = chars_of(s);
    let mut r: String = String::new();
    for i in 0..v.len()
        invariant
            v@ == s@,
            r@ == ascii_lowercase(s@.take(i as int)),
    {
        r.push(lower_ascii_char(v[i]));
        assert(ascii_lowercase(s@.take(i + 1)) =~= ascii_lowercase(s@.take(i as int)).push(
            ascii_lower(s@[i as int]),
        ));
    }
    assert(s@.take(s@.len() as int) =~= s@);
    r
}

// ── Searching ───────────────────────────────────────────────────────────────

pub open spec fn has_prefix(s: Seq<char>, p: Seq<char>) -> bool {
    p.len() <= s.len() && s.subrange(0, p.len() as int) == p
}

pub open spec fn has_suffix(s: Seq<char>, p: Seq<char>) -> bool {
    p.len() <= s.len() && s.subrange(s.len() - p.len(), s.len() as int) == p
}

/// `p` occurs in `s` at `i`.
pub open spec fn occurs_at(s: Seq<char>, p: Seq<char>, i: int) -> bool {
    0 <= i && i + p.len() <= s.len() && s.subrange(i, i + p.len()) == p
}

/// `p` occurs somewhere in `s`.
pub open spec fn has_infix(s: Seq<char>, p: Seq<char>) -> bool {
    exists|i: int| occurs_at(s, p, i)
}

/// The index of the first `c` in `s`, or the length of `s` if there is none.
pub open spec fn first_index(s: Seq<char>, c: char) -> int
    decreases s.len(),
{
    if s.len() == 0 {
        0
    } else if s[0] == c {
        0
    } else {
        1 + first_index(s.skip(1), c)
    }
}

/// One past the index of the last `c` in `s`, or 0 if there is none.
pub open spec fn after_last(s: Seq<char>, c: char) -> int
    decreases s.len(),
{
    if s.len() == 0 {
        0
    } else if s.last() == c {
        s.len() as int
    } else {
        after_last(s.drop_last(), c)
    }
}

/// What `first_index` says, without recursion.
pub proof fn lemma_first_index(s: Seq<char>, c: char)
    ensures
        0 <= first_index(s, c) <= s.len(),
        forall|i: int| 0 <= i < first_index(s, c) ==> s[i] != c,
        first_index(s, c) < s.len() ==> s[first_index(s, c)] == c,
        first_index(s, c) == s.len() <==> !s.contains(c),
    decreases s.len(),
{
    if s.len() > 0 && s[0] != c {
        lemma_first_index(s.skip(1), c);
        let k = first_index(s.skip(1), c);
        assert forall|i: int| 0 <= i < 1 + k implies s[i] != c by {
            if i > 0 {
                assert(s.skip(1)[i - 1] == s[i]);
            }
        }
        if s.contains(c) {
            let j = choose|j: int| 0 <= j < s.len() && s[j] == c;
            assert(s.skip(1)[j - 1] == c);
        }
    }
}

/// The first index is determined by what precedes it.
pub proof fn lemma_first_index_is(s: Seq<char>, c: char, k: int)
    requires
        0 <= k <= s.len(),
        forall|i: int| 0 <= i < k ==> s[i] != c,
        k < s.len() ==> s[k] == c,
    ensures
        first_index(s, c) == k,
{
    lemma_first_index(s, c);
}

/// What `after_last` says, without recursion.
pub proof fn lemma_after_last(s: Seq<char>, c: char)
    ensures
        0 <= after_last(s, c) <= s.len(),
        forall|i: int| after_last(s, c) <= i < s.len() ==> s[i] != c,
        after_last(s, c) > 0 ==> s[after_last(s, c) - 1] == c,
    decreases s.len(),
{
    if s.len() > 0 && s.last() != c {
        lemma_after_last(s.drop_last(), c);
        assert forall|i: int| after_last(s, c) <= i < s.len() implies s[i] != c by {
            if i < s.len() - 1 {
                assert(s.drop_last()[i] == s[i]);
            }
        }
    }
}

/// The index of the first `c` in `v` at or after `from`, or the length of `v`.
pub fn index_from(v: &Vec<char>, c: char, from: usize) -> (r: usize)
    requires
        from <= v@.len(),
    ensures
        r == from + first_index(v@.skip(from as int), c),
        from <= r <= v@.len(),
{
    let mut i: usize = from;
    while i < v.len() && v[i] != c
        invariant
            from <= i <= v@.len(),
            forall|j: int| from <= j < i ==> v@[j] != c,
        decreases v@.len() - i,
    {
        i += 1;
    }
    proof {
        let t = v@.skip(from as int);
        assert forall|j: int| 0 <= j < i - from implies t[j] != c by {
            assert(t[j] == v@[from + j]);
        }
        lemma_first_index_is(t, c, i - from);
    }
    i
}

/// Whether `p` occurs in `v` at `i`.
fn matches_at(v: &Vec<char>, p: &Vec<char>, i: usize) -> (r: bool)
    requires
        i <= v@.len(),
    ensures
        r == occurs_at(v@, p@, i as int),
{
    if p.len() > v.len() - i {
        return false;
    }
    for j in 0..p.len()
        invariant
            i + p.len() <= v.len(),
            forall|k: int| 0 <= k < j ==> v@[i + k] == p@[k],
    {
        if v[i + j] != p[j] {
            proof {
                assert(v@.subrange(i as int, i + p@.len())[j as int] != p@[j as int]);
            }
            return false;
        }
    }
    assert(v@.subrange(i as int, i + p@.len()) =~= p@);
    true
}

/// Whether `s` begins with `p`.
pub fn starts_with(s: &str, p: &str) -> (r: bool)
    ensures
        r == has_prefix(s@, p@),
{
    matches_at(&chars_of(s), &chars_of(p), 0)
}

/// Whether `s` ends with `p`.
pub fn ends_with(s: &str, p: &str) -> (r: bool)
    ensures
        r == has_suffix(s@, p@),
{
    let v = chars_of(s);
    let q = chars_of(p);
    if q.len() > v.len() {
        return false;
    }
    matches_at(&v, &q, v.len() - q.len())
}

/// Whether `p` occurs in `s`.
pub fn contains(s: &str, p: &str) -> (r: bool)
    ensures
        r == has_infix(s@, p@),
{
    let v = chars_of(s);
    let q = chars_of(p);
    let mut i: usize = 0;
    while i <= v.len()
        invariant
            v@ == s@,
            q@ == p@,
            i <= v@.len() + 1,
            forall|j: int| 0 <= j < i ==> !occurs_at(s@, p@, j),
        decreases v@.len() + 1 - i,
    {
        if matches_at(&v, &q, i) {
            return true;
        }
        if i == v.len() {
            proof {
                assert forall|j: int| !occurs_at(s@, p@, j) by {}
            }
            return false;
        }
        i += 1;
    }
    false
}

/// The rest of `s` after the prefix `p`, if it has that prefix.
pub fn strip_prefix(s: &str, p: &str) -> (r: Option<String>)
    ensures
        match r {
            Some(t) => has_prefix(s@, p@) && t@ == s@.skip(p@.len() as int),
            None => !has_prefix(s@, p@),
        },
{
    let v = chars_of(s);
    let q = chars_of(p);
    if matches_at(&v, &q, 0) {
        let t = string_between(&v, q.len(), v.len());
        assert(s@.skip(p@.len() as int) =~= s@.subrange(p@.len() as int, s@.len() as int));
        Some(t)
    } else {
        None
    }
}

/// `s` without the suffix `p`, if it has that suffix.
pub fn strip_suffix(s: &str, p: &str) -> (r: Option<String>)
    ensures
        match r {
            Some(t) => has_suffix(s@, p@) && t@ == s@.take(s@.len() - p@.len()),
            None => !has_suffix(s@, p@),
        },
{
    let v = chars_of(s);
    let q = chars_of(p);
    if q.len() <= v.len() && matches_at(&v, &q, v.len() - q.len()) {
        let t = string_between(&v, 0, v.len() - q.len());
        assert(s@.take(s@.len() - p@.len()) =~= s@.subrange(0, s@.len() - p@.len()));
        Some(t)
    } else {
        None
    }
}

// ── Replacing and filtering ─────────────────────────────────────────────────

/// `s` with every `from` replaced by `to`.
pub open spec fn replaced(s: Seq<char>, from: char, to: char) -> Seq<char> {
    s.map_values(|c: char| if c == from { to } else { c })
}

/// Replaces every character `from` by `to`.
pub fn replace_char(s: &str, from: char, to: char) -> (r: String)
    ensures
        r@ == replaced(s@, from, to),
{
    let v = chars_of(s);
    let mut r: String = String::new();
    for i in 0..v.len()
        invariant
            v@ == s@,
            r@ == replaced(s@.take(i as int), from, to),
    {
        let c = v[i];
        r.push(if c == from { to } else { c });
        assert(replaced(s@.take(i + 1), from, to) =~= replaced(s@.take(i as int), from, to).push(
            if c == from { to } else { c },
        ));
    }
    assert(s@.take(s@.len() as int) =~= s@);
    r
}

// ── Trimming ────────────────────────────────────────────────────────────────

/// `s` without the leading characters equal to `c`.
pub open spec fn trimmed_start(s: Seq<char>, c: char) -> Seq<char>
    decreases s.len(),
{
    if s.len() > 0 && s[0] == c {
        trimmed_start(s.skip(1), c)
    } else {
        s
    }
}

/// `s` without the trailing characters equal to `c`.
pub open spec fn trimmed_end(s: Seq<char>, c: char) -> Seq<char>
    decreases s.len(),
{
    if s.len() > 0 && s.last() == c {
        trimmed_end(s.drop_last(), c)
    } else {
        s
    }
}

/// `s` without leading white space.
pub open spec fn trimmed_front(s: Seq<char>) -> Seq<char>
    decreases s.len(),
{
    if s.len() > 0 && is_white_space(s[0]) {
        trimmed_front(s.skip(1))
    } else {
        s
    }
}

/// `s` without trailing white space.
pub open spec fn trimmed_back(s: Seq<char>) -> Seq<char>
    decreases s.len(),
{
    if s.len() > 0 && is_white_space(s.last()) {
        trimmed_back(s.drop_last())
    } else {
        s
    }
}

/// `s` without leading and trailing white space.
pub open spec fn trimmed(s: Seq<char>) -> Seq<char> {
    trimmed_back(trimmed_front(s))
}

/// Removes every leading `c`.
pub fn trim_start_matches(s: &str, c: char) -> (r: String)
    ensures
        r@ == trimmed_start(s@, c),
{
    let v = chars_of(s);
    let mut i: usize = 0;
    assert(s@.skip(0) =~= s@);
    while i < v.len() && v[i] == c
        invariant
            v@ == s@,
            i <= v@.len(),
            trimmed_start(s@, c) == trimmed_start(s@.skip(i as int), c),
        decreases v@.len() - i,
    {
        assert(s@.skip(i as int).skip(1) =~= s@.skip(i + 1));
        i += 1;
    }
    let r = string_between(&v, i, v.len());
    assert(r@ =~= s@.skip(i as int));
    r
}

/// Removes every trailing `c`.
pub fn trim_end_matches(s: &str, c: char) -> (r: String)
    ensures
        r@ == trimmed_end(s@, c),
{
    let v = chars_of(s);
    let mut n: usize = v.len();
    assert(s@.take(n as int) =~= s@);
    while n > 0 && v[n - 1] == c
        invariant
            v@ == s@,
            n <= v@.len(),
            trimmed_end(s@, c) == trimmed_end(s@.take(n as int), c),
        decreases n,
    {
        assert(s@.take(n as int).drop_last() =~= s@.take(n - 1));
        n -= 1;
    }
    let r = string_between(&v, 0, n);
    assert(r@ =~= s@.take(n as int));
    r
}

/// Removes leading and trailing white space.
pub fn trim(s: &str) -> (r: String)
    ensures
        r@ == trimmed(s@),
{
    let v = chars_of(s);
    let mut i: usize = 0;
    assert(s@.skip(0) =~= s@);
    while i < v.len() && is_whitespace(v[i])
        invariant
            v@ == s@,
            i <= v@.len(),
            trimmed_front(s@) == trimmed_front(s@.skip(i as int)),
        decreases v@.len() - i,
    {
        assert(s@.skip(i as int).skip(1) =~= s@.skip(i + 1));
        i += 1;
    }
    let mut n: usize = v.len();
    let ghost t = s@.skip(i as int);
    assert(t == trimmed_front(s@));
    assert(t.take(n - i) =~= t);
    while n > i && is_whitespace(v[n - 1])
        invariant
            v@ == s@,
            i <= n <= v@.len(),
            t == s@.skip(i as int),
            trimmed_back(t) == trimmed_back(t.take(n - i)),
        decreases n,
    {
        assert(t.take(n - i).drop_last() =~= t.take(n - i - 1));
        assert(t.take(n - i).last() == v@[n - 1]);
        n -= 1;
    }
    let r = string_between(&v, i, n);
    assert(r@ =~= t.take(n - i));
    assert(n > i ==> t.take(n - i).last() == v@[n - 1]);
    r
}

// ── Splitting ───────────────────────────────────────────────────────────────

/// The pieces of `s` between the occurrences of `c`: one more than there are
/// occurrences.
pub open spec fn pieces(s: Seq<char>, c: char) -> Seq<Seq<char>>
    decreases s.len(),
{
    if s.len() == 0 {
        seq![Seq::empty()]
    } else {
        let p = pieces(s.drop_last(), c);
        if s.last() == c {
            p.push(Seq::empty())
        } else {
            p.drop_last().push(p.last().push(s.last()))
        }
    }
}

pub proof fn lemma_pieces_nonempty(s: Seq<char>, c: char)
    ensures
        pieces(s, c).len() >= 1,
    decreases s.len(),
{
    if s.len() > 0 {
        lemma_pieces_nonempty(s.drop_last(), c);
    }
}

/// Splits a string at every `c`.
pub fn split(s: &str, c: char) -> (r: Vec<String>)
    ensures
        r.deep_view() == pieces(s@, c),
        r@.len() >= 1,
{
    let v = chars_of(s);
    let mut r: Vec<String> = Vec::new();
    let mut cur: String = String::new();
    assert(pieces(s@.take(0), c) =~= r.deep_view().push(cur@));
    for i in 0..v.len()
        invariant
            v@ == s@,
            pieces(s@.take(i as int), c) == r.deep_view().push(cur@),
    {
        assert(s@.take(i + 1).drop_last() =~= s@.take(i as int));
        let ghost before = r.deep_view();
        let ghost piece = cur@;
        if v[i] == c {
            r.push(cur);
            cur = String::new();
            assert(r.deep_view() =~= before.push(piece));
        } else {
            cur.push(v[i]);
            assert(before.push(piece).drop_last() =~= before);
        }
    }
    let ghost before = r.deep_view();
    let ghost piece = cur@;
    r.push(cur);
    assert(r.deep_view() =~= before.push(piece));
    assert(s@.take(s@.len() as int) =~= s@);
    r
}

/// A line without the carriage return at its end.
pub open spec fn without_cr(s: Seq<char>) -> Seq<char> {
    if s.len() > 0 && s.last() == '\r' {
        s.drop_last()
    } else {
        s
    }
}

/// The lines of `s`: the pieces that a line feed ends, each without a carriage
/// return before it, and what follows the last line feed unless that is empty.
pub open spec fn lines_of(s: Seq<char>) -> Seq<Seq<char>> {
    let p = pieces(s, '\n');
    let ended = p.drop_last().map_values(|l: Seq<char>| without_cr(l));
    if p.last().len() == 0 {
        ended
    } else {
        ended.push(p.last())
    }
}

/// Splits a text into its lines.
pub fn lines(s: &str) -> (r: Vec<String>)
    ensures
        r.deep_view() == lines_of(s@),
{
    let p = split(s, '\n');
    let ghost pv = p.deep_view();
    let mut r: Vec<String> = Vec::new();
    let n: usize = p.len() - 1;
    for i in 0..n
        invariant
            n == p@.len() - 1,
            pv == p.deep_view(),
            r.deep_view() =~= pv.take(i as int).map_values(|l: Seq<char>| without_cr(l)),
    {
        let v = chars_of(p[i].as_str());
        let ghost before = r.deep_view();
        assert(v@ == pv[i as int]);
        let line = if v.len() > 0 && v[v.len() - 1] == '\r' {
            let t = string_between(&v, 0, v.len() - 1);
            assert(t@ =~= v@.drop_last());
            t
        } else {
            string_of(&v)
        };
        assert(line@ == without_cr(pv[i as int]));
        r.push(line);
        assert(r.deep_view() =~= before.push(without_cr(pv[i as int])));
    }
    assert(pv.take(n as int) =~= pv.drop_last());
    if !p[n].as_str().is_empty() {
        let ghost before = r.deep_view();
        r.push(p[n].clone());
        assert(r.deep_view() =~= before.push(pv.last()));
    }
    r
}

// ── Byte offsets ────────────────────────────────────────────────────────────

/// The length of a string in bytes.
pub open spec fn byte_len(s: Seq<char>) -> usize {
    encode_utf8(s).len() as usize
}

/// What follows the first `n` bytes of `s`, if they end at a character.
pub open spec fn from_byte(s: Seq<char>, n: int) -> Option<Seq<char>> {
    if is_char_boundary(encode_utf8(s), n) {
        Some(decode_utf8(encode_utf8(s).skip(n)))
    } else {
        None
    }
}

/// What follows the first `n` bytes of `s`, if they end at a character.
pub fn suffix_from_byte(s: &str, n: usize) -> (r: Option<String>)
    ensures
        r.deep_view() == from_byte(s@, n as int),
{
    if !s.is_char_boundary(n) {
        return None;
    }
    let (_, rest) = s.split_at(n);
    proof {
        broadcast use encode_utf8_decode_utf8;

        assert(encode_utf8(rest@) =~= encode_utf8(s@).skip(n as int));
        assert(decode_utf8(encode_utf8(rest@)) == rest@);
    }
    Some(rest.to_owned())
}

/// The last `n` bytes of `s`, if they start at a character.
pub open spec fn last_bytes(s: Seq<char>, n: int) -> Option<Seq<char>> {
    if n <= byte_len(s) {
        from_byte(s, byte_len(s) - n)
    } else {
        None
    }
}

/// The last `n` bytes of `s`, if they start at a character.
pub fn suffix_of_bytes(s: &str, n: usize) -> (r: Option<String>)
    ensures
        r.deep_view() == last_bytes(s@, n as int),
{
    let len: usize = s.len();
    if n <= len {
        suffix_from_byte(s, len - n)
    } else {
        None
    }
}

// ── Lists of strings ────────────────────────────────────────────────────────

/// What stands before the first slash.
pub open spec fn first_piece(s: Seq<char>) -> Seq<char> {
    s.take(first_index(s, '/'))
}

/// The part of a path before its first slash.
pub fn first_component(s: &str) -> (r: String)
    ensures
        r@ == first_piece(s@),
{
    let v = chars_of(s);
    let k = index_from(&v, '/', 0);
    assert(v@.skip(0) =~= s@);
    let r = string_between(&v, 0, k);
    assert(r@ =~= first_piece(s@));
    r
}

/// Whether a list of strings contains `s`.
pub fn is_among(list: &Vec<&str>, s: &str) -> (r: bool)
    ensures
        r == list.deep_view().contains(s@),
{
    let ghost all = list.deep_view();
    for i in 0..list.len()
        invariant
            all == list.deep_view(),
            forall|j: int| 0 <= j < i ==> #[trigger] all[j] != s@,
    {
        assert(all[i as int] == list@[i as int]@);
        if same(list[i], s) {
            return true;
        }
    }
    false
}

/// Whether a list of owned strings contains `s`.
pub fn is_listed(list: &Vec<String>, s: &str) -> (r: bool)
    ensures
        r == list.deep_view().contains(s@),
{
    let ghost all = list.deep_view();
    for i in 0..list.len()
        invariant
            all == list.deep_view(),
            forall|j: int| 0 <= j < i ==> #[trigger] all[j] != s@,
    {
        assert(all[i as int] == list@[i as int]@);
        if same(list[i].as_str(), s) {
            return true;
        }
    }
    false
}

/// The strings of `s` that are not empty, each once, where it first stood.
pub open spec fn distinct(s: Seq<Seq<char>>) -> Seq<Seq<char>>
    decreases s.len(),
{
    if s.len() == 0 {
        Seq::empty()
    } else {
        let before = distinct(s.drop_last());
        if s.last().len() == 0 || before.contains(s.last()) {
            before
        } else {
            before.push(s.last())
        }
    }
}

/// Adds a string to a list unless it is empty or there already; says whether
/// it was added.
pub fn add_distinct(list: &mut Vec<String>, s: String) -> (added: bool)
    ensures
        added == !(s@.len() == 0 || old(list).deep_view().contains(s@)),
        final(list).deep_view() == if added {
            old(list).deep_view().push(s@)
        } else {
            old(list).deep_view()
        },
{
    if s.as_str().is_empty() || is_listed(list, s.as_str()) {
        return false;
    }
    let ghost before = list.deep_view();
    let ghost sv = s@;
    list.push(s);
    assert(list.deep_view() =~= before.push(sv));
    true
}

// ── Ordering ────────────────────────────────────────────────────────────────

/// Lexicographic order by character code: the order of `str`.
pub open spec fn precedes(a: Seq<char>, b: Seq<char>) -> bool
    decreases a.len(),
{
    if b.len() == 0 {
        false
    } else if a.len() == 0 {
        true
    } else if a[0] != b[0] {
        a[0] < b[0]
    } else {
        precedes(a.skip(1), b.skip(1))
    }
}

/// `a` does not come after `b`.
pub open spec fn not_after(a: Seq<char>, b: Seq<char>) -> bool {
    !precedes(b, a)
}

pub proof fn lemma_precedes_total(a: Seq<char>, b: Seq<char>)
    ensures
        a == b || precedes(a, b) || precedes(b, a),
        !(precedes(a, b) && precedes(b, a)),
        !precedes(a, a),
    decreases a.len(),
{
    if a.len() > 0 {
        assert(a.skip(1).len() < a.len());
        lemma_precedes_total(a.skip(1), a.skip(1));
    }
    if a.len() > 0 && b.len() > 0 && a[0] == b[0] {
        lemma_precedes_total(a.skip(1), b.skip(1));
        if a.skip(1) == b.skip(1) {
            assert(a =~= seq![a[0]] + a.skip(1));
            assert(b =~= seq![b[0]] + b.skip(1));
        }
    } else if a.len() == 0 && b.len() == 0 {
        assert(a =~= b);
    }
}

pub proof fn lemma_precedes_transitive(a: Seq<char>, b: Seq<char>, c: Seq<char>)
    requires
        precedes(a, b),
        precedes(b, c),
    ensures
        precedes(a, c),
    decreases a.len(),
{
    if a.len() > 0 && a[0] == b[0] && b[0] == c[0] {
        lemma_precedes_transitive(a.skip(1), b.skip(1), c.skip(1));
    }
}

pub proof fn lemma_not_after_transitive(a: Seq<char>, b: Seq<char>, c: Seq<char>)
    ensures
        not_after(a, b) && not_after(b, c) ==> not_after(a, c),
{
    lemma_precedes_total(a, b);
    lemma_precedes_total(b, c);
    if not_after(a, b) && not_after(b, c) && precedes(c, a) {
        if a != b && b != c {
            lemma_precedes_transitive(a, b, c);
            lemma_precedes_total(a, c);
        }
    }
}

/// Whether `a` comes before `b` in the order of strings.
pub fn less(a: &str, b: &str) -> (r: bool)
    ensures
        r == precedes(a@, b@),
{
    let x = chars_of(a);
    let y = chars_of(b);
    let mut i: usize = 0;
    assert(x@.skip(0) =~= x@ && y@.skip(0) =~= y@);
    while i < x.len() && i < y.len()
        invariant
            x@ == a@,
            y@ == b@,
            i <= x@.len(),
            i <= y@.len(),
            precedes(x@, y@) == precedes(x@.skip(i as int), y@.skip(i as int)),
        decreases x@.len() - i,
    {
        if x[i] != y[i] {
            return x[i] < y[i];
        }
        assert(x@.skip(i as int).skip(1) =~= x@.skip(i + 1));
        assert(y@.skip(i as int).skip(1) =~= y@.skip(i + 1));
        i += 1;
    }
    i < y.len()
}

// ── Stable sorting ──────────────────────────────────────────────────────────

/// Where a stable insertion puts `x`: behind the last element that may stand
/// before it.
pub open spec fn insertion_point<A>(s: Seq<A>, x: A, leq: spec_fn(A, A) -> bool) -> int
    decreases s.len(),
{
    if s.len() == 0 {
        0
    } else if leq(s.last(), x) {
        s.len() as int
    } else {
        insertion_point(s.drop_last(), x, leq)
    }
}

/// The elements of `s` in the order `leq`, equal ones as they stood.
pub open spec fn stably_sorted<A>(s: Seq<A>, leq: spec_fn(A, A) -> bool) -> Seq<A>
    decreases s.len(),
{
    if s.len() == 0 {
        s
    } else {
        let t = stably_sorted(s.drop_last(), leq);
        t.insert(insertion_point(t, s.last(), leq), s.last())
    }
}

/// `leq` is a total preorder.
pub open spec fn total_preorder<A>(leq: spec_fn(A, A) -> bool) -> bool {
    &&& forall|a: A, b: A| #[trigger] leq(a, b) || leq(b, a)
    &&& forall|a: A, b: A, c: A| #[trigger] leq(a, b) && #[trigger] leq(b, c) ==> leq(a, c)
}

pub open spec fn in_order<A>(s: Seq<A>, leq: spec_fn(A, A) -> bool) -> bool {
    forall|i: int, j: int| 0 <= i <= j < s.len() ==> leq(#[trigger] s[i], #[trigger] s[j])
}

pub proof fn lemma_insertion_point<A>(s: Seq<A>, x: A, leq: spec_fn(A, A) -> bool)
    ensures
        0 <= insertion_point(s, x, leq) <= s.len(),
        insertion_point(s, x, leq) > 0 ==> leq(s[insertion_point(s, x, leq) - 1], x),
        forall|i: int| insertion_point(s, x, leq) <= i < s.len() ==> !leq(#[trigger] s[i], x),
    decreases s.len(),
{
    if s.len() > 0 && !leq(s.last(), x) {
        lemma_insertion_point(s.drop_last(), x, leq);
        assert forall|i: int| insertion_point(s, x, leq) <= i < s.len() implies !leq(
            #[trigger] s[i],
            x,
        ) by {
            if i < s.len() - 1 {
                assert(s.drop_last()[i] == s[i]);
            }
        }
    }
}

/// A stable sort keeps the elements and their number.
pub proof fn lemma_sorted_keeps<A>(s: Seq<A>, leq: spec_fn(A, A) -> bool)
    ensures
        stably_sorted(s, leq).len() == s.len(),
        stably_sorted(s, leq).to_multiset() =~= s.to_multiset(),
    decreases s.len(),
{
    broadcast use vstd::seq_lib::group_to_multiset_ensures;

    if s.len() > 0 {
        let rest = s.drop_last();
        let t = stably_sorted(rest, leq);
        lemma_sorted_keeps(rest, leq);
        lemma_insertion_point(t, s.last(), leq);
        vstd::seq_lib::to_multiset_insert(t, insertion_point(t, s.last(), leq), s.last());
        assert(s =~= rest.push(s.last()));
    }
}

/// What a stable sort puts out are the elements that went in.
pub proof fn lemma_sorted_from<A>(s: Seq<A>, leq: spec_fn(A, A) -> bool, i: int)
    requires
        0 <= i < s.len(),
    ensures
        stably_sorted(s, leq).len() == s.len(),
        s.contains(stably_sorted(s, leq)[i]),
{
    broadcast use vstd::seq_lib::group_to_multiset_ensures;

    lemma_sorted_keeps(s, leq);
    let t = stably_sorted(s, leq);
    assert(t.contains(t[i]));
    assert(t.to_multiset().count(t[i]) > 0);
}

/// A stable sort keeps the elements and their number and puts them in order.
pub proof fn lemma_stably_sorted<A>(s: Seq<A>, leq: spec_fn(A, A) -> bool)
    requires
        total_preorder(leq),
    ensures
        stably_sorted(s, leq).len() == s.len(),
        stably_sorted(s, leq).to_multiset() =~= s.to_multiset(),
        in_order(stably_sorted(s, leq), leq),
    decreases s.len(),
{
    broadcast use vstd::seq_lib::group_to_multiset_ensures;

    if s.len() > 0 {
        let rest = s.drop_last();
        let t = stably_sorted(rest, leq);
        let x = s.last();
        lemma_stably_sorted(rest, leq);
        lemma_insertion_point(t, x, leq);
        let p = insertion_point(t, x, leq);
        let r = t.insert(p, x);
        vstd::seq_lib::to_multiset_insert(t, p, x);
        assert(s =~= rest.push(x));
        assert forall|i: int, j: int| 0 <= i <= j < r.len() implies leq(
            #[trigger] r[i],
            #[trigger] r[j],
        ) by {
            assert(leq(x, x));
            if j < p {
                assert(r[i] == t[i] && r[j] == t[j]);
            } else if j == p {
                if i < p {
                    assert(leq(t[i], t[p - 1]));
                }
            } else if i == p {
                assert(leq(t[j - 1], x) || leq(x, t[j - 1]));
            } else if i < p {
                assert(leq(t[i], t[j - 1]));
            } else {
                assert(leq(t[i - 1], t[j - 1]));
            }
        }
    }
}

/// Where each element of `stably_sorted(s, leq)` stood in `s`.
pub open spec fn sorted_positions<A>(s: Seq<A>, leq: spec_fn(A, A) -> bool) -> Seq<int>
    decreases s.len(),
{
    if s.len() == 0 {
        Seq::empty()
    } else {
        sorted_positions(s.drop_last(), leq).insert(
            insertion_point(stably_sorted(s.drop_last(), leq), s.last(), leq),
            s.len() - 1,
        )
    }
}

/// A stable sort puts each element where the order wants it, and those that the
/// order does not tell apart in the order in which they stood.
pub proof fn lemma_sorted_positions<A>(s: Seq<A>, leq: spec_fn(A, A) -> bool)
    requires
        total_preorder(leq),
    ensures
        stably_sorted(s, leq).len() == s.len(),
        sorted_positions(s, leq).len() == s.len(),
        forall|i: int|
            0 <= i < s.len() ==> 0 <= #[trigger] sorted_positions(s, leq)[i] < s.len()
                && stably_sorted(s, leq)[i] == s[sorted_positions(s, leq)[i]],
        forall|i: int, j: int|
            0 <= i < j < s.len() ==> {
                let a = #[trigger] sorted_positions(s, leq)[i];
                let b = #[trigger] sorted_positions(s, leq)[j];
                leq(s[a], s[b]) && (leq(s[b], s[a]) ==> a < b)
            },
    decreases s.len(),
{
    if s.len() > 0 {
        let rest = s.drop_last();
        let x = s.last();
        let t = stably_sorted(rest, leq);
        let before = sorted_positions(rest, leq);
        let after = sorted_positions(s, leq);
        let p = insertion_point(t, x, leq);
        lemma_sorted_positions(rest, leq);
        lemma_stably_sorted(s, leq);
        lemma_insertion_point(t, x, leq);
        assert forall|i: int| 0 <= i < s.len() implies 0 <= #[trigger] after[i] < s.len()
            && stably_sorted(s, leq)[i] == s[after[i]] by {
            if i < p {
                assert(after[i] == before[i]);
            } else if i > p {
                assert(after[i] == before[i - 1]);
            }
        }
        assert forall|i: int, j: int| 0 <= i < j < s.len() implies {
            let a = #[trigger] after[i];
            let b = #[trigger] after[j];
            leq(s[a], s[b]) && (leq(s[b], s[a]) ==> a < b)
        } by {
            let r = stably_sorted(s, leq);
            assert(leq(r[i], r[j]));
            if j < p {
                assert(after[i] == before[i] && after[j] == before[j]);
            } else if j == p {
                assert(after[i] == before[i]);
            } else if i == p {
                assert(after[j] == before[j - 1]);
                assert(!leq(t[j - 1], x));
            } else {
                assert(after[j] == before[j - 1]);
                assert(after[i] == if i < p {
                    before[i]
                } else {
                    before[i - 1]
                });
            }
        }
    }
}

/// Sorts stably by the order that `le` decides.
pub(crate) fn sort_stably<T: DeepView, F: Fn(&T, &T) -> bool>(
    v: Vec<T>,
    le: F,
    Ghost(leq): Ghost<spec_fn(T::V, T::V) -> bool>,
) -> (r: Vec<T>)
    requires
        forall|a: &T, b: &T| #[trigger] le.requires((a, b)),
        forall|a: &T, b: &T, x: bool| #[trigger]
            le.ensures((a, b), x) ==> x == leq(a.deep_view(), b.deep_view()),
    ensures
        r.deep_view() == stably_sorted(v.deep_view(), leq),
        r@.len() == v@.len(),
{
    let ghost all = v.deep_view();
    let mut rest: Vec<T> = v;
    let mut r: Vec<T> = Vec::new();
    assert(stably_sorted(all.take(0), leq) =~= r.deep_view());
    assert(all.skip(0) =~= all);
    while rest.len() > 0
        invariant
            forall|a: &T, b: &T| #[trigger] le.requires((a, b)),
            forall|a: &T, b: &T, x: bool| #[trigger]
                le.ensures((a, b), x) ==> x == leq(a.deep_view(), b.deep_view()),
            r@.len() + rest@.len() == all.len(),
            rest.deep_view() == all.skip(r@.len() as int),
            r.deep_view() == stably_sorted(all.take(r@.len() as int), leq),
        decreases rest@.len(),
    {
        let ghost left = rest.deep_view();
        let x = rest.remove(0);
        assert(left[0] == x.deep_view());
        assert(rest.deep_view() =~= left.skip(1));
        let ghost n = r@.len() as int;
        let ghost t = r.deep_view();
        assert(x.deep_view() == all[n]);
        let mut p: usize = r.len();
        assert(t.take(p as int) =~= t);
        while p > 0 && !le(&r[p - 1], &x)
            invariant
                forall|a: &T, b: &T| #[trigger] le.requires((a, b)),
                forall|a: &T, b: &T, x: bool| #[trigger]
                    le.ensures((a, b), x) ==> x == leq(a.deep_view(), b.deep_view()),
                p <= r@.len(),
                t == r.deep_view(),
                insertion_point(t, x.deep_view(), leq) == insertion_point(
                    t.take(p as int),
                    x.deep_view(),
                    leq,
                ),
            decreases p,
        {
            assert(t.take(p as int).drop_last() =~= t.take(p - 1));
            assert(t.take(p as int).last() == r@[p - 1].deep_view());
            p -= 1;
        }
        proof {
            if p > 0 {
                assert(t.take(p as int).last() == r@[p - 1].deep_view());
            }
            assert(insertion_point(t, x.deep_view(), leq) == p);
            assert(all.take(n + 1).drop_last() =~= all.take(n));
            assert(t.insert(p as int, x.deep_view()) =~= stably_sorted(all.take(n + 1), leq));
        }
        let ghost xv = x.deep_view();
        r.insert(p, x);
        assert(r.deep_view() =~= t.insert(p as int, xv));
        assert(left.skip(1) =~= all.skip(n + 1));
    }
    assert(all.take(all.len() as int) =~= all);
    r
}

// ── Laws ────────────────────────────────────────────────────────────────────

/// Behind the bytes of `a` stands `b`.
pub proof fn rest_follows_its_front(a: Seq<char>, b: Seq<char>)
    ensures
        from_byte(a + b, encode_utf8(a).len() as int) == Some(b),
    decreases a.len(),
{
    encode_utf8_valid_utf8(a + b);
    encode_utf8_decode_utf8(b);
    if a.len() == 0 {
        assert(a + b =~= b);
        assert(encode_utf8(b).skip(0) =~= encode_utf8(b));
    } else {
        let s = a + b;
        let rest = a.drop_first();
        let bytes = encode_utf8(s);
        let first = encode_scalar(a[0] as u32);
        assert(s.drop_first() =~= rest + b);
        rest_follows_its_front(rest, b);
        encode_utf8_first_scalar(s);
        encode_utf8_valid_utf8(rest + b);
        lemma_encoded_length(rest, b);
        lemma_encoded_length(a, b);
        let n = encode_utf8(a).len() as int;
        assert(pop_first_scalar(bytes) =~= encode_utf8(rest + b));
        assert(n - first.len() == encode_utf8(rest).len());
        assert(is_char_boundary(encode_utf8(rest + b), n - first.len()));
        assert(is_char_boundary(bytes, n));
        assert(bytes.skip(n) =~= encode_utf8(rest + b).skip(n - first.len()));
    }
}

proof fn lemma_encoded_length(a: Seq<char>, b: Seq<char>)
    ensures
        encode_utf8(a + b) == encode_utf8(a) + encode_utf8(b),
    decreases a.len(),
{
    if a.len() == 0 {
        assert(a + b =~= b);
        assert(encode_utf8(a) + encode_utf8(b) =~= encode_utf8(b));
    } else {
        lemma_encoded_length(a.drop_first(), b);
        assert((a + b).drop_first() =~= a.drop_first() + b);
        assert(encode_utf8(a + b) =~= encode_utf8(a) + encode_utf8(b));
    }
}

/// A piece without `c` in it, put behind a string, goes on with its last piece.
pub proof fn lemma_pieces_append(s: Seq<char>, x: Seq<char>, c: char)
    requires
        !x.contains(c),
    ensures
        pieces(s, c).len() >= 1,
        pieces(s + x, c) == pieces(s, c).drop_last().push(pieces(s, c).last() + x),
    decreases x.len(),
{
    lemma_pieces_nonempty(s, c);
    let p = pieces(s, c);
    if x.len() == 0 {
        assert(s + x =~= s);
        assert(p.last() + x =~= p.last());
        assert(p.drop_last().push(p.last()) =~= p);
    } else {
        let y = x.drop_last();
        assert(!y.contains(c)) by {
            if y.contains(c) {
                let i = choose|i: int| 0 <= i < y.len() && y[i] == c;
                assert(x[i] == c);
            }
        }
        lemma_pieces_append(s, y, c);
        assert((s + x).drop_last() =~= s + y);
        assert(x.contains(x.last()));
        let q = pieces(s + y, c);
        assert(q.drop_last() =~= p.drop_last());
        assert((p.last() + y).push(x.last()) =~= p.last() + x);
    }
}

/// A text of lines, each with a line feed behind it.
pub open spec fn written_lines(lines: Seq<Seq<char>>) -> Seq<char>
    decreases lines.len(),
{
    if lines.len() == 0 {
        Seq::empty()
    } else {
        written_lines(lines.drop_last()) + lines.last() + seq!['\n']
    }
}

/// The line can stand in a text: it holds no line feed and does not end in a
/// carriage return.
pub open spec fn is_line(line: Seq<char>) -> bool {
    !line.contains('\n') && (line.len() > 0 ==> line.last() != '\r')
}

/// The lines of a text are those that were written.
pub proof fn written_lines_are_read_back(lines: Seq<Seq<char>>)
    requires
        forall|i: int| 0 <= i < lines.len() ==> is_line(#[trigger] lines[i]),
    ensures
        lines_of(written_lines(lines)) == lines,
{
    lemma_written_pieces(lines);
    let p = pieces(written_lines(lines), '\n');
    let f = |l: Seq<char>| without_cr(l);
    assert(p.drop_last() =~= lines);
    assert forall|i: int| 0 <= i < lines.len() implies #[trigger] lines.map_values(f)[i]
        == lines[i] by {
        assert(is_line(lines[i]));
    }
    assert(lines.map_values(f) =~= lines);
}

proof fn lemma_written_pieces(lines: Seq<Seq<char>>)
    requires
        forall|i: int| 0 <= i < lines.len() ==> is_line(#[trigger] lines[i]),
    ensures
        pieces(written_lines(lines), '\n') == lines.push(Seq::empty()),
    decreases lines.len(),
{
    if lines.len() == 0 {
        assert(lines.push(Seq::<char>::empty()) =~= seq![Seq::<char>::empty()]);
    } else {
        let rest = lines.drop_last();
        assert forall|i: int| 0 <= i < rest.len() implies is_line(#[trigger] rest[i]) by {
            assert(rest[i] == lines[i]);
        }
        lemma_written_pieces(rest);
        let s = written_lines(rest);
        assert(is_line(lines[lines.len() - 1]));
        lemma_pieces_append(s, lines.last(), '\n');
        let q = rest.push(Seq::<char>::empty());
        assert(q.drop_last() =~= rest);
        assert(q.last() + lines.last() =~= lines.last());
        let t = written_lines(lines);
        assert(t.drop_last() =~= s + lines.last());
        assert(t.last() == '\n');
        assert(rest.push(lines.last()) =~= lines);
    }
}

/// White space around a text is trimmed away, and nothing else.
pub proof fn only_white_space_is_trimmed(front: Seq<char>, s: Seq<char>, back: Seq<char>)
    requires
        forall|i: int| 0 <= i < front.len() ==> is_white_space(#[trigger] front[i]),
        forall|i: int| 0 <= i < back.len() ==> is_white_space(#[trigger] back[i]),
        s.len() > 0 ==> !is_white_space(s[0]) && !is_white_space(s.last()),
    ensures
        trimmed(front + s + back) == s,
    decreases front.len() + back.len(),
{
    let all = front + s + back;
    if front.len() > 0 {
        let rest = front.skip(1);
        assert forall|i: int| 0 <= i < rest.len() implies is_white_space(#[trigger] rest[i]) by {
            assert(rest[i] == front[i + 1]);
        }
        only_white_space_is_trimmed(rest, s, back);
        assert(all.skip(1) =~= rest + s + back);
        assert(all[0] == front[0]);
    } else if s.len() == 0 {
        lemma_white_space_only(all);
    } else if back.len() > 0 {
        let rest = back.drop_last();
        assert forall|i: int| 0 <= i < rest.len() implies is_white_space(#[trigger] rest[i]) by {
            assert(rest[i] == back[i]);
        }
        only_white_space_is_trimmed(front, s, rest);
        assert(all[0] == s[0]);
        assert(all.drop_last() =~= front + s + rest);
        assert((front + s + rest)[0] == s[0]);
        assert(all.last() == back[back.len() - 1]);
    } else {
        assert(all =~= s);
    }
}

proof fn lemma_white_space_only(s: Seq<char>)
    requires
        forall|i: int| 0 <= i < s.len() ==> is_white_space(#[trigger] s[i]),
    ensures
        trimmed_front(s) == Seq::<char>::empty(),
    decreases s.len(),
{
    if s.len() > 0 {
        assert forall|i: int| 0 <= i < s.skip(1).len() implies is_white_space(
            #[trigger] s.skip(1)[i],
        ) by {
            assert(s.skip(1)[i] == s[i + 1]);
        }
        lemma_white_space_only(s.skip(1));
    } else {
        assert(s =~= Seq::empty());
    }
}

/// The bytes of an ASCII string are as many as its characters.
pub proof fn lemma_ascii_bytes(s: Seq<char>)
    requires
        all_ascii(s),
    ensures
        encode_utf8(s).len() == s.len(),
        s.len() <= usize::MAX ==> byte_len(s) == s.len(),
    decreases s.len(),
{
    if s.len() > 0 {
        let rest = s.drop_first();
        assert forall|i: int| 0 <= i < rest.len() implies is_ascii_char(#[trigger] rest[i]) by {
            assert(rest[i] == s[i + 1]);
        }
        lemma_ascii_bytes(rest);
        assert(is_ascii_char(s[0]));
        assert(encode_scalar(s[0] as u32).len() == 1);
    }
}

/// Behind an ASCII string of `a.len()` characters stands `b`.
pub proof fn lemma_ascii_rest(a: Seq<char>, b: Seq<char>)
    requires
        all_ascii(a),
        all_ascii(b),
        a.len() + b.len() <= usize::MAX,
    ensures
        from_byte(a + b, a.len() as int) == Some(b),
        last_bytes(a + b, b.len() as int) == Some(b),
        byte_len(a) == a.len(),
        byte_len(b) == b.len(),
{
    lemma_ascii_bytes(a);
    lemma_ascii_bytes(b);
    lemma_ascii_concat(a, b);
    lemma_ascii_bytes(a + b);
    rest_follows_its_front(a, b);
}

/// Strings put together are ASCII and in lowercase where their parts are.
pub proof fn lemma_ascii_concat(a: Seq<char>, b: Seq<char>)
    ensures
        all_ascii(a + b) <==> all_ascii(a) && all_ascii(b),
        ascii_lowercase(a + b) == ascii_lowercase(a) + ascii_lowercase(b),
        ascii_lowercase(a).len() == a.len(),
        all_ascii(a) ==> all_ascii(ascii_lowercase(a)),
        ascii_lowercase(ascii_lowercase(a)) == ascii_lowercase(a),
{
    assert(ascii_lowercase(a + b) =~= ascii_lowercase(a) + ascii_lowercase(b));
    assert(ascii_lowercase(ascii_lowercase(a)) =~= ascii_lowercase(a));
    if all_ascii(a + b) {
        assert forall|i: int| 0 <= i < a.len() implies is_ascii_char(#[trigger] a[i]) by {
            assert((a + b)[i] == a[i]);
        }
        assert forall|i: int| 0 <= i < b.len() implies is_ascii_char(#[trigger] b[i]) by {
            assert((a + b)[a.len() + i] == b[i]);
        }
    }
    if all_ascii(a) {
        assert forall|i: int| 0 <= i < a.len() implies is_ascii_char(
            #[trigger] ascii_lowercase(a)[i],
        ) by {
            assert(is_ascii_char(a[i]));
        }
    }
}

/// What follows a number of bytes of a string is a tail of the string.
pub proof fn what_follows_bytes_is_a_tail(s: Seq<char>, n: int, t: Seq<char>)
    requires
        from_byte(s, n) == Some(t),
    ensures
        t.is_suffix_of(s),
    decreases s.len(),
{
    let bytes = encode_utf8(s);
    encode_utf8_valid_utf8(s);
    encode_utf8_decode_utf8(s);
    if n == 0 {
        assert(bytes.skip(0) =~= bytes);
        assert(s.subrange(0, s.len() as int) =~= s);
    } else {
        assert(s.len() > 0);
        let rest = s.drop_first();
        let first = encode_scalar(s[0] as u32);
        encode_utf8_first_scalar(s);
        encode_utf8_valid_utf8(rest);
        assert(pop_first_scalar(bytes) =~= encode_utf8(rest));
        let m = n - first.len();
        assert(is_char_boundary(encode_utf8(rest), m));
        assert(0 <= m <= encode_utf8(rest).len());
        assert(bytes.skip(n) =~= encode_utf8(rest).skip(m));
        what_follows_bytes_is_a_tail(rest, m, t);
        assert(s.subrange(s.len() - t.len(), s.len() as int) =~= rest.subrange(
            rest.len() - t.len(),
            rest.len() as int,
        ));
    }
}

/// The first character in which two strings differ decides their order; a string
/// stands before one that goes on where it ends.
pub proof fn first_difference_decides_order(
    front: Seq<char>,
    x: char,
    y: char,
    a: Seq<char>,
    b: Seq<char>,
)
    ensures
        x != y ==> (precedes(front + seq![x] + a, front + seq![y] + b) <==> x < y),
        precedes(front, front + seq![x] + a),
        !precedes(front + seq![x] + a, front),
        !precedes(front, front),
    decreases front.len(),
{
    let (s, t) = (front + seq![x] + a, front + seq![y] + b);
    if front.len() > 0 {
        let rest = front.skip(1);
        first_difference_decides_order(rest, x, y, a, b);
        assert(s.skip(1) =~= rest + seq![x] + a);
        assert(t.skip(1) =~= rest + seq![y] + b);
    }
}

} // verus!
