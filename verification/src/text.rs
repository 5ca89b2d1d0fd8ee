//! Text as sequences of characters: copying, comparing, trimming, searching,
//! and taking off what it begins or ends with.

use vstd::prelude::*;

verus! {

/// `String::push` appends one character.
pub assume_specification[ String::push ](s: &mut String, c: char)
    ensures
        final(s)@ == old(s)@.push(c),
;

/// The characters of a string.
pub fn chars_of(s: &str) -> (cs: Vec<char>)
    ensures
        cs@ == s@,
{
    let mut out: Vec<char> = Vec::new();
    for c in it: s.chars()
        invariant
            out@ == it.seq().take(it.index() as int),
            it.seq() == s@,
    {
        assert(it.seq().take(it.index() + 1) =~= it.seq().take(it.index() as int).push(c));
        out.push(c);
    }
    out
}

/// The string of some characters.
pub fn string_of(cs: &[char]) -> (s: String)
    ensures
        s@ == cs@,
{
    let mut out = String::new();
    let mut i: usize = 0;
    while i < cs.len()
        invariant
            i <= cs@.len(),
            out@ == cs@.take(i as int),
        decreases cs@.len() - i,
    {
        out.push(cs[i]);
        i += 1;
        assert(cs@.take(i as int) =~= cs@.take(i - 1).push(cs@[i - 1]));
    }
    assert(cs@.take(i as int) =~= cs@);
    out
}

/// A copy of some characters.
pub fn copy_of(cs: &[char]) -> (r: Vec<char>)
    ensures
        r@ == cs@,
{
    vstd::slice::slice_to_vec(cs)
}

/// Appends `cs` to `out`.
pub fn append(out: &mut Vec<char>, cs: &[char])
    ensures
        final(out)@ == old(out)@ + cs@,
{
    let mut i: usize = 0;
    while i < cs.len()
        invariant
            i <= cs@.len(),
            out@ == old(out)@ + cs@.take(i as int),
        decreases cs@.len() - i,
    {
        out.push(cs[i]);
        i += 1;
        assert(cs@.take(i as int) =~= cs@.take(i - 1).push(cs@[i - 1]));
    }
    assert(cs@.take(i as int) =~= cs@);
}

/// Appends a string to `out`.
pub fn append_str(out: &mut Vec<char>, s: &str)
    ensures
        final(out)@ == old(out)@ + s@,
{
    let cs = chars_of(s);
    append(out, cs.as_slice());
}

/// Appends a string to another.
pub fn push_text(out: &mut String, s: &str)
    ensures
        final(out)@ == old(out)@ + s@,
{
    let cs = chars_of(s);
    let mut i: usize = 0;
    while i < cs.len()
        invariant
            i <= cs@.len(),
            cs@ == s@,
            out@ == old(out)@ + s@.take(i as int),
        decreases cs@.len() - i,
    {
        out.push(cs[i]);
        i += 1;
        assert(s@.take(i as int) =~= s@.take(i - 1).push(s@[i - 1]));
    }
    assert(s@.take(i as int) =~= s@);
}

/// Whether two texts are the same.
pub fn same(a: &[char], b: &[char]) -> (r: bool)
    ensures
        r == (a@ == b@),
{
    if a.len() != b.len() {
        return false;
    }
    let mut i: usize = 0;
    while i < a.len()
        invariant
            a@.len() == b@.len(),
            i <= a@.len(),
            forall|j: int| 0 <= j < i ==> a@[j] == b@[j],
        decreases a@.len() - i,
    {
        if a[i] != b[i] {
            return false;
        }
        i += 1;
    }
    assert(a@ =~= b@);
    true
}

/// Whether a text is the given string.
pub fn same_str(a: &[char], s: &str) -> (r: bool)
    ensures
        r == (a@ == s@),
{
    let b = chars_of(s);
    same(a, b.as_slice())
}

/// The characters that Unicode counts as white space.
pub open spec fn is_space(c: char) -> bool {
    ||| '\u{9}' <= c <= '\u{d}'
    ||| c == ' '
    ||| c == '\u{85}'
    ||| c == '\u{a0}'
    ||| c == '\u{1680}'
    ||| '\u{2000}' <= c <= '\u{200a}'
    ||| c == '\u{2028}'
    ||| c == '\u{2029}'
    ||| c == '\u{202f}'
    ||| c == '\u{205f}'
    ||| c == '\u{3000}'
}

/// Whether a character is white space.
pub fn is_whitespace(c: char) -> (r: bool)
    ensures
        r == is_space(c),
{
    ('\u{9}' <= c && c <= '\u{d}') || c == ' ' || c == '\u{85}' || c == '\u{a0}' || c == '\u{1680}'
        || ('\u{2000}' <= c && c <= '\u{200a}') || c == '\u{2028}' || c == '\u{2029}' || c
        == '\u{202f}' || c == '\u{205f}' || c == '\u{3000}'
}

/// `s` without the white space at its start.
pub open spec fn trim_start(s: Seq<char>) -> Seq<char>
    decreases s.len(),
{
    if s.len() > 0 && is_space(s[0]) {
        trim_start(s.drop_first())
    } else {
        s
    }
}

/// `s` without the white space at its end.
pub open spec fn trim_end(s: Seq<char>) -> Seq<char>
    decreases s.len(),
{
    if s.len() > 0 && is_space(s.last()) {
        trim_end(s.drop_last())
    } else {
        s
    }
}

/// `s` without the white space around it.
pub open spec fn trim(s: Seq<char>) -> Seq<char> {
    trim_end(trim_start(s))
}

/// Part of a text.
pub fn part(cs: &[char], from: usize, to: usize) -> (r: &[char])
    requires
        from <= to <= cs@.len(),
    ensures
        r@ == cs@.subrange(from as int, to as int),
{
    vstd::slice::slice_subrange(cs, from, to)
}

/// The text without the white space at its start.
pub fn trimmed_start(cs: &[char]) -> (r: &[char])
    ensures
        r@ == trim_start(cs@),
{
    let n: usize = cs.len();
    let mut i: usize = 0;
    assert(cs@.subrange(0, n as int) =~= cs@);
    while i < n && is_whitespace(cs[i])
        invariant
            i <= n,
            n == cs@.len(),
            trim_start(cs@.subrange(i as int, n as int)) == trim_start(cs@),
        decreases n - i,
    {
        assert(cs@.subrange(i as int, n as int).drop_first() =~= cs@.subrange(i + 1, n as int));
        i += 1;
    }
    part(cs, i, n)
}

/// The text without the white space at its end.
pub fn trimmed_end(cs: &[char]) -> (r: &[char])
    ensures
        r@ == trim_end(cs@),
{
    let mut n: usize = cs.len();
    assert(cs@.subrange(0, n as int) =~= cs@);
    while n > 0 && is_whitespace(cs[n - 1])
        invariant
            n <= cs@.len(),
            trim_end(cs@.subrange(0, n as int)) == trim_end(cs@),
        decreases n,
    {
        assert(cs@.subrange(0, n as int).drop_last() =~= cs@.subrange(0, n - 1));
        n -= 1;
    }
    part(cs, 0, n)
}

/// The text without the white space around it.
pub fn trimmed(cs: &[char]) -> (r: &[char])
    ensures
        r@ == trim(cs@),
{
    trimmed_end(trimmed_start(cs))
}

/// `s` begins with `prefix`.
pub open spec fn begins_with(s: Seq<char>, prefix: Seq<char>) -> bool {
    prefix.len() <= s.len() && s.take(prefix.len() as int) == prefix
}

/// `s` ends with `suffix`.
pub open spec fn finishes_with(s: Seq<char>, suffix: Seq<char>) -> bool {
    suffix.len() <= s.len() && s.skip(s.len() - suffix.len()) == suffix
}

/// `s` without `prefix`, if it begins with it, else `s`.
pub open spec fn without_prefix(s: Seq<char>, prefix: Seq<char>) -> Seq<char> {
    if begins_with(s, prefix) {
        s.skip(prefix.len() as int)
    } else {
        s
    }
}

/// `s` without `suffix`, if it ends with it, else `s`.
pub open spec fn without_suffix(s: Seq<char>, suffix: Seq<char>) -> Seq<char> {
    if finishes_with(s, suffix) {
        s.take(s.len() - suffix.len())
    } else {
        s
    }
}

/// `needle` stands at position `i` of `s`.
pub open spec fn occurs_at(s: Seq<char>, needle: Seq<char>, i: int) -> bool {
    0 <= i && i + needle.len() <= s.len() && s.subrange(i, i + needle.len()) == needle
}

/// The first position of `needle` in `s` from `from` on.
pub open spec fn find_from(s: Seq<char>, needle: Seq<char>, from: int) -> Option<int>
    decreases s.len() + 1 - from,
{
    if from < 0 || from + needle.len() > s.len() {
        None
    } else if occurs_at(s, needle, from) {
        Some(from)
    } else {
        find_from(s, needle, from + 1)
    }
}

/// The text from `cs[i]` on begins with `needle`.
pub fn occurs(cs: &[char], needle: &[char], i: usize) -> (r: bool)
    requires
        i <= cs@.len(),
    ensures
        r == occurs_at(cs@, needle@, i as int),
{
    let n: usize = needle.len();
    if cs.len() - i < n {
        return false;
    }
    same(part(cs, i, i + n), needle)
}

/// The first position of `needle` from `from` on.
pub fn find(cs: &[char], needle: &[char], from: usize) -> (r: Option<usize>)
    requires
        from <= cs@.len(),
    ensures
        (match r {
            Some(i) => find_from(cs@, needle@, from as int) == Some(i as int) && occurs_at(
                cs@,
                needle@,
                i as int,
            ) && from <= i && i + needle@.len() <= usize::MAX,
            None => find_from(cs@, needle@, from as int) is None,
        }),
{
    let mut i: usize = from;
    while needle.len() <= cs.len() - i
        invariant
            from <= i <= cs@.len(),
            find_from(cs@, needle@, from as int) == find_from(cs@, needle@, i as int),
        decreases cs@.len() - i,
    {
        if occurs(cs, needle, i) {
            return Some(i);
        }
        proof {
            if i == cs@.len() {
                assert(cs@.subrange(i as int, i as int) =~= needle@);
            }
        }
        i += 1;
    }
    None
}

/// A match lies inside the text, at or after the place where the search began,
/// and is the first there.
pub proof fn lemma_find_from(s: Seq<char>, needle: Seq<char>, from: int)
    requires
        0 <= from,
    ensures
        (match find_from(s, needle, from) {
            Some(i) => from <= i && occurs_at(s, needle, i) && forall|j: int|
                from <= j < i ==> !occurs_at(s, needle, j),
            None => forall|j: int| from <= j ==> !occurs_at(s, needle, j),
        }),
    decreases s.len() + 1 - from,
{
    if from + needle.len() > s.len() {
    } else if occurs_at(s, needle, from) {
    } else {
        lemma_find_from(s, needle, from + 1);
    }
}

/// Whether the text begins with `prefix`.
pub fn starts(cs: &[char], prefix: &[char]) -> (r: bool)
    ensures
        r == begins_with(cs@, prefix@),
{
    let r = occurs(cs, prefix, 0);
    proof {
        if prefix@.len() <= cs@.len() {
            assert(cs@.subrange(0, prefix@.len() as int) =~= cs@.take(prefix@.len() as int));
        }
    }
    r
}

/// Whether the text ends with `suffix`.
pub fn ends(cs: &[char], suffix: &[char]) -> (r: bool)
    ensures
        r == finishes_with(cs@, suffix@),
{
    let n: usize = suffix.len();
    if cs.len() < n {
        return false;
    }
    let at: usize = cs.len() - n;
    proof {
        assert(cs@.subrange(at as int, at + n) =~= cs@.skip(cs@.len() - suffix@.len()));
    }
    occurs(cs, suffix, at)
}

/// The text without `prefix`, if it begins with it.
pub fn strip_start<'a>(cs: &'a [char], prefix: &str) -> (r: Option<&'a [char]>)
    ensures
        r is Some == begins_with(cs@, prefix@),
        r matches Some(rest) ==> rest@ == cs@.skip(prefix@.len() as int),
{
    let p = chars_of(prefix);
    if starts(cs, p.as_slice()) {
        let n: usize = p.len();
        let rest = part(cs, n, cs.len());
        assert(rest@ =~= cs@.skip(prefix@.len() as int));
        Some(rest)
    } else {
        None
    }
}

/// The text without `suffix`, if it ends with it.
pub fn strip_end<'a>(cs: &'a [char], suffix: &str) -> (r: Option<&'a [char]>)
    ensures
        r is Some == finishes_with(cs@, suffix@),
        r matches Some(rest) ==> rest@ == cs@.take(cs@.len() - suffix@.len()),
{
    let p = chars_of(suffix);
    if ends(cs, p.as_slice()) {
        let n: usize = cs.len() - p.len();
        let rest = part(cs, 0, n);
        assert(rest@ =~= cs@.take(cs@.len() - suffix@.len()));
        Some(rest)
    } else {
        None
    }
}

/// `s` without the slashes at its end.
pub open spec fn drop_slashes(s: Seq<char>) -> Seq<char>
    decreases s.len(),
{
    if s.len() > 0 && s.last() == '/' {
        drop_slashes(s.drop_last())
    } else {
        s
    }
}

/// The text without the slashes at its end.
pub fn without_slashes(cs: &[char]) -> (r: &[char])
    ensures
        r@ == drop_slashes(cs@),
{
    let mut n: usize = cs.len();
    assert(cs@.subrange(0, n as int) =~= cs@);
    while n > 0 && cs[n - 1] == '/'
        invariant
            n <= cs@.len(),
            drop_slashes(cs@.subrange(0, n as int)) == drop_slashes(cs@),
        decreases n,
    {
        assert(cs@.subrange(0, n as int).drop_last() =~= cs@.subrange(0, n - 1));
        n -= 1;
    }
    part(cs, 0, n)
}

} // verus!
