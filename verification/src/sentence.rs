//! Finding the end of a sentence in a reply that is still arriving.
//!
//! Places in a reply are byte offsets into its UTF-8 form.

use vstd::prelude::*;

use crate::text;

verus! {

/// How many bytes UTF-8 takes for a character.
pub open spec fn width(c: char) -> int {
    if (c as int) < 0x80 {
        1
    } else if (c as int) < 0x800 {
        2
    } else if (c as int) < 0x10000 {
        3
    } else {
        4
    }
}

/// How many bytes UTF-8 takes for a text.
pub open spec fn byte_len(s: Seq<char>) -> int
    decreases s.len(),
{
    if s.len() == 0 {
        0
    } else {
        byte_len(s.drop_last()) + width(s.last())
    }
}

/// The byte offset of character `k`.
pub open spec fn offset(s: Seq<char>, k: int) -> int {
    byte_len(s.take(k))
}

/// The character, or the end of the text, at byte offset `b`; `None` when
/// `b` falls inside a character or past the end.
pub open spec fn char_at(s: Seq<char>, b: int) -> Option<int> {
    if exists|k: int| 0 <= k <= s.len() && #[trigger] offset(s, k) == b {
        Some(choose|k: int| 0 <= k <= s.len() && #[trigger] offset(s, k) == b)
    } else {
        None
    }
}

/// Punctuation that ends a sentence.
pub open spec fn is_stop(c: char) -> bool {
    c == '.' || c == '!' || c == '?' || c == '…'
}

/// A sentence ends with character `j` of `s`: it is punctuation, white space or
/// the end of the text follows it, and it is not among the first few bytes.
pub open spec fn ends_sentence(s: Seq<char>, j: int) -> bool {
    &&& is_stop(s[j])
    &&& j + 1 == s.len() || text::is_space(s[j + 1])
    &&& offset(s, j + 1) >= 4
}

/// The last of the first `n` characters of `s` that ends a sentence.
pub open spec fn last_end(s: Seq<char>, n: int) -> Option<int>
    decreases n,
{
    if n <= 0 {
        None
    } else if ends_sentence(s, n - 1) {
        Some(n - 1)
    } else {
        last_end(s, n - 1)
    }
}

/// Where the last complete sentence of `s` after byte offset `from` ends.
pub open spec fn cut(s: Seq<char>, from: int) -> Option<int> {
    match char_at(s, from) {
        None => None,
        Some(k) => {
            let tail = s.skip(k);
            match last_end(tail, tail.len() as int) {
                None => None,
                Some(j) => Some(from + offset(tail, j + 1)),
            }
        },
    }
}

/// The part of `s` between two byte offsets.
pub open spec fn between(s: Seq<char>, from: int, to: int) -> Seq<char> {
    match (char_at(s, from), char_at(s, to)) {
        (Some(a), Some(b)) if a <= b => s.subrange(a, b),
        _ => Seq::empty(),
    }
}

/// Byte offsets add up.
pub proof fn lemma_byte_len_concat(a: Seq<char>, b: Seq<char>)
    ensures
        byte_len(a + b) == byte_len(a) + byte_len(b),
    decreases b.len(),
{
    if b.len() == 0 {
        assert(a + b =~= a);
    } else {
        assert((a + b).drop_last() =~= a + b.drop_last());
        lemma_byte_len_concat(a, b.drop_last());
    }
}

/// A text takes at least one byte per character.
pub proof fn lemma_byte_len_bound(s: Seq<char>)
    ensures
        s.len() <= byte_len(s),
    decreases s.len(),
{
    if s.len() > 0 {
        lemma_byte_len_bound(s.drop_last());
    }
}

/// Offsets grow with the characters before them.
pub proof fn lemma_offset_grows(s: Seq<char>, a: int, b: int)
    requires
        0 <= a <= b <= s.len(),
    ensures
        offset(s, a) + (b - a) <= offset(s, b),
        offset(s, b) == offset(s, a) + byte_len(s.subrange(a, b)),
        0 <= offset(s, a),
{
    assert(s.take(b) =~= s.take(a) + s.subrange(a, b));
    lemma_byte_len_concat(s.take(a), s.subrange(a, b));
    lemma_byte_len_bound(s.subrange(a, b));
    lemma_byte_len_bound(s.take(a));
}

/// The character at an offset is the one whose offset it is.
pub proof fn lemma_char_at(s: Seq<char>, k: int)
    requires
        0 <= k <= s.len(),
    ensures
        char_at(s, offset(s, k)) == Some(k),
{
    let b = offset(s, k);
    let m = choose|m: int| 0 <= m <= s.len() && #[trigger] offset(s, m) == b;
    assert(0 <= m <= s.len() && offset(s, m) == b);
    if m < k {
        lemma_offset_grows(s, m, k);
    } else if k < m {
        lemma_offset_grows(s, k, m);
    }
}

/// What `char_at` finds lies in the text and has that offset.
pub proof fn lemma_char_at_found(s: Seq<char>, b: int)
    ensures
        char_at(s, b) matches Some(k) ==> 0 <= k <= s.len() && offset(s, k) == b,
{
}

proof fn lemma_width_utf8(c: char)
    ensures
        vstd::utf8::encode_scalar(c as u32).len() == width(c),
{
    vstd::utf8::char_is_scalar(c);
}

/// UTF-8 as vstd defines it takes `byte_len` bytes.
pub proof fn lemma_byte_len_utf8(s: Seq<char>)
    ensures
        vstd::utf8::encode_utf8(s).len() == byte_len(s),
    decreases s.len(),
{
    if s.len() > 0 {
        let rest = s.drop_first();
        lemma_byte_len_utf8(rest);
        assert(s =~= seq![s[0]] + rest);
        lemma_byte_len_concat(seq![s[0]], rest);
        assert(seq![s[0]].drop_last() =~= Seq::<char>::empty());
        assert(byte_len(seq![s[0]]) == width(s[0])) by {
            reveal_with_fuel(byte_len, 2);
        }
        lemma_width_utf8(s[0]);
    }
}

/// How many bytes UTF-8 takes for a character.
pub fn char_width(c: char) -> (n: usize)
    ensures
        n == width(c),
{
    let v: u32 = c as u32;
    if v < 0x80 {
        1
    } else if v < 0x800 {
        2
    } else if v < 0x10000 {
        3
    } else {
        4
    }
}

/// The character at a byte offset.
pub fn char_index(cs: &[char], b: usize) -> (r: Option<usize>)
    requires
        byte_len(cs@) <= usize::MAX,
    ensures
        (match r {
            Some(k) => char_at(cs@, b as int) == Some(k as int) && k <= cs@.len() && offset(
                cs@,
                k as int,
            ) == b,
            None => char_at(cs@, b as int) is None,
        }),
{
    let mut k: usize = 0;
    let mut at: usize = 0;
    assert(cs@.take(0).len() == 0);
    while at < b && k < cs.len()
        invariant
            k <= cs@.len(),
            at == offset(cs@, k as int),
            byte_len(cs@) <= usize::MAX,
            forall|m: int| 0 <= m < k ==> #[trigger] offset(cs@, m) < b,
        decreases cs@.len() - k,
    {
        proof {
            assert(cs@.take(k + 1).drop_last() =~= cs@.take(k as int));
            lemma_offset_grows(cs@, k + 1, cs@.len() as int);
            assert(cs@.take(cs@.len() as int) =~= cs@);
        }
        at += char_width(cs[k]);
        k += 1;
    }
    if at == b {
        proof {
            lemma_char_at(cs@, k as int);
        }
        Some(k)
    } else {
        proof {
            assert forall|m: int| 0 <= m <= cs@.len() implies #[trigger] offset(cs@, m) != b by {
                if m > k {
                    lemma_offset_grows(cs@, k as int, m);
                }
            }
        }
        None
    }
}

/// A string is short enough for its byte offsets to be numbers.
fn text_fits(s: &str)
    ensures
        byte_len(s@) <= usize::MAX,
{
    let _n: usize = text_len(s);
}

/// How many bytes a string takes.
pub fn text_len(s: &str) -> (n: usize)
    ensures
        n == byte_len(s@),
{
    let bytes = s.as_bytes();
    proof {
        lemma_byte_len_utf8(s@);
    }
    bytes.len()
}

/// End of the last complete sentence of `cs` after byte offset `from`.
pub fn sentence_end(cs: &[char], from: usize) -> (r: Option<usize>)
    requires
        byte_len(cs@) <= usize::MAX,
    ensures
        (match r {
            Some(b) => cut(cs@, from as int) == Some(b as int),
            None => cut(cs@, from as int) is None,
        }),
{
    let start: usize = match char_index(cs, from) {
        None => {
            return None;
        },
        Some(k) => k,
    };
    let ghost tail = cs@.skip(start as int);
    let n: usize = cs.len();
    let mut found: Option<usize> = None;
    let mut j: usize = start;
    let mut at: usize = from;
    assert(tail.take(0).len() == 0);
    while j < n
        invariant
            n == cs@.len(),
            start <= j <= n,
            tail == cs@.skip(start as int),
            from == offset(cs@, start as int),
            byte_len(cs@) <= usize::MAX,
            at == from + offset(tail, j - start),
            (match found {
                Some(b) => last_end(tail, j - start) matches Some(e) && b == from + offset(
                    tail,
                    e + 1,
                ),
                None => last_end(tail, j - start) is None,
            }),
        decreases n - j,
    {
        proof {
            assert(tail.take(j - start + 1).drop_last() =~= tail.take(j - start));
            assert(cs@.subrange(start as int, j + 1) =~= tail.take(j - start + 1));
            lemma_offset_grows(cs@, start as int, j + 1);
            lemma_offset_grows(cs@, j + 1, n as int);
            assert(cs@.take(n as int) =~= cs@);
        }
        let c = cs[j];
        at += char_width(c);
        if (c == '.' || c == '!' || c == '?' || c == '…') && (j + 1 == n || text::is_whitespace(
            cs[j + 1],
        )) && at - from >= 4 {
            found = Some(at);
        }
        j += 1;
    }
    found
}

/// End of the last complete sentence in `text` after byte offset `from`:
/// sentence punctuation followed by whitespace or end-of-text. Returns the
/// offset just past the punctuation, or `None` if no sentence has completed.
/// Chunks shorter than a few characters are not worth an early delivery.
pub fn sentence_cut(text: &str, from: usize) -> (r: Option<usize>)
    ensures
        (match r {
            Some(b) => cut(text@, from as int) == Some(b as int),
            None => cut(text@, from as int) is None,
        }),
{
    text_fits(text);
    let cs = text::chars_of(text);
    sentence_end(cs.as_slice(), from)
}

/// The text between two byte offsets.
pub fn text_between(text: &str, from: usize, to: usize) -> (r: String)
    ensures
        r@ == between(text@, from as int, to as int),
{
    text_fits(text);
    let cs = text::chars_of(text);
    match (char_index(cs.as_slice(), from), char_index(cs.as_slice(), to)) {
        (Some(a), Some(b)) if a <= b => text::string_of(text::part(cs.as_slice(), a, b)),
        _ => String::new(),
    }
}

/// The text from a byte offset on, if the offset is one of a character.
pub fn text_from(text: &str, from: usize) -> (r: Option<String>)
    ensures
        (match r {
            Some(rest) => char_at(text@, from as int) matches Some(k) && rest@ == text@.skip(k),
            None => char_at(text@, from as int) is None,
        }),
{
    text_fits(text);
    let cs = text::chars_of(text);
    match char_index(cs.as_slice(), from) {
        Some(k) => {
            let rest = text::part(cs.as_slice(), k, cs.len());
            assert(rest@ =~= text@.skip(k as int));
            Some(text::string_of(rest))
        },
        None => None,
    }
}

/// A cut lies past the place from which it was sought, at the end of a
/// character, right after sentence punctuation.
pub proof fn law_cut_ends_a_sentence(s: Seq<char>, from: int)
    ensures
        cut(s, from) matches Some(b) ==> {
            &&& from + 4 <= b <= byte_len(s)
            &&& char_at(s, from) is Some
            &&& char_at(s, b) matches Some(k) && 0 < k <= s.len() && is_stop(s[k - 1]) && (k
                == s.len() || text::is_space(s[k]))
        },
{
    if let Some(k) = char_at(s, from) {
        lemma_char_at_found(s, from);
        let tail = s.skip(k);
        lemma_last_end(tail, tail.len() as int);
        if let Some(j) = last_end(tail, tail.len() as int) {
            assert(s.subrange(k, k + j + 1) =~= tail.take(j + 1));
            lemma_offset_grows(s, k, k + j + 1);
            lemma_char_at(s, k + j + 1);
            lemma_offset_grows(s, k + j + 1, s.len() as int);
            assert(s.take(s.len() as int) =~= s);
        }
    }
}

/// After the cut no further sentence of `s` has completed.
pub proof fn law_cut_takes_every_complete_sentence(s: Seq<char>, from: int, m: int)
    requires
        char_at(s, from) is Some,
        char_at(s, from)->0 <= m < s.len(),
        ends_sentence(s.skip(char_at(s, from)->0), m - char_at(s, from)->0),
    ensures
        cut(s, from) matches Some(b) && offset(s, m + 1) <= b,
{
    let k = char_at(s, from)->0;
    lemma_char_at_found(s, from);
    let tail = s.skip(k);
    lemma_last_end(tail, tail.len() as int);
    if let Some(j) = last_end(tail, tail.len() as int) {
        assert(s.subrange(k, k + j + 1) =~= tail.take(j + 1));
        lemma_offset_grows(s, k, k + j + 1);
        lemma_offset_grows(s, m + 1, k + j + 1);
    }
}

proof fn lemma_last_end(s: Seq<char>, n: int)
    requires
        n <= s.len(),
    ensures
        (match last_end(s, n) {
            Some(j) => 0 <= j < n && ends_sentence(s, j) && forall|i: int|
                j < i < n ==> !ends_sentence(s, i),
            None => forall|i: int| 0 <= i < n ==> !ends_sentence(s, i),
        }),
    decreases n,
{
    if n > 0 && !ends_sentence(s, n - 1) {
        lemma_last_end(s, n - 1);
    }
}

} // verus!
