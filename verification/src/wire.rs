//! JSON as it goes over the wire to and from the resident process: quoting a
//! string, and picking string fields out of one-object-per-line events.

use vstd::prelude::*;

use crate::number;
use crate::text;

verus! {

/// `char::from_u32` gives the character with a code, unless the code belongs
/// to no character: a surrogate, or one past the end of Unicode.
pub assume_specification[ char::from_u32 ](code: u32) -> (c: Option<char>)
    ensures
        (match c {
            Some(c) => c as u32 == code,
            None => 0xD800 <= code <= 0xDFFF || 0x10FFFF < code,
        }),
;

/// How a character is written inside a quoted string.
pub open spec fn escape_char(c: char) -> Seq<char> {
    if c == '"' {
        seq!['\\', '"']
    } else if c == '\\' {
        seq!['\\', '\\']
    } else if c == '\n' {
        seq!['\\', 'n']
    } else {
        seq![c]
    }
}

/// How a text is written inside a quoted string.
pub open spec fn escape(s: Seq<char>) -> Seq<char>
    decreases s.len(),
{
    if s.len() == 0 {
        seq![]
    } else {
        escape(s.drop_last()) + escape_char(s.last())
    }
}

/// A text as a quoted string.
pub open spec fn quote(s: Seq<char>) -> Seq<char> {
    seq!['"'] + escape(s) + seq!['"']
}

/// The character that an escape other than `\u` stands for.
pub open spec fn unescape_char(c: char) -> char {
    if c == 'n' {
        '\n'
    } else if c == 't' {
        '\t'
    } else if c == 'r' {
        '\r'
    } else if c == 'b' {
        '\u{8}'
    } else if c == 'f' {
        '\u{c}'
    } else {
        c
    }
}

/// How many characters of `s`, at most `n`, come before a quote or a backslash.
pub open spec fn hex_len(s: Seq<char>, n: int) -> int
    decreases n,
{
    if n <= 0 || s.len() == 0 || s[0] == '"' || s[0] == '\\' {
        0
    } else {
        1 + hex_len(s.skip(1), n - 1)
    }
}

/// The digits of the `\u` escape that `s` begins with.
pub open spec fn hex_at(s: Seq<char>) -> Seq<char> {
    s.subrange(2, 2 + hex_len(s.skip(2), 4))
}

/// The number that the digits of a `\u` escape write.
pub open spec fn code_of(hex: Seq<char>) -> Option<int> {
    number::number_of(hex, 16, u32::MAX as int)
}

/// The character that the hexadecimal digits of a `\u` escape stand for; none
/// when they are no number or belong to no character.
pub open spec fn unicode_escape(hex: Seq<char>) -> Seq<char> {
    match code_of(hex) {
        Some(v) if !(0xD800 <= v <= 0xDFFF) && v <= 0x10FFFF => seq![v as char],
        _ => seq![],
    }
}

/// The character that two codes make, the first and the second half of a pair.
pub open spec fn joined(high: Option<int>, low: Option<int>) -> Option<char> {
    match (high, low) {
        (Some(h), Some(l)) if 0xD800 <= h <= 0xDBFF && 0xDC00 <= l <= 0xDFFF => Some(
            (0x10000 + (h - 0xD800) * 0x400 + (l - 0xDC00)) as char,
        ),
        _ => None,
    }
}

/// A `\u` escape comes next.
pub open spec fn opens_unicode(s: Seq<char>) -> bool {
    s.len() >= 2 && s[0] == '\\' && s[1] == 'u'
}

/// What the `\u` escape that `s` begins with stands for, and how long it is:
/// one character, two halves of a pair together, or nothing.
pub open spec fn unicode_at(s: Seq<char>) -> (Seq<char>, int) {
    let n = 2 + hex_at(s).len() as int;
    let next = s.skip(n);
    match joined(code_of(hex_at(s)), code_of(hex_at(next))) {
        Some(c) if opens_unicode(next) => (seq![c], n + 2 + hex_at(next).len()),
        _ => (unicode_escape(hex_at(s)), n),
    }
}

/// The digits end before `s` does.
proof fn lemma_hex_len(s: Seq<char>, n: int)
    ensures
        0 <= hex_len(s, n) <= s.len(),
        n >= 0 ==> hex_len(s, n) <= n,
    decreases n,
{
    if !(n <= 0 || s.len() == 0 || s[0] == '"' || s[0] == '\\') {
        lemma_hex_len(s.skip(1), n - 1);
    }
}

/// The escape ends before `s` does.
pub proof fn lemma_unicode_len(s: Seq<char>)
    requires
        opens_unicode(s),
    ensures
        2 <= 2 + hex_at(s).len() <= unicode_at(s).1 <= s.len(),
{
    lemma_hex_len(s.skip(2), 4);
    let next = s.skip(2 + hex_at(s).len() as int);
    if opens_unicode(next) {
        lemma_hex_len(next.skip(2), 4);
    }
}

/// The text of a quoted string, given what follows its opening quote. It ends
/// at the closing quote, or where `s` ends.
pub open spec fn unescape(s: Seq<char>) -> Seq<char>
    decreases s.len(),
{
    if s.len() == 0 || s[0] == '"' {
        seq![]
    } else if s[0] != '\\' {
        seq![s[0]] + unescape(s.skip(1))
    } else if s.len() == 1 {
        seq![]
    } else if s[1] == 'u' {
        proof {
            lemma_unicode_len(s);
        }
        unicode_at(s).0 + unescape(s.skip(unicode_at(s).1))
    } else {
        seq![unescape_char(s[1])] + unescape(s.skip(2))
    }
}

/// What stands before the value of the string field `key`.
pub open spec fn field_mark(key: Seq<char>) -> Seq<char> {
    seq!['"'] + key + seq!['"', ':', '"']
}

/// How far a reader of JSON has come: how many objects and arrays are open,
/// whether it is inside a string, and there, whether a backslash came last.
pub struct Scan {
    pub depth: int,
    pub quoted: bool,
    pub escaped: bool,
}

/// The reader after one more character.
pub open spec fn step(at: Scan, c: char) -> Scan {
    if at.quoted {
        Scan {
            quoted: at.escaped || c != '"',
            escaped: !at.escaped && c == '\\',
            ..at
        }
    } else if c == '"' {
        Scan { quoted: true, ..at }
    } else if c == '{' || c == '[' {
        Scan { depth: at.depth + 1, ..at }
    } else if c == '}' || c == ']' {
        Scan { depth: at.depth - 1, ..at }
    } else {
        at
    }
}

/// The reader after the first `n` characters of `s`.
pub open spec fn scan(s: Seq<char>, n: int) -> Scan
    decreases n,
{
    if n <= 0 {
        Scan { depth: 0, quoted: false, escaped: false }
    } else {
        step(scan(s, n - 1), s[n - 1])
    }
}

/// A field with this mark begins at `i`: outside of strings, and in no object
/// or array but the one that `s` is.
pub open spec fn top_field_at(s: Seq<char>, mark: Seq<char>, i: int) -> bool {
    text::occurs_at(s, mark, i) && !scan(s, i).quoted && scan(s, i).depth <= 1
}

/// Where the first top-level field with this mark begins, from `from` on.
pub open spec fn top_field_from(s: Seq<char>, mark: Seq<char>, from: int) -> Option<int>
    decreases s.len() + 1 - from,
{
    if from < 0 || from + mark.len() > s.len() {
        None
    } else if top_field_at(s, mark, from) {
        Some(from)
    } else {
        top_field_from(s, mark, from + 1)
    }
}

/// The value of the first top-level string field `key` in `s`.
pub open spec fn field_of(s: Seq<char>, key: Seq<char>) -> Option<Seq<char>> {
    let mark = field_mark(key);
    match top_field_from(s, mark, 0) {
        None => None,
        Some(i) => Some(unescape(s.skip(i + mark.len()))),
    }
}

/// The values of all `text` fields in `s` from `from` on, one after another.
pub open spec fn text_fields(s: Seq<char>, from: int) -> Seq<char>
    decreases s.len() - from,
{
    let mark = field_mark(seq!['t', 'e', 'x', 't']);
    if from < 0 {
        seq![]
    } else {
        proof {
            text::lemma_find_from(s, mark, from);
        }
        match text::find_from(s, mark, from) {
            None => seq![],
            Some(i) => unescape(s.skip(i + mark.len())) + text_fields(s, i + mark.len()),
        }
    }
}

/// What marks a message of the assistant.
pub open spec fn assistant_mark() -> Seq<char> {
    "\"role\":\"assistant\""@
}

/// What marks a message of anyone.
pub open spec fn role_mark() -> Seq<char> {
    "\"role\":\""@
}

/// The part of an event that belongs to the first message of the assistant.
pub open spec fn assistant_part(s: Seq<char>) -> Option<Seq<char>> {
    match text::find_from(s, assistant_mark(), 0) {
        None => None,
        Some(i) => {
            let after = s.skip(i + assistant_mark().len());
            match text::find_from(after, role_mark(), 0) {
                None => Some(after),
                Some(j) => Some(after.take(j)),
            }
        },
    }
}

/// The reply text in an event.
pub open spec fn assistant_text(s: Seq<char>) -> Option<Seq<char>> {
    match assistant_part(s) {
        Some(part) if text_fields(part, 0).len() > 0 => Some(text_fields(part, 0)),
        _ => None,
    }
}

/// A text as a quoted string.
pub fn json_quote(s: &str) -> (q: String)
    ensures
        q@ == quote(s@),
{
    let cs = text::chars_of(s);
    let mut out = String::new();
    out.push('"');
    let mut i: usize = 0;
    assert(cs@.take(0).len() == 0);
    assert(out@ =~= seq!['"'] + escape(cs@.take(0)));
    while i < cs.len()
        invariant
            i <= cs@.len(),
            out@ == seq!['"'] + escape(cs@.take(i as int)),
        decreases cs@.len() - i,
    {
        let ghost before = out@;
        let c = cs[i];
        if c == '"' {
            out.push('\\');
            out.push('"');
        } else if c == '\\' {
            out.push('\\');
            out.push('\\');
        } else if c == '\n' {
            out.push('\\');
            out.push('n');
        } else {
            out.push(c);
        }
        i += 1;
        assert(cs@.take(i as int).drop_last() =~= cs@.take(i - 1));
        assert(out@ =~= before + escape_char(c));
        assert(out@ =~= seq!['"'] + escape(cs@.take(i as int)));
    }
    assert(cs@.take(i as int) =~= cs@);
    out.push('"');
    assert(out@ =~= quote(s@));
    out
}

/// A character is the one with its code.
proof fn lemma_char_code(c: char)
    ensures
        (c as u32 as int) as char == c,
        !(0xD800 <= c as u32 <= 0xDFFF),
        c as u32 <= 0x10FFFF,
{
}

/// The number that the digits of the `\u` escape at `cs[i]` write, and where
/// they end.
fn decode_hex(cs: &[char], i: usize) -> (r: (Option<u32>, usize))
    requires
        i + 2 <= cs@.len(),
    ensures
        r.1 == i + 2 + hex_at(cs@.skip(i as int)).len(),
        r.1 <= cs@.len(),
        (match r.0 {
            Some(v) => code_of(hex_at(cs@.skip(i as int))) == Some(v as int),
            None => code_of(hex_at(cs@.skip(i as int))) is None,
        }),
{
    let n: usize = cs.len();
    let start: usize = i + 2;
    let mut k: usize = 0;
    let ghost s = cs@.skip(start as int);
    assert(s.skip(0) =~= s);
    while k < 4 && k < n - start && cs[start + k] != '"' && cs[start + k] != '\\'
        invariant
            n == cs@.len(),
            start <= n,
            k <= 4,
            k <= n - start,
            s == cs@.skip(start as int),
            hex_len(s, 4) == k + hex_len(s.skip(k as int), 4 - k),
        decreases 4 - k,
    {
        assert(s.skip(k as int)[0] == cs@[start + k]);
        assert(s.skip(k as int).skip(1) =~= s.skip(k + 1));
        k += 1;
    }
    let end: usize = start + k;
    let hex = text::part(cs, start, end);
    proof {
        assert(k < s.len() ==> s.skip(k as int)[0] == cs@[start + k]);
        assert(hex_len(s.skip(k as int), 4 - k) == 0);
        assert(cs@.skip(i as int).skip(2) =~= s);
        assert(hex@ =~= hex_at(cs@.skip(i as int)));
    }
    match number::parse_number(hex, 16, u32::MAX as u64) {
        Some(v) => (Some(v as u32), end),
        None => (None, end),
    }
}

/// What the `\u` escape at `cs[i]` stands for, and where it ends.
fn decode_unicode(cs: &[char], i: usize) -> (r: (Option<char>, usize))
    requires
        i <= cs@.len(),
        opens_unicode(cs@.skip(i as int)),
    ensures
        r.1 == i + unicode_at(cs@.skip(i as int)).1,
        r.1 <= cs@.len(),
        unicode_at(cs@.skip(i as int)).0 == match r.0 {
            Some(c) => seq![c],
            None => seq![],
        },
{
    let ghost s = cs@.skip(i as int);
    let (code, end) = decode_hex(cs, i);
    let ghost next = s.skip(end - i);
    assert(next =~= cs@.skip(end as int));
    let code = match code {
        Some(code) => code,
        None => {
            return (None, end);
        },
    };
    if 0xD800 <= code && code <= 0xDBFF && cs.len() - end >= 2 && cs[end] == '\\' && cs[end + 1]
        == 'u' {
        assert(opens_unicode(next));
        let (low, stop) = decode_hex(cs, end);
        if let Some(low) = low {
            if 0xDC00 <= low && low <= 0xDFFF {
                let c = char::from_u32(0x10000 + (code - 0xD800) * 0x400 + (low - 0xDC00));
                proof {
                    if let Some(c) = c {
                        lemma_char_code(c);
                    }
                }
                return (c, stop);
            }
        }
    }
    let c = char::from_u32(code);
    proof {
        if let Some(c) = c {
            lemma_char_code(c);
        }
    }
    (c, end)
}

/// Decodes a quoted string from what follows its opening quote.
fn decode_string(cs: &[char], from: usize) -> (out: Vec<char>)
    requires
        from <= cs@.len(),
    ensures
        out@ == unescape(cs@.skip(from as int)),
{
    let mut out: Vec<char> = Vec::new();
    let mut i: usize = from;
    let n: usize = cs.len();
    assert(out@ + unescape(cs@.skip(i as int)) =~= unescape(cs@.skip(from as int)));
    while i < n && cs[i] != '"'
        invariant
            from <= i <= n,
            n == cs@.len(),
            out@ + unescape(cs@.skip(i as int)) == unescape(cs@.skip(from as int)),
        decreases n - i,
    {
        let ghost before = out@;
        let ghost rest = cs@.skip(i as int);
        let c = cs[i];
        if c != '\\' {
            out.push(c);
            i += 1;
            proof {
                assert(rest.skip(1) =~= cs@.skip(i as int));
                assert(before + (seq![c] + unescape(cs@.skip(i as int))) =~= out@
                    + unescape(cs@.skip(i as int)));
            }
        } else if n - i == 1 {
            i += 1;
            proof {
                assert(cs@.skip(i as int).len() == 0);
            }
        } else if cs[i + 1] == 'u' {
            let (ch, end) = decode_unicode(cs, i);
            if let Some(ch) = ch {
                out.push(ch);
            }
            proof {
                lemma_unicode_len(rest);
                assert(rest.skip(end - i) =~= cs@.skip(end as int));
                assert(out@ =~= before + unicode_at(rest).0);
                assert(before + (unicode_at(rest).0 + unescape(cs@.skip(end as int))) =~= out@
                    + unescape(cs@.skip(end as int)));
            }
            i = end;
        } else {
            let e = cs[i + 1];
            let d: char = if e == 'n' {
                '\n'
            } else if e == 't' {
                '\t'
            } else if e == 'r' {
                '\r'
            } else if e == 'b' {
                '\u{8}'
            } else if e == 'f' {
                '\u{c}'
            } else {
                e
            };
            out.push(d);
            i += 2;
            proof {
                assert(rest.skip(2) =~= cs@.skip(i as int));
                assert(before + (seq![d] + unescape(cs@.skip(i as int))) =~= out@
                    + unescape(cs@.skip(i as int)));
            }
        }
    }
    assert(unescape(cs@.skip(i as int)) =~= seq![]);
    assert(out@ + Seq::<char>::empty() =~= out@);
    out
}

/// What stands before the value of a string field.
fn mark_of(key: &str) -> (mark: Vec<char>)
    ensures
        mark@ == field_mark(key@),
{
    let mut mark: Vec<char> = Vec::new();
    mark.push('"');
    text::append_str(&mut mark, key);
    mark.push('"');
    mark.push(':');
    mark.push('"');
    assert(mark@ =~= field_mark(key@));
    mark
}

/// Where the first top-level field with this mark begins.
fn find_top_field(cs: &[char], mark: &[char]) -> (r: Option<usize>)
    requires
        mark@.len() > 0,
    ensures
        (match r {
            Some(i) => top_field_from(cs@, mark@, 0) == Some(i as int) && i + mark@.len()
                <= cs@.len() <= usize::MAX,
            None => top_field_from(cs@, mark@, 0) is None,
        }),
{
    let mut i: usize = 0;
    let mut depth: i128 = 0;
    let mut quoted = false;
    let mut escaped = false;
    while mark.len() <= cs.len() - i
        invariant
            mark@.len() > 0,
            i <= cs@.len(),
            -i <= depth <= i,
            scan(cs@, i as int) == (Scan { depth: depth as int, quoted, escaped }),
            top_field_from(cs@, mark@, 0) == top_field_from(cs@, mark@, i as int),
        decreases cs@.len() - i,
    {
        if !quoted && depth <= 1 && text::occurs(cs, mark, i) {
            return Some(i);
        }
        let c = cs[i];
        if quoted {
            quoted = escaped || c != '"';
            escaped = !escaped && c == '\\';
        } else if c == '"' {
            quoted = true;
        } else if c == '{' || c == '[' {
            depth += 1;
        } else if c == '}' || c == ']' {
            depth -= 1;
        }
        i += 1;
    }
    None
}

/// Extract a top-level string field's value (first match; unescaped).
pub fn json_str_field(s: &str, key: &str) -> (value: Option<String>)
    ensures
        (match value {
            Some(v) => field_of(s@, key@) == Some(v@),
            None => field_of(s@, key@) is None,
        }),
{
    let cs = text::chars_of(s);
    let mark = mark_of(key);
    match find_top_field(cs.as_slice(), mark.as_slice()) {
        None => None,
        Some(i) => {
            let value = decode_string(cs.as_slice(), i + mark.len());
            Some(text::string_of(value.as_slice()))
        },
    }
}

/// The values of all `text` fields of a text, one after another.
fn collect_text_fields(cs: &[char]) -> (out: Vec<char>)
    ensures
        out@ == text_fields(cs@, 0),
{
    let mark = mark_of("text");
    proof {
        reveal_strlit("text");
        assert("text"@ =~= seq!['t', 'e', 'x', 't']);
    }
    let mut out: Vec<char> = Vec::new();
    let mut idx: usize = 0;
    assert(out@ + text_fields(cs@, 0) =~= text_fields(cs@, 0));
    loop
        invariant
            idx <= cs@.len(),
            mark@ == field_mark(seq!['t', 'e', 'x', 't']),
            out@ + text_fields(cs@, idx as int) == text_fields(cs@, 0),
        decreases cs@.len() - idx,
    {
        match text::find(cs, mark.as_slice(), idx) {
            None => {
                assert(out@ + text_fields(cs@, idx as int) =~= out@);
                return out;
            },
            Some(i) => {
                let ghost before = out@;
                let start: usize = i + mark.len();
                let piece = decode_string(cs, start);
                text::append(&mut out, piece.as_slice());
                proof {
                    assert(before + (piece@ + text_fields(cs@, start as int)) =~= out@
                        + text_fields(cs@, start as int));
                }
                idx = start;
            },
        }
    }
}

/// Pull the assistant reply text out of an event line. The event carries a
/// `message` object with `"role":"assistant"` and `content:[{type:text,text:…}]`.
/// We only trust text that belongs to an assistant message (the user echo also
/// contains a "text" field), and only the first such message: an update carries
/// the running text twice, and reading past the next role would double it.
pub fn extract_assistant_text(s: &str) -> (r: Option<String>)
    ensures
        (match r {
            Some(t) => assistant_text(s@) == Some(t@),
            None => assistant_text(s@) is None,
        }),
{
    let cs = text::chars_of(s);
    let assistant = text::chars_of("\"role\":\"assistant\"");
    let at: usize = match text::find(cs.as_slice(), assistant.as_slice(), 0) {
        None => {
            return None;
        },
        Some(i) => i + assistant.len(),
    };
    let after = text::part(cs.as_slice(), at, cs.len());
    assert(after@ =~= s@.skip(at as int));
    let role = text::chars_of("\"role\":\"");
    let end: usize = match text::find(after, role.as_slice(), 0) {
        None => after.len(),
        Some(j) => j,
    };
    let part = text::part(after, 0, end);
    proof {
        assert(after@.take(end as int) =~= part@);
        assert(end == after@.len() ==> part@ =~= after@);
    }
    let out = collect_text_fields(part);
    if out.len() == 0 {
        None
    } else {
        Some(text::string_of(out.as_slice()))
    }
}

/// Decoding what `escape` wrote, up to a closing quote, gives it back.
proof fn lemma_unescape_escape(s: Seq<char>, rest: Seq<char>)
    ensures
        unescape(escape(s) + seq!['"'] + rest) == s,
    decreases s.len(),
{
    if s.len() == 0 {
        assert((escape(s) + seq!['"'] + rest)[0] == '"');
        assert(s =~= seq![]);
    } else {
        let c = s[0];
        let tail = s.drop_first();
        lemma_escape_first(s);
        lemma_unescape_escape(tail, rest);
        let all = escape(s) + seq!['"'] + rest;
        let after = escape(tail) + seq!['"'] + rest;
        let e = escape_char(c);
        assert(all =~= e + after);
        assert(all.skip(e.len() as int) =~= after);
        assert(seq![c] + tail =~= s);
        if e.len() == 2 {
            assert(all[0] == '\\' && all[1] == e[1]);
            assert(unescape_char(e[1]) == c);
        } else {
            assert(all[0] == c);
        }
    }
}

/// What can stand between the quotes of a string: no quote but behind a
/// backslash, and no backslash at the end.
pub open spec fn string_body(s: Seq<char>) -> bool
    decreases s.len(),
{
    if s.len() == 0 {
        true
    } else if s[0] == '\\' {
        s.len() >= 2 && string_body(s.skip(2))
    } else {
        s[0] != '"' && string_body(s.skip(1))
    }
}

/// The digits of an escape end at the closing quote at the latest.
proof fn lemma_hex_in_body(body: Seq<char>, rest: Seq<char>, n: int)
    requires
        string_body(body),
    ensures
        hex_len(body + seq!['"'] + rest, n) == hex_len(body, n),
        string_body(body.skip(hex_len(body, n))),
    decreases n,
{
    let all = body + seq!['"'] + rest;
    lemma_hex_len(body, n);
    if body.len() == 0 {
        assert(all[0] == '"');
        assert(body.skip(0) =~= body);
    } else {
        assert(all[0] == body[0]);
        if n <= 0 || body[0] == '\\' {
            assert(body.skip(0) =~= body);
        } else {
            assert(all.skip(1) =~= body.skip(1) + seq!['"'] + rest);
            lemma_hex_in_body(body.skip(1), rest, n - 1);
            lemma_hex_len(body.skip(1), n - 1);
            assert(body.skip(1).skip(hex_len(body.skip(1), n - 1)) =~= body.skip(hex_len(body, n)));
        }
    }
}

/// A `\u` escape ends at the closing quote at the latest.
proof fn lemma_digits_in_body(body: Seq<char>, rest: Seq<char>)
    requires
        string_body(body),
        opens_unicode(body),
    ensures
        opens_unicode(body + seq!['"'] + rest),
        hex_at(body + seq!['"'] + rest) == hex_at(body),
        2 + hex_at(body).len() <= body.len(),
        string_body(body.skip(2 + hex_at(body).len() as int)),
{
    let all = body + seq!['"'] + rest;
    let tail = body.skip(2);
    assert(all[0] == body[0] && all[1] == body[1]);
    assert(all.skip(2) =~= tail + seq!['"'] + rest);
    lemma_hex_in_body(tail, rest, 4);
    lemma_hex_len(tail, 4);
    assert(hex_at(all) =~= hex_at(body));
    assert(tail.skip(hex_len(tail, 4)) =~= body.skip(2 + hex_at(body).len() as int));
}

/// A `\u` escape, or two of them for a pair, are the same whatever follows the
/// string.
proof fn lemma_unicode_in_body(body: Seq<char>, rest: Seq<char>)
    requires
        string_body(body),
        opens_unicode(body),
    ensures
        unicode_at(body + seq!['"'] + rest) == unicode_at(body),
        string_body(body.skip(unicode_at(body).1)),
{
    let all = body + seq!['"'] + rest;
    lemma_digits_in_body(body, rest);
    let n = 2 + hex_at(body).len() as int;
    let next = body.skip(n);
    assert(all.skip(n) =~= next + seq!['"'] + rest);
    if opens_unicode(next) {
        lemma_digits_in_body(next, rest);
        assert(next.skip(2 + hex_at(next).len() as int) =~= body.skip(
            n + 2 + hex_at(next).len(),
        ));
    } else {
        let after = all.skip(n);
        assert(next.len() == 0 ==> after[0] == '"');
        assert(next.len() >= 1 ==> after[0] == next[0]);
        assert(next.len() >= 2 ==> after[1] == next[1]);
    }
}

/// A string ends at its closing quote: what follows it, even after an escape
/// that is cut short, is not read.
pub proof fn law_a_string_ends_at_its_quote(body: Seq<char>, rest: Seq<char>)
    requires
        string_body(body),
    ensures
        unescape(body + seq!['"'] + rest) == unescape(body),
    decreases body.len(),
{
    let all = body + seq!['"'] + rest;
    if body.len() == 0 {
        assert(all[0] == '"');
    } else {
        assert(all[0] == body[0]);
        let n: int = if body[0] != '\\' {
            1
        } else if body[1] == 'u' {
            lemma_unicode_in_body(body, rest);
            lemma_unicode_len(body);
            unicode_at(body).1
        } else {
            2
        };
        assert(body.len() >= 2 ==> all[1] == body[1]);
        assert(all.skip(n) =~= body.skip(n) + seq!['"'] + rest);
        law_a_string_ends_at_its_quote(body.skip(n), rest);
    }
}

/// The escaped form of a text begins with that of its first character.
proof fn lemma_escape_first(s: Seq<char>)
    requires
        s.len() > 0,
    ensures
        escape(s) == escape_char(s[0]) + escape(s.drop_first()),
    decreases s.len(),
{
    if s.len() == 1 {
        assert(escape(s.drop_last()) =~= seq![]);
        assert(escape(s.drop_first()) =~= seq![]);
        assert(escape(s) =~= escape_char(s[0]) + escape(s.drop_first()));
    } else {
        lemma_escape_first(s.drop_last());
        assert(s.drop_last().drop_first() =~= s.drop_first().drop_last());
        assert(escape(s) =~= escape_char(s[0]) + escape(s.drop_first()));
    }
}

/// The first place where a field begins is the one that is found.
proof fn lemma_top_field_found(s: Seq<char>, mark: Seq<char>, from: int, at: int)
    requires
        0 <= from <= at,
        top_field_at(s, mark, at),
        forall|j: int| from <= j < at ==> !#[trigger] top_field_at(s, mark, j),
    ensures
        top_field_from(s, mark, from) == Some(at),
    decreases at - from,
{
    if from < at {
        assert(!top_field_at(s, mark, from));
        lemma_top_field_found(s, mark, from + 1, at);
    }
}

/// What the reader knows depends on what it has read alone.
proof fn lemma_scan_prefix(a: Seq<char>, b: Seq<char>, n: int)
    requires
        n <= a.len(),
    ensures
        scan(a + b, n) == scan(a, n),
    decreases n,
{
    if n > 0 {
        lemma_scan_prefix(a, b, n - 1);
        assert((a + b)[n - 1] == a[n - 1]);
    }
}

/// Outside of strings, the reader starts anew but for the depth.
proof fn lemma_scan_concat(a: Seq<char>, b: Seq<char>, n: int)
    requires
        0 <= n <= b.len(),
        !scan(a, a.len() as int).quoted,
        !scan(a, a.len() as int).escaped,
    ensures
        scan(a + b, a.len() + n) == (Scan {
            depth: scan(a, a.len() as int).depth + scan(b, n).depth,
            ..scan(b, n)
        }),
    decreases n,
{
    if n == 0 {
        lemma_scan_prefix(a, b, a.len() as int);
    } else {
        lemma_scan_concat(a, b, n - 1);
        assert((a + b)[a.len() + n - 1] == b[n - 1]);
    }
}

/// A text that stands inside a quoted string as it is.
pub open spec fn plain(s: Seq<char>) -> bool {
    forall|i: int| 0 <= i < s.len() ==> #[trigger] s[i] != '"' && s[i] != '\\'
}

/// After a quote and plain text the reader is inside a string.
proof fn lemma_scan_plain(w: Seq<char>, n: int)
    requires
        plain(w),
        0 <= n <= w.len(),
    ensures
        scan(seq!['"'] + w, 1 + n) == (Scan { depth: 0, quoted: true, escaped: false }),
    decreases n,
{
    let s = seq!['"'] + w;
    assert(s[0] == '"');
    if n == 0 {
        assert(scan(s, 0) == (Scan { depth: 0, quoted: false, escaped: false }));
    } else {
        lemma_scan_plain(w, n - 1);
        assert(s[n] == w[n - 1]);
    }
}

/// A field with a quoted value, as it stands in an object.
pub open spec fn field(key: Seq<char>, value: Seq<char>) -> Seq<char> {
    seq!['"'] + key + seq!['"', ':'] + quote(value)
}

/// What follows the mark of a field with a quoted value is decoded to it.
proof fn lemma_field_value(
    head: Seq<char>,
    key: Seq<char>,
    value: Seq<char>,
    rest: Seq<char>,
)
    ensures
        text::occurs_at(head + field(key, value) + rest, field_mark(key), head.len() as int),
        unescape(
            (head + field(key, value) + rest).skip((head.len() + field_mark(key).len()) as int),
        ) == value,
{
    let mark = field_mark(key);
    let s = head + field(key, value) + rest;
    let n = head.len() as int;
    assert(s =~= head + mark + (escape(value) + seq!['"'] + rest));
    assert(s.subrange(n, n + mark.len()) =~= mark);
    assert(s.skip(n + mark.len()) =~= escape(value) + seq!['"'] + rest);
    lemma_unescape_escape(value, rest);
}

/// Reading a field gives back what was quoted into it, whatever follows, with
/// the brace of its object or without.
pub proof fn law_field_reads_back_the_quoted_text(
    key: Seq<char>,
    value: Seq<char>,
    rest: Seq<char>,
)
    ensures
        field_of(field(key, value) + rest, key) == Some(value),
        field_of(seq!['{'] + field(key, value) + rest, key) == Some(value),
{
    let mark = field_mark(key);
    let bare = field(key, value) + rest;
    lemma_field_value(seq![], key, value, rest);
    assert(seq![] + field(key, value) + rest =~= bare);
    assert(top_field_at(bare, mark, 0));
    let object = seq!['{'] + field(key, value) + rest;
    lemma_field_value(seq!['{'], key, value, rest);
    assert(object[0] == '{');
    assert(scan(object, 0) == (Scan { depth: 0, quoted: false, escaped: false }));
    assert(scan(object, 1) == (Scan { depth: 1, quoted: false, escaped: false }));
    assert(top_field_at(object, mark, 1));
    assert(!top_field_at(object, mark, 0)) by {
        if text::occurs_at(object, mark, 0) {
            assert(object.subrange(0, mark.len() as int)[0] == mark[0]);
        }
    }
    lemma_top_field_found(object, mark, 0, 1);
}

/// An object or an array, from its bracket to the one that closes it.
pub open spec fn enclosed(t: Seq<char>) -> bool {
    &&& t.len() > 0
    &&& t[0] == '{' || t[0] == '['
    &&& forall|i: int| 0 < i < t.len() ==> (#[trigger] scan(t, i)).depth >= 1
    &&& scan(t, t.len() as int) == (Scan { depth: 0, quoted: false, escaped: false })
}

/// The opening of an object and the name of its first field.
pub open spec fn opening(name: Seq<char>) -> Seq<char> {
    seq!['{'] + (seq!['"'] + name) + seq!['"', ':']
}

/// Inside the name the reader is in a string, and after the colon it is in
/// the object.
proof fn lemma_scan_opening(name: Seq<char>, n: int)
    requires
        plain(name),
    ensures
        2 <= n <= 2 + name.len() ==> scan(opening(name), n).quoted,
        scan(opening(name), opening(name).len() as int) == (Scan {
            depth: 1,
            quoted: false,
            escaped: false,
        }),
{
    let o = name.len() as int;
    let brace = seq!['{'];
    let s = opening(name);
    assert(scan(brace, 0) == (Scan { depth: 0, quoted: false, escaped: false }));
    assert(scan(brace, 1) == (Scan { depth: 1, quoted: false, escaped: false }));
    if 2 <= n <= 2 + o {
        lemma_scan_plain(name, n - 2);
        lemma_scan_concat(brace, seq!['"'] + name, n - 1);
        lemma_scan_prefix(brace + (seq!['"'] + name), seq!['"', ':'], n);
    }
    lemma_scan_plain(name, o);
    lemma_scan_concat(brace, seq!['"'] + name, 1 + o);
    lemma_scan_prefix(brace + (seq!['"'] + name), seq!['"', ':'], 2 + o);
    assert(s[2 + o] == '"' && s[3 + o] == ':');
    assert(scan(s, 3 + o) == (Scan { depth: 1, quoted: false, escaped: false }));
}

/// No field that is a string begins in the opening, if no string follows.
proof fn lemma_no_field_in_opening(name: Seq<char>, key: Seq<char>, rest: Seq<char>, j: int)
    requires
        plain(name),
        plain(key),
        rest.len() > 0,
        rest[0] != '"',
        0 <= j < opening(name).len(),
    ensures
        !top_field_at(opening(name) + rest, field_mark(key), j),
{
    let s = opening(name) + rest;
    let mark = field_mark(key);
    let o = name.len() as int;
    let k = key.len() as int;
    if text::occurs_at(s, mark, j) {
        let here = s.subrange(j, j + mark.len());
        assert(here[0] == s[j] && mark[0] == '"');
        if j == 0 {
            assert(s[0] == '{');
        } else if j == 1 {
            if k < o {
                assert(here[1 + k] == s[2 + k] && mark[1 + k] == '"');
                assert(s[2 + k] == name[k]);
            } else if o < k {
                assert(here[1 + o] == s[2 + o] && mark[1 + o] == key[o]);
                assert(s[2 + o] == '"');
            } else {
                assert(here[3 + k] == s[4 + k] && mark[3 + k] == '"');
                assert(s[4 + k] == rest[0]);
            }
        } else if j <= 2 + o {
            lemma_scan_opening(name, j);
            lemma_scan_prefix(opening(name), rest, j);
        } else {
            assert(s[3 + o] == ':');
        }
    }
}

/// No field begins in an object or array inside of an object.
proof fn lemma_no_field_in_nested(
    head: Seq<char>,
    nested: Seq<char>,
    rest: Seq<char>,
    key: Seq<char>,
    j: int,
)
    requires
        scan(head, head.len() as int) == (Scan { depth: 1, quoted: false, escaped: false }),
        enclosed(nested),
        head.len() <= j < head.len() + nested.len(),
    ensures
        !top_field_at(head + nested + rest, field_mark(key), j),
{
    let s = head + nested + rest;
    let mark = field_mark(key);
    let n = j - head.len();
    if n == 0 {
        if text::occurs_at(s, mark, j) {
            assert(s.subrange(j, j + mark.len())[0] == s[j] && mark[0] == '"');
            assert(s[j] == nested[0]);
        }
    } else {
        lemma_scan_concat(head, nested, n);
        lemma_scan_prefix(head + nested, rest, j);
        assert(scan(nested, n).depth >= 1);
    }
}

/// Only the top level counts: a field is read past an object or array that
/// comes before it, whatever fields that one holds.
pub proof fn law_nested_fields_are_passed_over(
    name: Seq<char>,
    nested: Seq<char>,
    key: Seq<char>,
    value: Seq<char>,
    rest: Seq<char>,
)
    requires
        plain(name),
        plain(key),
        enclosed(nested),
    ensures
        field_of(opening(name) + nested + seq![','] + field(key, value) + rest, key) == Some(value),
{
    let mark = field_mark(key);
    let before = opening(name);
    let head = before + nested + seq![','];
    let s = head + field(key, value) + rest;
    let n = nested.len() as int;
    let m = before.len() as int;
    let at = head.len() as int;
    lemma_field_value(head, key, value, rest);
    lemma_scan_opening(name, 0);
    lemma_scan_concat(before, nested, n);
    lemma_scan_prefix(before + nested, seq![','], m + n);
    assert(head[m + n] == ',');
    assert(scan(head, at) == (Scan { depth: 1, quoted: false, escaped: false }));
    let tail = field(key, value) + rest;
    assert(s =~= head + tail);
    lemma_scan_prefix(head, tail, at);
    assert(top_field_at(s, mark, at));
    let after = nested + (seq![','] + tail);
    assert(s =~= before + after);
    assert(s =~= before + nested + (seq![','] + tail));
    assert forall|j: int| 0 <= j < at implies !#[trigger] top_field_at(s, mark, j) by {
        if j < m {
            assert(after[0] == nested[0]);
            lemma_no_field_in_opening(name, key, after, j);
        } else if j < m + n {
            lemma_no_field_in_nested(before, nested, seq![','] + tail, key, j);
        } else if text::occurs_at(s, mark, j) {
            assert(s.subrange(j, j + mark.len())[0] == s[j] && mark[0] == '"');
            assert(s[j] == ',');
        }
    }
    lemma_top_field_found(s, mark, 0, at);
}

/// The text after the next role marker, such as the echo of what the user
/// wrote, never reaches the reply.
pub proof fn law_only_the_assistant_is_heard(head: Seq<char>, body: Seq<char>, echo: Seq<char>)
    requires
        text::find_from(head + assistant_mark(), assistant_mark(), 0) == Some(head.len() as int),
        text::find_from(body + role_mark(), role_mark(), 0) == Some(body.len() as int),
    ensures
        assistant_text(head + assistant_mark() + body + role_mark() + echo) == assistant_text(
            head + assistant_mark() + body + role_mark(),
        ),
{
    let a = head + assistant_mark() + body + role_mark() + echo;
    let b = head + assistant_mark() + body + role_mark();
    lemma_find_extends(head + assistant_mark(), assistant_mark(), body + role_mark() + echo, 0);
    lemma_find_extends(head + assistant_mark(), assistant_mark(), body + role_mark(), 0);
    assert(a =~= head + assistant_mark() + (body + role_mark() + echo));
    assert(b =~= head + assistant_mark() + (body + role_mark()));
    let n = head.len() + assistant_mark().len();
    assert(a.skip(n as int) =~= body + role_mark() + echo);
    assert(b.skip(n as int) =~= body + role_mark());
    lemma_find_extends(body + role_mark(), role_mark(), echo, 0);
    assert((body + role_mark() + echo).take(body.len() as int) =~= (body + role_mark()).take(
        body.len() as int,
    ));
}

/// A match stays the first match when more text follows.
proof fn lemma_find_extends(s: Seq<char>, needle: Seq<char>, more: Seq<char>, from: int)
    requires
        text::find_from(s, needle, from) is Some,
        0 <= from,
    ensures
        text::find_from(s + more, needle, from) == text::find_from(s, needle, from),
    decreases s.len() + 1 - from,
{
    if from + needle.len() <= s.len() {
        assert((s + more).subrange(from, from + needle.len()) =~= s.subrange(
            from,
            from + needle.len(),
        ));
        if !text::occurs_at(s, needle, from) {
            lemma_find_extends(s, needle, more, from + 1);
        }
    }
}

} // verus!
