//! What holds of strings in JSON, however they are written.

use vstd::prelude::*;

use crate::number;
use crate::text;
use crate::wire;

verus! {

/// The value of a hexadecimal digit, in letters of any case.
pub open spec fn hex(c: char, v: int) -> bool {
    ||| '0' <= c <= '9' && v == c as int - '0' as int
    ||| 'a' <= c <= 'f' && v == c as int - 'a' as int + 10
    ||| 'A' <= c <= 'F' && v == c as int - 'A' as int + 10
}

/// Four hexadecimal digits write a number.
pub open spec fn four(s: Seq<char>, code: int) -> bool {
    s.len() == 4 && exists|a: int, b: int, c: int, d: int|
        #![trigger hex(s[0], a), hex(s[1], b), hex(s[2], c), hex(s[3], d)]
        hex(s[0], a) && hex(s[1], b) && hex(s[2], c) && hex(s[3], d) && code == a * 4096 + b * 256
            + c * 16 + d
}

/// The letter behind a backslash stands for a character.
pub open spec fn short(e: char, c: char) -> bool {
    ||| e == '"' && c == '"'
    ||| e == '\\' && c == '\\'
    ||| e == '/' && c == '/'
    ||| e == 'b' && c as int == 8
    ||| e == 'f' && c as int == 12
    ||| e == 'n' && c as int == 10
    ||| e == 'r' && c as int == 13
    ||| e == 't' && c as int == 9
}

/// `s` is a way to write `c` in a string: as it is, with a backslash and a
/// letter, with the digits of its code, or with those of the two halves of a
/// pair.
pub open spec fn writes(s: Seq<char>, c: char) -> bool {
    ||| s == seq![c] && c != '"' && c != '\\'
    ||| s.len() == 2 && s[0] == '\\' && short(s[1], c)
    ||| s.len() == 6 && s[0] == '\\' && s[1] == 'u' && four(s.subrange(2, 6), c as int)
    ||| s.len() == 12 && s[0] == '\\' && s[1] == 'u' && s[6] == '\\' && s[7] == 'u'
        && exists|h: int, l: int|
        #![trigger four(s.subrange(2, 6), h), four(s.subrange(8, 12), l)]
        four(s.subrange(2, 6), h) && four(s.subrange(8, 12), l) && 0xD800 <= h <= 0xDBFF && 0xDC00
            <= l <= 0xDFFF && c as int == 0x10000 + (h - 0xD800) * 0x400 + (l - 0xDC00)
}

proof fn lemma_hex(c: char, v: int)
    requires
        hex(c, v),
    ensures
        number::digit_of(c, 16) == Some(v),
        c != '"' && c != '\\' && c != '+',
        0 <= v < 16,
{
}

proof fn lemma_four(s: Seq<char>, code: int)
    requires
        four(s, code),
    ensures
        wire::code_of(s) == Some(code),
        forall|i: int| 0 <= i < 4 ==> #[trigger] s[i] != '"' && s[i] != '\\',
{
    let (a, b, c, d) = choose|a: int, b: int, c: int, d: int|
        #![trigger hex(s[0], a), hex(s[1], b), hex(s[2], c), hex(s[3], d)]
        hex(s[0], a) && hex(s[1], b) && hex(s[2], c) && hex(s[3], d) && code == a * 4096 + b * 256
            + c * 16 + d;
    lemma_hex(s[0], a);
    lemma_hex(s[1], b);
    lemma_hex(s[2], c);
    lemma_hex(s[3], d);
    let s3 = s.drop_last();
    let s2 = s3.drop_last();
    let s1 = s2.drop_last();
    assert(s1.drop_last() =~= seq![]);
    assert(number::digits_value(s1.drop_last(), 16) == Some(0int));
    assert(number::digits_value(s1, 16) == Some(a));
    assert(number::digits_value(s2, 16) == Some(a * 16 + b));
    assert(number::digits_value(s3, 16) == Some((a * 16 + b) * 16 + c));
    assert(number::digits_value(s, 16) == Some(((a * 16 + b) * 16 + c) * 16 + d));
}

/// Four digits are taken up, whatever follows them.
proof fn lemma_hex_taken(s: Seq<char>)
    requires
        s.len() >= 6,
        forall|i: int| 2 <= i < 6 ==> #[trigger] s[i] != '"' && s[i] != '\\',
    ensures
        wire::hex_at(s) == s.subrange(2, 6),
{
    let t = s.skip(2);
    assert(t[0] == s[2] && t.skip(1)[0] == s[3] && t.skip(1).skip(1)[0] == s[4] && t.skip(1).skip(
        1,
    ).skip(1)[0] == s[5]);
    reveal_with_fuel(wire::hex_len, 5);
    assert(wire::hex_len(t, 4) == 4);
}

/// A way to write a character reads as the character, and the rest is read on
/// from there.
pub proof fn law_a_written_character_is_read(s: Seq<char>, c: char, rest: Seq<char>)
    requires
        writes(s, c),
    ensures
        wire::unescape(s + rest) == seq![c] + wire::unescape(rest),
{
    let all = s + rest;
    assert(all.skip(s.len() as int) =~= rest);
    assert(all[0] == s[0]);
    if s.len() == 1 {
        assert(s[0] == c);
    } else if s.len() == 2 {
        assert(all[1] == s[1]);
        assert(wire::unescape_char(s[1]) == c);
    } else {
        let code = wire::code_of(s.subrange(2, 6));
        let first = s.subrange(2, 6);
        assert(all[1] == s[1]);
        if s.len() == 6 {
            lemma_four(first, c as int);
            assert forall|i: int| 2 <= i < 6 implies #[trigger] all[i] != '"' && all[i] != '\\' by {
                assert(all[i] == first[i - 2]);
            }
            lemma_hex_taken(all);
            assert(all.subrange(2, 6) =~= first);
            assert(wire::unicode_escape(first) =~= seq![c]);
        } else {
            let second = s.subrange(8, 12);
            let (h, l) = choose|h: int, l: int|
                #![trigger four(first, h), four(second, l)]
                four(first, h) && four(second, l) && 0xD800 <= h <= 0xDBFF && 0xDC00 <= l <= 0xDFFF
                    && c as int == 0x10000 + (h - 0xD800) * 0x400 + (l - 0xDC00);
            lemma_four(first, h);
            lemma_four(second, l);
            assert forall|i: int| 2 <= i < 6 implies #[trigger] all[i] != '"' && all[i] != '\\' by {
                assert(all[i] == first[i - 2]);
            }
            lemma_hex_taken(all);
            assert(all.subrange(2, 6) =~= first);
            let next = all.skip(6);
            assert(next[0] == s[6] && next[1] == s[7]);
            assert forall|i: int| 2 <= i < 6 implies #[trigger] next[i] != '"' && next[i]
                != '\\' by {
                assert(next[i] == second[i - 2]);
            }
            lemma_hex_taken(next);
            assert(next.subrange(2, 6) =~= second);
            assert(wire::joined(Some(h), Some(l)) == Some(c));
        }
    }
}

/// Each of some texts is a way to write the character at its place.
pub open spec fn spells(parts: Seq<Seq<char>>, s: Seq<char>) -> bool {
    parts.len() == s.len() && forall|i: int| 0 <= i < s.len() ==> writes(#[trigger] parts[i], s[i])
}

/// Texts, one after another.
pub open spec fn strung(parts: Seq<Seq<char>>) -> Seq<char>
    decreases parts.len(),
{
    if parts.len() == 0 {
        seq![]
    } else {
        parts[0] + strung(parts.drop_first())
    }
}

/// A string reads as the text that is written in it, in whatever way, up to its
/// closing quote.
pub proof fn law_a_string_is_read_however_it_is_written(
    parts: Seq<Seq<char>>,
    s: Seq<char>,
    rest: Seq<char>,
)
    requires
        spells(parts, s),
    ensures
        wire::unescape(strung(parts) + seq!['"'] + rest) == s,
    decreases parts.len(),
{
    let all = strung(parts) + seq!['"'] + rest;
    if parts.len() == 0 {
        assert(all[0] == '"');
        assert(s =~= seq![]);
    } else {
        let others = parts.drop_first();
        let tail = s.drop_first();
        assert forall|i: int| 0 <= i < tail.len() implies writes(#[trigger] others[i], tail[i]) by {
            assert(others[i] == parts[i + 1] && tail[i] == s[i + 1]);
        }
        law_a_string_is_read_however_it_is_written(others, tail, rest);
        assert(writes(parts[0], s[0]));
        let after = strung(others) + seq!['"'] + rest;
        assert(all =~= parts[0] + after);
        law_a_written_character_is_read(parts[0], s[0], after);
        assert(seq![s[0]] + tail =~= s);
    }
}

/// The text of the assistant's message is read from its text field, whatever
/// stands around it, as long as nobody else speaks and there is no other text.
pub proof fn law_the_assistants_text_is_read(
    a: Seq<char>,
    x: Seq<char>,
    parts: Seq<Seq<char>>,
    s: Seq<char>,
    y: Seq<char>,
)
    requires
        spells(parts, s),
        s.len() > 0,
        ({
            let mark = wire::field_mark(seq!['t', 'e', 'x', 't']);
            let body = x + mark + strung(parts) + seq!['"'] + y;
            let line = a + "\"role\":\"assistant\""@ + body;
            &&& forall|j: int|
                0 <= j < a.len() ==> !#[trigger] text::occurs_at(
                    line,
                    "\"role\":\"assistant\""@,
                    j,
                )
            &&& forall|j: int| !#[trigger] text::occurs_at(body, "\"role\":\""@, j)
            &&& forall|j: int|
                j != x.len() ==> !#[trigger] text::occurs_at(body, mark, j)
        }),
    ensures
        wire::assistant_text(
            a + "\"role\":\"assistant\""@ + (x + wire::field_mark(seq!['t', 'e', 'x', 't']) + strung(
                parts,
            ) + seq!['"'] + y),
        ) == Some(s),
{
    let mark = wire::field_mark(seq!['t', 'e', 'x', 't']);
    let body = x + mark + strung(parts) + seq!['"'] + y;
    let who = "\"role\":\"assistant\""@;
    let line = a + who + body;
    let n = a.len() as int;
    assert(line.subrange(n, n + who.len()) =~= who);
    assert(text::occurs_at(line, who, n));
    text::lemma_find_from(line, who, 0);
    let found = text::find_from(line, who, 0);
    assert(found == Some(n)) by {
        let i = found->0;
        if i < n {
            assert(!text::occurs_at(line, who, i));
        }
    }
    assert(line.skip(n + who.len()) =~= body);
    text::lemma_find_from(body, wire::role_mark(), 0);
    assert(wire::assistant_part(line) == Some(body));
    let k = x.len() as int;
    assert(body.subrange(k, k + mark.len()) =~= mark);
    assert(text::occurs_at(body, mark, k));
    text::lemma_find_from(body, mark, 0);
    assert(text::find_from(body, mark, 0) == Some(k)) by {
        let i = text::find_from(body, mark, 0)->0;
        if i < k {
            assert(!text::occurs_at(body, mark, i));
        }
    }
    text::lemma_find_from(body, mark, k + mark.len());
    assert(text::find_from(body, mark, k + mark.len()) is None);
    assert(wire::text_fields(body, k + mark.len()) =~= seq![]);
    assert(body.skip(k + mark.len()) =~= strung(parts) + seq!['"'] + y);
    law_a_string_is_read_however_it_is_written(parts, s, y);
    assert(wire::text_fields(body, 0) =~= s);
}

} // verus!
