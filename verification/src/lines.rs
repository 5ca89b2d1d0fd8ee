//! Splitting text into lines and words.

use vstd::prelude::*;

use crate::text;

verus! {

/// Where the first line feed of `s` stands at or after `from`, or the end of `s`.
pub open spec fn line_feed(s: Seq<char>, from: int) -> int
    decreases s.len() - from,
{
    if from < 0 || from >= s.len() || s[from] == '\n' {
        from
    } else {
        line_feed(s, from + 1)
    }
}

/// A line that ended in a line feed, without the carriage return before it.
pub open spec fn without_return(s: Seq<char>) -> Seq<char> {
    if s.len() > 0 && s.last() == '\r' {
        s.drop_last()
    } else {
        s
    }
}

/// The lines of `s`. A line ends with a line feed, or a carriage return and a
/// line feed, which are not part of it; the last line need not end at all.
pub open spec fn lines(s: Seq<char>) -> Seq<Seq<char>>
    decreases s.len(),
{
    if s.len() == 0 {
        seq![]
    } else {
        let end = line_feed(s, 0);
        if 0 <= end < s.len() {
            seq![without_return(s.take(end))] + lines(s.skip(end + 1))
        } else {
            seq![s]
        }
    }
}

/// Where the first white space of `s` stands at or after `from`, or the end of `s`.
pub open spec fn word_end(s: Seq<char>, from: int) -> int
    decreases s.len() - from,
{
    if from < 0 || from >= s.len() || text::is_space(s[from]) {
        from
    } else {
        word_end(s, from + 1)
    }
}

/// The words of `s`: its longest runs without white space.
pub open spec fn words(s: Seq<char>) -> Seq<Seq<char>>
    decreases s.len(),
{
    if s.len() == 0 {
        seq![]
    } else if text::is_space(s[0]) {
        words(s.drop_first())
    } else {
        let end = word_end(s, 0);
        if 0 < end <= s.len() {
            seq![s.take(end)] + words(s.skip(end))
        } else {
            seq![s]
        }
    }
}

/// The texts that a list of character lists holds.
pub open spec fn texts(list: Seq<Vec<char>>) -> Seq<Seq<char>> {
    list.map_values(|v: Vec<char>| v@)
}

/// A line feed is found at or after the start, with none before it.
pub proof fn lemma_line_feed(s: Seq<char>, from: int)
    requires
        0 <= from <= s.len(),
    ensures
        from <= line_feed(s, from) <= s.len(),
        forall|i: int| from <= i < line_feed(s, from) ==> s[i] != '\n',
        line_feed(s, from) < s.len() ==> s[line_feed(s, from)] == '\n',
    decreases s.len() - from,
{
    if from < s.len() && s[from] != '\n' {
        lemma_line_feed(s, from + 1);
    }
}

/// White space is found at or after the start, with none before it.
pub proof fn lemma_word_end(s: Seq<char>, from: int)
    requires
        0 <= from <= s.len(),
    ensures
        from <= word_end(s, from) <= s.len(),
        forall|i: int| from <= i < word_end(s, from) ==> !text::is_space(s[i]),
        word_end(s, from) < s.len() ==> text::is_space(s[word_end(s, from)]),
    decreases s.len() - from,
{
    if from < s.len() && !text::is_space(s[from]) {
        lemma_word_end(s, from + 1);
    }
}

/// A search in a text that begins `base` characters further on finds the same place.
proof fn lemma_line_feed_shift(s: Seq<char>, base: int, from: int)
    requires
        0 <= base,
        0 <= from,
        base + from <= s.len(),
    ensures
        line_feed(s.skip(base), from) + base == line_feed(s, base + from),
    decreases s.len() - base - from,
{
    if base + from < s.len() && s[base + from] != '\n' {
        lemma_line_feed_shift(s, base, from + 1);
    }
}

proof fn lemma_word_end_shift(s: Seq<char>, base: int, from: int)
    requires
        0 <= base,
        0 <= from,
        base + from <= s.len(),
    ensures
        word_end(s.skip(base), from) + base == word_end(s, base + from),
    decreases s.len() - base - from,
{
    if base + from < s.len() && !text::is_space(s[base + from]) {
        lemma_word_end_shift(s, base, from + 1);
    }
}

/// The lines of a text.
pub fn split_lines(cs: &[char]) -> (out: Vec<Vec<char>>)
    ensures
        texts(out@) == lines(cs@),
{
    let n: usize = cs.len();
    let mut out: Vec<Vec<char>> = Vec::new();
    let mut start: usize = 0;
    assert(cs@.skip(0) =~= cs@);
    assert(texts(out@) + lines(cs@.skip(0)) =~= lines(cs@));
    while start < n
        invariant
            start <= n,
            n == cs@.len(),
            texts(out@) + lines(cs@.skip(start as int)) == lines(cs@),
        decreases n - start,
    {
        let ghost rest = cs@.skip(start as int);
        let mut end: usize = start;
        while end < n && cs[end] != '\n'
            invariant
                start <= end <= n,
                n == cs@.len(),
                line_feed(cs@, start as int) == line_feed(cs@, end as int),
            decreases n - end,
        {
            end += 1;
        }
        proof {
            lemma_line_feed_shift(cs@, start as int, 0);
            assert(line_feed(rest, 0) == end - start);
        }
        let ghost before = out@;
        if end < n {
            let mut stop: usize = end;
            if stop > start && cs[stop - 1] == '\r' {
                stop -= 1;
            }
            let line = text::copy_of(text::part(cs, start, stop));
            proof {
                assert(rest.take(end - start) =~= cs@.subrange(start as int, end as int));
                assert(line@ =~= without_return(rest.take(end - start)));
                assert(rest.skip(end - start + 1) =~= cs@.skip(end + 1));
            }
            out.push(line);
            start = end + 1;
            proof {
                assert(texts(out@) =~= texts(before).push(line@));
                assert(texts(out@) + lines(cs@.skip(start as int)) =~= texts(before) + (seq![line@]
                    + lines(cs@.skip(start as int))));
            }
        } else {
            let line = text::copy_of(text::part(cs, start, n));
            proof {
                assert(line@ =~= rest);
            }
            out.push(line);
            start = n;
            proof {
                assert(texts(out@) =~= texts(before).push(line@));
                assert(cs@.skip(n as int).len() == 0);
                assert(texts(out@) + lines(cs@.skip(n as int)) =~= texts(before) + lines(rest));
            }
        }
    }
    proof {
        assert(cs@.skip(n as int).len() == 0);
        assert(texts(out@) + lines(cs@.skip(n as int)) =~= texts(out@));
    }
    out
}

/// The words of a text.
pub fn split_words(cs: &[char]) -> (out: Vec<Vec<char>>)
    ensures
        texts(out@) == words(cs@),
{
    let n: usize = cs.len();
    let mut out: Vec<Vec<char>> = Vec::new();
    let mut start: usize = 0;
    assert(cs@.skip(0) =~= cs@);
    assert(texts(out@) + words(cs@.skip(0)) =~= words(cs@));
    while start < n
        invariant
            start <= n,
            n == cs@.len(),
            texts(out@) + words(cs@.skip(start as int)) == words(cs@),
        decreases n - start,
    {
        let ghost rest = cs@.skip(start as int);
        if text::is_whitespace(cs[start]) {
            assert(rest.drop_first() =~= cs@.skip(start + 1));
            start += 1;
        } else {
            let mut end: usize = start + 1;
            while end < n && !text::is_whitespace(cs[end])
                invariant
                    start < end <= n,
                    n == cs@.len(),
                    word_end(cs@, start as int) == word_end(cs@, end as int),
                decreases n - end,
            {
                end += 1;
            }
            let word = text::copy_of(text::part(cs, start, end));
            let ghost before = out@;
            proof {
                lemma_word_end_shift(cs@, start as int, 0);
                assert(word_end(rest, 0) == end - start);
                assert(word@ =~= rest.take(end - start));
                assert(rest.skip(end - start) =~= cs@.skip(end as int));
            }
            out.push(word);
            start = end;
            proof {
                assert(texts(out@) =~= texts(before).push(word@));
                assert(texts(out@) + words(cs@.skip(start as int)) =~= texts(before) + (seq![word@]
                    + words(cs@.skip(start as int))));
            }
        }
    }
    proof {
        assert(cs@.skip(n as int).len() == 0);
        assert(texts(out@) + words(cs@.skip(n as int)) =~= texts(out@));
    }
    out
}

} // verus!
