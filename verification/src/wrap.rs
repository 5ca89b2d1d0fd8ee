//! Breaking a reply into lines that fit the page.

use vstd::prelude::*;

use crate::lines;
use crate::text;

verus! {

/// `fits` answers as `p` does.
pub open spec fn agrees<F: Fn(&str) -> bool>(fits: F, p: spec_fn(Seq<char>) -> bool) -> bool {
    forall|s: &str, b: bool| #[trigger] fits.ensures((s,), b) ==> b == p(s@)
}

/// Lines that are done, and the one that is being filled.
pub struct Fill {
    pub done: Seq<Seq<char>>,
    pub cur: Seq<char>,
}

/// The page with `word` on it: behind the others on the line, or on a new one.
pub open spec fn add_word(f: Fill, word: Seq<char>, p: spec_fn(Seq<char>) -> bool) -> Fill {
    if f.cur.len() == 0 {
        Fill { done: f.done, cur: word }
    } else if p(f.cur + seq![' '] + word) {
        Fill { done: f.done, cur: f.cur + seq![' '] + word }
    } else {
        Fill { done: f.done.push(f.cur), cur: word }
    }
}

/// The page with some words on it.
pub open spec fn add_words(words: Seq<Seq<char>>, p: spec_fn(Seq<char>) -> bool) -> Fill
    decreases words.len(),
{
    if words.len() == 0 {
        Fill { done: seq![], cur: seq![] }
    } else {
        add_word(add_words(words.drop_last(), p), words.last(), p)
    }
}

/// The lines of a paragraph, broken between words.
pub open spec fn wrapped_words(para: Seq<char>, p: spec_fn(Seq<char>) -> bool) -> Seq<Seq<char>> {
    let f = add_words(lines::words(para), p);
    if f.cur.len() == 0 {
        f.done
    } else {
        f.done.push(f.cur)
    }
}

/// The lines of a text, whose own lines are paragraphs, broken between words.
pub open spec fn wrapped(paras: Seq<Seq<char>>, p: spec_fn(Seq<char>) -> bool) -> Seq<Seq<char>>
    decreases paras.len(),
{
    if paras.len() == 0 {
        seq![]
    } else {
        wrapped(paras.drop_last(), p) + wrapped_words(paras.last(), p)
    }
}

/// A character of ASCII.
pub open spec fn is_ascii(c: char) -> bool {
    c <= '\u{7f}'
}

/// The pieces of a text, and a word that may go on.
pub struct Pieces {
    pub done: Seq<Seq<char>>,
    pub word: Seq<char>,
}

/// The pieces, with a word that does not go on.
pub open spec fn flushed(t: Pieces) -> Seq<Seq<char>> {
    if t.word.len() == 0 {
        t.done
    } else {
        t.done.push(t.word)
    }
}

/// The pieces with one more character: white space is a space of its own,
/// characters of ASCII make words, and any other character stands by itself.
pub open spec fn add_char(t: Pieces, c: char) -> Pieces {
    if text::is_space(c) {
        Pieces { done: flushed(t).push(seq![' ']), word: seq![] }
    } else if is_ascii(c) {
        Pieces { done: t.done, word: t.word.push(c) }
    } else {
        Pieces { done: flushed(t).push(seq![c]), word: seq![] }
    }
}

/// The pieces of some characters.
pub open spec fn add_chars(s: Seq<char>) -> Pieces
    decreases s.len(),
{
    if s.len() == 0 {
        Pieces { done: seq![], word: seq![] }
    } else {
        add_char(add_chars(s.drop_last()), s.last())
    }
}

/// The pieces between which a text can be broken.
pub open spec fn tokens(s: Seq<char>) -> Seq<Seq<char>> {
    flushed(add_chars(s))
}

/// The page with one more piece on it.
pub open spec fn add_token(f: Fill, token: Seq<char>, p: spec_fn(Seq<char>) -> bool) -> Fill {
    if token == seq![' '] {
        if f.cur.len() > 0 && f.cur.last() != ' ' {
            Fill { done: f.done, cur: f.cur.push(' ') }
        } else {
            f
        }
    } else if f.cur.len() == 0 || p(f.cur + token) {
        Fill { done: f.done, cur: f.cur + token }
    } else {
        Fill { done: f.done.push(text::trim_end(f.cur)), cur: text::trim_start(token) }
    }
}

/// The page with some pieces on it.
pub open spec fn add_tokens(list: Seq<Seq<char>>, p: spec_fn(Seq<char>) -> bool) -> Fill
    decreases list.len(),
{
    if list.len() == 0 {
        Fill { done: seq![], cur: seq![] }
    } else {
        add_token(add_tokens(list.drop_last(), p), list.last(), p)
    }
}

/// The lines of a paragraph, broken between pieces.
pub open spec fn wrapped_tokens(para: Seq<char>, p: spec_fn(Seq<char>) -> bool) -> Seq<Seq<char>> {
    let f = add_tokens(tokens(para), p);
    if text::trim(f.cur).len() == 0 {
        f.done
    } else {
        f.done.push(text::trim_end(f.cur))
    }
}

/// The lines of a text, whose own lines are paragraphs, broken between pieces.
pub open spec fn wrapped_stack(
    paras: Seq<Seq<char>>,
    p: spec_fn(Seq<char>) -> bool,
) -> Seq<Seq<char>>
    decreases paras.len(),
{
    if paras.len() == 0 {
        seq![]
    } else {
        wrapped_stack(paras.drop_last(), p) + wrapped_tokens(paras.last(), p)
    }
}

/// Lines of text.
pub open spec fn strings(list: Seq<String>) -> Seq<Seq<char>> {
    list.map_values(|s: String| s@)
}

/// Wraps one paragraph, with the lines put behind those of `out`.
fn wrap_para<F: Fn(&str) -> bool>(para: &[char], fits: &F, out: &mut Vec<String>)
    requires
        forall|s: &str| fits.requires((s,)),
    ensures
        forall|p: spec_fn(Seq<char>) -> bool| #[trigger]
            agrees(*fits, p) ==> strings(final(out)@) == strings(old(out)@) + wrapped_words(
                para@,
                p,
            ),
{
    let list = lines::split_words(para);
    let ghost all = lines::words(para@);
    let ghost start = strings(out@);
    let mut cur: Vec<char> = Vec::new();
    let mut i: usize = 0;
    assert(lines::texts(list@).len() == all.len());
    assert(all.take(0).len() == 0);
    assert(start + Seq::<Seq<char>>::empty() =~= start);
    assert(cur@ =~= seq![]);
    while i < list.len()
        invariant
            forall|s: &str| fits.requires((s,)),
            lines::texts(list@) == all,
            list@.len() == all.len(),
            i <= list@.len(),
            forall|p: spec_fn(Seq<char>) -> bool| #[trigger]
                agrees(*fits, p) ==> strings(out@) == start + add_words(all.take(i as int), p).done
                    && cur@ == add_words(all.take(i as int), p).cur,
        decreases list@.len() - i,
    {
        let ghost before = out@;
        let ghost old_cur = cur@;
        let word = list[i].as_slice();
        assert(lines::texts(list@)[i as int] == list@[i as int]@);
        assert(all.take(i + 1).drop_last() =~= all.take(i as int));
        assert(all.take(i + 1).last() == word@);
        if cur.len() == 0 {
            text::append(&mut cur, word);
            assert(cur@ =~= word@);
        } else {
            let mut cand = text::copy_of(cur.as_slice());
            cand.push(' ');
            text::append(&mut cand, word);
            assert(cand@ =~= old_cur + seq![' '] + word@);
            let s = text::string_of(cand.as_slice());
            if fits(s.as_str()) {
                cur = cand;
            } else {
                out.push(text::string_of(cur.as_slice()));
                cur = text::copy_of(word);
                assert(strings(out@) =~= strings(before).push(old_cur));
            }
        }
        proof {
            assert forall|p: spec_fn(Seq<char>) -> bool| #[trigger]
                agrees(*fits, p) implies strings(out@) == start + add_words(
                all.take(i + 1),
                p,
            ).done && cur@ == add_words(all.take(i + 1), p).cur by {
                let f = add_words(all.take(i as int), p);
                assert(start + f.done.push(f.cur) =~= (start + f.done).push(f.cur));
            }
        }
        i += 1;
    }
    assert(all.take(i as int) =~= all);
    let ghost before = out@;
    if cur.len() > 0 {
        out.push(text::string_of(cur.as_slice()));
        assert(strings(out@) =~= strings(before).push(cur@));
    }
    proof {
        assert forall|p: spec_fn(Seq<char>) -> bool| #[trigger] agrees(*fits, p) implies strings(
            out@,
        ) == start + wrapped_words(para@, p) by {
            let f = add_words(all, p);
            assert(start + f.done.push(f.cur) =~= (start + f.done).push(f.cur));
        }
    }
}

/// Word-wrap `text` to lines that fit.
pub fn wrap<F: Fn(&str) -> bool>(text: &str, fits: F) -> (out: Vec<String>)
    requires
        forall|s: &str| fits.requires((s,)),
    ensures
        forall|p: spec_fn(Seq<char>) -> bool| #[trigger]
            agrees(fits, p) ==> strings(out@) == wrapped(lines::lines(text@), p),
{
    let cs = text::chars_of(text);
    let list = lines::split_lines(cs.as_slice());
    let ghost all = lines::lines(text@);
    let mut out: Vec<String> = Vec::new();
    let mut i: usize = 0;
    assert(lines::texts(list@).len() == all.len());
    assert(strings(out@) =~= seq![]);
    while i < list.len()
        invariant
            forall|s: &str| fits.requires((s,)),
            lines::texts(list@) == all,
            list@.len() == all.len(),
            i <= list@.len(),
            forall|p: spec_fn(Seq<char>) -> bool| #[trigger]
                agrees(fits, p) ==> strings(out@) == wrapped(all.take(i as int), p),
        decreases list@.len() - i,
    {
        assert(lines::texts(list@)[i as int] == list@[i as int]@);
        assert(all.take(i + 1).drop_last() =~= all.take(i as int));
        assert(all.take(i + 1).last() == list@[i as int]@);
        wrap_para(list[i].as_slice(), &fits, &mut out);
        i += 1;
    }
    assert(all.take(i as int) =~= all);
    out
}

/// The pieces between which a text can be broken.
pub fn wrap_tokens(text: &str) -> (out: Vec<String>)
    ensures
        strings(out@) == tokens(text@),
{
    let cs = text::chars_of(text);
    let list = token_list(cs.as_slice());
    let mut out: Vec<String> = Vec::new();
    let mut i: usize = 0;
    assert(lines::texts(list@).len() == list@.len());
    while i < list.len()
        invariant
            i <= list@.len(),
            strings(out@) == lines::texts(list@).take(i as int),
        decreases list@.len() - i,
    {
        let ghost before = out@;
        out.push(text::string_of(list[i].as_slice()));
        assert(strings(out@) =~= strings(before).push(list@[i as int]@));
        assert(lines::texts(list@).take(i + 1) =~= lines::texts(list@).take(i as int).push(
            list@[i as int]@,
        ));
        i += 1;
    }
    assert(lines::texts(list@).take(i as int) =~= lines::texts(list@));
    out
}

/// Puts a word, if there is one, behind some pieces.
fn flush(out: &mut Vec<Vec<char>>, word: &mut Vec<char>)
    ensures
        lines::texts(final(out)@) == flushed(
            Pieces { done: lines::texts(old(out)@), word: old(word)@ },
        ),
        final(word)@ == Seq::<char>::empty(),
{
    if word.len() > 0 {
        let mut whole: Vec<char> = Vec::new();
        std::mem::swap(&mut whole, word);
        let ghost before = out@;
        out.push(whole);
        assert(lines::texts(out@) =~= lines::texts(before).push(whole@));
    } else {
        assert(word@ =~= Seq::<char>::empty());
    }
}

fn token_list(cs: &[char]) -> (out: Vec<Vec<char>>)
    ensures
        lines::texts(out@) == tokens(cs@),
{
    let mut out: Vec<Vec<char>> = Vec::new();
    let mut word: Vec<char> = Vec::new();
    let mut i: usize = 0;
    assert(cs@.take(0).len() == 0);
    assert(lines::texts(out@) =~= seq![]);
    assert(word@ =~= seq![]);
    while i < cs.len()
        invariant
            i <= cs@.len(),
            lines::texts(out@) == add_chars(cs@.take(i as int)).done,
            word@ == add_chars(cs@.take(i as int)).word,
        decreases cs@.len() - i,
    {
        assert(cs@.take(i + 1).drop_last() =~= cs@.take(i as int));
        let c = cs[i];
        if text::is_whitespace(c) {
            flush(&mut out, &mut word);
            let ghost before = out@;
            let space: Vec<char> = vec![' '];
            out.push(space);
            assert(space@ =~= seq![' ']);
            assert(lines::texts(out@) =~= lines::texts(before).push(space@));
        } else if c <= '\u{7f}' {
            word.push(c);
        } else {
            flush(&mut out, &mut word);
            let ghost before = out@;
            let single: Vec<char> = vec![c];
            out.push(single);
            assert(single@ =~= seq![c]);
            assert(lines::texts(out@) =~= lines::texts(before).push(single@));
        }
        i += 1;
    }
    assert(cs@.take(i as int) =~= cs@);
    flush(&mut out, &mut word);
    out
}

/// Wraps one paragraph between pieces, with the lines put behind those of
/// `out`.
fn wrap_para_stack<F: Fn(&str) -> bool>(para: &[char], fits: &F, out: &mut Vec<String>)
    requires
        forall|s: &str| fits.requires((s,)),
    ensures
        forall|p: spec_fn(Seq<char>) -> bool| #[trigger]
            agrees(*fits, p) ==> strings(final(out)@) == strings(old(out)@) + wrapped_tokens(
                para@,
                p,
            ),
{
    let list = token_list(para);
    let ghost all = tokens(para@);
    let ghost start = strings(out@);
    let mut cur: Vec<char> = Vec::new();
    let mut i: usize = 0;
    proof {
        reveal_strlit(" ");
        assert(" "@ =~= seq![' ']);
    }
    assert(lines::texts(list@).len() == all.len());
    assert(all.take(0).len() == 0);
    assert(start + Seq::<Seq<char>>::empty() =~= start);
    assert(cur@ =~= seq![]);
    while i < list.len()
        invariant
            forall|s: &str| fits.requires((s,)),
            " "@ == seq![' '],
            lines::texts(list@) == all,
            list@.len() == all.len(),
            i <= list@.len(),
            forall|p: spec_fn(Seq<char>) -> bool| #[trigger]
                agrees(*fits, p) ==> strings(out@) == start + add_tokens(
                    all.take(i as int),
                    p,
                ).done && cur@ == add_tokens(all.take(i as int), p).cur,
        decreases list@.len() - i,
    {
        let ghost before = out@;
        let ghost old_cur = cur@;
        let token = list[i].as_slice();
        assert(lines::texts(list@)[i as int] == list@[i as int]@);
        assert(all.take(i + 1).drop_last() =~= all.take(i as int));
        assert(all.take(i + 1).last() == token@);
        if text::same_str(token, " ") {
            if cur.len() > 0 && cur[cur.len() - 1] != ' ' {
                cur.push(' ');
            }
        } else {
            let mut cand = text::copy_of(cur.as_slice());
            text::append(&mut cand, token);
            let s = text::string_of(cand.as_slice());
            if fits(s.as_str()) || cur.len() == 0 {
                cur = cand;
            } else {
                out.push(text::string_of(text::trimmed_end(cur.as_slice())));
                cur = text::copy_of(text::trimmed_start(token));
                assert(strings(out@) =~= strings(before).push(text::trim_end(old_cur)));
            }
        }
        proof {
            assert forall|p: spec_fn(Seq<char>) -> bool| #[trigger]
                agrees(*fits, p) implies strings(out@) == start + add_tokens(
                all.take(i + 1),
                p,
            ).done && cur@ == add_tokens(all.take(i + 1), p).cur by {
                let f = add_tokens(all.take(i as int), p);
                let t = text::trim_end(f.cur);
                assert(start + f.done.push(t) =~= (start + f.done).push(t));
            }
        }
        i += 1;
    }
    assert(all.take(i as int) =~= all);
    let ghost before = out@;
    if text::trimmed(cur.as_slice()).len() > 0 {
        out.push(text::string_of(text::trimmed_end(cur.as_slice())));
        assert(strings(out@) =~= strings(before).push(text::trim_end(cur@)));
    }
    proof {
        assert forall|p: spec_fn(Seq<char>) -> bool| #[trigger] agrees(*fits, p) implies strings(
            out@,
        ) == start + wrapped_tokens(para@, p) by {
            let f = add_tokens(all, p);
            let t = text::trim_end(f.cur);
            assert(start + f.done.push(t) =~= (start + f.done).push(t));
        }
    }
}

/// Wrap text where non-ASCII runs can break between characters, which keeps
/// Chinese/Japanese/Korean replies inside the page.
pub fn wrap_stack<F: Fn(&str) -> bool>(text: &str, fits: F) -> (out: Vec<String>)
    requires
        forall|s: &str| fits.requires((s,)),
    ensures
        forall|p: spec_fn(Seq<char>) -> bool| #[trigger]
            agrees(fits, p) ==> strings(out@) == wrapped_stack(lines::lines(text@), p),
{
    let cs = text::chars_of(text);
    let list = lines::split_lines(cs.as_slice());
    let ghost all = lines::lines(text@);
    let mut out: Vec<String> = Vec::new();
    let mut i: usize = 0;
    assert(lines::texts(list@).len() == all.len());
    assert(strings(out@) =~= seq![]);
    while i < list.len()
        invariant
            forall|s: &str| fits.requires((s,)),
            lines::texts(list@) == all,
            list@.len() == all.len(),
            i <= list@.len(),
            forall|p: spec_fn(Seq<char>) -> bool| #[trigger]
                agrees(fits, p) ==> strings(out@) == wrapped_stack(all.take(i as int), p),
        decreases list@.len() - i,
    {
        assert(lines::texts(list@)[i as int] == list@[i as int]@);
        assert(all.take(i + 1).drop_last() =~= all.take(i as int));
        assert(all.take(i + 1).last() == list@[i as int]@);
        wrap_para_stack(list[i].as_slice(), &fits, &mut out);
        i += 1;
    }
    assert(all.take(i as int) =~= all);
    out
}

} // verus!
