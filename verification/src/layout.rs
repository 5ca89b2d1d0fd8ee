//! What holds of wrapped text.

use vstd::prelude::*;

use crate::lines;
use crate::text;
use crate::wrap;

verus! {

/// A text without its white space.
pub open spec fn ink(s: Seq<char>) -> Seq<char>
    decreases s.len(),
{
    if s.len() == 0 {
        seq![]
    } else if text::is_space(s.last()) {
        ink(s.drop_last())
    } else {
        ink(s.drop_last()).push(s.last())
    }
}

/// Texts without their white space, one after another.
pub open spec fn ink_of(list: Seq<Seq<char>>) -> Seq<char>
    decreases list.len(),
{
    if list.len() == 0 {
        seq![]
    } else {
        ink_of(list.drop_last()) + ink(list.last())
    }
}

/// A text has no white space.
pub open spec fn solid(s: Seq<char>) -> bool {
    forall|i: int| 0 <= i < s.len() ==> !text::is_space(#[trigger] s[i])
}

/// A text cannot be broken: it is a single character, or a word of ASCII.
pub open spec fn unbreakable(s: Seq<char>) -> bool {
    solid(s) && (s.len() == 1 || forall|i: int|
        0 <= i < s.len() ==> wrap::is_ascii(#[trigger] s[i]))
}

proof fn lemma_ink_concat(a: Seq<char>, b: Seq<char>)
    ensures
        ink(a + b) == ink(a) + ink(b),
    decreases b.len(),
{
    if b.len() == 0 {
        assert(a + b =~= a);
        assert(ink(a) + ink(b) =~= ink(a));
    } else {
        assert((a + b).drop_last() =~= a + b.drop_last());
        lemma_ink_concat(a, b.drop_last());
        assert(ink(a + b) =~= ink(a) + ink(b));
    }
}

proof fn lemma_ink_of_concat(a: Seq<Seq<char>>, b: Seq<Seq<char>>)
    ensures
        ink_of(a + b) == ink_of(a) + ink_of(b),
    decreases b.len(),
{
    if b.len() == 0 {
        assert(a + b =~= a);
        assert(ink_of(a) + ink_of(b) =~= ink_of(a));
    } else {
        assert((a + b).drop_last() =~= a + b.drop_last());
        lemma_ink_of_concat(a, b.drop_last());
        assert(ink_of(a + b) =~= ink_of(a) + ink_of(b));
    }
}

proof fn lemma_ink_of_push(list: Seq<Seq<char>>, s: Seq<char>)
    ensures
        ink_of(list.push(s)) == ink_of(list) + ink(s),
{
    assert(list.push(s).drop_last() =~= list);
}

proof fn lemma_ink_solid(s: Seq<char>)
    requires
        solid(s),
    ensures
        ink(s) == s,
    decreases s.len(),
{
    if s.len() > 0 {
        assert forall|i: int| 0 <= i < s.drop_last().len() implies !text::is_space(
            #[trigger] s.drop_last()[i],
        ) by {
            assert(s.drop_last()[i] == s[i]);
        }
        lemma_ink_solid(s.drop_last());
        assert(!text::is_space(s[s.len() - 1]));
        assert(s.drop_last().push(s.last()) =~= s);
    } else {
        assert(ink(s) =~= s);
    }
}

proof fn lemma_ink_one(c: char)
    ensures
        ink(seq![c]) == if text::is_space(c) {
            seq![]
        } else {
            seq![c]
        },
{
    assert(seq![c].drop_last() =~= seq![]);
    assert(ink(seq![c].drop_last()) =~= seq![]);
    assert(Seq::<char>::empty().push(c) =~= seq![c]);
}

pub proof fn lemma_ink_trim_end(s: Seq<char>)
    ensures
        ink(text::trim_end(s)) == ink(s),
        text::trim_end(s).len() > 0 ==> !text::is_space(text::trim_end(s).last()),
    decreases s.len(),
{
    if s.len() > 0 && text::is_space(s.last()) {
        lemma_ink_trim_end(s.drop_last());
    }
}

pub proof fn lemma_ink_trim_start(s: Seq<char>)
    ensures
        ink(text::trim_start(s)) == ink(s),
    decreases s.len(),
{
    if s.len() > 0 && text::is_space(s[0]) {
        lemma_ink_trim_start(s.drop_first());
        assert(s =~= seq![s[0]] + s.drop_first());
        lemma_ink_concat(seq![s[0]], s.drop_first());
        lemma_ink_one(s[0]);
        assert(Seq::<char>::empty() + ink(s.drop_first()) =~= ink(s.drop_first()));
    }
}

pub proof fn lemma_trim_solid(s: Seq<char>)
    requires
        solid(s),
    ensures
        text::trim_start(s) == s,
        text::trim_end(s) == s,
        text::trim(s) == s,
{
    if s.len() > 0 {
        assert(!text::is_space(s[0]));
        assert(!text::is_space(s[s.len() - 1]));
    }
}

/// The words of a text are its ink.
pub proof fn lemma_words(s: Seq<char>)
    ensures
        ink_of(lines::words(s)) == ink(s),
        forall|i: int|
            0 <= i < lines::words(s).len() ==> (#[trigger] lines::words(s)[i]).len() > 0 && solid(
                lines::words(s)[i],
            ),
    decreases s.len(),
{
    let all = lines::words(s);
    if s.len() == 0 {
    } else if text::is_space(s[0]) {
        let rest = s.drop_first();
        lemma_words(rest);
        assert(s =~= seq![s[0]] + rest);
        lemma_ink_concat(seq![s[0]], rest);
        lemma_ink_one(s[0]);
        assert(Seq::<char>::empty() + ink(rest) =~= ink(rest));
    } else {
        let e = lines::word_end(s, 0);
        lines::lemma_word_end(s, 0);
        lines::lemma_word_end(s, 1);
        let word = s.take(e);
        let rest = s.skip(e);
        assert(0 < e <= s.len());
        lemma_words(rest);
        assert(s =~= word + rest);
        lemma_ink_concat(word, rest);
        assert(all =~= seq![word] + lines::words(rest));
        lemma_ink_of_concat(seq![word], lines::words(rest));
        lemma_ink_of_push(seq![], word);
        assert(Seq::<Seq<char>>::empty().push(word) =~= seq![word]);
        assert(Seq::<char>::empty() + ink(word) =~= ink(word));
        assert(solid(word));
        assert forall|i: int| 0 <= i < all.len() implies (#[trigger] all[i]).len() > 0 && solid(
            all[i],
        ) by {
            if i > 0 {
                assert(all[i] == lines::words(rest)[i - 1]);
            }
        }
    }
}

/// The lines of a text hold its ink.
proof fn lemma_lines(s: Seq<char>)
    ensures
        ink_of(lines::lines(s)) == ink(s),
    decreases s.len(),
{
    if s.len() > 0 {
        let end = lines::line_feed(s, 0);
        lines::lemma_line_feed(s, 0);
        if end < s.len() {
            let head = s.take(end);
            let line = lines::without_return(head);
            let rest = s.skip(end + 1);
            lemma_lines(rest);
            assert(s =~= head + (seq!['\n'] + rest));
            lemma_ink_concat(head, seq!['\n'] + rest);
            lemma_ink_concat(seq!['\n'], rest);
            lemma_ink_one('\n');
            assert(Seq::<char>::empty() + ink(rest) =~= ink(rest));
            assert(ink(line) == ink(head));
            assert(lines::lines(s) == seq![line] + lines::lines(rest));
            lemma_ink_of_concat(seq![line], lines::lines(rest));
            lemma_ink_of_push(seq![], line);
            assert(Seq::<Seq<char>>::empty().push(line) =~= seq![line]);
            assert(Seq::<char>::empty() + ink(line) =~= ink(line));
        } else {
            lemma_ink_of_push(seq![], s);
            assert(Seq::<Seq<char>>::empty().push(s) =~= seq![s]);
            assert(Seq::<char>::empty() + ink(s) =~= ink(s));
        }
    }
}

/// A line that is done: it is not empty, and it fits or is a single word.
pub open spec fn fair(line: Seq<char>, p: spec_fn(Seq<char>) -> bool) -> bool {
    line.len() > 0 && (p(line) || solid(line))
}

proof fn lemma_add_words(words: Seq<Seq<char>>, p: spec_fn(Seq<char>) -> bool)
    requires
        forall|i: int|
            0 <= i < words.len() ==> (#[trigger] words[i]).len() > 0 && solid(words[i]),
    ensures
        ({
            let f = wrap::add_words(words, p);
            &&& ink_of(f.done) + ink(f.cur) == ink_of(words)
            &&& forall|k: int| 0 <= k < f.done.len() ==> fair(#[trigger] f.done[k], p)
            &&& f.cur.len() > 0 ==> fair(f.cur, p)
        }),
    decreases words.len(),
{
    let f = wrap::add_words(words, p);
    if words.len() == 0 {
        assert(ink_of(f.done) + ink(f.cur) =~= seq![]);
    } else {
        let before = words.drop_last();
        assert forall|i: int| 0 <= i < before.len() implies (#[trigger] before[i]).len() > 0
            && solid(before[i]) by {
            assert(before[i] == words[i]);
        }
        lemma_add_words(before, p);
        let g = wrap::add_words(before, p);
        let word = words.last();
        assert(words[words.len() - 1] == word);
        if g.cur.len() == 0 {
            assert(ink(g.cur) =~= seq![]);
            assert(ink_of(g.done) + ink(g.cur) =~= ink_of(g.done));
        } else if p(g.cur + seq![' '] + word) {
            lemma_ink_concat(g.cur + seq![' '], word);
            lemma_ink_concat(g.cur, seq![' ']);
            lemma_ink_one(' ');
            assert(ink(g.cur) + Seq::<char>::empty() =~= ink(g.cur));
            assert(ink_of(f.done) + ink(f.cur) =~= ink_of(words));
        } else {
            lemma_ink_of_push(g.done, g.cur);
            assert forall|k: int| 0 <= k < f.done.len() implies fair(
                #[trigger] f.done[k],
                p,
            ) by {
                if k < g.done.len() {
                    assert(f.done[k] == g.done[k]);
                }
            }
        }
    }
}

pub proof fn lemma_wrapped_words(para: Seq<char>, p: spec_fn(Seq<char>) -> bool)
    ensures
        ink_of(wrap::wrapped_words(para, p)) == ink(para),
        forall|k: int|
            0 <= k < wrap::wrapped_words(para, p).len() ==> fair(
                #[trigger] wrap::wrapped_words(para, p)[k],
                p,
            ),
{
    let words = lines::words(para);
    lemma_words(para);
    lemma_add_words(words, p);
    let f = wrap::add_words(words, p);
    if f.cur.len() == 0 {
        assert(ink(f.cur) =~= seq![]);
        assert(ink_of(f.done) + ink(f.cur) =~= ink_of(f.done));
    } else {
        lemma_ink_of_push(f.done, f.cur);
        let all = f.done.push(f.cur);
        assert forall|k: int| 0 <= k < all.len() implies fair(#[trigger] all[k], p) by {
            if k < f.done.len() {
                assert(all[k] == f.done[k]);
            }
        }
    }
}

pub proof fn lemma_wrapped(paras: Seq<Seq<char>>, p: spec_fn(Seq<char>) -> bool)
    ensures
        ink_of(wrap::wrapped(paras, p)) == ink_of(paras),
        forall|k: int|
            0 <= k < wrap::wrapped(paras, p).len() ==> fair(
                #[trigger] wrap::wrapped(paras, p)[k],
                p,
            ),
    decreases paras.len(),
{
    if paras.len() > 0 {
        let head = wrap::wrapped(paras.drop_last(), p);
        let tail = wrap::wrapped_words(paras.last(), p);
        lemma_wrapped(paras.drop_last(), p);
        lemma_wrapped_words(paras.last(), p);
        lemma_ink_of_concat(head, tail);
        assert forall|k: int| 0 <= k < (head + tail).len() implies fair(
            #[trigger] (head + tail)[k],
            p,
        ) by {
            if k < head.len() {
                assert((head + tail)[k] == head[k]);
            } else {
                assert((head + tail)[k] == tail[k - head.len()]);
            }
        }
    }
}

/// Wrapping changes nothing but white space: every other character of the text
/// is there, in its order.
pub proof fn law_wrapping_keeps_the_text(s: Seq<char>, p: spec_fn(Seq<char>) -> bool)
    ensures
        ink_of(wrap::wrapped(lines::lines(s), p)) == ink(s),
{
    lemma_lines(s);
    lemma_wrapped(lines::lines(s), p);
}

/// Every line fits, unless it is a single word, and none is empty.
pub proof fn law_wrapped_lines_fit(s: Seq<char>, p: spec_fn(Seq<char>) -> bool)
    ensures
        forall|k: int|
            0 <= k < wrap::wrapped(lines::lines(s), p).len() ==> fair(
                #[trigger] wrap::wrapped(lines::lines(s), p)[k],
                p,
            ),
{
    lemma_wrapped(lines::lines(s), p);
}

/// A piece that is no space.
pub open spec fn sound_token(t: Seq<char>) -> bool {
    t.len() > 0 && unbreakable(t)
}

proof fn lemma_add_chars(s: Seq<char>)
    ensures
        ({
            let t = wrap::add_chars(s);
            &&& ink_of(t.done) + t.word == ink(s)
            &&& solid(t.word)
            &&& forall|i: int| 0 <= i < t.word.len() ==> wrap::is_ascii(#[trigger] t.word[i])
            &&& forall|k: int|
                0 <= k < t.done.len() ==> (#[trigger] t.done[k]) == seq![' '] || sound_token(
                    t.done[k],
                )
        }),
    decreases s.len(),
{
    let t = wrap::add_chars(s);
    if s.len() == 0 {
        assert(ink_of(t.done) + t.word =~= seq![]);
    } else {
        lemma_add_chars(s.drop_last());
        let before = wrap::add_chars(s.drop_last());
        let c = s.last();
        lemma_flushed(before);
        let out = wrap::flushed(before);
        if text::is_space(c) {
            lemma_ink_of_push(out, seq![' ']);
            lemma_ink_one(' ');
            assert(ink_of(out) + Seq::<char>::empty() =~= ink_of(out));
            assert(ink_of(t.done) + t.word =~= ink(s));
        } else if wrap::is_ascii(c) {
            assert(ink_of(before.done) + before.word.push(c) =~= (ink_of(before.done)
                + before.word).push(c));
        } else {
            lemma_ink_of_push(out, seq![c]);
            lemma_ink_one(c);
            assert(ink_of(t.done) + t.word =~= ink(s));
            assert(sound_token(seq![c]));
        }
        assert forall|k: int| 0 <= k < t.done.len() implies (#[trigger] t.done[k]) == seq![' ']
            || sound_token(t.done[k]) by {
            if text::is_space(c) || !wrap::is_ascii(c) {
                if k < out.len() {
                    assert(t.done[k] == out[k]);
                }
            }
        }
    }
}

proof fn lemma_flushed(t: wrap::Pieces)
    requires
        solid(t.word),
        forall|i: int| 0 <= i < t.word.len() ==> wrap::is_ascii(#[trigger] t.word[i]),
        forall|k: int|
            0 <= k < t.done.len() ==> (#[trigger] t.done[k]) == seq![' '] || sound_token(t.done[k]),
    ensures
        ink_of(wrap::flushed(t)) == ink_of(t.done) + t.word,
        forall|k: int|
            0 <= k < wrap::flushed(t).len() ==> (#[trigger] wrap::flushed(t)[k]) == seq![' ']
                || sound_token(wrap::flushed(t)[k]),
{
    if t.word.len() > 0 {
        lemma_ink_of_push(t.done, t.word);
        lemma_ink_solid(t.word);
        assert(sound_token(t.word));
        assert forall|k: int| 0 <= k < wrap::flushed(t).len() implies (
        #[trigger] wrap::flushed(t)[k]) == seq![' '] || sound_token(wrap::flushed(t)[k]) by {
            if k < t.done.len() {
                assert(wrap::flushed(t)[k] == t.done[k]);
            }
        }
    } else {
        assert(ink_of(t.done) + t.word =~= ink_of(t.done));
    }
}

/// The pieces of a text hold its ink, and none can be broken.
pub proof fn law_tokens_make_up_the_text(s: Seq<char>)
    ensures
        ink_of(wrap::tokens(s)) == ink(s),
        forall|k: int|
            0 <= k < wrap::tokens(s).len() ==> (#[trigger] wrap::tokens(s)[k]) == seq![' ']
                || sound_token(wrap::tokens(s)[k]),
{
    lemma_add_chars(s);
    lemma_flushed(wrap::add_chars(s));
}

/// A line that is done: it does not end in white space, and it fits or cannot
/// be broken.
pub open spec fn tidy(line: Seq<char>, p: spec_fn(Seq<char>) -> bool) -> bool {
    line.len() > 0 && !text::is_space(line.last()) && (p(line) || unbreakable(line))
}

/// The line that is being filled: nothing, or a tidy line, perhaps with a space
/// behind it.
spec fn underway(cur: Seq<char>, p: spec_fn(Seq<char>) -> bool) -> bool {
    cur.len() == 0 || tidy(text::trim_end(cur), p) && (cur == text::trim_end(cur) || cur
        == text::trim_end(cur).push(' '))
}

pub proof fn lemma_trim_end_push(s: Seq<char>)
    requires
        s.len() > 0,
        !text::is_space(s.last()),
    ensures
        text::trim_end(s) == s,
        text::trim_end(s.push(' ')) == s,
{
    assert(s.push(' ').drop_last() =~= s);
}

proof fn lemma_add_token(f: wrap::Fill, token: Seq<char>, p: spec_fn(Seq<char>) -> bool)
    requires
        token == seq![' '] || sound_token(token),
        forall|k: int| 0 <= k < f.done.len() ==> tidy(#[trigger] f.done[k], p),
        underway(f.cur, p),
    ensures
        ({
            let g = wrap::add_token(f, token, p);
            &&& forall|k: int| 0 <= k < g.done.len() ==> tidy(#[trigger] g.done[k], p)
            &&& underway(g.cur, p)
            &&& ink_of(g.done) + ink(g.cur) == ink_of(f.done) + ink(f.cur) + ink(token)
        }),
{
    let g = wrap::add_token(f, token, p);
    if token == seq![' '] {
        lemma_ink_one(' ');
        assert(ink_of(f.done) + ink(f.cur) + Seq::<char>::empty() =~= ink_of(f.done) + ink(f.cur));
        if f.cur.len() > 0 && f.cur.last() != ' ' {
            assert(f.cur == text::trim_end(f.cur));
            lemma_trim_end_push(f.cur);
            assert(f.cur.push(' ').drop_last() =~= f.cur);
        }
    } else {
        lemma_ink_solid(token);
        assert(!text::is_space(token[token.len() - 1]));
        let cand = f.cur + token;
        lemma_ink_concat(f.cur, token);
        assert(cand.last() == token.last());
        assert(ink_of(f.done) + (ink(f.cur) + ink(token)) =~= ink_of(f.done) + ink(f.cur) + ink(
            token,
        ));
        if f.cur.len() == 0 {
            assert(cand =~= token);
            lemma_trim_end_push(token);
        } else if p(cand) {
            lemma_trim_end_push(cand);
        } else {
            let line = text::trim_end(f.cur);
            lemma_ink_trim_end(f.cur);
            lemma_ink_of_push(f.done, line);
            lemma_trim_solid(token);
            assert forall|k: int| 0 <= k < g.done.len() implies tidy(#[trigger] g.done[k], p) by {
                if k < f.done.len() {
                    assert(g.done[k] == f.done[k]);
                }
            }
        }
    }
}

proof fn lemma_add_tokens(list: Seq<Seq<char>>, p: spec_fn(Seq<char>) -> bool)
    requires
        forall|k: int|
            0 <= k < list.len() ==> (#[trigger] list[k]) == seq![' '] || sound_token(list[k]),
    ensures
        ({
            let f = wrap::add_tokens(list, p);
            &&& forall|k: int| 0 <= k < f.done.len() ==> tidy(#[trigger] f.done[k], p)
            &&& underway(f.cur, p)
            &&& ink_of(f.done) + ink(f.cur) == ink_of(list)
        }),
    decreases list.len(),
{
    let f = wrap::add_tokens(list, p);
    if list.len() == 0 {
        assert(ink_of(f.done) + ink(f.cur) =~= seq![]);
    } else {
        let before = list.drop_last();
        assert forall|k: int| 0 <= k < before.len() implies (#[trigger] before[k]) == seq![' ']
            || sound_token(before[k]) by {
            assert(before[k] == list[k]);
        }
        assert(list[list.len() - 1] == list.last());
        lemma_add_tokens(before, p);
        lemma_add_token(wrap::add_tokens(before, p), list.last(), p);
    }
}

pub proof fn lemma_wrapped_tokens(para: Seq<char>, p: spec_fn(Seq<char>) -> bool)
    ensures
        ink_of(wrap::wrapped_tokens(para, p)) == ink(para),
        forall|k: int|
            0 <= k < wrap::wrapped_tokens(para, p).len() ==> tidy(
                #[trigger] wrap::wrapped_tokens(para, p)[k],
                p,
            ),
{
    law_tokens_make_up_the_text(para);
    lemma_add_tokens(wrap::tokens(para), p);
    let f = wrap::add_tokens(wrap::tokens(para), p);
    lemma_ink_trim_start(f.cur);
    lemma_ink_trim_end(text::trim_start(f.cur));
    lemma_ink_trim_end(f.cur);
    if text::trim(f.cur).len() == 0 {
        assert(ink(text::trim(f.cur)) =~= seq![]);
        assert(ink_of(f.done) + ink(f.cur) =~= ink_of(f.done));
    } else {
        let line = text::trim_end(f.cur);
        let all = f.done.push(line);
        lemma_ink_of_push(f.done, line);
        assert(f.cur.len() > 0);
        assert forall|k: int| 0 <= k < all.len() implies tidy(#[trigger] all[k], p) by {
            if k < f.done.len() {
                assert(all[k] == f.done[k]);
            }
        }
    }
}

pub proof fn lemma_wrapped_stack(paras: Seq<Seq<char>>, p: spec_fn(Seq<char>) -> bool)
    ensures
        ink_of(wrap::wrapped_stack(paras, p)) == ink_of(paras),
        forall|k: int|
            0 <= k < wrap::wrapped_stack(paras, p).len() ==> tidy(
                #[trigger] wrap::wrapped_stack(paras, p)[k],
                p,
            ),
    decreases paras.len(),
{
    if paras.len() > 0 {
        let head = wrap::wrapped_stack(paras.drop_last(), p);
        let tail = wrap::wrapped_tokens(paras.last(), p);
        lemma_wrapped_stack(paras.drop_last(), p);
        lemma_wrapped_tokens(paras.last(), p);
        lemma_ink_of_concat(head, tail);
        assert forall|k: int| 0 <= k < (head + tail).len() implies tidy(
            #[trigger] (head + tail)[k],
            p,
        ) by {
            if k < head.len() {
                assert((head + tail)[k] == head[k]);
            } else {
                assert((head + tail)[k] == tail[k - head.len()]);
            }
        }
    }
}

/// Wrapping between characters, too, changes nothing but white space.
pub proof fn law_stack_wrapping_keeps_the_text(s: Seq<char>, p: spec_fn(Seq<char>) -> bool)
    ensures
        ink_of(wrap::wrapped_stack(lines::lines(s), p)) == ink(s),
{
    lemma_lines(s);
    lemma_wrapped_stack(lines::lines(s), p);
}

/// Every line stays inside the page, unless it cannot be broken: text without
/// spaces wraps between its characters where they are not of ASCII.
pub proof fn law_stack_wrapped_lines_fit(s: Seq<char>, p: spec_fn(Seq<char>) -> bool)
    ensures
        forall|k: int|
            0 <= k < wrap::wrapped_stack(lines::lines(s), p).len() ==> tidy(
                #[trigger] wrap::wrapped_stack(lines::lines(s), p)[k],
                p,
            ),
{
    lemma_wrapped_stack(lines::lines(s), p);
}

} // verus!
