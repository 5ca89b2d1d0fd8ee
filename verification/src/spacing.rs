//! What holds of the spaces in wrapped text.

use vstd::prelude::*;

use crate::layout;
use crate::lines;
use crate::text;
use crate::wrap;

verus! {

/// A text with every run of white space as one space, and none at its ends.
pub open spec fn squeezed(s: Seq<char>) -> Seq<char>
    decreases s.len(),
{
    if s.len() == 0 {
        seq![]
    } else if text::is_space(s.last()) {
        squeezed(s.drop_last())
    } else {
        let before = squeezed(s.drop_last());
        if before.len() > 0 && text::is_space(s[s.len() - 2]) {
            before + seq![' ', s.last()]
        } else {
            before.push(s.last())
        }
    }
}

/// A space, or nothing.
pub open spec fn gap(wide: bool) -> Seq<char> {
    if wide {
        seq![' ']
    } else {
        seq![]
    }
}

/// Lines put behind one another again; before each but the first stands a
/// space, or nothing.
pub open spec fn rejoined(list: Seq<Seq<char>>, gaps: Seq<bool>) -> Seq<char>
    decreases list.len(),
{
    if list.len() == 0 {
        seq![]
    } else if list.len() == 1 {
        list[0]
    } else {
        rejoined(list.drop_last(), gaps) + gap(gaps[list.len() - 1]) + list.last()
    }
}

proof fn lemma_squeezed_nothing(s: Seq<char>)
    requires
        s.len() > 0,
        squeezed(s).len() == 0,
    ensures
        text::is_space(s[0]),
        text::is_space(s.last()),
    decreases s.len(),
{
    if s.len() > 1 {
        lemma_squeezed_nothing(s.drop_last());
    }
}

/// A text is squeezed part by part.
proof fn lemma_squeezed_concat(a: Seq<char>, b: Seq<char>)
    ensures
        squeezed(a + b) == squeezed(a) + gap(
            squeezed(a).len() > 0 && squeezed(b).len() > 0 && (text::is_space(a.last())
                || text::is_space(b[0])),
        ) + squeezed(b),
    decreases b.len(),
{
    let s = a + b;
    if b.len() == 0 {
        assert(s =~= a);
        assert(squeezed(a) + gap(false) + squeezed(b) =~= squeezed(a));
    } else {
        let c = b.last();
        let rest = b.drop_last();
        assert(s.drop_last() =~= a + rest);
        assert(s.last() == c);
        lemma_squeezed_concat(a, rest);
        if rest.len() == 0 {
            assert(a + rest =~= a);
            assert(squeezed(rest) =~= seq![]);
            if text::is_space(c) {
                assert(squeezed(a) + gap(false) + squeezed(b) =~= squeezed(a));
            } else {
                assert(squeezed(b) =~= seq![c]);
                if squeezed(a).len() > 0 {
                    assert(s[s.len() - 2] == a.last());
                    assert(squeezed(a) + seq![' '] + seq![c] =~= squeezed(a) + seq![' ', c]);
                }
                assert(squeezed(a) + Seq::<char>::empty() + seq![c] =~= squeezed(a).push(c));
            }
        } else {
            assert(b[0] == rest[0]);
            assert(s[s.len() - 2] == rest.last() && b[b.len() - 2] == rest.last());
            if !text::is_space(c) {
                let t = squeezed(rest);
                if t.len() == 0 {
                    lemma_squeezed_nothing(rest);
                    assert(squeezed(b) =~= seq![c]);
                    assert(squeezed(a) + gap(false) + t =~= squeezed(a));
                    assert(squeezed(a) + seq![' '] + seq![c] =~= squeezed(a) + seq![' ', c]);
                    assert(squeezed(a) + Seq::<char>::empty() + seq![c] =~= squeezed(a).push(c));
                } else {
                    let g = gap(
                        squeezed(a).len() > 0 && (text::is_space(a.last()) || text::is_space(b[0])),
                    );
                    assert(squeezed(a) + g + t + seq![' ', c] =~= squeezed(a) + g + (t + seq![
                        ' ',
                        c,
                    ]));
                    assert((squeezed(a) + g + t).push(c) =~= squeezed(a) + g + t.push(c));
                }
            }
        }
    }
}

/// A text without white space is squeezed already.
proof fn lemma_squeezed_solid(s: Seq<char>)
    requires
        layout::solid(s),
    ensures
        squeezed(s) == s,
    decreases s.len(),
{
    if s.len() > 0 {
        let rest = s.drop_last();
        assert forall|i: int| 0 <= i < rest.len() implies !text::is_space(#[trigger] rest[i]) by {
            assert(rest[i] == s[i]);
        }
        lemma_squeezed_solid(rest);
        assert(!text::is_space(s[s.len() - 1]));
        if s.len() > 1 {
            assert(!text::is_space(s[s.len() - 2]));
        }
        assert(rest.push(s.last()) =~= s);
    } else {
        assert(squeezed(s) =~= s);
    }
}

/// Pieces, one after another.
pub open spec fn cat(list: Seq<Seq<char>>) -> Seq<char>
    decreases list.len(),
{
    if list.len() == 0 {
        seq![]
    } else {
        cat(list.drop_last()) + list.last()
    }
}

proof fn lemma_cat_push(list: Seq<Seq<char>>, t: Seq<char>)
    ensures
        cat(list.push(t)) == cat(list) + t,
{
    assert(list.push(t).drop_last() =~= list);
}

/// A text with a plain space for each white space.
pub open spec fn blanked(s: Seq<char>) -> Seq<char> {
    Seq::new(
        s.len(),
        |i: int|
            if text::is_space(s[i]) {
                ' '
            } else {
                s[i]
            },
    )
}

proof fn lemma_squeezed_blanked(s: Seq<char>)
    ensures
        squeezed(blanked(s)) == squeezed(s),
    decreases s.len(),
{
    if s.len() > 0 {
        lemma_squeezed_blanked(s.drop_last());
        assert(blanked(s).drop_last() =~= blanked(s.drop_last()));
        assert(text::is_space(' '));
    }
}

/// The pieces of a text, one after another, are the text, with plain spaces.
proof fn lemma_tokens_cat(s: Seq<char>)
    ensures
        cat(wrap::add_chars(s).done) + wrap::add_chars(s).word == blanked(s),
    decreases s.len(),
{
    let t = wrap::add_chars(s);
    if s.len() == 0 {
        assert(cat(t.done) + t.word =~= blanked(s));
    } else {
        let before = wrap::add_chars(s.drop_last());
        let c = s.last();
        lemma_tokens_cat(s.drop_last());
        lemma_cat_push(before.done, before.word);
        let out = wrap::flushed(before);
        assert(cat(out) =~= blanked(s.drop_last())) by {
            if before.word.len() == 0 {
                assert(cat(before.done) + before.word =~= cat(before.done));
            }
        }
        lemma_cat_push(out, seq![' ']);
        lemma_cat_push(out, seq![c]);
        let b = blanked(s.drop_last());
        if text::is_space(c) {
            assert(blanked(s) =~= b + seq![' ']);
        } else {
            assert(blanked(s) =~= b + seq![c]);
            if wrap::is_ascii(c) {
                assert(cat(before.done) + before.word.push(c) =~= (cat(before.done) + before.word)
                    + seq![c]);
            }
        }
        assert(cat(t.done) + t.word =~= blanked(s));
    }
}

/// The next line was begun only because what stands at its beginning, and
/// cannot be broken, did not fit on the line before.
pub open spec fn broken_late(
    list: Seq<Seq<char>>,
    gaps: Seq<bool>,
    p: spec_fn(Seq<char>) -> bool,
    k: int,
) -> bool {
    exists|n: int|
        0 < n <= list[k].len() && layout::unbreakable(#[trigger] list[k].take(n)) && !p(
            list[k - 1] + gap(gaps[k]) + list[k].take(n),
        )
}

/// Lines into which a text is broken: put behind one another again they are
/// the text, squeezed, and none is broken before it has to be.
pub open spec fn well_broken(
    list: Seq<Seq<char>>,
    gaps: Seq<bool>,
    s: Seq<char>,
    p: spec_fn(Seq<char>) -> bool,
) -> bool {
    &&& rejoined(list, gaps) == squeezed(s)
    &&& forall|k: int| 0 < k < list.len() ==> #[trigger] broken_late(list, gaps, p, k)
}

/// What has been laid out so far, and the line underway without the space
/// behind it.
spec fn laid(f: wrap::Fill) -> Seq<Seq<char>> {
    f.done.push(text::trim_end(f.cur))
}

spec fn laid_out(
    f: wrap::Fill,
    gaps: Seq<bool>,
    s: Seq<char>,
    p: spec_fn(Seq<char>) -> bool,
) -> bool {
    if f.cur.len() == 0 {
        f.done.len() == 0 && squeezed(s).len() == 0
    } else {
        &&& gaps.len() == f.done.len() + 1
        &&& well_broken(laid(f), gaps, s, p)
        &&& text::trim_end(f.cur).len() > 0
        &&& s.len() > 0
        &&& f.cur == text::trim_end(f.cur) + gap(text::is_space(s.last()))
    }
}

/// The first line is broken off nothing.
proof fn lemma_rejoined_push(list: Seq<Seq<char>>, gaps: Seq<bool>, t: Seq<char>, wide: bool)
    requires
        gaps.len() == list.len(),
        list.len() > 0,
    ensures
        rejoined(list.push(t), gaps.push(wide)) == rejoined(list, gaps) + gap(wide) + t,
{
    let all = list.push(t);
    assert(all.drop_last() =~= list);
    lemma_rejoined_gaps(list, gaps, gaps.push(wide));
}

/// Only the gaps between the lines count.
proof fn lemma_rejoined_gaps(list: Seq<Seq<char>>, a: Seq<bool>, b: Seq<bool>)
    requires
        list.len() <= a.len(),
        list.len() <= b.len(),
        forall|k: int| 0 < k < list.len() ==> #[trigger] a[k] == b[k],
    ensures
        rejoined(list, a) == rejoined(list, b),
    decreases list.len(),
{
    if list.len() > 1 {
        lemma_rejoined_gaps(list.drop_last(), a, b);
        assert(a[list.len() - 1] == b[list.len() - 1]);
    }
}

/// One more piece keeps the lines well broken.
proof fn lemma_lay_token(
    f: wrap::Fill,
    gaps: Seq<bool>,
    s: Seq<char>,
    token: Seq<char>,
    p: spec_fn(Seq<char>) -> bool,
) -> (now: Seq<bool>)
    requires
        laid_out(f, gaps, s, p),
        token == seq![' '] || layout::sound_token(token),
    ensures
        laid_out(wrap::add_token(f, token, p), now, s + token, p),
{
    let g = wrap::add_token(f, token, p);
    let all = s + token;
    lemma_squeezed_concat(s, token);
    if token == seq![' '] {
        assert(squeezed(token) =~= seq![]) by {
            assert(token.drop_last() =~= seq![]);
            assert(squeezed(token.drop_last()) =~= seq![]);
            assert(token.last() == ' ' && text::is_space(' '));
        }
        assert(squeezed(s) + gap(false) + squeezed(token) =~= squeezed(s));
        assert(all.last() == ' ');
        if f.cur.len() > 0 {
            let line = text::trim_end(f.cur);
            layout::lemma_ink_trim_end(f.cur);
            assert(!text::is_space(line.last()));
            if text::is_space(s.last()) {
                assert(f.cur.last() == ' ');
            } else {
                assert(f.cur =~= line);
                layout::lemma_trim_end_push(f.cur);
                assert(g.cur =~= line + gap(true));
            }
        }
        gaps
    } else {
        lemma_squeezed_solid(token);
        assert(!text::is_space(token[0]) && !text::is_space(token[token.len() - 1]));
        assert(all.last() == token.last());
        layout::lemma_trim_solid(token);
        if f.cur.len() == 0 {
            assert(f.cur + token =~= token);
            assert(squeezed(s) + gap(false) + token =~= token);
            assert(g.cur + gap(false) =~= g.cur);
            let now = seq![false];
            assert(laid(g) =~= seq![token]);
            now
        } else {
            let line = text::trim_end(f.cur);
            let wide = text::is_space(s.last());
            let old_list = laid(f);
            let n = f.done.len() as int;
            assert(squeezed(s).len() > 0) by {
                assert(old_list.last() == line);
                assert(old_list.len() > 1 ==> old_list.drop_last() =~= f.done);
            }
            if p(f.cur + token) {
                let cand = f.cur + token;
                assert(cand.last() == token.last());
                layout::lemma_trim_end_push(cand);
                assert(g.cur =~= cand + gap(false));
                let list = laid(g);
                assert(list.drop_last() =~= old_list.drop_last());
                assert(rejoined(list, gaps) =~= squeezed(all)) by {
                    if n == 0 {
                        assert(old_list[0] == line && list[0] == cand);
                    } else {
                        assert(rejoined(list, gaps) == rejoined(f.done, gaps) + gap(gaps[n])
                            + cand) by {
                            assert(list.drop_last() =~= f.done);
                        }
                        assert(rejoined(old_list, gaps) == rejoined(f.done, gaps) + gap(gaps[n])
                            + line) by {
                            assert(old_list.drop_last() =~= f.done);
                        }
                    }
                }
                assert forall|k: int| 0 < k < list.len() implies #[trigger] broken_late(
                    list,
                    gaps,
                    p,
                    k,
                ) by {
                    assert(broken_late(old_list, gaps, p, k));
                    let m = choose|m: int|
                        0 < m <= old_list[k].len() && layout::unbreakable(
                            #[trigger] old_list[k].take(m),
                        ) && !p(old_list[k - 1] + gap(gaps[k]) + old_list[k].take(m));
                    assert(list[k - 1] == old_list[k - 1]);
                    assert(list[k].take(m) =~= old_list[k].take(m));
                }
                gaps
            } else {
                let now = gaps.push(wide);
                let list = laid(g);
                assert(list =~= old_list.push(token));
                lemma_rejoined_push(old_list, gaps, token, wide);
                assert(g.cur + gap(false) =~= g.cur);
                assert forall|k: int| 0 < k < list.len() implies #[trigger] broken_late(
                    list,
                    now,
                    p,
                    k,
                ) by {
                    if k == n + 1 {
                        assert(list[k].take(token.len() as int) =~= token);
                        assert(line + gap(wide) + token =~= f.cur + token);
                        assert(list[k - 1] == line);
                        assert(layout::unbreakable(list[k].take(token.len() as int)));
                    } else {
                        assert(broken_late(old_list, gaps, p, k));
                        let m = choose|m: int|
                            0 < m <= old_list[k].len() && layout::unbreakable(
                                #[trigger] old_list[k].take(m),
                            ) && !p(old_list[k - 1] + gap(gaps[k]) + old_list[k].take(m));
                        assert(list[k - 1] == old_list[k - 1] && list[k] == old_list[k]);
                        assert(layout::unbreakable(list[k].take(m)));
                    }
                }
                now
            }
        }
    }
}

proof fn lemma_lay_tokens(list: Seq<Seq<char>>, p: spec_fn(Seq<char>) -> bool) -> (gaps: Seq<bool>)
    requires
        forall|k: int|
            0 <= k < list.len() ==> (#[trigger] list[k]) == seq![' '] || layout::sound_token(
                list[k],
            ),
    ensures
        laid_out(wrap::add_tokens(list, p), gaps, cat(list), p),
    decreases list.len(),
{
    if list.len() == 0 {
        seq![]
    } else {
        let before = list.drop_last();
        assert forall|k: int| 0 <= k < before.len() implies (#[trigger] before[k]) == seq![' ']
            || layout::sound_token(before[k]) by {
            assert(before[k] == list[k]);
        }
        assert(list[list.len() - 1] == list.last());
        let gaps = lemma_lay_tokens(before, p);
        lemma_lay_token(wrap::add_tokens(before, p), gaps, cat(before), list.last(), p)
    }
}

proof fn lemma_para(para: Seq<char>, p: spec_fn(Seq<char>) -> bool) -> (gaps: Seq<bool>)
    ensures
        well_broken(wrap::wrapped_tokens(para, p), gaps, para, p),
        gaps.len() == wrap::wrapped_tokens(para, p).len(),
{
    let list = wrap::tokens(para);
    let f = wrap::add_tokens(list, p);
    layout::law_tokens_make_up_the_text(para);
    let gaps = lemma_lay_tokens(list, p);
    lemma_tokens_cat(para);
    let t = wrap::add_chars(para);
    lemma_cat_push(t.done, t.word);
    assert(cat(list) =~= blanked(para)) by {
        if t.word.len() == 0 {
            assert(cat(t.done) + t.word =~= cat(t.done));
        }
    }
    lemma_squeezed_blanked(para);
    if f.cur.len() == 0 {
        assert(text::trim(f.cur).len() == 0);
        assert(squeezed(para) =~= seq![]);
        assert(rejoined(f.done, seq![]) =~= seq![]);
        seq![]
    } else {
        layout::lemma_ink_trim_end(f.cur);
        layout::lemma_ink_trim_start(f.cur);
        layout::lemma_ink_trim_end(text::trim_start(f.cur));
        let line = text::trim_end(f.cur);
        assert(layout::ink(f.cur).len() > 0) by {
            assert(!text::is_space(line.last()));
        }
        assert(text::trim(f.cur).len() > 0);
        gaps
    }
}

/// Words stay apart, and lines are broken only where they have to be. The lines
/// of a paragraph, put behind one another, are its text with every run of white
/// space as one space, but for a space that a break has taken; and a line ends
/// only where the next piece, which cannot be broken, does not fit on it.
pub proof fn law_stack_wrapping_keeps_words_apart(
    para: Seq<char>,
    p: spec_fn(Seq<char>) -> bool,
)
    ensures
        exists|gaps: Seq<bool>| #[trigger]
            well_broken(wrap::wrapped_tokens(para, p), gaps, para, p),
{
    let gaps = lemma_para(para, p);
}

/// Two squeezed texts with white space between them.
spec fn with_space(a: Seq<char>, b: Seq<char>) -> Seq<char> {
    a + gap(a.len() > 0 && b.len() > 0) + b
}

/// Paragraphs, squeezed, with white space between them.
spec fn paras_joined(paras: Seq<Seq<char>>) -> Seq<char>
    decreases paras.len(),
{
    if paras.len() == 0 {
        seq![]
    } else {
        with_space(paras_joined(paras.drop_last()), squeezed(paras.last()))
    }
}

proof fn lemma_with_space_assoc(a: Seq<char>, b: Seq<char>, c: Seq<char>)
    ensures
        with_space(with_space(a, b), c) == with_space(a, with_space(b, c)),
{
    assert(with_space(with_space(a, b), c) =~= with_space(a, with_space(b, c)));
}

proof fn lemma_paras_front(first: Seq<char>, rest: Seq<Seq<char>>)
    ensures
        paras_joined(seq![first] + rest) == with_space(squeezed(first), paras_joined(rest)),
    decreases rest.len(),
{
    let all = seq![first] + rest;
    if rest.len() == 0 {
        assert(all.drop_last() =~= seq![]);
        assert(paras_joined(all.drop_last()) =~= seq![]);
        assert(all.last() == first);
        assert(paras_joined(all) =~= with_space(squeezed(first), paras_joined(rest)));
    } else {
        lemma_paras_front(first, rest.drop_last());
        assert(all.drop_last() =~= seq![first] + rest.drop_last());
        assert(all.last() == rest.last());
        lemma_with_space_assoc(
            squeezed(first),
            paras_joined(rest.drop_last()),
            squeezed(rest.last()),
        );
    }
}

/// The lines of a text, squeezed and joined, are the text, squeezed.
proof fn lemma_lines_joined(s: Seq<char>)
    ensures
        paras_joined(lines::lines(s)) == squeezed(s),
    decreases s.len(),
{
    if s.len() > 0 {
        let end = lines::line_feed(s, 0);
        lines::lemma_line_feed(s, 0);
        if end < s.len() {
            let head = s.take(end);
            let line = lines::without_return(head);
            let rest = s.skip(end + 1);
            lemma_lines_joined(rest);
            lemma_paras_front(line, lines::lines(rest));
            let ended = head.push('\n');
            assert(text::is_space('\n') && text::is_space('\r'));
            assert(ended.drop_last() =~= head);
            assert(squeezed(ended) == squeezed(head));
            assert(squeezed(line) == squeezed(head));
            lemma_squeezed_concat(ended, rest);
            assert(s =~= ended + rest);
        } else {
            assert(seq![s].drop_last() =~= seq![]);
            assert(paras_joined(seq![s].drop_last()) =~= seq![]);
            assert(paras_joined(lines::lines(s)) =~= squeezed(s));
        }
    }
}

/// Two lists of lines put behind one another.
proof fn lemma_rejoined_concat(
    a: Seq<Seq<char>>,
    ga: Seq<bool>,
    b: Seq<Seq<char>>,
    gb: Seq<bool>,
) -> (gaps: Seq<bool>)
    requires
        a.len() == ga.len(),
        b.len() == gb.len(),
        a.len() > 0,
        b.len() > 0,
    ensures
        gaps.len() == a.len() + b.len(),
        rejoined(a + b, gaps) == rejoined(a, ga) + gap(true) + rejoined(b, gb),
    decreases b.len(),
{
    if b.len() == 1 {
        let gaps = ga.push(true);
        lemma_rejoined_push(a, ga, b[0], true);
        assert(a + b =~= a.push(b[0]));
        gaps
    } else {
        let before = lemma_rejoined_concat(a, ga, b.drop_last(), gb.drop_last());
        let wide = gb[b.len() - 1];
        let gaps = before.push(wide);
        lemma_rejoined_push(a + b.drop_last(), before, b.last(), wide);
        assert(a + b =~= (a + b.drop_last()).push(b.last()));
        lemma_rejoined_gaps(b.drop_last(), gb, gb.drop_last());
        assert(rejoined(a + b, gaps) =~= rejoined(a, ga) + gap(true) + rejoined(b, gb));
        gaps
    }
}

/// Lines that are not empty make a text that is not.
proof fn lemma_rejoined_len(list: Seq<Seq<char>>, gaps: Seq<bool>)
    requires
        forall|k: int| 0 <= k < list.len() ==> (#[trigger] list[k]).len() > 0,
    ensures
        rejoined(list, gaps).len() > 0 <==> list.len() > 0,
{
    if list.len() == 1 {
        assert(list[0].len() > 0);
    } else if list.len() > 1 {
        assert(list[list.len() - 1].len() > 0);
    }
}

proof fn lemma_stack_joined(paras: Seq<Seq<char>>, p: spec_fn(Seq<char>) -> bool) -> (gaps: Seq<
    bool,
>)
    ensures
        rejoined(wrap::wrapped_stack(paras, p), gaps) == paras_joined(paras),
        gaps.len() == wrap::wrapped_stack(paras, p).len(),
    decreases paras.len(),
{
    if paras.len() == 0 {
        seq![]
    } else {
        let a = wrap::wrapped_stack(paras.drop_last(), p);
        let b = wrap::wrapped_tokens(paras.last(), p);
        let ga = lemma_stack_joined(paras.drop_last(), p);
        let gb = lemma_para(paras.last(), p);
        layout::lemma_wrapped_stack(paras.drop_last(), p);
        layout::lemma_wrapped_tokens(paras.last(), p);
        assert forall|k: int| 0 <= k < a.len() implies (#[trigger] a[k]).len() > 0 by {
            assert(layout::tidy(a[k], p));
        }
        assert forall|k: int| 0 <= k < b.len() implies (#[trigger] b[k]).len() > 0 by {
            assert(layout::tidy(b[k], p));
        }
        lemma_rejoined_len(a, ga);
        lemma_rejoined_len(b, gb);
        let whole = paras_joined(paras);
        if b.len() == 0 {
            assert(a + b =~= a);
            assert(whole =~= rejoined(a, ga));
            ga
        } else if a.len() == 0 {
            assert(a + b =~= b);
            assert(whole =~= rejoined(b, gb));
            gb
        } else {
            lemma_rejoined_concat(a, ga, b, gb)
        }
    }
}

/// Of a whole text, too: the lines put behind one another are the text with
/// every run of white space as one space, but for a space that a break has
/// taken.
pub proof fn law_stack_lines_make_up_the_text(s: Seq<char>, p: spec_fn(Seq<char>) -> bool)
    ensures
        exists|gaps: Seq<bool>| #[trigger]
            rejoined(wrap::wrapped_stack(lines::lines(s), p), gaps) == squeezed(s),
{
    lemma_lines_joined(s);
    let gaps = lemma_stack_joined(lines::lines(s), p);
}

/// Gaps that are all wide.
pub open spec fn all_wide(n: nat) -> Seq<bool> {
    Seq::new(n, |i: int| true)
}

/// The words of a text with single spaces between them are the text, squeezed.
proof fn lemma_words_joined(s: Seq<char>)
    ensures
        rejoined(lines::words(s), all_wide(lines::words(s).len())) == squeezed(s),
    decreases s.len(),
{
    let all = lines::words(s);
    if s.len() == 0 {
        assert(squeezed(s) =~= seq![]);
    } else if text::is_space(s[0]) {
        let rest = s.drop_first();
        lemma_words_joined(rest);
        let first = seq![s[0]];
        assert(s =~= first + rest);
        lemma_squeezed_concat(first, rest);
        assert(first.drop_last() =~= seq![]);
        assert(squeezed(first.drop_last()) =~= seq![]);
        assert(first.last() == s[0]);
        assert(squeezed(first) + gap(false) + squeezed(rest) =~= squeezed(rest));
    } else {
        let e = lines::word_end(s, 0);
        lines::lemma_word_end(s, 0);
        lines::lemma_word_end(s, 1);
        let word = s.take(e);
        let rest = s.skip(e);
        assert(0 < e <= s.len());
        lemma_words_joined(rest);
        layout::lemma_words(s);
        layout::lemma_words(rest);
        assert(s =~= word + rest);
        let others = lines::words(rest);
        assert(all =~= seq![word] + others);
        assert(all[0] == word);
        assert(layout::solid(word));
        lemma_squeezed_solid(word);
        lemma_squeezed_concat(word, rest);
        lemma_rejoined_len(others, all_wide(others.len()));
        if others.len() == 0 {
            assert(squeezed(word) + gap(false) + squeezed(rest) =~= word);
            assert(rejoined(all, all_wide(all.len())) == word);
        } else {
            assert(rest.len() > 0);
            assert(text::is_space(rest[0]));
            lemma_rejoined_concat_wide(seq![word], others);
            assert(rejoined(seq![word], all_wide(1)) == word);
        }
    }
}

proof fn lemma_rejoined_concat_wide(a: Seq<Seq<char>>, b: Seq<Seq<char>>)
    requires
        a.len() > 0,
        b.len() > 0,
    ensures
        rejoined(a + b, all_wide((a + b).len())) == rejoined(a, all_wide(a.len())) + gap(true)
            + rejoined(b, all_wide(b.len())),
    decreases b.len(),
{
    let all = a + b;
    if b.len() == 1 {
        lemma_rejoined_push(a, all_wide(a.len()), b[0], true);
        assert(all =~= a.push(b[0]));
        assert(all_wide(a.len()).push(true) =~= all_wide(all.len()));
    } else {
        let rest = b.drop_last();
        lemma_rejoined_concat_wide(a, rest);
        lemma_rejoined_push(a + rest, all_wide((a + rest).len()), b.last(), true);
        lemma_rejoined_push(rest, all_wide(rest.len()), b.last(), true);
        assert(all =~= (a + rest).push(b.last()));
        assert(b =~= rest.push(b.last()));
        assert(all_wide((a + rest).len()).push(true) =~= all_wide(all.len()));
        assert(all_wide(rest.len()).push(true) =~= all_wide(b.len()));
        assert(rejoined(all, all_wide(all.len())) =~= rejoined(a, all_wide(a.len())) + gap(true)
            + rejoined(b, all_wide(b.len())));
    }
}

/// A line was begun only because the word at its beginning did not fit on the
/// line before.
pub open spec fn word_did_not_fit(
    list: Seq<Seq<char>>,
    p: spec_fn(Seq<char>) -> bool,
    k: int,
) -> bool {
    exists|n: int|
        0 < n <= list[k].len() && layout::solid(#[trigger] list[k].take(n)) && (n == list[k].len()
            || list[k][n] == ' ') && !p(list[k - 1] + seq![' '] + list[k].take(n))
}

spec fn words_laid(f: wrap::Fill, words: Seq<Seq<char>>, p: spec_fn(Seq<char>) -> bool) -> bool {
    if f.cur.len() == 0 {
        f.done.len() == 0 && words.len() == 0
    } else {
        let list = f.done.push(f.cur);
        &&& words.len() > 0
        &&& rejoined(list, all_wide(list.len())) == rejoined(words, all_wide(words.len()))
        &&& forall|k: int| 0 < k < list.len() ==> #[trigger] word_did_not_fit(list, p, k)
    }
}

proof fn lemma_lay_word(
    f: wrap::Fill,
    words: Seq<Seq<char>>,
    word: Seq<char>,
    p: spec_fn(Seq<char>) -> bool,
)
    requires
        words_laid(f, words, p),
        word.len() > 0,
        layout::solid(word),
    ensures
        words_laid(wrap::add_word(f, word, p), words.push(word), p),
{
    let g = wrap::add_word(f, word, p);
    let all = words.push(word);
    if f.cur.len() == 0 {
        assert(all =~= seq![word]);
        assert(g.done.push(g.cur) =~= seq![word]);
    } else {
        let old_list = f.done.push(f.cur);
        let list = g.done.push(g.cur);
        lemma_rejoined_push(words, all_wide(words.len()), word, true);
        assert(all_wide(words.len()).push(true) =~= all_wide(all.len()));
        if p(f.cur + seq![' '] + word) {
            let n = f.done.len() as int;
            let gaps = all_wide(list.len());
            assert(list.drop_last() =~= f.done && old_list.drop_last() =~= f.done);
            assert(rejoined(list, gaps) =~= rejoined(old_list, gaps) + gap(true) + word);
            assert forall|k: int| 0 < k < list.len() implies #[trigger] word_did_not_fit(
                list,
                p,
                k,
            ) by {
                assert(word_did_not_fit(old_list, p, k));
                let m = choose|m: int|
                    0 < m <= old_list[k].len() && layout::solid(#[trigger] old_list[k].take(m)) && (
                    m == old_list[k].len() || old_list[k][m] == ' ') && !p(
                        old_list[k - 1] + seq![' '] + old_list[k].take(m),
                    );
                assert(list[k - 1] == old_list[k - 1]);
                assert(list[k].take(m) =~= old_list[k].take(m));
                if k == n && m == old_list[k].len() {
                    assert(list[k][m] == ' ');
                } else if m < old_list[k].len() {
                    assert(list[k][m] == old_list[k][m]);
                }
            }
        } else {
            assert(list =~= old_list.push(word));
            lemma_rejoined_push(old_list, all_wide(old_list.len()), word, true);
            assert(all_wide(old_list.len()).push(true) =~= all_wide(list.len()));
            assert forall|k: int| 0 < k < list.len() implies #[trigger] word_did_not_fit(
                list,
                p,
                k,
            ) by {
                if k == old_list.len() {
                    assert(list[k].take(word.len() as int) =~= word);
                    assert(list[k - 1] == f.cur);
                    assert(layout::solid(list[k].take(word.len() as int)));
                } else {
                    assert(word_did_not_fit(old_list, p, k));
                    let m = choose|m: int|
                        0 < m <= old_list[k].len() && layout::solid(#[trigger] old_list[k].take(m))
                            && (m == old_list[k].len() || old_list[k][m] == ' ') && !p(
                            old_list[k - 1] + seq![' '] + old_list[k].take(m),
                        );
                    assert(list[k - 1] == old_list[k - 1] && list[k] == old_list[k]);
                    assert(layout::solid(list[k].take(m)));
                }
            }
        }
    }
}

proof fn lemma_lay_words(words: Seq<Seq<char>>, p: spec_fn(Seq<char>) -> bool)
    requires
        forall|i: int|
            0 <= i < words.len() ==> (#[trigger] words[i]).len() > 0 && layout::solid(words[i]),
    ensures
        words_laid(wrap::add_words(words, p), words, p),
    decreases words.len(),
{
    if words.len() > 0 {
        let before = words.drop_last();
        assert forall|i: int| 0 <= i < before.len() implies (#[trigger] before[i]).len() > 0
            && layout::solid(before[i]) by {
            assert(before[i] == words[i]);
        }
        assert(words[words.len() - 1] == words.last());
        lemma_lay_words(before, p);
        lemma_lay_word(wrap::add_words(before, p), before, words.last(), p);
        assert(before.push(words.last()) =~= words);
    }
}

/// Words stay apart by one space, and a line is broken only where the next word
/// does not fit: the lines of a paragraph with single spaces between them are
/// its text with every run of white space as one space.
pub proof fn law_wrapping_keeps_words_apart(para: Seq<char>, p: spec_fn(Seq<char>) -> bool)
    ensures
        ({
            let list = wrap::wrapped_words(para, p);
            &&& rejoined(list, all_wide(list.len())) == squeezed(para)
            &&& forall|k: int| 0 < k < list.len() ==> #[trigger] word_did_not_fit(list, p, k)
        }),
{
    let words = lines::words(para);
    layout::lemma_words(para);
    lemma_lay_words(words, p);
    lemma_words_joined(para);
    let f = wrap::add_words(words, p);
    if f.cur.len() == 0 {
        assert(words =~= seq![]);
    }
}

/// Paragraphs stay apart: a line feed in the text ends a line of the page.
pub proof fn law_paragraphs_stay_apart(
    a: Seq<char>,
    b: Seq<char>,
    p: spec_fn(Seq<char>) -> bool,
)
    ensures
        wrap::wrapped(lines::lines(a + seq!['\n'] + b), p) == wrap::wrapped(
            lines::lines(a + seq!['\n']),
            p,
        ) + wrap::wrapped(lines::lines(b), p),
        wrap::wrapped_stack(lines::lines(a + seq!['\n'] + b), p) == wrap::wrapped_stack(
            lines::lines(a + seq!['\n']),
            p,
        ) + wrap::wrapped_stack(lines::lines(b), p),
{
    lemma_lines_apart(a, b);
    lemma_wrapped_concat(lines::lines(a + seq!['\n']), lines::lines(b), p);
}

proof fn lemma_wrapped_concat(
    a: Seq<Seq<char>>,
    b: Seq<Seq<char>>,
    p: spec_fn(Seq<char>) -> bool,
)
    ensures
        wrap::wrapped(a + b, p) == wrap::wrapped(a, p) + wrap::wrapped(b, p),
        wrap::wrapped_stack(a + b, p) == wrap::wrapped_stack(a, p) + wrap::wrapped_stack(b, p),
    decreases b.len(),
{
    if b.len() == 0 {
        assert(a + b =~= a);
        assert(wrap::wrapped(a, p) + wrap::wrapped(b, p) =~= wrap::wrapped(a, p));
        assert(wrap::wrapped_stack(a, p) + wrap::wrapped_stack(b, p) =~= wrap::wrapped_stack(a, p));
    } else {
        lemma_wrapped_concat(a, b.drop_last(), p);
        assert((a + b).drop_last() =~= a + b.drop_last());
        assert(wrap::wrapped(a + b, p) =~= wrap::wrapped(a, p) + wrap::wrapped(b, p));
        assert(wrap::wrapped_stack(a + b, p) =~= wrap::wrapped_stack(a, p) + wrap::wrapped_stack(
            b,
            p,
        ));
    }
}

proof fn lemma_lines_apart(a: Seq<char>, b: Seq<char>)
    ensures
        lines::lines(a + seq!['\n'] + b) == lines::lines(a + seq!['\n']) + lines::lines(b),
    decreases a.len(),
{
    let head = a + seq!['\n'];
    let s = head + b;
    let end = lines::line_feed(head, 0);
    lines::lemma_line_feed(head, 0);
    lines::lemma_line_feed(s, 0);
    assert(head[a.len() as int] == '\n');
    assert(end <= a.len());
    assert(lines::line_feed(s, 0) == end) by {
        let e = lines::line_feed(s, 0);
        if e < end {
            assert(head[e] == s[e]);
        } else if end < e {
            assert(head[end] == s[end]);
        }
    }
    assert(s.take(end) =~= head.take(end));
    let line = lines::without_return(head.take(end));
    if end == a.len() {
        assert(head.skip(end + 1) =~= seq![]);
        assert(s.skip(end + 1) =~= b);
        assert(lines::lines(head.skip(end + 1)) =~= seq![]);
        assert(lines::lines(head) =~= seq![line]);
        assert(lines::lines(s) =~= seq![line] + lines::lines(b));
    } else {
        let rest = a.skip(end + 1);
        assert(head.skip(end + 1) =~= rest + seq!['\n']);
        assert(s.skip(end + 1) =~= rest + seq!['\n'] + b);
        lemma_lines_apart(rest, b);
        assert(lines::lines(s) =~= lines::lines(head) + lines::lines(b));
    }
}

/// A word of ASCII.
pub open spec fn ascii_word(t: Seq<char>) -> bool {
    t.len() > 0 && t != seq![' '] && forall|i: int| 0 <= i < t.len() ==> #[trigger] t[i] <= '\u{7f}'
}

proof fn lemma_words_apart(s: Seq<char>)
    ensures
        ({
            let t = wrap::add_chars(s);
            &&& t.done.len() > 0 ==> !ascii_word(t.done.last())
            &&& forall|k: int|
                0 <= k < t.done.len() - 1 ==> !(ascii_word(#[trigger] t.done[k]) && ascii_word(
                    t.done[k + 1],
                ))
        }),
    decreases s.len(),
{
    if s.len() > 0 {
        lemma_words_apart(s.drop_last());
        let before = wrap::add_chars(s.drop_last());
        let t = wrap::add_chars(s);
        let c = s.last();
        let out = wrap::flushed(before);
        let last = if text::is_space(c) {
            seq![' ']
        } else {
            seq![c]
        };
        if text::is_space(c) || !wrap::is_ascii(c) {
            assert(t.done == out.push(last));
            assert(!ascii_word(last)) by {
                if !text::is_space(c) {
                    assert(last[0] == c);
                }
            }
            assert forall|k: int| 0 <= k < t.done.len() - 1 implies !(ascii_word(
                #[trigger] t.done[k],
            ) && ascii_word(t.done[k + 1])) by {
                if k + 1 < before.done.len() {
                    assert(t.done[k] == before.done[k] && t.done[k + 1] == before.done[k + 1]);
                } else if k + 1 < out.len() {
                    assert(t.done[k] == before.done.last());
                } else {
                    assert(t.done[k + 1] == last);
                }
            }
        }
    }
}

/// The pieces of a text are the text, with plain spaces, and a word of ASCII is
/// never cut in two.
pub proof fn law_pieces_are_whole_words(s: Seq<char>)
    ensures
        cat(wrap::tokens(s)) == blanked(s),
        forall|k: int|
            0 <= k < wrap::tokens(s).len() - 1 ==> !(ascii_word(#[trigger] wrap::tokens(s)[k])
                && ascii_word(wrap::tokens(s)[k + 1])),
{
    let t = wrap::add_chars(s);
    let all = wrap::tokens(s);
    lemma_tokens_cat(s);
    lemma_cat_push(t.done, t.word);
    if t.word.len() == 0 {
        assert(cat(t.done) + t.word =~= cat(t.done));
    }
    lemma_words_apart(s);
    assert forall|k: int| 0 <= k < all.len() - 1 implies !(ascii_word(#[trigger] all[k])
        && ascii_word(all[k + 1])) by {
        if k + 1 < t.done.len() {
            assert(all[k] == t.done[k] && all[k + 1] == t.done[k + 1]);
        } else {
            assert(all[k] == t.done.last());
        }
    }
}

} // verus!
