//! What holds of what is said of a reply, in words of the text itself.

use vstd::prelude::*;

use crate::pi;
use crate::reply;
use crate::sentence;
use crate::sse;
use crate::stream;
use crate::text;

verus! {

/// A full stop, an exclamation or question mark, or an ellipsis.
pub open spec fn stop(c: char) -> bool {
    c == '.' || c == '!' || c == '?' || c == '\u{2026}'
}

/// A sentence ends with character `m` of `s`, in what is said from character
/// `k` on: white space or nothing follows the stop, and what is said takes four
/// bytes or more.
pub open spec fn ends_at(s: Seq<char>, k: int, m: int) -> bool {
    &&& k <= m < s.len()
    &&& stop(s[m])
    &&& m + 1 == s.len() || text::is_space(s[m + 1])
    &&& sentence::byte_len(s.subrange(k, m + 1)) >= 4
}

/// A cut is made at the end of the last sentence that is complete, and only
/// where there is one.
pub proof fn law_the_last_sentence_is_cut_off(s: Seq<char>, k: int)
    requires
        0 <= k <= s.len(),
    ensures
        (match sentence::cut(s, sentence::byte_len(s.take(k))) {
            None => forall|m: int| !#[trigger] ends_at(s, k, m),
            Some(b) => exists|m: int| #[trigger]
                ends_at(s, k, m) && b == sentence::byte_len(s.take(m + 1)) && forall|l: int|
                    m < l ==> !#[trigger] ends_at(s, k, l),
        }),
{
    let from = sentence::byte_len(s.take(k));
    sentence::lemma_char_at(s, k);
    let tail = s.skip(k);
    let n = tail.len() as int;
    lemma_last_end(s, k, n);
    match sentence::last_end(tail, n) {
        None => {},
        Some(j) => {
            let m = k + j;
            assert(ends_at(s, k, m));
            sentence::lemma_byte_len_concat(s.take(k), tail.take(j + 1));
            assert(s.take(k) + tail.take(j + 1) =~= s.take(m + 1));
        },
    }
}

proof fn lemma_last_end(s: Seq<char>, k: int, n: int)
    requires
        0 <= k <= s.len(),
        0 <= n <= s.len() - k,
    ensures
        (match sentence::last_end(s.skip(k), n) {
            None => forall|m: int| m < k + n ==> !#[trigger] ends_at(s, k, m),
            Some(j) => 0 <= j < n && ends_at(s, k, k + j) && forall|m: int|
                k + j < m < k + n ==> !#[trigger] ends_at(s, k, m),
        }),
    decreases n,
{
    if n > 0 {
        let tail = s.skip(k);
        lemma_last_end(s, k, n - 1);
        let m = k + n - 1;
        assert(tail[n - 1] == s[m]);
        assert(n < tail.len() ==> tail[n] == s[m + 1]);
        assert(tail.take(n) =~= s.subrange(k, m + 1));
        assert(sentence::ends_sentence(tail, n - 1) == ends_at(s, k, m));
    }
}

/// Nothing but white space.
pub open spec fn blank(s: Seq<char>) -> bool {
    forall|i: int| 0 <= i < s.len() ==> text::is_space(#[trigger] s[i])
}

/// A text that neither begins nor ends with white space.
pub open spec fn bare(s: Seq<char>) -> bool {
    s.len() > 0 && !text::is_space(s[0]) && !text::is_space(s.last())
}

proof fn lemma_trim_end(core: Seq<char>, after: Seq<char>)
    requires
        core.len() > 0,
        !text::is_space(core.last()),
        blank(after),
    ensures
        text::trim_end(core + after) == core,
    decreases after.len(),
{
    let s = core + after;
    if after.len() == 0 {
        assert(s =~= core);
    } else {
        assert(text::is_space(after[after.len() - 1]));
        assert(s.drop_last() =~= core + after.drop_last());
        assert forall|i: int| 0 <= i < after.drop_last().len() implies text::is_space(
            #[trigger] after.drop_last()[i],
        ) by {
            assert(after.drop_last()[i] == after[i]);
        }
        lemma_trim_end(core, after.drop_last());
    }
}

proof fn lemma_trim_start(before: Seq<char>, core: Seq<char>)
    requires
        core.len() > 0,
        !text::is_space(core[0]),
        blank(before),
    ensures
        text::trim_start(before + core) == core,
    decreases before.len(),
{
    let s = before + core;
    if before.len() == 0 {
        assert(s =~= core);
    } else {
        assert(text::is_space(before[0]));
        assert(s.drop_first() =~= before.drop_first() + core);
        assert forall|i: int| 0 <= i < before.drop_first().len() implies text::is_space(
            #[trigger] before.drop_first()[i],
        ) by {
            assert(before.drop_first()[i] == before[i + 1]);
        }
        lemma_trim_start(before.drop_first(), core);
    }
}

/// Trimming takes the white space off both ends, and nothing else.
pub proof fn law_trimming_bares_the_text(before: Seq<char>, core: Seq<char>, after: Seq<char>)
    requires
        blank(before),
        bare(core),
        blank(after),
    ensures
        text::trim(before + core + after) == core,
{
    assert(before + core + after =~= before + (core + after));
    lemma_trim_start(before, core + after);
    lemma_trim_end(core, after);
}

/// What is said of a chunk is the chunk without the white space around it. A
/// quote is taken off only at the very start and the very end of the reply.
pub proof fn law_a_chunk_is_said_as_it_is(
    before: Seq<char>,
    core: Seq<char>,
    after: Seq<char>,
    first: bool,
    last: bool,
)
    requires
        blank(before),
        bare(core),
        blank(after),
        first ==> core[0] != '"',
        last ==> core.last() != '"',
    ensures
        reply::spoken(before + core + after, first, last) == Some(core),
        core[0] != '"' && core.last() != '"' ==> reply::cleaned(before + core + after) == core,
{
    law_trimming_bares_the_text(before, core, after);
    law_trimming_bares_the_text(seq![], core, seq![]);
    assert(seq![] + core + seq![] =~= core);
    lemma_no_quote(core);
}

proof fn lemma_no_quote(core: Seq<char>)
    requires
        core.len() > 0,
    ensures
        core[0] != '"' ==> text::without_prefix(core, seq!['"']) == core,
        core.last() != '"' ==> text::without_suffix(core, seq!['"']) == core,
{
    if text::begins_with(core, seq!['"']) {
        assert(core.take(1)[0] == seq!['"'][0]);
    }
    if text::finishes_with(core, seq!['"']) {
        assert(core.skip(core.len() - 1)[0] == seq!['"'][0]);
    }
}

/// The quotes around a reply are taken off: the first with the first chunk, the
/// last with the last, and both when a fragment is cleaned.
pub proof fn law_quotes_around_a_reply_are_taken_off(
    before: Seq<char>,
    inner: Seq<char>,
    after: Seq<char>,
)
    requires
        blank(before),
        bare(inner),
        blank(after),
    ensures
        ({
            let q = seq!['"'];
            let s = before + (q + inner + q) + after;
            &&& reply::cleaned(s) == inner
            &&& reply::spoken(s, true, true) == Some(inner)
            &&& reply::spoken(s, true, false) == Some(inner + q)
            &&& reply::spoken(s, false, true) == Some(q + inner)
            &&& reply::spoken(s, false, false) == Some(q + inner + q)
        }),
{
    let q = seq!['"'];
    let core = q + inner + q;
    let s = before + core + after;
    law_trimming_bares_the_text(before, core, after);
    assert(core.take(1) =~= q);
    assert(core.skip(1) =~= inner + q);
    assert(core.skip(core.len() - 1) =~= q);
    assert(core.take(core.len() - 1) =~= q + inner);
    let half = inner + q;
    assert(half.skip(half.len() - 1) =~= q);
    assert(half.take(half.len() - 1) =~= inner);
    law_trimming_bares_the_text(seq![], inner, seq![]);
    law_trimming_bares_the_text(seq![], half, seq![]);
    law_trimming_bares_the_text(seq![], q + inner, seq![]);
    law_trimming_bares_the_text(seq![], core, seq![]);
    assert(seq![] + inner + seq![] =~= inner);
    assert(seq![] + half + seq![] =~= half);
    assert(seq![] + (q + inner) + seq![] =~= q + inner);
    assert(seq![] + core + seq![] =~= core);
}

/// What is left after trimming stands in the text as it is.
pub proof fn lemma_trim_part(s: Seq<char>)
    ensures
        exists|k: int|
            0 <= k && k + text::trim(s).len() <= s.len() && #[trigger] s.subrange(
                k,
                k + text::trim(s).len(),
            ) == text::trim(s),
{
    let t = text::trim_start(s);
    lemma_trim_start_part(s);
    lemma_trim_end_part(t);
    let k = s.len() - t.len();
    let n = text::trim(s).len() as int;
    assert(s.subrange(k, k + n) =~= s.skip(k).take(n));
}

proof fn lemma_trim_start_part(s: Seq<char>)
    ensures
        text::trim_start(s).len() <= s.len(),
        s.skip(s.len() - text::trim_start(s).len()) == text::trim_start(s),
    decreases s.len(),
{
    if s.len() > 0 && text::is_space(s[0]) {
        let rest = s.drop_first();
        lemma_trim_start_part(rest);
        let k = s.len() - text::trim_start(s).len();
        assert(s.skip(k) =~= rest.skip(k - 1));
    } else {
        assert(s.skip(0) =~= s);
    }
}

proof fn lemma_trim_end_part(s: Seq<char>)
    ensures
        text::trim_end(s).len() <= s.len(),
        s.take(text::trim_end(s).len() as int) == text::trim_end(s),
    decreases s.len(),
{
    if s.len() > 0 && text::is_space(s.last()) {
        let rest = s.drop_last();
        lemma_trim_end_part(rest);
        let n = text::trim_end(s).len() as int;
        assert(s.take(n) =~= rest.take(n));
    } else {
        assert(s.take(s.len() as int) =~= s);
    }
}

/// What an event lets be said: everything up to the end of the last complete
/// sentence that has not been said, and nothing as long as there is none.
pub open spec fn says(
    t: Seq<char>,
    k: int,
    chunk: Option<Seq<char>>,
    delivered: int,
) -> bool {
    match chunk {
        None => (forall|m: int| !#[trigger] ends_at(t, k, m)) && delivered == sentence::byte_len(
            t.take(k),
        ),
        Some(chunk) => exists|m: int| #[trigger]
            ends_at(t, k, m) && chunk == t.subrange(k, m + 1) && delivered == sentence::byte_len(
                t.take(m + 1),
            ) && forall|l: int| m < l ==> !#[trigger] ends_at(t, k, l),
    }
}

proof fn lemma_between(s: Seq<char>, k: int, m: int)
    requires
        0 <= k <= m < s.len(),
    ensures
        sentence::between(
            s,
            sentence::byte_len(s.take(k)),
            sentence::byte_len(s.take(m + 1)),
        ) == s.subrange(k, m + 1),
{
    sentence::lemma_char_at(s, k);
    sentence::lemma_char_at(s, m + 1);
}

/// The quill need not wait: a piece of a streamed reply lets all sentences that
/// it completes be said at once.
pub proof fn law_sentences_are_said_at_once(p: stream::Progress, s: Seq<char>, k: int)
    requires
        s.len() > 0,
        0 <= k <= p.text.len(),
        p.delivered == sentence::byte_len(p.text.take(k)),
    ensures
        ({
            let (q, chunk) = stream::after_event(p, Some(sse::Event::Delta(s)));
            &&& q.text == p.text + s
            &&& q.whole == p.whole
            &&& says(p.text + s, k, chunk, q.delivered)
        }),
{
    let t = p.text + s;
    assert(t.take(k) =~= p.text.take(k));
    law_the_last_sentence_is_cut_off(t, k);
    if let Some(b) = sentence::cut(t, p.delivered) {
        let m = choose|m: int| #[trigger]
            ends_at(t, k, m) && b == sentence::byte_len(t.take(m + 1)) && forall|l: int|
                m < l ==> !#[trigger] ends_at(t, k, l);
        lemma_between(t, k, m);
    }
}

/// The same holds of the running text of the resident process.
pub proof fn law_the_running_text_is_said_at_once(turn: pi::Turn, t: Seq<char>, k: int)
    requires
        0 <= k <= t.len(),
        turn.delivered == sentence::byte_len(t.take(k)),
    ensures
        ({
            let (q, act) = pi::after_update(turn, Some(t));
            &&& q.text == t
            &&& match act {
                pi::Act::Chunk { chunk, first, last } => says(t, k, Some(chunk), q.delivered)
                    && first == (k == 0) && !last,
                pi::Act::Wait => says(t, k, None, q.delivered),
                _ => false,
            }
        }),
{
    law_the_last_sentence_is_cut_off(t, k);
    if k > 0 {
        assert(t.take(k).len() > 0);
        sentence::lemma_byte_len_bound(t.take(k));
    } else {
        assert(t.take(k) =~= seq![]);
    }
    if let Some(b) = sentence::cut(t, turn.delivered) {
        let m = choose|m: int| #[trigger]
            ends_at(t, k, m) && b == sentence::byte_len(t.take(m + 1)) && forall|l: int|
                m < l ==> !#[trigger] ends_at(t, k, l);
        lemma_between(t, k, m);
    }
}

/// At the end of a reply what is left is said, without the white space around
/// it.
pub proof fn law_the_rest_is_said(
    p: stream::Progress,
    t: Seq<char>,
    k: int,
    before: Seq<char>,
    core: Seq<char>,
    after: Seq<char>,
)
    requires
        p.text.len() > 0 ==> t == p.text,
        p.text.len() == 0 ==> p.whole == Some(t),
        0 <= k <= t.len(),
        p.delivered == sentence::byte_len(t.take(k)),
        t.skip(k) == before + core + after,
        blank(before),
        bare(core),
        blank(after),
        core[0] != '"',
        core.last() != '"',
    ensures
        stream::last_message(p) == Some(Ok::<Seq<char>, Seq<char>>(core)),
{
    sentence::lemma_char_at(t, k);
    law_trimming_bares_the_text(before, core, after);
    law_a_chunk_is_said_as_it_is(seq![], core, seq![], true, true);
    assert(seq![] + core + seq![] =~= core);
    assert(stream::ended_text(p) == t);
}

} // verus!
