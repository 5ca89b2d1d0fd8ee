//! A reply on its way from the spirit to the page, in sentence-sized chunks.

use vstd::prelude::*;

use crate::sentence;
use crate::text;

verus! {

/// A fragment without the white space and the stray quotes around it.
pub open spec fn cleaned(s: Seq<char>) -> Seq<char> {
    text::without_suffix(text::without_prefix(text::trim(s), seq!['"']), seq!['"'])
}

/// What is said of a chunk: without the white space around it, and without the
/// quote at the very start or the very end of the reply. Nothing is said of a
/// chunk that is empty then.
pub open spec fn spoken(chunk: Seq<char>, first: bool, last: bool) -> Option<Seq<char>> {
    let t = text::trim(chunk);
    let t = if first {
        text::without_prefix(t, seq!['"'])
    } else {
        t
    };
    let t = if last {
        text::without_suffix(t, seq!['"'])
    } else {
        t
    };
    let t = text::trim(t);
    if t.len() == 0 {
        None
    } else {
        Some(t)
    }
}

fn strip_quote_start(cs: &[char]) -> (r: &[char])
    ensures
        r@ == text::without_prefix(cs@, seq!['"']),
{
    proof {
        reveal_strlit("\"");
        assert("\""@ =~= seq!['"']);
    }
    match text::strip_start(cs, "\"") {
        Some(rest) => rest,
        None => cs,
    }
}

fn strip_quote_end(cs: &[char]) -> (r: &[char])
    ensures
        r@ == text::without_suffix(cs@, seq!['"']),
{
    proof {
        reveal_strlit("\"");
        assert("\""@ =~= seq!['"']);
    }
    match text::strip_end(cs, "\"") {
        Some(rest) => rest,
        None => cs,
    }
}

/// Trim and strip stray surrounding quotes from a reply fragment.
pub fn clean(s: &str) -> (r: String)
    ensures
        r@ == cleaned(s@),
{
    let cs = text::chars_of(s);
    text::string_of(strip_quote_end(strip_quote_start(text::trimmed(cs.as_slice()))))
}

/// What to send for one chunk of reply text. Strips a stray wrapping quote from
/// the reply's very first / very last chunk.
pub fn deliver(chunk: &str, first: bool, last: bool) -> (r: Option<String>)
    ensures
        (match r {
            Some(s) => spoken(chunk@, first, last) == Some(s@),
            None => spoken(chunk@, first, last) is None,
        }),
{
    let cs = text::chars_of(chunk);
    let t = text::trimmed(cs.as_slice());
    let t = if first {
        strip_quote_start(t)
    } else {
        t
    };
    let t = if last {
        strip_quote_end(t)
    } else {
        t
    };
    let t = text::trimmed(t);
    if t.len() == 0 {
        None
    } else {
        Some(text::string_of(t))
    }
}

/// How a reply flows: what has been taken of it for delivery, in bytes, and in
/// which chunks.
pub struct Flow {
    pub delivered: int,
    pub chunks: Seq<Seq<char>>,
}

/// What flows on when the reply is known as far as `s`: the complete sentences
/// that have not been delivered, as one chunk.
pub open spec fn flow_on(f: Flow, s: Seq<char>) -> Flow {
    match sentence::cut(s, f.delivered) {
        Some(b) => Flow {
            delivered: b,
            chunks: f.chunks.push(sentence::between(s, f.delivered, b)),
        },
        None => f,
    }
}

/// How a reply flows that becomes known bit by bit.
pub open spec fn flow(known: Seq<Seq<char>>) -> Flow
    decreases known.len(),
{
    if known.len() == 0 {
        Flow { delivered: 0, chunks: seq![] }
    } else {
        flow_on(flow(known.drop_last()), known.last())
    }
}

/// Each stage of the reply continues the one before.
pub open spec fn grows(known: Seq<Seq<char>>) -> bool {
    forall|i: int, j: int|
        0 <= i <= j < known.len() ==> (#[trigger] known[i]).is_prefix_of(#[trigger] known[j])
}

/// Texts, one after another.
pub open spec fn joined(parts: Seq<Seq<char>>) -> Seq<char>
    decreases parts.len(),
{
    if parts.len() == 0 {
        seq![]
    } else {
        joined(parts.drop_last()) + parts.last()
    }
}

/// What is known of the reply and has not been delivered.
pub open spec fn undelivered(s: Seq<char>, delivered: int) -> Seq<char> {
    match sentence::char_at(s, delivered) {
        Some(k) => s.skip(k),
        None => seq![],
    }
}

/// An offset stays where it is when the text grows.
pub proof fn lemma_char_at_grows(s: Seq<char>, t: Seq<char>, b: int)
    requires
        s.is_prefix_of(t),
        sentence::char_at(s, b) is Some,
    ensures
        sentence::char_at(t, b) == sentence::char_at(s, b),
        0 <= sentence::char_at(s, b)->0 <= s.len(),
{
    let k = sentence::char_at(s, b)->0;
    sentence::lemma_char_at_found(s, b);
    assert(t.take(k) =~= s.take(k));
    sentence::lemma_char_at(t, k);
}

/// One step of the flow keeps every character: what the chunks hold is what
/// stands before the offset.
pub proof fn lemma_flow_on(f: Flow, s: Seq<char>, t: Seq<char>)
    requires
        s.is_prefix_of(t),
        sentence::char_at(s, f.delivered) is Some,
        joined(f.chunks) == s.take(sentence::char_at(s, f.delivered)->0),
    ensures
        ({
            let g = flow_on(f, t);
            &&& f.delivered <= g.delivered
            &&& f.chunks.len() < g.chunks.len() ==> f.delivered + 4 <= g.delivered
            &&& g.chunks.len() == f.chunks.len() ==> g == f
            &&& f.chunks.len() <= g.chunks.len()
            &&& sentence::char_at(t, g.delivered) is Some
            &&& joined(g.chunks) == t.take(sentence::char_at(t, g.delivered)->0)
        }),
{
    let a = sentence::char_at(s, f.delivered)->0;
    lemma_char_at_grows(s, t, f.delivered);
    assert(t.take(a) =~= s.take(a));
    sentence::law_cut_ends_a_sentence(t, f.delivered);
    match sentence::cut(t, f.delivered) {
        Some(b) => {
            let k = sentence::char_at(t, b)->0;
            sentence::lemma_char_at_found(t, b);
            sentence::lemma_char_at_found(t, f.delivered);
            if k < a {
                sentence::lemma_offset_grows(t, k, a);
            }
            let chunk = sentence::between(t, f.delivered, b);
            assert(chunk =~= t.subrange(a, k));
            assert(f.chunks.push(chunk).drop_last() =~= f.chunks);
            assert(t.take(a) + t.subrange(a, k) =~= t.take(k));
        },
        None => {},
    }
}

/// Nothing of a reply is lost and nothing comes twice: at every stage the
/// chunks, with what has not been delivered, are the reply as it is known.
pub proof fn law_chunks_make_up_the_reply(known: Seq<Seq<char>>)
    requires
        known.len() > 0,
        grows(known),
    ensures
        joined(flow(known).chunks) + undelivered(known.last(), flow(known).delivered)
            == known.last(),
        sentence::char_at(known.last(), flow(known).delivered) is Some,
        joined(flow(known).chunks) == known.last().take(
            sentence::char_at(known.last(), flow(known).delivered)->0,
        ),
    decreases known.len(),
{
    let before = known.drop_last();
    let t = known.last();
    let f = flow(before);
    if before.len() == 0 {
        assert(f.chunks =~= seq![]);
        assert(t.take(0) =~= seq![]);
        assert(sentence::offset(t, 0) == 0);
        sentence::lemma_char_at(t, 0);
        assert(joined(f.chunks) =~= seq![]);
        lemma_flow_on(f, t, t);
    } else {
        assert forall|i: int, j: int| 0 <= i <= j < before.len() implies (
        #[trigger] before[i]).is_prefix_of(#[trigger] before[j]) by {
            assert(before[i] == known[i] && before[j] == known[j]);
        }
        law_chunks_make_up_the_reply(before);
        assert(before.last() == known[known.len() - 2]);
        assert(before.last().is_prefix_of(t));
        lemma_flow_on(f, before.last(), t);
    }
    let k = sentence::char_at(t, flow(known).delivered)->0;
    sentence::lemma_char_at_found(t, flow(known).delivered);
    assert(t.take(k) + t.skip(k) =~= t);
}

/// Something has been delivered as soon as there is a chunk, and no sooner.
pub proof fn law_delivered_counts_the_chunks(known: Seq<Seq<char>>)
    ensures
        0 <= flow(known).delivered,
        flow(known).delivered == 0 <==> flow(known).chunks.len() == 0,
    decreases known.len(),
{
    if known.len() > 0 {
        let before = known.drop_last();
        law_delivered_counts_the_chunks(before);
        sentence::law_cut_ends_a_sentence(known.last(), flow(before).delivered);
    }
}

} // verus!
