//! A reply that streams in as server-sent events.

use vstd::prelude::*;

use crate::reply;
use crate::sentence;
use crate::speech;
use crate::sse;
use crate::sse::SseText;
use crate::text;

verus! {

/// The message for a reply without any text.
pub const EMPTY_REPLY: &'static str = "empty reply";

/// How far a streamed reply has come: its text so far, how many bytes of it
/// have been delivered, and its whole text where an event has given that.
pub struct Progress {
    pub text: Seq<char>,
    pub delivered: int,
    pub whole: Option<Seq<char>>,
}

/// Before the first event.
pub open spec fn beginning() -> Progress {
    Progress { text: seq![], delivered: 0, whole: None }
}

/// What an event adds to the text.
pub open spec fn addition(e: Option<sse::Event>) -> Seq<char> {
    match e {
        Some(sse::Event::Delta(s)) => s,
        _ => seq![],
    }
}

/// The progress after an event, and the chunk of text that is then delivered.
pub open spec fn after_event(p: Progress, e: Option<sse::Event>) -> (Progress, Option<Seq<char>>) {
    match e {
        Some(sse::Event::Delta(s)) if s.len() > 0 => {
            let t = p.text + s;
            match sentence::cut(t, p.delivered) {
                Some(b) => (
                    Progress { text: t, delivered: b, whole: p.whole },
                    Some(sentence::between(t, p.delivered, b)),
                ),
                None => (Progress { text: t, delivered: p.delivered, whole: p.whole }, None),
            }
        },
        Some(sse::Event::Final(s)) if s.len() > 0 => (
            Progress { text: p.text, delivered: p.delivered, whole: Some(s) },
            None,
        ),
        _ => (p, None),
    }
}

/// The data of a line of the stream.
pub open spec fn line_data(line: Seq<char>) -> Option<Seq<char>> {
    let line = text::trim(line);
    if text::begins_with(line, "data:"@) {
        Some(text::trim(line.skip("data:"@.len() as int)))
    } else {
        None
    }
}

/// The text of a reply that has ended: what came in pieces, or, if nothing
/// did, the whole text.
pub open spec fn ended_text(p: Progress) -> Seq<char> {
    match p.whole {
        Some(s) if p.text.len() == 0 => s,
        _ => p.text,
    }
}

/// What is left to deliver of a reply that has ended.
pub open spec fn ended_rest(p: Progress) -> Seq<char> {
    text::trim(reply::undelivered(ended_text(p), p.delivered))
}

/// The last message of a reply: the rest of its text, if there is any; an error
/// if there never was any.
pub open spec fn last_message(p: Progress) -> Option<Result<Seq<char>, Seq<char>>> {
    if ended_rest(p).len() > 0 {
        Some(Ok(reply::cleaned(ended_rest(p))))
    } else if p.delivered == 0 {
        Some(Err(EMPTY_REPLY@))
    } else {
        None
    }
}

/// What to do about a line of the stream.
pub enum SseStep {
    /// Read on.
    Wait,
    /// Deliver some text, and read on.
    Say(String),
    /// The stream is over.
    Done,
}

/// A reply that streams in.
pub struct SseReply {
    acc: String,
    delivered: usize,
    final_text: Option<String>,
}

impl SseReply {
    /// How far the reply has come.
    pub closed spec fn progress(&self) -> Progress {
        Progress {
            text: self.acc@,
            delivered: self.delivered as int,
            whole: match self.final_text {
                Some(s) => Some(s@),
                None => None,
            },
        }
    }

    /// What has been delivered ends with a character.
    pub open spec fn wf(&self) -> bool {
        sentence::char_at(self.progress().text, self.progress().delivered) is Some
    }

    /// A reply of which nothing has come.
    pub fn new() -> (r: Self)
        ensures
            r.wf(),
            r.progress() == beginning(),
    {
        let r = SseReply { acc: String::new(), delivered: 0, final_text: None };
        proof {
            assert(r.progress().text =~= seq![]);
            assert(sentence::offset(r.progress().text, 0) == 0);
            sentence::lemma_char_at(r.progress().text, 0);
        }
        r
    }

    /// Takes an event in, and gives the text that is then to be delivered.
    pub fn feed_event(&mut self, e: Option<SseText>) -> (r: Option<String>)
        requires
            old(self).wf(),
        ensures
            final(self).wf(),
            final(self).progress() == after_event(old(self).progress(), sse::event(e)).0,
            (match r {
                Some(s) => after_event(old(self).progress(), sse::event(e)).1 matches Some(chunk)
                    && s@ == reply::cleaned(chunk),
                None => after_event(old(self).progress(), sse::event(e)).1 is None,
            }),
    {
        let ghost before = self.progress();
        match e {
            Some(SseText::Delta(frag)) => {
                if frag.as_str().is_empty() {
                    return None;
                }
                text::push_text(&mut self.acc, frag.as_str());
                proof {
                    reply::lemma_char_at_grows(before.text, self.acc@, before.delivered);
                    sentence::law_cut_ends_a_sentence(self.acc@, before.delivered);
                }
                match sentence::sentence_cut(self.acc.as_str(), self.delivered) {
                    Some(cut) => {
                        let chunk = sentence::text_between(
                            self.acc.as_str(),
                            self.delivered,
                            cut,
                        );
                        self.delivered = cut;
                        Some(reply::clean(chunk.as_str()))
                    },
                    None => None,
                }
            },
            Some(SseText::Final(s)) => {
                if !s.as_str().is_empty() {
                    self.final_text = Some(s);
                }
                None
            },
            None => None,
        }
    }

    /// Takes a line of the stream in: lines of data are events, but for the
    /// marker at the end, and other lines are nothing.
    pub fn feed(&mut self, line: &str) -> (r: SseStep)
        requires
            old(self).wf(),
        ensures
            final(self).wf(),
            (match line_data(line@) {
                None => r is Wait && final(self).progress() == old(self).progress(),
                Some(data) if data == "[DONE]"@ => r is Done && final(self).progress() == old(
                    self,
                ).progress(),
                Some(data) => {
                    let next = after_event(old(self).progress(), sse::event_in(data));
                    &&& final(self).progress() == next.0
                    &&& match next.1 {
                        Some(chunk) => r matches SseStep::Say(s) && s@ == reply::cleaned(chunk),
                        None => r is Wait,
                    }
                },
            }),
    {
        let cs = text::chars_of(line);
        let data = match text::strip_start(text::trimmed(cs.as_slice()), "data:") {
            None => {
                return SseStep::Wait;
            },
            Some(rest) => text::trimmed(rest),
        };
        if text::same_str(data, "[DONE]") {
            return SseStep::Done;
        }
        let data = text::string_of(data);
        match self.feed_event(sse::sse_text_event(data.as_str())) {
            Some(s) => SseStep::Say(s),
            None => SseStep::Wait,
        }
    }

    /// The last message of the reply, when the stream is over.
    pub fn finish(self) -> (r: Option<Result<String, String>>)
        requires
            self.wf(),
        ensures
            (match r {
                Some(Ok(s)) => last_message(self.progress()) == Some(
                    Ok::<Seq<char>, Seq<char>>(s@),
                ),
                Some(Err(e)) => last_message(self.progress()) == Some(
                    Err::<Seq<char>, Seq<char>>(e@),
                ),
                None => last_message(self.progress()) is None,
            }),
    {
        let ghost p = self.progress();
        let mut acc = self.acc;
        if acc.as_str().is_empty() {
            proof {
                assert(p.text =~= seq![]);
                sentence::lemma_char_at_found(p.text, p.delivered);
                assert(p.text.take(0) =~= p.text);
                assert(p.delivered == 0);
            }
            if let Some(s) = self.final_text {
                acc = s;
                proof {
                    assert(sentence::offset(acc@, 0) == 0) by {
                        assert(acc@.take(0) =~= seq![]);
                    }
                    sentence::lemma_char_at(acc@, 0);
                }
            }
        }
        let rest = match sentence::text_from(acc.as_str(), self.delivered) {
            Some(rest) => rest,
            None => String::new(),
        };
        let cs = text::chars_of(rest.as_str());
        let rest = text::trimmed(cs.as_slice());
        if rest.len() > 0 {
            let rest = text::string_of(rest);
            Some(Ok(reply::clean(rest.as_str())))
        } else if self.delivered == 0 {
            let cs = text::chars_of(EMPTY_REPLY);
            Some(Err(text::string_of(cs.as_slice())))
        } else {
            None
        }
    }
}

/// The progress after some events, and the chunks delivered so far.
pub open spec fn after_events(es: Seq<Option<sse::Event>>) -> (Progress, Seq<Seq<char>>)
    decreases es.len(),
{
    if es.len() == 0 {
        (beginning(), seq![])
    } else {
        let (p, chunks) = after_events(es.drop_last());
        match after_event(p, es.last()) {
            (q, Some(chunk)) => (q, chunks.push(chunk)),
            (q, None) => (q, chunks),
        }
    }
}

/// What events add to the text, all together.
pub open spec fn additions(es: Seq<Option<sse::Event>>) -> Seq<char>
    decreases es.len(),
{
    if es.len() == 0 {
        seq![]
    } else {
        additions(es.drop_last()) + addition(es.last())
    }
}

/// Nothing that the events say is lost, and nothing comes twice: the chunks,
/// with what has not been delivered yet, are all that the events have added.
pub proof fn law_chunks_make_up_the_stream(es: Seq<Option<sse::Event>>)
    ensures
        ({
            let (p, chunks) = after_events(es);
            &&& p.text == additions(es)
            &&& sentence::char_at(p.text, p.delivered) is Some
            &&& reply::joined(chunks) + reply::undelivered(p.text, p.delivered) == additions(es)
            &&& 0 <= p.delivered
            &&& p.delivered == 0 <==> chunks.len() == 0
        }),
    decreases es.len(),
{
    let (p, chunks) = after_events(es);
    if es.len() == 0 {
        assert(p.text =~= seq![]);
        assert(p.text.take(0) =~= seq![]);
        assert(sentence::offset(p.text, 0) == 0);
        sentence::lemma_char_at(p.text, 0);
        assert(p.text.skip(0) =~= seq![]);
        assert(reply::joined(chunks) + reply::undelivered(p.text, 0) =~= seq![]);
    } else {
        law_chunks_make_up_the_stream(es.drop_last());
        let (q, before) = after_events(es.drop_last());
        let e = es.last();
        let k = sentence::char_at(q.text, q.delivered)->0;
        sentence::lemma_char_at_found(q.text, q.delivered);
        lemma_prefix(reply::joined(before), q.text, k);
        match e {
            Some(sse::Event::Delta(s)) if s.len() > 0 => {
                let f = reply::Flow { delivered: q.delivered, chunks: before };
                let t = q.text + s;
                reply::lemma_flow_on(f, q.text, t);
                let g = reply::flow_on(f, t);
                assert(g.chunks == chunks && g.delivered == p.delivered);
                let m = sentence::char_at(t, p.delivered)->0;
                sentence::lemma_char_at_found(t, p.delivered);
                assert(t.take(m) + t.skip(m) =~= t);
            },
            _ => {
                assert(addition(e) =~= seq![]);
                assert(additions(es) =~= additions(es.drop_last()));
            },
        }
    }
}

proof fn lemma_prefix(a: Seq<char>, s: Seq<char>, k: int)
    requires
        0 <= k <= s.len(),
        a + s.skip(k) == s,
    ensures
        a == s.take(k),
{
    assert((a + s.skip(k)).len() == s.len());
    assert(a.len() == k);
    assert((a + s.skip(k)).take(k) =~= a);
}

/// A reply is never passed over in silence: either some of it is delivered, or
/// the error says that it was empty, and never both.
pub proof fn law_a_reply_or_an_error(es: Seq<Option<sse::Event>>)
    ensures
        ({
            let (p, chunks) = after_events(es);
            let said = chunks.len() > 0 || last_message(p) matches Some(Ok(_));
            said != (last_message(p) matches Some(Err(_)))
        }),
{
    law_chunks_make_up_the_stream(es);
    let (p, chunks) = after_events(es);
    if ended_rest(p).len() > 0 {
        assert(last_message(p) is Some);
    }
}

/// The whole text, where an event gives it, is used only if nothing came in
/// pieces.
pub proof fn law_pieces_come_before_the_whole(es: Seq<Option<sse::Event>>)
    requires
        additions(es).len() > 0,
    ensures
        ended_text(after_events(es).0) == additions(es),
{
    law_chunks_make_up_the_stream(es);
}

/// A line of data is what follows `data:`, whatever white space stands around
/// it; a line that does not begin so has none.
pub proof fn law_data_follows_its_mark(
    before: Seq<char>,
    gap: Seq<char>,
    core: Seq<char>,
    after: Seq<char>,
)
    requires
        speech::blank(before),
        speech::blank(gap),
        speech::bare(core),
        speech::blank(after),
    ensures
        line_data(before + (seq!['d', 'a', 't', 'a', ':'] + gap + core) + after) == Some(core),
        (core.len() < 5 || core.take(5) != seq!['d', 'a', 't', 'a', ':']) ==> line_data(
            before + core + after,
        ) is None,
{
    let mark = seq!['d', 'a', 't', 'a', ':'];
    reveal_strlit("data:");
    assert("data:"@ =~= mark);
    let line = mark + gap + core;
    assert(line.last() == core.last() && line[0] == 'd' && !text::is_space('d'));
    speech::law_trimming_bares_the_text(before, line, after);
    assert(line.take(5) =~= mark);
    assert(line.skip(5) =~= gap + core + seq![]);
    speech::law_trimming_bares_the_text(gap, core, seq![]);
    speech::law_trimming_bares_the_text(before, core, after);
}

} // verus!
