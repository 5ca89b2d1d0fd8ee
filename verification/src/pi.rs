//! The resident process: what it is asked, and what its events mean.

use vstd::prelude::*;

use crate::base64;
use crate::persona;
use crate::reply;
use crate::sentence;
use crate::stream;
use crate::text;
use crate::wire;

verus! {

/// The message for a request in flight when the process ends.
pub const EXITED: &'static str = "pi rpc process exited";

/// The message for a request that could not be handed to the process.
pub const WRITE_FAILED: &'static str = "pi rpc write failed";

/// The running text of the reply, and how many bytes of it have been delivered.
pub struct Turn {
    pub text: Seq<char>,
    pub delivered: int,
}

/// Before the first event of a turn.
pub open spec fn fresh_turn() -> Turn {
    Turn { text: seq![], delivered: 0 }
}

/// What an event has the diary do.
pub enum Act {
    /// Nothing.
    Wait,
    /// Deliver a chunk of text, which may be the last of the message.
    Chunk { chunk: Seq<char>, first: bool, last: bool },
    /// The turn is over; nothing has been delivered in it if `empty`.
    End { empty: bool },
}

/// The turn when the running text is `s`: the text itself where it is known,
/// or what it was.
pub open spec fn heard(t: Turn, s: Option<Seq<char>>) -> Turn {
    match s {
        Some(s) => Turn { text: s, delivered: t.delivered },
        None => t,
    }
}

/// An update: every newly completed sentence is delivered.
pub open spec fn after_update(t: Turn, s: Option<Seq<char>>) -> (Turn, Act) {
    let t = heard(t, s);
    match sentence::cut(t.text, t.delivered) {
        Some(b) if s is Some => (
            Turn { text: t.text, delivered: b },
            Act::Chunk {
                chunk: sentence::between(t.text, t.delivered, b),
                first: t.delivered == 0,
                last: false,
            },
        ),
        _ => (t, Act::Wait),
    }
}

/// The end of the message, with the definitive full text: the rest is
/// delivered.
pub open spec fn after_message(t: Turn, s: Option<Seq<char>>) -> (Turn, Act) {
    let t = heard(t, s);
    let rest = reply::undelivered(t.text, t.delivered);
    (
        Turn { text: t.text, delivered: sentence::byte_len(t.text) },
        if rest.len() > 0 {
            Act::Chunk { chunk: rest, first: t.delivered == 0, last: true }
        } else {
            Act::Wait
        },
    )
}

/// What a line of output means. The end of the agent is not used for text: it
/// also holds what the user wrote.
pub open spec fn after_line(t: Turn, line: Seq<char>) -> (Turn, Act) {
    let line = text::trim(line);
    let kind = if line.len() == 0 {
        None
    } else {
        wire::field_of(line, "type"@)
    };
    if kind == Some("message_update"@) {
        after_update(t, wire::assistant_text(line))
    } else if kind == Some("message_end"@) {
        after_message(t, wire::assistant_text(line))
    } else if kind == Some("agent_end"@) {
        (fresh_turn(), Act::End { empty: t.delivered == 0 })
    } else {
        (t, Act::Wait)
    }
}

/// What to do about a line of output.
pub enum PiStep {
    /// Read on.
    Wait,
    /// Deliver some text, and read on.
    Say(String),
    /// The turn is over; the message is an error to deliver first.
    End(Option<String>),
}

/// What a step stands for.
pub open spec fn step_is(step: PiStep, act: Act) -> bool {
    match act {
        Act::Wait => step is Wait,
        Act::Chunk { chunk, first, last } => match reply::spoken(chunk, first, last) {
            Some(s) => step matches PiStep::Say(said) && said@ == s,
            None => step is Wait,
        },
        Act::End { empty } => match step {
            PiStep::End(Some(e)) => empty && e@ == stream::EMPTY_REPLY@,
            PiStep::End(None) => !empty,
            _ => false,
        },
    }
}

/// The reply of the current turn.
pub struct PiReply {
    last_text: String,
    delivered: usize,
}

impl PiReply {
    /// How far the turn has come.
    pub closed spec fn turn(&self) -> Turn {
        Turn { text: self.last_text@, delivered: self.delivered as int }
    }

    /// Before the first event of a turn.
    pub fn new() -> (r: Self)
        ensures
            r.turn() == fresh_turn(),
    {
        let r = PiReply { last_text: String::new(), delivered: 0 };
        assert(r.turn().text =~= seq![]);
        r
    }

    /// Takes the running text of an update in.
    pub fn update(&mut self, s: Option<String>) -> (r: PiStep)
        ensures
            final(self).turn() == after_update(old(self).turn(), crate::json::text_of(s)).0,
            step_is(r, after_update(old(self).turn(), crate::json::text_of(s)).1),
    {
        match s {
            None => PiStep::Wait,
            Some(s) => {
                self.last_text = s;
                match sentence::sentence_cut(self.last_text.as_str(), self.delivered) {
                    None => PiStep::Wait,
                    Some(cut) => {
                        let chunk = sentence::text_between(
                            self.last_text.as_str(),
                            self.delivered,
                            cut,
                        );
                        let said = reply::deliver(chunk.as_str(), self.delivered == 0, false);
                        self.delivered = cut;
                        match said {
                            Some(s) => PiStep::Say(s),
                            None => PiStep::Wait,
                        }
                    },
                }
            },
        }
    }

    /// Takes the text at the end of a message in.
    pub fn message_end(&mut self, s: Option<String>) -> (r: PiStep)
        ensures
            final(self).turn() == after_message(old(self).turn(), crate::json::text_of(s)).0,
            step_is(r, after_message(old(self).turn(), crate::json::text_of(s)).1),
    {
        if let Some(s) = s {
            self.last_text = s;
        }
        let rest = match sentence::text_from(self.last_text.as_str(), self.delivered) {
            Some(rest) => rest,
            None => String::new(),
        };
        let said = if rest.as_str().is_empty() {
            None
        } else {
            reply::deliver(rest.as_str(), self.delivered == 0, true)
        };
        self.delivered = sentence::text_len(self.last_text.as_str());
        match said {
            Some(s) => PiStep::Say(s),
            None => PiStep::Wait,
        }
    }

    /// Takes a line of output in.
    pub fn feed(&mut self, line: &str) -> (r: PiStep)
        ensures
            final(self).turn() == after_line(old(self).turn(), line@).0,
            step_is(r, after_line(old(self).turn(), line@).1),
    {
        let cs = text::chars_of(line);
        let line = text::trimmed(cs.as_slice());
        if line.len() == 0 {
            return PiStep::Wait;
        }
        let line = text::string_of(line);
        let kind = match wire::json_str_field(line.as_str(), "type") {
            Some(kind) => text::chars_of(kind.as_str()),
            None => {
                return PiStep::Wait;
            },
        };
        if text::same_str(kind.as_slice(), "message_update") {
            let s = wire::extract_assistant_text(line.as_str());
            self.update(s)
        } else if text::same_str(kind.as_slice(), "message_end") {
            let s = wire::extract_assistant_text(line.as_str());
            self.message_end(s)
        } else if text::same_str(kind.as_slice(), "agent_end") {
            let empty = self.delivered == 0;
            self.last_text = String::new();
            self.delivered = 0;
            assert(self.turn().text =~= seq![]);
            if empty {
                let cs = text::chars_of(stream::EMPTY_REPLY);
                PiStep::End(Some(text::string_of(cs.as_slice())))
            } else {
                PiStep::End(None)
            }
        } else {
            PiStep::Wait
        }
    }
}

/// The line that asks the process for a reply to a picture.
pub open spec fn prompt_line(image: Seq<u8>) -> Seq<char> {
    "{\"type\":\"prompt\",\"message\":"@ + wire::quote(persona::TURN_PROMPT@)
        + ",\"images\":[{\"type\":\"image\",\"data\":\""@ + base64::encode(image)
        + "\",\"mimeType\":\"image/png\"}]}\n"@
}

/// The line that asks the process for a reply to a picture.
pub fn prompt(image: &[u8]) -> (s: String)
    ensures
        s@ == prompt_line(image@),
{
    let mut out = String::new();
    text::push_text(&mut out, "{\"type\":\"prompt\",\"message\":");
    text::push_text(&mut out, wire::json_quote(persona::TURN_PROMPT).as_str());
    text::push_text(&mut out, ",\"images\":[{\"type\":\"image\",\"data\":\"");
    text::push_text(&mut out, base64::base64(image).as_str());
    text::push_text(&mut out, "\",\"mimeType\":\"image/png\"}]}\n");
    assert(out@ =~= prompt_line(image@));
    out
}

/// The turn after updates with running texts, and the chunks delivered.
pub open spec fn after_updates(known: Seq<Seq<char>>) -> (Turn, Seq<Seq<char>>)
    decreases known.len(),
{
    if known.len() == 0 {
        (fresh_turn(), seq![])
    } else {
        let (t, chunks) = after_updates(known.drop_last());
        match after_update(t, Some(known.last())) {
            (u, Act::Chunk { chunk, .. }) => (u, chunks.push(chunk)),
            (u, _) => (u, chunks),
        }
    }
}

proof fn lemma_updates_flow(known: Seq<Seq<char>>)
    ensures
        ({
            let (t, chunks) = after_updates(known);
            &&& t.delivered == reply::flow(known).delivered
            &&& chunks == reply::flow(known).chunks
            &&& known.len() > 0 ==> t.text == known.last()
        }),
    decreases known.len(),
{
    if known.len() > 0 {
        lemma_updates_flow(known.drop_last());
    }
}

/// The chunks of a message, with the rest that its end delivers, are its text:
/// nothing is lost and nothing comes twice, as long as each update continues
/// the one before.
pub proof fn law_chunks_make_up_the_message(known: Seq<Seq<char>>)
    requires
        known.len() > 0,
        reply::grows(known),
    ensures
        ({
            let (t, chunks) = after_updates(known);
            let (end, act) = after_message(t, Some(known.last()));
            &&& end.delivered == sentence::byte_len(known.last())
            &&& match act {
                Act::Chunk { chunk, last, .. } => last && reply::joined(chunks) + chunk
                    == known.last(),
                _ => reply::joined(chunks) == known.last(),
            }
        }),
{
    lemma_updates_flow(known);
    reply::law_chunks_make_up_the_reply(known);
    let rest = reply::undelivered(known.last(), reply::flow(known).delivered);
    if rest.len() == 0 {
        assert(reply::joined(after_updates(known).1) + rest =~= reply::joined(
            after_updates(known).1,
        ));
    }
}

/// A turn in which a message with text has ended does not count as empty.
pub proof fn law_a_message_is_no_empty_reply(t: Turn, s: Seq<char>, line: Seq<char>)
    requires
        s.len() > 0,
    ensures
        after_line(after_message(t, Some(s)).0, line).1 matches Act::End { empty } ==> !empty,
{
    sentence::lemma_byte_len_bound(s);
}

/// The first chunk of a turn is known as the first, and no other is.
pub proof fn law_one_chunk_is_the_first(known: Seq<Seq<char>>, s: Seq<char>)
    ensures
        after_update(after_updates(known).0, Some(s)).1 matches Act::Chunk { first, .. } ==> first
            == (after_updates(known).1.len() == 0),
{
    lemma_updates_flow(known);
    reply::law_delivered_counts_the_chunks(known);
}

} // verus!
