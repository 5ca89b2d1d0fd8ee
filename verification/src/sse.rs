//! Reply text in the events of a streaming endpoint. OpenAI-compatible servers
//! do not all use the same event shape, so the text is looked for by structure.

use vstd::prelude::*;

use crate::json;
use crate::json::Json;
use crate::text;

verus! {

/// What an event says of the reply: some more of it, or all of it.
pub enum SseText {
    Delta(String),
    Final(String),
}

/// What an event stands for.
pub enum Event {
    Delta(Seq<char>),
    Final(Seq<char>),
}

/// What an optional event stands for.
pub open spec fn event(e: Option<SseText>) -> Option<Event> {
    match e {
        Some(SseText::Delta(s)) => Some(Event::Delta(s@)),
        Some(SseText::Final(s)) => Some(Event::Final(s@)),
        None => None,
    }
}

/// The text of a field, or nothing.
pub open spec fn field_text(t: json::Tree, key: Seq<char>) -> Seq<char> {
    json::or_nothing(json::text_field(t, key))
}

/// The text of a message: that of its `content`, and that of its `text`.
pub open spec fn message_text(t: Option<json::Tree>) -> Seq<char> {
    match t {
        Some(t) => field_text(t, "content"@) + field_text(t, "text"@),
        None => seq![],
    }
}

/// The text of a choice.
pub open spec fn choice_text(t: json::Tree) -> Seq<char> {
    message_text(json::field(t, "delta"@)) + message_text(json::field(t, "message"@)) + field_text(
        t,
        "text"@,
    )
}

/// The text of the first `n` choices.
pub open spec fn choices_text(choices: Seq<json::Tree>, n: int) -> Seq<char>
    decreases n,
{
    if n <= 0 {
        seq![]
    } else {
        choices_text(choices, n - 1) + choice_text(choices[n - 1])
    }
}

/// Whether an item of a finished response is a message of the assistant.
pub open spec fn is_assistant_message(item: json::Tree) -> bool {
    json::string_field(item, "type"@) == Some("message"@) && json::string_field(item, "role"@)
        == Some("assistant"@)
}

/// The text of the assistant in the first `n` items of a finished response.
pub open spec fn output_text(items: Seq<json::Tree>, n: int) -> Seq<char>
    decreases n,
{
    if n <= 0 {
        seq![]
    } else {
        let before = output_text(items, n - 1);
        if is_assistant_message(items[n - 1]) {
            before + field_text(items[n - 1], "content"@)
        } else {
            before
        }
    }
}

/// The text of a finished response.
pub open spec fn response_text(response: json::Tree) -> Option<Seq<char>> {
    match json::field(response, "output"@) {
        Some(json::Tree::Array(items)) => json::nonempty(output_text(items, items.len() as int)),
        _ => None,
    }
}

/// The text of a finished response that an event carries.
pub open spec fn completed_text(t: json::Tree) -> Option<Seq<char>> {
    match json::field(t, "response"@) {
        Some(response) => response_text(response),
        None => None,
    }
}

/// The text in the choices of an event, in the way of chat completions.
pub open spec fn chat_text(t: json::Tree) -> Seq<char> {
    match json::field(t, "choices"@) {
        Some(json::Tree::Array(choices)) => choices_text(choices, choices.len() as int),
        _ => seq![],
    }
}

/// The text at the top level of an event, as minimal relays send it.
pub open spec fn relay_text(t: json::Tree) -> Seq<char> {
    message_text(json::field(t, "delta"@)) + field_text(t, "content"@) + field_text(t, "text"@)
}

/// What an event says of the reply. An event in the way of the responses
/// endpoint names its kind; in any other one the choices come before the top
/// level.
pub open spec fn event_of(t: json::Tree) -> Option<Event> {
    let kind = json::string_field(t, "type"@);
    if kind == Some("response.output_text.delta"@) {
        match json::text_field(t, "delta"@) {
            Some(s) => Some(Event::Delta(s)),
            None => None,
        }
    } else if kind == Some("response.output_text.done"@) {
        match json::text_field(t, "text"@) {
            Some(s) => Some(Event::Final(s)),
            None => None,
        }
    } else if kind == Some("response.completed"@) && completed_text(t) is Some {
        Some(Event::Final(completed_text(t)->0))
    } else if chat_text(t).len() > 0 {
        Some(Event::Delta(chat_text(t)))
    } else if relay_text(t).len() > 0 {
        Some(Event::Delta(relay_text(t)))
    } else {
        None
    }
}

/// What the JSON text of an event says of the reply.
pub open spec fn event_in(data: Seq<char>) -> Option<Event> {
    match json::json_parse(data) {
        Some(t) => event_of(t),
        None => None,
    }
}

/// Appends the text of a field.
pub fn collect_text_field(value: &Json, key: &str, out: &mut String)
    ensures
        final(out)@ == old(out)@ + field_text(value.tree(), key@),
{
    if let Some(v) = value.get(key) {
        if let Some(s) = json::json_text_value(v) {
            text::push_text(out, s.as_str());
        }
    }
}

/// Appends the text of a message.
pub fn collect_text(value: Option<&Json>, out: &mut String)
    ensures
        final(out)@ == old(out)@ + message_text(json::tree_of(value)),
{
    if let Some(value) = value {
        collect_text_field(value, "content", out);
        collect_text_field(value, "text", out);
    }
}

/// The text of a finished response.
pub fn response_output_text(response: &Json) -> (r: Option<String>)
    ensures
        json::text_of(r) == response_text(response.tree()),
{
    let items = match response.get("output") {
        Some(Json::Array(items)) => items,
        _ => {
            return None;
        },
    };
    let ghost list = Json::Array(*items).tree()->Array_0;
    let mut out = String::new();
    let mut i: usize = 0;
    while i < items.len()
        invariant
            i <= items@.len(),
            list == Json::Array(*items).tree()->Array_0,
            out@ == output_text(list, i as int),
        decreases items@.len() - i,
    {
        let item = &items[i];
        assert(list[i as int] == item.tree());
        if item.field_is("type", "message") && item.field_is("role", "assistant") {
            collect_text_field(item, "content", &mut out);
        }
        i += 1;
    }
    if out.as_str().is_empty() {
        None
    } else {
        Some(out)
    }
}

/// The text in the choices of an event.
fn chat_choices_text(value: &Json) -> (out: String)
    ensures
        out@ == chat_text(value.tree()),
{
    let mut out = String::new();
    let choices = match value.get("choices") {
        Some(Json::Array(choices)) => choices,
        _ => {
            return out;
        },
    };
    let ghost list = Json::Array(*choices).tree()->Array_0;
    let mut i: usize = 0;
    while i < choices.len()
        invariant
            i <= choices@.len(),
            list == Json::Array(*choices).tree()->Array_0,
            out@ == choices_text(list, i as int),
        decreases choices@.len() - i,
    {
        let ghost before = out@;
        let choice = &choices[i];
        assert(list[i as int] == choice.tree());
        collect_text(choice.get("delta"), &mut out);
        collect_text(choice.get("message"), &mut out);
        collect_text_field(choice, "text", &mut out);
        assert(out@ =~= before + choice_text(choice.tree()));
        i += 1;
    }
    out
}

/// What an event says of the reply.
pub fn sse_event_of(value: &Json) -> (r: Option<SseText>)
    ensures
        event(r) == event_of(value.tree()),
{
    // Responses endpoint:
    //   {"type":"response.output_text.delta","delta":"..."}
    //   {"type":"response.output_text.done","text":"..."}
    if value.field_is("type", "response.output_text.delta") {
        return match value.get("delta") {
            Some(v) => match json::json_text_value(v) {
                Some(s) => Some(SseText::Delta(s)),
                None => None,
            },
            None => None,
        };
    }
    if value.field_is("type", "response.output_text.done") {
        return match value.get("text") {
            Some(v) => match json::json_text_value(v) {
                Some(s) => Some(SseText::Final(s)),
                None => None,
            },
            None => None,
        };
    }
    if value.field_is("type", "response.completed") {
        if let Some(response) = value.get("response") {
            if let Some(s) = response_output_text(response) {
                return Some(SseText::Final(s));
            }
        }
    }
    // Chat completions:
    //   {"choices":[{"delta":{"content":"..."}}]}
    // Some compatible servers stream `message.content`, `text`, or content
    // arrays instead; accept those too.
    let out = chat_choices_text(value);
    if !out.as_str().is_empty() {
        return Some(SseText::Delta(out));
    }
    // Minimal OpenAI-compatible relays sometimes send a top-level delta.
    let mut out = String::new();
    collect_text(value.get("delta"), &mut out);
    collect_text_field(value, "content", &mut out);
    collect_text_field(value, "text", &mut out);
    assert(out@ =~= relay_text(value.tree()));
    if out.as_str().is_empty() {
        None
    } else {
        Some(SseText::Delta(out))
    }
}

/// Pull reply text out of one SSE `data:` JSON object.
pub fn sse_text_event(s: &str) -> (r: Option<SseText>)
    ensures
        event(r) == event_in(s@),
{
    match json::parse_json(s) {
        Some(v) => sse_event_of(&v),
        None => None,
    }
}

/// Incremental text only.
pub fn sse_delta_content(s: &str) -> (r: Option<String>)
    ensures
        json::text_of(r) == (match event_in(s@) {
            Some(Event::Delta(t)) => Some(t),
            _ => None,
        }),
{
    match sse_text_event(s) {
        Some(SseText::Delta(t)) => Some(t),
        _ => None,
    }
}

} // verus!
