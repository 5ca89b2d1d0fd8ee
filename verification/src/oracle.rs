//! The spirit inside the diary, which reads the handwriting and replies. There
//! are two kinds: an OpenAI-compatible endpoint, and a resident process. Both
//! deliver the reply in sentence-sized chunks, so that the quill starts writing
//! before the reply is complete.

pub use crate::base64::base64;
pub use crate::env::{env_updates, unquote_env_value};
pub use crate::http::{
    append_v1_base, chat_url, judge, pick_backend, request_error, response_is_html, Answer,
    Attempt, Backend, Failure, HttpOracle, Verdict,
};
pub use crate::json::{json_text_value, parse_json, Json};
pub use crate::pi::{prompt, PiReply, PiStep};
pub use crate::reply::{clean, deliver};
pub use crate::sentence::sentence_cut;
pub use crate::sse::{
    collect_text, collect_text_field, response_output_text, sse_delta_content, sse_event_of,
    sse_text_event, SseText,
};
pub use crate::stream::{SseReply, SseStep};
pub use crate::wire::{extract_assistant_text, json_quote, json_str_field};
