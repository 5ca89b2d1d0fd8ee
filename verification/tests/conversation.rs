use riddle::env::{env_updates, unquote_env_value};
use riddle::http::{
    append_v1_base, chat_url, judge, pick_backend, request_error, response_is_html, Answer,
    Attempt, Backend, Failure, HttpOracle, Verdict, HTML_ANSWER, NOT_FOUND,
};
use riddle::json::{json_text_value, parse_json, Json};
use riddle::number::{parse_number, to_decimal};
use riddle::oracle::base64;
use riddle::pi::{prompt, PiReply, PiStep};
use riddle::reply::deliver;
use riddle::sentence::{sentence_cut, text_between, text_from, text_len};
use riddle::sse::{sse_delta_content, sse_event_of, sse_text_event, SseText};
use riddle::stream::{SseReply, SseStep};
use riddle::text::is_whitespace;
use riddle::wire::{extract_assistant_text, json_quote, json_str_field};

fn pairs(list: &[(&str, &str)]) -> Vec<(String, String)> {
    list.iter().map(|(a, b)| (a.to_string(), b.to_string())).collect()
}

fn text(s: &str) -> Option<String> {
    Some(s.to_string())
}

#[test]
fn quotes_around_a_value_are_dropped() {
    assert_eq!(unquote_env_value("\"a b\""), "a b");
    assert_eq!(unquote_env_value("'a'"), "a");
    assert_eq!(unquote_env_value("\"a'"), "\"a'");
    assert_eq!(unquote_env_value("\""), "\"");
    assert_eq!(unquote_env_value("\"\""), "");
    assert_eq!(unquote_env_value("é"), "é");
}

#[test]
fn the_configuration_sets_what_is_not_set() {
    let file = "# comment\n\nRIDDLE_OPENAI_KEY = 'abc'\r\nexport MODEL=\"x=y\"\nMODEL=later\nno value\n=nothing\n  export  BASE = https://h/ \n";
    assert_eq!(
        env_updates(file, &vec![]),
        pairs(&[("RIDDLE_OPENAI_KEY", "abc"), ("MODEL", "x=y"), ("BASE", "https://h/")])
    );
    assert_eq!(
        env_updates(file, &vec!["MODEL".to_string(), "PATH".to_string()]),
        pairs(&[("RIDDLE_OPENAI_KEY", "abc"), ("BASE", "https://h/")])
    );
}

#[test]
fn white_space_is_that_of_unicode() {
    for code in 0..=0x10FFFFu32 {
        if let Some(c) = char::from_u32(code) {
            assert_eq!(is_whitespace(c), c.is_whitespace());
        }
    }
}

#[test]
fn numbers_are_read_and_written() {
    let read = |s: &str, radix: u32, max: u64| {
        let cs: Vec<char> = s.chars().collect();
        parse_number(&cs, radix, max)
    };
    assert_eq!(read("2000", 10, u32::MAX as u64), Some(2000));
    assert_eq!(read("+7", 10, 100), Some(7));
    assert_eq!(read("", 10, 100), None);
    assert_eq!(read("+", 10, 100), None);
    assert_eq!(read("-1", 10, 100), None);
    assert_eq!(read("101", 10, 100), None);
    assert_eq!(read("4294967295", 10, u32::MAX as u64), Some(4294967295));
    assert_eq!(read("4294967296", 10, u32::MAX as u64), None);
    assert_eq!(read("00e9", 16, u32::MAX as u64), Some(0xe9));
    assert_eq!(read("99999999999999999999999", 10, u64::MAX), None);
    assert_eq!(to_decimal(0), vec!['0']);
    assert_eq!(to_decimal(404), vec!['4', '0', '4']);
}

#[test]
fn json_values_are_read() {
    let v = parse_json(r#"{"a":[1,true,null,"x"],"b":{"c":"d"}}"#).unwrap();
    match v.get("a") {
        Some(Json::Array(items)) => {
            assert!(matches!(items[0], Json::Number));
            assert!(matches!(items[1], Json::Bool(true)));
            assert!(matches!(items[2], Json::Null));
            assert!(matches!(&items[3], Json::Text(s) if s == "x"));
            assert_eq!(items.len(), 4);
        }
        _ => panic!("expected an array"),
    }
    assert!(v.get("b").unwrap().field_is("c", "d"));
    assert!(!v.get("b").unwrap().field_is("c", "e"));
    assert!(v.get("z").is_none());
    assert!(parse_json("{").is_none());
    assert!(parse_json("").is_none());
}

#[test]
fn text_is_found_in_strings_arrays_and_objects() {
    let value = |s: &str| json_text_value(&parse_json(s).unwrap());
    assert_eq!(value(r#""a""#), text("a"));
    assert_eq!(value(r#"["a",{"text":"b"},{"content":[{"text":"c"}]},{"text":1}]"#), text("bc"));
    assert_eq!(value(r#"["a"]"#), None);
    assert_eq!(value(r#"{"text":"a","content":"b"}"#), text("a"));
    assert_eq!(value(r#"{"text":1,"content":{"text":"b"}}"#), text("b"));
    assert_eq!(value(r#"{"content":""}"#), text(""));
    assert_eq!(value("1"), None);
}

#[test]
fn events_of_other_shapes_are_understood() {
    assert_eq!(sse_delta_content(r#"{"choices":[{"message":{"content":"a"}}]}"#), text("a"));
    assert_eq!(sse_delta_content(r#"{"choices":[{"text":"a"},{"text":"b"}]}"#), text("ab"));
    assert_eq!(
        sse_delta_content(r#"{"choices":[{"delta":{"content":[{"text":"a"},{"text":"b"}]}}]}"#),
        text("ab")
    );
    assert_eq!(sse_delta_content(r#"{"delta":{"text":"a"},"content":"b","text":"c"}"#), text("abc"));
    assert_eq!(sse_delta_content(r#"{"choices":[],"text":"c"}"#), text("c"));
    assert_eq!(sse_delta_content("not json"), None);
    assert_eq!(sse_delta_content(r#"{"type":"response.output_text.delta"}"#), None);
    // A whole text is no increment.
    assert_eq!(sse_delta_content(r#"{"type":"response.output_text.done","text":"a"}"#), None);
    // A finished response without text falls through to the other shapes.
    assert_eq!(
        sse_delta_content(r#"{"type":"response.completed","response":{"output":[]},"text":"t"}"#),
        text("t")
    );
    assert!(sse_text_event(
        r#"{"type":"response.completed","response":{"output":[{"type":"message","role":"user","content":"x"}]}}"#
    )
    .is_none());
}

#[test]
fn an_event_is_understood_without_reading_it_again() {
    let event = Json::Object(vec![
        ("type".to_string(), Json::Text("response.output_text.delta".to_string())),
        ("delta".to_string(), Json::Array(vec![Json::Object(vec![(
            "text".to_string(),
            Json::Text("ink".to_string()),
        )])])),
    ]);
    match sse_event_of(&event) {
        Some(SseText::Delta(s)) => assert_eq!(s, "ink"),
        _ => panic!("expected some text"),
    }
    assert!(sse_event_of(&Json::Null).is_none());
}

#[test]
fn sentences_are_cut_at_their_end() {
    assert_eq!(sentence_cut("Hello there. And", 0), Some(12));
    assert_eq!(sentence_cut("One. Two! Three", 0), Some(9));
    assert_eq!(sentence_cut("One. Two! Three", 4), Some(9));
    assert_eq!(sentence_cut("No end", 0), None);
    assert_eq!(sentence_cut("3.14 is it", 0), None);
    // Too short to be worth it.
    assert_eq!(sentence_cut("Ah. x", 0), None);
    assert_eq!(sentence_cut("Ahh. x", 0), Some(4));
    assert_eq!(sentence_cut("Oui…", 0), Some(6));
    assert_eq!(sentence_cut("été", 1), None);
    assert_eq!(sentence_cut("été.", 2), Some(6));
    assert_eq!(sentence_cut("abc", 9), None);
}

#[test]
fn places_in_a_text_are_byte_offsets() {
    assert_eq!(text_between("Déjà vu", 0, 3), "Dé");
    assert_eq!(text_from("Déjà vu", 6), text(" vu"));
    assert_eq!(text_from("Déjà vu", 2), None);
    assert_eq!(text_len("Déjà — 你"), "Déjà — 你".len());
}

#[test]
fn chunks_lose_their_wrapping_quotes() {
    assert_eq!(deliver(" \"Hello.", true, false), text("Hello."));
    assert_eq!(deliver("\"Hello.\"", false, false), text("\"Hello.\""));
    assert_eq!(deliver("Bye.\" ", false, true), text("Bye."));
    assert_eq!(deliver(" \" ", true, false), None);
    assert_eq!(deliver("", false, true), None);
}

fn said(step: SseStep) -> Option<String> {
    match step {
        SseStep::Say(s) => Some(s),
        _ => None,
    }
}

#[test]
fn a_stream_is_delivered_sentence_by_sentence() {
    let mut reply = SseReply::new();
    let data = |s: &str| format!("data: {{\"choices\":[{{\"delta\":{{\"content\":{}}}}}]}}", json_quote(s));
    assert!(said(reply.feed(": keep-alive")).is_none());
    assert!(said(reply.feed(&data("\"Good "))).is_none());
    assert_eq!(said(reply.feed(&data("evening. Who"))), text("Good evening."));
    assert!(said(reply.feed("")).is_none());
    assert!(said(reply.feed("data: nonsense")).is_none());
    assert_eq!(said(reply.feed(&data(" are you? Tell"))), text("Who are you?"));
    assert!(said(reply.feed(&data(" me\""))).is_none());
    assert!(matches!(reply.feed("data: [DONE]"), SseStep::Done));
    assert_eq!(reply.finish(), Some(Ok("Tell me".to_string())));
}

#[test]
fn a_whole_text_is_used_where_nothing_came_in_pieces() {
    let mut reply = SseReply::new();
    assert!(reply.feed_event(Some(SseText::Final("All of it. ".to_string()))).is_none());
    assert_eq!(reply.finish(), Some(Ok("All of it.".to_string())));
    let mut reply = SseReply::new();
    assert!(reply.feed_event(Some(SseText::Delta("A bit".to_string()))).is_none());
    assert!(reply.feed_event(Some(SseText::Final("All of it.".to_string()))).is_none());
    assert_eq!(reply.finish(), Some(Ok("A bit".to_string())));
}

#[test]
fn a_stream_without_text_is_an_error() {
    assert_eq!(SseReply::new().finish(), Some(Err("empty reply".to_string())));
    let mut reply = SseReply::new();
    reply.feed_event(Some(SseText::Delta("  \n".to_string())));
    assert_eq!(reply.finish(), Some(Err("empty reply".to_string())));
    let mut reply = SseReply::new();
    assert_eq!(reply.feed_event(Some(SseText::Delta("Done.".to_string()))), text("Done."));
    assert_eq!(reply.finish(), None);
}

fn update(kind: &str, s: &str) -> String {
    format!(
        "{{\"type\":\"{kind}\",\"message\":{{\"role\":\"assistant\",\"content\":[{{\"type\":\"text\",\"text\":{}}}]}}}}",
        json_quote(s)
    )
}

fn spoken(step: PiStep) -> Option<String> {
    match step {
        PiStep::Say(s) => Some(s),
        _ => None,
    }
}

#[test]
fn a_turn_is_delivered_sentence_by_sentence() {
    let mut reply = PiReply::new();
    assert!(spoken(reply.feed("  ")).is_none());
    assert!(spoken(reply.feed(&update("message_update", "\"My name"))).is_none());
    assert_eq!(
        spoken(reply.feed(&update("message_update", "\"My name is Tom. And"))),
        text("My name is Tom.")
    );
    assert!(spoken(reply.feed(&update("other", "\"My name is Tom. And you?"))).is_none());
    assert_eq!(
        spoken(reply.feed(&update("message_end", "\"My name is Tom. And yours?\""))),
        text("And yours?")
    );
    assert!(matches!(reply.feed("{\"type\":\"agent_end\"}"), PiStep::End(None)));
    // The next turn starts afresh.
    match reply.feed("{\"type\":\"agent_end\"}") {
        PiStep::End(Some(e)) => assert_eq!(e, "empty reply"),
        _ => panic!("expected the end of an empty turn"),
    }
}

#[test]
fn a_message_is_delivered_once_where_its_end_brings_it_all() {
    let mut reply = PiReply::new();
    assert_eq!(spoken(reply.feed(&update("message_end", "\"Hm\""))), text("Hm"));
    assert!(spoken(reply.feed(&update("message_end", "\"Hm\""))).is_none());
    assert!(matches!(reply.feed("{\"type\":\"agent_end\"}"), PiStep::End(None)));
}

#[test]
fn only_the_assistant_is_heard() {
    let line = "{\"type\":\"message_update\",\"a\":{\"role\":\"user\",\"text\":\"echo\"},\"m\":{\"role\":\"assistant\",\"content\":[{\"text\":\"One \"},{\"text\":\"two\\n\\\"x\\\"\"}]},\"p\":{\"role\":\"assistant\",\"text\":\"again\"}}";
    assert_eq!(extract_assistant_text(line), text("One two\n\"x\""));
    assert_eq!(extract_assistant_text("{\"role\":\"user\",\"text\":\"echo\"}"), None);
    assert_eq!(extract_assistant_text("{\"role\":\"assistant\"}"), None);
}

#[test]
fn string_fields_are_decoded() {
    let s = "{\"type\":\"a\",\"text\":\"D\\u00e9j\\u00e0\\tvu\\/\\r\\n \\\"q\\\" \\\\ \\x\",\"type\":\"b\"}";
    assert_eq!(json_str_field(s, "text"), text("Déjà\tvu/\r\n \"q\" \\ x"));
    assert_eq!(json_str_field(s, "type"), text("a"));
    assert_eq!(json_str_field(s, "none"), None);
    // Half of a pair, and digits that are none, stand for nothing.
    assert_eq!(json_str_field("\"k\":\"a\\ud83db\\uzzzzc\"", "k"), text("abc"));
    assert_eq!(json_str_field("\"k\":\"a\\u41", "k"), text("aA"));
    assert_eq!(json_str_field("\"k\":\"a\\", "k"), text("a"));
}

#[test]
fn only_top_level_fields_count() {
    let s = r#"{"message":{"type":"inner"},"type":"outer"}"#;
    assert_eq!(json_str_field(s, "type"), text("outer"));
    let s = r#"{"list":[{"type":"a"},["x",{"type":"b"}]],"type":"c","type":"d"}"#;
    assert_eq!(json_str_field(s, "type"), text("c"));
    assert_eq!(json_str_field(r#"{"message":{"type":"inner"}}"#, "type"), None);
    // Brackets, quotes and fields inside of a string are text.
    let s = r#"{"said":"}]} \"type\":\"x\" {[\\","type":"y"}"#;
    assert_eq!(json_str_field(s, "type"), text("y"));
    assert_eq!(json_str_field(r#"{"other":"type","k":"\"type\":\""}"#, "type"), None);
}

#[test]
fn escapes_in_the_reply_are_decoded() {
    let s = r#"{"role":"assistant","content":[{"type":"text","text":"caf\u00e9"}]}"#;
    assert_eq!(extract_assistant_text(s), text("café"));
    let s = r#"{"role":"assistant","content":[{"text":"D\u00e9j\u00e0 \u2014 "},{"text":"\u4f60\/\tx"}]}"#;
    assert_eq!(extract_assistant_text(s), text("Déjà — 你/\tx"));
}

#[test]
fn a_pair_of_escapes_is_one_character() {
    let say = |t: &str| format!("{{\"role\":\"assistant\",\"content\":[{{\"text\":\"{t}\"}}]}}");
    assert_eq!(extract_assistant_text(&say(r"\ud83d\ude00")), text("😀"));
    assert_eq!(extract_assistant_text(&say(r"a\uD800\uDC00\uDBFF\uDFFFb")), text("a\u{10000}\u{10FFFF}b"));
    // Halves without the other stand for nothing.
    assert_eq!(extract_assistant_text(&say(r"x\ud83d\ud83d\ude00y")), text("x😀y"));
    assert_eq!(extract_assistant_text(&say(r"x\ude00\ud83dy\ud83d\u0041")), text("xyA"));
    assert_eq!(extract_assistant_text(&say(r"\ud83d")), None);
}

#[test]
fn control_escapes_are_decoded() {
    let s = r#"{"k":"\b\f\n\r\t\/\\\"","z":"\u0008"}"#;
    assert_eq!(json_str_field(s, "k"), text("\u{8}\u{c}\n\r\t/\\\""));
    assert_eq!(json_str_field(s, "z"), text("\u{8}"));
}

#[test]
fn a_string_ends_at_its_quote() {
    assert_eq!(json_str_field(r#"{"k":"a\u41","z":"b"}"#, "k"), text("aA"));
    assert_eq!(json_str_field(r#"{"k":"a\u","z":"b"}"#, "k"), text("a"));
    assert_eq!(json_str_field(r#"{"k":"a\u41\"b","z":"c"}"#, "k"), text("aA\"b"));
    assert_eq!(json_str_field(r#"{"k":"a\ud83d\u","z":"b"}"#, "k"), text("a"));
}

#[test]
fn an_event_is_told_by_its_own_type() {
    let mut reply = PiReply::new();
    let line = r#"{"message":{"type":"agent_end","role":"assistant","content":[{"type":"text","text":"J'\u00e9coute. Oui"}]},"type":"message_update"}"#;
    assert_eq!(spoken(reply.feed(line)), text("J'écoute."));
}

#[test]
fn a_quoted_text_reads_back() {
    for s in ["", "plain", "with \"quotes\" and \\ and\nlines", "Déjà — 你"] {
        let line = format!("{{\"k\":{},\"z\":\"k\"}}", json_quote(s));
        assert_eq!(json_str_field(&line, "k"), text(s));
        assert_eq!(json_str_field(&line[1..], "k"), text(s));
    }
    assert_eq!(json_quote("a\"\\\nb"), "\"a\\\"\\\\\\nb\"");
}

#[test]
fn base64_has_four_symbols_for_three_bytes() {
    let data: Vec<u8> = (0..=255).collect();
    let s = base64(&data);
    assert_eq!(s.len(), (256 + 2) / 3 * 4);
    assert!(s.starts_with("AAECAwQF"));
    assert!(s.ends_with("/P3+/w=="));
    assert_eq!(base64(&[0xfb, 0xef, 0xff]), "++//");
}

#[test]
fn the_process_is_asked_with_a_picture() {
    let line = prompt(b"foo");
    assert!(line.starts_with("{\"type\":\"prompt\",\"message\":\"Read what is written in the diary."));
    assert!(line.ends_with(
        "\"images\":[{\"type\":\"image\",\"data\":\"Zm9v\",\"mimeType\":\"image/png\"}]}\n"
    ));
    assert_eq!(json_str_field(&line, "type"), text("prompt"));
    assert!(parse_json(&line).is_some());
}

fn oracle(base: Option<&str>, tokens: Option<&str>, reasoning: Option<&str>) -> HttpOracle {
    let own = |s: Option<&str>| s.map(|s| s.to_string());
    match HttpOracle::new(text("key"), own(base), None, own(tokens), own(reasoning)) {
        Ok(o) => o,
        Err(_) => panic!("expected a backend"),
    }
}

#[test]
fn settings_have_defaults() {
    let o = oracle(None, None, None);
    assert_eq!(o.base(), "https://api.openai.com/v1");
    assert_eq!(o.authorization(), "Bearer key");
    assert_eq!((o.model(), o.max_tokens(), o.reasoning()), ("gpt-4o-mini", 2000, None));
    let o = oracle(None, Some("77"), Some("low"));
    assert_eq!((o.max_tokens(), o.reasoning()), (77, Some("low")));
    assert_eq!(oracle(Some("http://h/v1//"), None, None).base(), "http://h/v1");
    match HttpOracle::new(None, None, None, None, None) {
        Err(e) => assert_eq!(e, "RIDDLE_OPENAI_KEY not set"),
        Ok(_) => panic!("expected an error"),
    }
    assert!(matches!(pick_backend(&text("key")), Backend::Http));
    assert!(matches!(pick_backend(&None), Backend::Pi));
}

#[test]
fn the_request_carries_the_settings_and_the_picture() {
    let body = oracle(None, None, None).chat_body(b"foo");
    assert!(body.starts_with(
        "{\"model\":\"gpt-4o-mini\",\"stream\":true,\"max_tokens\":2000,\"messages\":[{\"role\":\"system\",\"content\":\"You are the memory of Tom Marvolo Riddle"
    ));
    assert!(body.ends_with(
        "{\"type\":\"image_url\",\"image_url\":{\"url\":\"data:image/png;base64,Zm9v\"}}]}]}"
    ));
    assert!(parse_json(&body).is_some());
    let body = oracle(None, Some("77"), Some("low")).chat_body(b"");
    assert!(body.contains("\"max_tokens\":77,\"reasoning_effort\":\"low\",\"messages\""));
    let body = oracle(None, Some("many"), None).chat_body(b"");
    assert!(body.contains("\"max_tokens\":2000,\"messages\""));
}

#[test]
fn addresses_end_where_they_should() {
    assert_eq!(chat_url("http://h/v1/"), "http://h/v1/chat/completions");
    assert_eq!(append_v1_base("http://h//"), text("http://h/v1"));
    assert_eq!(append_v1_base("http://h/v1/"), None);
    assert_eq!(append_v1_base(&append_v1_base("http://h").unwrap()), None);
}

#[test]
fn a_page_for_people_is_recognised() {
    assert!(response_is_html("Text/HTML; charset=utf-8"));
    assert!(!response_is_html("text/event-stream"));
    assert!(!response_is_html(""));
}

#[test]
fn failures_are_put_in_words() {
    assert_eq!(request_error(&Failure::Status(401, " denied \n".to_string())), "http 401: denied");
    assert_eq!(request_error(&Failure::Transport("no route".to_string())), "request failed: no route");
}

#[test]
fn answers_are_judged() {
    let html = || Answer::Response("text/html".to_string());
    let json = || Answer::Response("application/json".to_string());
    let missing = || Answer::Failed(Failure::Status(404, "gone".to_string()));
    assert!(matches!(judge("http://h", &Attempt::First, &json()), Verdict::Use));
    match judge("http://h/", &Attempt::First, &html()) {
        Verdict::Retry(base, Attempt::AfterHtml) => assert_eq!(base, "http://h/v1"),
        _ => panic!("expected another try"),
    }
    match judge("http://h/", &Attempt::First, &missing()) {
        Verdict::Retry(base, Attempt::AfterNotFound) => assert_eq!(base, "http://h/v1"),
        _ => panic!("expected another try"),
    }
    let failed = |v: Verdict| match v {
        Verdict::Fail(e) => e,
        _ => panic!("expected a failure"),
    };
    assert_eq!(failed(judge("http://h/v1", &Attempt::First, &html())), HTML_ANSWER);
    assert_eq!(failed(judge("http://h/v1", &Attempt::First, &missing())), NOT_FOUND);
    assert_eq!(failed(judge("http://h/v1", &Attempt::AfterHtml, &html())), HTML_ANSWER);
    assert_eq!(failed(judge("http://h/v1", &Attempt::AfterHtml, &missing())), "http 404: gone");
    assert_eq!(failed(judge("http://h/v1", &Attempt::AfterNotFound, &missing())), "http 404: gone");
    assert!(matches!(judge("http://h/v1", &Attempt::AfterNotFound, &html()), Verdict::Use));
    assert!(matches!(judge("http://h/v1", &Attempt::AfterHtml, &json()), Verdict::Use));
    assert_eq!(
        failed(judge("http://h", &Attempt::First, &Answer::Failed(Failure::Status(500, "x".to_string())))),
        "http 500: x"
    );
}
