use riddle::oracle::{base64, clean, sse_delta_content, sse_text_event, SseText};

#[test]
fn sse_delta_extraction() {
    let line = r#"{"choices":[{"delta":{"content":"Hello"},"index":0}]}"#;
    assert_eq!(sse_delta_content(line).as_deref(), Some("Hello"));
    // role-only delta (first SSE frame) has no content.
    let role = r#"{"choices":[{"delta":{"role":"assistant"},"index":0}]}"#;
    assert_eq!(sse_delta_content(role), None);
}

#[test]
fn sse_accepts_pretty_chat_completion_chunks() {
    let line = r#"{
            "choices": [
                {
                    "delta": {
                        "content": "Pretty JSON works."
                    },
                    "index": 0
                }
            ]
        }"#;
    assert_eq!(sse_delta_content(line).as_deref(), Some("Pretty JSON works."));
}

#[test]
fn sse_accepts_responses_output_text_delta() {
    let line = r#"{"type":"response.output_text.delta","delta":"Ink answers."}"#;
    assert_eq!(sse_delta_content(line).as_deref(), Some("Ink answers."));
}

#[test]
fn sse_accepts_responses_output_text_done() {
    let line = r#"{"type":"response.output_text.done","text":"The final text."}"#;
    match sse_text_event(line) {
        Some(SseText::Final(text)) => assert_eq!(text, "The final text."),
        _ => panic!("expected final response text"),
    }
}

#[test]
fn sse_accepts_response_completed_message_content() {
    let line = r#"{
            "type": "response.completed",
            "response": {
                "output": [
                    {
                        "type": "message",
                        "role": "assistant",
                        "content": [
                            {"type": "output_text", "text": "Completed text."}
                        ]
                    }
                ]
            }
        }"#;
    match sse_text_event(line) {
        Some(SseText::Final(text)) => assert_eq!(text, "Completed text."),
        _ => panic!("expected completed response text"),
    }
}

#[test]
fn sse_decodes_unicode_and_escapes() {
    // OpenAI escapes accents and em-dashes; the diary answers in French.
    let line = r#"{"choices":[{"delta":{"content":"Déjà vu — oui"}}]}"#;
    assert_eq!(sse_delta_content(line).as_deref(), Some("Déjà vu — oui"));
    let nl = r#"{"choices":[{"delta":{"content":"line\nbreak"}}]}"#;
    assert_eq!(sse_delta_content(nl).as_deref(), Some("line\nbreak"));
}

#[test]
fn base64_matches_known_vector() {
    assert_eq!(base64(b""), "");
    assert_eq!(base64(b"f"), "Zg==");
    assert_eq!(base64(b"fo"), "Zm8=");
    assert_eq!(base64(b"foo"), "Zm9v");
    assert_eq!(base64(b"foobar"), "Zm9vYmFy");
}

#[test]
fn clean_strips_wrapping_quotes() {
    assert_eq!(clean("  \"hello\"  "), "hello");
    assert_eq!(clean("plain"), "plain");
}
