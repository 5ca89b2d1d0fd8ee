//! The conversation with an OpenAI-compatible endpoint: its settings, the
//! request, and what to do about the answer.

use vstd::prelude::*;

use crate::base64;
use crate::number;
use crate::persona;
use crate::text;
use crate::wire;

verus! {

/// The endpoint when none is configured.
pub const DEFAULT_BASE: &'static str = "https://api.openai.com/v1";

/// The model when none is configured: one that can see.
pub const DEFAULT_MODEL: &'static str = "gpt-4o-mini";

/// The cap on a reply when none is configured. Thinking models count hidden
/// reasoning against it: a tight cap starves the visible reply.
pub const DEFAULT_MAX_TOKENS: u32 = 2000;

/// The error without a key.
pub const KEY_NOT_SET: &'static str = "RIDDLE_OPENAI_KEY not set";

/// The error when the endpoint answers with a page for people.
pub const HTML_ANSWER: &'static str = "endpoint returned HTML, not API JSON/SSE; set RIDDLE_OPENAI_BASE to the API base path, usually ending in /v1";

/// The error when there is no endpoint where it should be.
pub const NOT_FOUND: &'static str = "http 404: chat completions endpoint not found";

/// Which kind of spirit answers.
pub enum Backend {
    /// An OpenAI-compatible endpoint.
    Http,
    /// A resident process.
    Pi,
}

/// Which kind of spirit answers: the endpoint if there is a key for it,
/// otherwise the resident process.
pub fn pick_backend(key: &Option<String>) -> (r: Backend)
    ensures
        r is Http == key is Some,
        r is Pi == key is None,
{
    match key {
        Some(_) => Backend::Http,
        None => Backend::Pi,
    }
}

/// How the endpoint is used.
pub struct Settings {
    pub base: Seq<char>,
    pub key: Seq<char>,
    pub model: Seq<char>,
    pub max_tokens: int,
    pub reasoning: Option<Seq<char>>,
}

/// A text, or a default.
pub open spec fn text_or(s: Option<String>, default: Seq<char>) -> Seq<char> {
    match s {
        Some(s) => s@,
        None => default,
    }
}

/// The cap on a reply: the configured one if it is a number of 32 bits.
pub open spec fn max_tokens_of(s: Option<String>) -> int {
    match s {
        Some(s) => match number::number_of(s@, 10, u32::MAX as int) {
            Some(n) => n,
            None => DEFAULT_MAX_TOKENS as int,
        },
        None => DEFAULT_MAX_TOKENS as int,
    }
}

/// The field that asks for some effort of reasoning. It is sent only if it is
/// configured: some providers refuse it for models that do not reason.
pub open spec fn reasoning_field(reasoning: Option<Seq<char>>) -> Seq<char> {
    match reasoning {
        Some(r) => "\"reasoning_effort\":"@ + wire::quote(r) + ","@,
        None => seq![],
    }
}

/// The request for a reply to a picture, as a stream.
pub open spec fn chat_request(s: Settings, image: Seq<u8>) -> Seq<char> {
    "{\"model\":"@ + wire::quote(s.model) + ",\"stream\":true,\"max_tokens\":"@ + number::decimal(
        s.max_tokens as nat,
    ) + ","@ + reasoning_field(s.reasoning) + "\"messages\":[{\"role\":\"system\",\"content\":"@
        + wire::quote(persona::PERSONA@)
        + "},{\"role\":\"user\",\"content\":[{\"type\":\"text\",\"text\":"@ + wire::quote(
        persona::TURN_PROMPT@,
    ) + "},{\"type\":\"image_url\",\"image_url\":{\"url\":\"data:image/png;base64,"@
        + base64::encode(image) + "\"}}]}]}"@
}

/// Any OpenAI-compatible chat backend.
pub struct HttpOracle {
    base: String,  // e.g. https://api.openai.com/v1  (no trailing slash)
    key: String,
    model: String,
    max_tokens: u32,
    reasoning: Option<String>,  // "reasoning_effort" value, e.g. "low"
}

impl HttpOracle {
    /// How the endpoint is used.
    pub closed spec fn settings(&self) -> Settings {
        Settings {
            base: self.base@,
            key: self.key@,
            model: self.model@,
            max_tokens: self.max_tokens as int,
            reasoning: match self.reasoning {
                Some(r) => Some(r@),
                None => None,
            },
        }
    }

    /// A backend from its configuration, where each setting but the key has a
    /// default.
    pub fn new(
        key: Option<String>,
        base: Option<String>,
        model: Option<String>,
        max_tokens: Option<String>,
        reasoning: Option<String>,
    ) -> (r: Result<Self, String>)
        ensures
            (match r {
                Ok(o) => key matches Some(k) && o.settings() == (Settings {
                    base: text::drop_slashes(text_or(base, DEFAULT_BASE@)),
                    key: k@,
                    model: text_or(model, DEFAULT_MODEL@),
                    max_tokens: max_tokens_of(max_tokens),
                    reasoning: match reasoning {
                        Some(r) => Some(r@),
                        None => None,
                    },
                }),
                Err(e) => key is None && e@ == KEY_NOT_SET@,
            }),
    {
        let key = match key {
            Some(key) => key,
            None => {
                return Err(own(KEY_NOT_SET));
            },
        };
        let base = match base {
            Some(base) => text::chars_of(base.as_str()),
            None => text::chars_of(DEFAULT_BASE),
        };
        let base = text::string_of(text::without_slashes(base.as_slice()));
        let model = match model {
            Some(model) => model,
            None => own(DEFAULT_MODEL),
        };
        let max_tokens: u32 = match max_tokens {
            Some(s) => {
                let cs = text::chars_of(s.as_str());
                match number::parse_number(cs.as_slice(), 10, u32::MAX as u64) {
                    Some(n) => n as u32,
                    None => DEFAULT_MAX_TOKENS,
                }
            },
            None => DEFAULT_MAX_TOKENS,
        };
        Ok(HttpOracle { base, key, model, max_tokens, reasoning })
    }

    /// The base URL of the endpoint.
    pub fn base(&self) -> (r: &str)
        ensures
            r@ == self.settings().base,
    {
        self.base.as_str()
    }

    /// The model that is asked.
    pub fn model(&self) -> (r: &str)
        ensures
            r@ == self.settings().model,
    {
        self.model.as_str()
    }

    /// The cap on a reply.
    pub fn max_tokens(&self) -> (r: u32)
        ensures
            r == self.settings().max_tokens,
    {
        self.max_tokens
    }

    /// The effort of reasoning that is asked for.
    pub fn reasoning(&self) -> (r: Option<&str>)
        ensures
            (match r {
                Some(r) => self.settings().reasoning == Some(r@),
                None => self.settings().reasoning is None,
            }),
    {
        match &self.reasoning {
            Some(r) => Some(r.as_str()),
            None => None,
        }
    }

    /// The value of the `Authorization` header.
    pub fn authorization(&self) -> (r: String)
        ensures
            r@ == "Bearer "@ + self.settings().key,
    {
        let mut out = String::new();
        text::push_text(&mut out, "Bearer ");
        text::push_text(&mut out, self.key.as_str());
        assert(out@ =~= "Bearer "@ + self.settings().key);
        out
    }

    /// The request for a reply to a picture, as a stream.
    pub fn chat_body(&self, image: &[u8]) -> (r: String)
        ensures
            r@ == chat_request(self.settings(), image@),
    {
        let mut out = String::new();
        text::push_text(&mut out, "{\"model\":");
        text::push_text(&mut out, wire::json_quote(self.model.as_str()).as_str());
        text::push_text(&mut out, ",\"stream\":true,\"max_tokens\":");
        let digits = number::to_decimal(self.max_tokens as u64);
        text::push_text(&mut out, text::string_of(digits.as_slice()).as_str());
        text::push_text(&mut out, ",");
        if let Some(r) = &self.reasoning {
            text::push_text(&mut out, "\"reasoning_effort\":");
            text::push_text(&mut out, wire::json_quote(r.as_str()).as_str());
            text::push_text(&mut out, ",");
        }
        let ghost head = "{\"model\":"@ + wire::quote(self.model@)
            + ",\"stream\":true,\"max_tokens\":"@ + number::decimal(self.max_tokens as nat) + ","@;
        assert(out@ =~= head + reasoning_field(self.settings().reasoning));
        text::push_text(&mut out, "\"messages\":[{\"role\":\"system\",\"content\":");
        text::push_text(&mut out, wire::json_quote(persona::PERSONA).as_str());
        text::push_text(
            &mut out,
            "},{\"role\":\"user\",\"content\":[{\"type\":\"text\",\"text\":",
        );
        text::push_text(&mut out, wire::json_quote(persona::TURN_PROMPT).as_str());
        text::push_text(
            &mut out,
            "},{\"type\":\"image_url\",\"image_url\":{\"url\":\"data:image/png;base64,",
        );
        text::push_text(&mut out, base64::base64(image).as_str());
        text::push_text(&mut out, "\"}}]}]}");
        out
    }
}

/// A string of one's own.
fn own(s: &str) -> (r: String)
    ensures
        r@ == s@,
{
    let cs = text::chars_of(s);
    text::string_of(cs.as_slice())
}

/// Where chat requests go.
pub open spec fn chat_address(base: Seq<char>) -> Seq<char> {
    text::drop_slashes(base) + "/chat/completions"@
}

/// Where chat requests go.
pub fn chat_url(base: &str) -> (r: String)
    ensures
        r@ == chat_address(base@),
{
    let cs = text::chars_of(base);
    let mut out = text::string_of(text::without_slashes(cs.as_slice()));
    text::push_text(&mut out, "/chat/completions");
    out
}

/// The base with `/v1` at its end; `None` if it has it.
pub open spec fn v1_base(base: Seq<char>) -> Option<Seq<char>> {
    let base = text::drop_slashes(base);
    if text::finishes_with(base, "/v1"@) {
        None
    } else {
        Some(base + "/v1"@)
    }
}

/// The base with `/v1` at its end; `None` if it has it.
pub fn append_v1_base(base: &str) -> (r: Option<String>)
    ensures
        crate::json::text_of(r) == v1_base(base@),
{
    let cs = text::chars_of(base);
    let base = text::without_slashes(cs.as_slice());
    let suffix = text::chars_of("/v1");
    if text::ends(base, suffix.as_slice()) {
        None
    } else {
        let mut out = text::string_of(base);
        text::push_text(&mut out, "/v1");
        Some(out)
    }
}

/// A letter of ASCII in lower case; any other character as it is.
pub open spec fn lower(c: char) -> char {
    if 'A' <= c <= 'Z' {
        (c as int + 32) as char
    } else {
        c
    }
}

/// A content type that is a page for people.
pub open spec fn is_html(content_type: Seq<char>) -> bool {
    text::find_from(content_type.map_values(|c: char| lower(c)), "text/html"@, 0) is Some
}

fn to_lower(c: char) -> (r: char)
    ensures
        r == lower(c),
{
    if 'A' <= c && c <= 'Z' {
        (c as u8 + 32) as char
    } else {
        c
    }
}

/// Whether an answer with this content type is a page for people.
pub fn response_is_html(content_type: &str) -> (r: bool)
    ensures
        r == is_html(content_type@),
{
    let cs = text::chars_of(content_type);
    let mut low: Vec<char> = Vec::new();
    let mut i: usize = 0;
    while i < cs.len()
        invariant
            i <= cs@.len(),
            low@ == cs@.take(i as int).map_values(|c: char| lower(c)),
        decreases cs@.len() - i,
    {
        low.push(to_lower(cs[i]));
        i += 1;
        assert(low@ =~= cs@.take(i as int).map_values(|c: char| lower(c)));
    }
    assert(cs@.take(i as int) =~= cs@);
    let mark = text::chars_of("text/html");
    text::find(low.as_slice(), mark.as_slice(), 0).is_some()
}

/// Why a request failed: an answer with an error status and what it said, or no
/// answer.
pub enum Failure {
    Status(u16, String),
    Transport(String),
}

/// What is said of a failed request.
pub open spec fn failure_text(f: Failure) -> Seq<char> {
    match f {
        Failure::Status(code, detail) => "http "@ + number::decimal(code as nat) + ": "@
            + text::trim(detail@),
        Failure::Transport(detail) => "request failed: "@ + detail@,
    }
}

/// What is said of a failed request.
pub fn request_error(f: &Failure) -> (r: String)
    ensures
        r@ == failure_text(*f),
{
    let mut out = String::new();
    match f {
        Failure::Status(code, detail) => {
            text::push_text(&mut out, "http ");
            let digits = number::to_decimal(*code as u64);
            text::push_text(&mut out, text::string_of(digits.as_slice()).as_str());
            text::push_text(&mut out, ": ");
            let cs = text::chars_of(detail.as_str());
            text::push_text(&mut out, text::string_of(text::trimmed(cs.as_slice())).as_str());
        },
        Failure::Transport(detail) => {
            text::push_text(&mut out, "request failed: ");
            text::push_text(&mut out, detail.as_str());
        },
    }
    assert(out@ =~= failure_text(*f));
    out
}

/// Which attempt at a request an answer belongs to.
pub enum Attempt {
    /// The first.
    First,
    /// The second, after a page for people.
    AfterHtml,
    /// The second, after there was no endpoint.
    AfterNotFound,
}

/// What came of an attempt: an answer with its content type, or a failure.
pub enum Answer {
    Response(String),
    Failed(Failure),
}

/// What to do about an answer.
pub enum Verdict {
    /// Read the reply from it.
    Use,
    /// Try again at another base.
    Retry(String, Attempt),
    /// Give up, with a message.
    Fail(String),
}

/// What a verdict must be.
pub open spec fn verdict_is(v: Verdict, base: Seq<char>, attempt: Attempt, answer: Answer) -> bool {
    match answer {
        Answer::Response(content_type) => if !is_html(content_type@) || attempt is AfterNotFound {
            v is Use
        } else if attempt is First && v1_base(base) is Some {
            v matches Verdict::Retry(b, next) && v1_base(base) == Some(b@) && next is AfterHtml
        } else {
            v matches Verdict::Fail(e) && e@ == HTML_ANSWER@
        },
        Answer::Failed(f) => if attempt is First && (f matches Failure::Status(code, _) && code
            == 404) {
            match v1_base(base) {
                Some(v1) => v matches Verdict::Retry(b, next) && b@ == v1 && next is AfterNotFound,
                None => v matches Verdict::Fail(e) && e@ == NOT_FOUND@,
            }
        } else {
            v matches Verdict::Fail(e) && e@ == failure_text(f)
        },
    }
}

/// What to do about the answer to a request. Some gateways need a base that
/// ends in `/v1`: where they answer with a page for people, or not at all, that
/// is tried next.
pub fn judge(base: &str, attempt: &Attempt, answer: &Answer) -> (v: Verdict)
    ensures
        verdict_is(v, base@, *attempt, *answer),
{
    match answer {
        Answer::Response(content_type) => {
            if !response_is_html(content_type.as_str()) {
                return Verdict::Use;
            }
            match attempt {
                Attempt::AfterNotFound => Verdict::Use,
                Attempt::AfterHtml => Verdict::Fail(own(HTML_ANSWER)),
                Attempt::First => match append_v1_base(base) {
                    Some(v1) => Verdict::Retry(v1, Attempt::AfterHtml),
                    None => Verdict::Fail(own(HTML_ANSWER)),
                },
            }
        },
        Answer::Failed(f) => {
            if let (Attempt::First, Failure::Status(404, _)) = (attempt, f) {
                return match append_v1_base(base) {
                    Some(v1) => Verdict::Retry(v1, Attempt::AfterNotFound),
                    None => Verdict::Fail(own(NOT_FOUND)),
                };
            }
            Verdict::Fail(request_error(f))
        },
    }
}

/// A request is tried again at most once, and never at a base that has `/v1`.
pub proof fn law_one_retry(v: Verdict, base: Seq<char>, attempt: Attempt, answer: Answer)
    requires
        verdict_is(v, base, attempt, answer),
    ensures
        v matches Verdict::Retry(b, next) ==> attempt is First && !(next is First)
            && !text::finishes_with(text::drop_slashes(base), "/v1"@) && text::finishes_with(
            b@,
            "/v1"@,
        ),
{
    if let Verdict::Retry(b, next) = v {
        let short = text::drop_slashes(base);
        assert((short + "/v1"@).skip(short.len() as int) =~= "/v1"@);
    }
}

/// A base that got its `/v1` gets no second one.
pub proof fn law_v1_is_appended_once(base: Seq<char>)
    ensures
        v1_base(base) matches Some(b) ==> v1_base(b) is None,
{
    let short = text::drop_slashes(base);
    let b = short + "/v1"@;
    reveal_strlit("/v1");
    assert(b.last() == '1');
    assert(text::drop_slashes(b) == b);
    assert(b.skip(short.len() as int) =~= "/v1"@);
}

/// Slashes at the end of the base make no difference to where requests go.
pub proof fn law_trailing_slashes_do_not_matter(base: Seq<char>)
    ensures
        chat_address(base.push('/')) == chat_address(base),
        v1_base(base.push('/')) == v1_base(base),
{
    assert(base.push('/').drop_last() =~= base);
}

/// `c` is the small letter `d`, or the capital one.
pub open spec fn either_case(c: char, d: char) -> bool {
    c == d || (c as int == d as int - 32 && 'a' <= d <= 'z')
}

/// `text/html` stands at `i`, in letters of any case.
pub open spec fn html_at(s: Seq<char>, i: int) -> bool {
    let t = seq!['t', 'e', 'x', 't', '/', 'h', 't', 'm', 'l'];
    0 <= i && i + 9 <= s.len() && forall|j: int|
        0 <= j < 9 ==> either_case(#[trigger] s[i + j], t[j])
}

/// An answer is a page for people exactly if its type has `text/html` in it, in
/// letters of any case.
pub proof fn law_html_is_known_in_any_case(content_type: Seq<char>)
    ensures
        is_html(content_type) <==> exists|i: int| #[trigger] html_at(content_type, i),
{
    let low = content_type.map_values(|c: char| lower(c));
    let t = seq!['t', 'e', 'x', 't', '/', 'h', 't', 'm', 'l'];
    reveal_strlit("text/html");
    assert("text/html"@ =~= t);
    text::lemma_find_from(low, t, 0);
    assert forall|i: int| #[trigger] html_at(content_type, i) == text::occurs_at(low, t, i) by {
        if html_at(content_type, i) {
            assert forall|j: int| 0 <= j < 9 implies low[i + j] == t[j] by {
                assert(either_case(content_type[i + j], t[j]));
                lemma_lower(content_type[i + j], t[j]);
            }
            assert(low.subrange(i, i + 9) =~= t);
        }
        if text::occurs_at(low, t, i) {
            assert forall|j: int| 0 <= j < 9 implies either_case(
                #[trigger] content_type[i + j],
                t[j],
            ) by {
                assert(low.subrange(i, i + 9)[j] == low[i + j]);
                lemma_lower(content_type[i + j], t[j]);
            }
        }
    }
    match text::find_from(low, t, 0) {
        Some(i) => {
            assert(html_at(content_type, i));
        },
        None => {},
    }
}

proof fn lemma_lower(c: char, d: char)
    requires
        'a' <= d <= 'z' || d == '/',
    ensures
        lower(c) == d <==> either_case(c, d),
{
}

/// A base, with slashes behind it.
pub open spec fn slashed(stem: Seq<char>, base: Seq<char>) -> bool {
    &&& stem.len() > 0 && stem.last() != '/'
    &&& stem.len() <= base.len() && base.take(stem.len() as int) == stem
    &&& forall|i: int| stem.len() <= i < base.len() ==> #[trigger] base[i] == '/'
}

proof fn lemma_slashed(stem: Seq<char>, base: Seq<char>)
    requires
        slashed(stem, base),
    ensures
        text::drop_slashes(base) == stem,
    decreases base.len(),
{
    if base.len() == stem.len() {
        assert(base =~= stem);
        assert(base[base.len() - 1] == stem.last());
    } else {
        assert(base[base.len() - 1] == '/');
        let rest = base.drop_last();
        assert(rest.take(stem.len() as int) =~= stem);
        assert forall|i: int| stem.len() <= i < rest.len() implies #[trigger] rest[i] == '/' by {
            assert(rest[i] == base[i]);
        }
        lemma_slashed(stem, rest);
    }
}

/// An endpoint that is missing, or answers with a page for people, is sought
/// once more under `/v1`; any other answer is used, and any other failure is
/// told. Under `/v1` already, nothing is tried again.
pub proof fn law_the_endpoint_is_sought_under_v1(
    v: Verdict,
    stem: Seq<char>,
    base: Seq<char>,
    attempt: Attempt,
    answer: Answer,
)
    requires
        slashed(stem, base),
        verdict_is(v, base, attempt, answer),
    ensures
        ({
            let v1 = seq!['/', 'v', '1'];
            let has_v1 = stem.len() >= 3 && stem.skip(stem.len() - 3) == v1;
            let lost = match answer {
                Answer::Response(kind) => is_html(kind@),
                Answer::Failed(Failure::Status(code, _)) => code == 404,
                Answer::Failed(_) => false,
            };
            &&& v is Retry <==> attempt is First && lost && !has_v1
            &&& v matches Verdict::Retry(b, _) ==> b@ == stem + v1
            &&& answer matches Answer::Response(kind) ==> !is_html(kind@) ==> v is Use
            &&& answer is Failed ==> !(v is Use)
            &&& attempt is First && lost ==> !(v is Use)
        }),
{
    lemma_slashed(stem, base);
    reveal_strlit("/v1");
    assert("/v1"@ =~= seq!['/', 'v', '1']);
}

/// Requests go to `/chat/completions` under the base, however many slashes end
/// it.
pub proof fn law_requests_go_under_the_base(stem: Seq<char>, base: Seq<char>)
    requires
        slashed(stem, base),
    ensures
        chat_address(base) == stem + "/chat/completions"@,
{
    lemma_slashed(stem, base);
}

} // verus!
