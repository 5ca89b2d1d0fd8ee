//! Requests read as JSON documents: what stands in which field.

use vstd::prelude::*;

use crate::base64;
use crate::http;
use crate::number;
use crate::persona;
use crate::pi;
use crate::wire;

verus! {

/// A JSON document.
pub enum Doc {
    Text(Seq<char>),
    Number(nat),
    Flag(bool),
    List(Seq<Doc>),
    Object(Seq<(Seq<char>, Doc)>),
}

/// Texts with commas between them.
pub open spec fn with_commas(list: Seq<Seq<char>>) -> Seq<char>
    decreases list.len(),
{
    if list.len() == 0 {
        seq![]
    } else if list.len() == 1 {
        list[0]
    } else {
        with_commas(list.drop_last()) + seq![','] + list.last()
    }
}

/// The text of a document.
pub open spec fn written(d: Doc) -> Seq<char>
    decreases d,
{
    match d {
        Doc::Text(s) => wire::quote(s),
        Doc::Number(n) => number::decimal(n),
        Doc::Flag(b) => if b {
            seq!['t', 'r', 'u', 'e']
        } else {
            seq!['f', 'a', 'l', 's', 'e']
        },
        Doc::List(items) => seq!['['] + with_commas(item_texts(items)) + seq![']'],
        Doc::Object(fields) => seq!['{'] + with_commas(field_texts(fields)) + seq!['}'],
    }
}

/// The texts of some documents.
pub open spec fn item_texts(items: Seq<Doc>) -> Seq<Seq<char>>
    decreases items,
{
    Seq::new(
        items.len(),
        |i: int|
            if 0 <= i < items.len() {
                written(items[i])
            } else {
                seq![]
            },
    )
}

/// The texts of some fields: the name, quoted, a colon, and the value.
pub open spec fn field_texts(fields: Seq<(Seq<char>, Doc)>) -> Seq<Seq<char>>
    decreases fields,
{
    Seq::new(
        fields.len(),
        |i: int|
            if 0 <= i < fields.len() {
                wire::quote(fields[i].0) + seq![':'] + written(fields[i].1)
            } else {
                seq![]
            },
    )
}

/// The value of a field of an object.
pub open spec fn field(d: Doc, key: Seq<char>) -> Option<Doc> {
    match d {
        Doc::Object(fields) => field_in(fields, key),
        _ => None,
    }
}

/// The value of the first of some fields that has this name.
pub open spec fn field_in(fields: Seq<(Seq<char>, Doc)>, key: Seq<char>) -> Option<Doc>
    decreases fields.len(),
{
    if fields.len() == 0 {
        None
    } else if fields[0].0 == key {
        Some(fields[0].1)
    } else {
        field_in(fields.drop_first(), key)
    }
}

/// How many fields an object has.
pub open spec fn width(d: Doc) -> int {
    match d {
        Doc::Object(fields) => fields.len() as int,
        _ => 0,
    }
}

/// A text.
pub open spec fn text(s: Seq<char>) -> Option<Doc> {
    Some(Doc::Text(s))
}

/// A field, as it is written.
spec fn entry(f: (Seq<char>, Doc)) -> Seq<char> {
    wire::quote(f.0) + seq![':'] + written(f.1)
}

/// Fields, as they are written.
spec fn entries(fields: Seq<(Seq<char>, Doc)>) -> Seq<char> {
    with_commas(fields.map_values(|f: (Seq<char>, Doc)| entry(f)))
}

proof fn lemma_object(fields: Seq<(Seq<char>, Doc)>)
    ensures
        written(Doc::Object(fields)) == seq!['{'] + entries(fields) + seq!['}'],
{
    assert(field_texts(fields) =~= fields.map_values(|f: (Seq<char>, Doc)| entry(f)));
}

proof fn lemma_entries_one(f: (Seq<char>, Doc))
    ensures
        entries(seq![f]) == entry(f),
{
    assert(seq![f].map_values(|f: (Seq<char>, Doc)| entry(f)) =~= seq![entry(f)]);
}

proof fn lemma_entries_push(fields: Seq<(Seq<char>, Doc)>, f: (Seq<char>, Doc))
    requires
        fields.len() > 0,
    ensures
        entries(fields.push(f)) == entries(fields) + seq![','] + entry(f),
{
    let g = |f: (Seq<char>, Doc)| entry(f);
    let list = fields.map_values(g);
    assert(fields.push(f).map_values(g) =~= list.push(entry(f)));
    assert(list.push(entry(f)).drop_last() =~= list);
}

/// Two fields.
spec fn pair(k: Seq<char>, v: Doc, l: Seq<char>, u: Doc) -> Doc {
    Doc::Object(seq![(k, v), (l, u)])
}

proof fn lemma_pair(k: Seq<char>, v: Doc, l: Seq<char>, u: Doc)
    requires
        k != l,
    ensures
        written(pair(k, v, l, u)) == seq!['{'] + (wire::quote(k) + seq![':'] + written(v)) + seq![
            ',',
        ] + (wire::quote(l) + seq![':'] + written(u)) + seq!['}'],
        field(pair(k, v, l, u), k) == Some(v),
        field(pair(k, v, l, u), l) == Some(u),
        width(pair(k, v, l, u)) == 2,
{
    let fields = seq![(k, v), (l, u)];
    lemma_object(fields);
    assert(fields =~= seq![(k, v)].push((l, u)));
    lemma_entries_one((k, v));
    lemma_entries_push(seq![(k, v)], (l, u));
    assert(written(pair(k, v, l, u)) =~= seq!['{'] + entry((k, v)) + seq![','] + entry((l, u))
        + seq!['}']);
    lemma_field_found(fields, 0);
    lemma_field_found(fields, 1);
}

/// The first field with its name is the one that is found.
proof fn lemma_field_found(fields: Seq<(Seq<char>, Doc)>, i: int)
    requires
        0 <= i < fields.len(),
        forall|j: int| 0 <= j < i ==> (#[trigger] fields[j]).0 != fields[i].0,
    ensures
        field_in(fields, fields[i].0) == Some(fields[i].1),
    decreases fields.len(),
{
    if i > 0 {
        let rest = fields.drop_first();
        assert(fields[0].0 != fields[i].0);
        assert forall|j: int| 0 <= j < i - 1 implies (#[trigger] rest[j]).0 != rest[i - 1].0 by {
            assert(rest[j] == fields[j + 1]);
        }
        lemma_field_found(rest, i - 1);
    }
}

/// Without a field of a name there is nothing to find.
proof fn lemma_field_missing(fields: Seq<(Seq<char>, Doc)>, key: Seq<char>)
    requires
        forall|j: int| 0 <= j < fields.len() ==> (#[trigger] fields[j]).0 != key,
    ensures
        field_in(fields, key) is None,
    decreases fields.len(),
{
    if fields.len() > 0 {
        let rest = fields.drop_first();
        assert(fields[0].0 != key);
        assert forall|j: int| 0 <= j < rest.len() implies (#[trigger] rest[j]).0 != key by {
            assert(rest[j] == fields[j + 1]);
        }
        lemma_field_missing(rest, key);
    }
}

/// Two items.
spec fn two(a: Doc, b: Doc) -> Doc {
    Doc::List(seq![a, b])
}

proof fn lemma_two(a: Doc, b: Doc)
    ensures
        written(two(a, b)) == seq!['['] + written(a) + seq![','] + written(b) + seq![']'],
{
    let list = item_texts(seq![a, b]);
    assert(list =~= seq![written(a), written(b)]);
    assert(list.drop_last() =~= seq![written(a)]);
    assert(with_commas(list.drop_last()) == written(a));
    assert(written(two(a, b)) =~= seq!['['] + written(a) + seq![','] + written(b) + seq![']']);
}

/// One item.
spec fn one(a: Doc) -> Doc {
    Doc::List(seq![a])
}

proof fn lemma_one(a: Doc)
    ensures
        written(one(a)) == seq!['['] + written(a) + seq![']'],
{
    assert(item_texts(seq![a]) =~= seq![written(a)]);
}

/// A text that is written as it is.
spec fn unescaped(s: Seq<char>) -> bool {
    forall|i: int| 0 <= i < s.len() ==> #[trigger] s[i] != '"' && s[i] != '\\' && s[i] != '\n'
}

proof fn lemma_quote_plain(s: Seq<char>)
    requires
        unescaped(s),
    ensures
        wire::quote(s) == seq!['"'] + s + seq!['"'],
{
    lemma_escape_plain(s);
}

proof fn lemma_escape_plain(s: Seq<char>)
    requires
        unescaped(s),
    ensures
        wire::escape(s) == s,
    decreases s.len(),
{
    if s.len() > 0 {
        let rest = s.drop_last();
        assert forall|i: int| 0 <= i < rest.len() implies #[trigger] rest[i] != '"' && rest[i]
            != '\\' && rest[i] != '\n' by {
            assert(rest[i] == s[i]);
        }
        lemma_escape_plain(rest);
        assert(s[s.len() - 1] == s.last());
        assert(rest + seq![s.last()] =~= s);
    } else {
        assert(wire::escape(s) =~= s);
    }
}

proof fn lemma_symbol_plain(v: int)
    requires
        0 <= v < 64,
    ensures
        base64::symbol(v) != '"' && base64::symbol(v) != '\\' && base64::symbol(v) != '\n',
{
}

proof fn lemma_encode_plain(data: Seq<u8>)
    ensures
        unescaped(base64::encode(data)),
    decreases data.len(),
{
    if data.len() > 0 {
        let n = base64::byte_at(data, 0) * 0x10000 + base64::byte_at(data, 1) * 0x100
            + base64::byte_at(data, 2);
        assert(0 <= n < 0x1000000);
        lemma_symbol_plain(n / 0x40000);
        lemma_symbol_plain(n / 0x1000 % 64);
        lemma_symbol_plain(n / 0x40 % 64);
        lemma_symbol_plain(n % 64);
        let g = base64::group(data);
        assert(unescaped(g));
        if data.len() > 3 {
            let rest = base64::encode(data.skip(3));
            lemma_encode_plain(data.skip(3));
            assert forall|i: int| 0 <= i < (g + rest).len() implies #[trigger] (g + rest)[i] != '"'
                && (g + rest)[i] != '\\' && (g + rest)[i] != '\n' by {
                if i < g.len() {
                    assert((g + rest)[i] == g[i]);
                } else {
                    assert((g + rest)[i] == rest[i - g.len()]);
                }
            }
        }
    }
}

/// The fields of a request for a reply to a picture: two messages, the persona
/// from the system, then from the user the prompt of the turn with the picture
/// as a data URI.
pub open spec fn asks(d: Doc, s: http::Settings, image: Seq<u8>) -> bool {
    &&& width(d) == if s.reasoning is Some {
        5int
    } else {
        4
    }
    &&& field(d, "model"@) == text(s.model)
    &&& field(d, "stream"@) == Some(Doc::Flag(true))
    &&& field(d, "max_tokens"@) == Some(Doc::Number(s.max_tokens as nat))
    &&& field(d, "reasoning_effort"@) == match s.reasoning {
        Some(r) => text(r),
        None => None,
    }
    &&& field(d, "messages"@) matches Some(Doc::List(messages))
    &&& messages.len() == 2
    &&& width(messages[0]) == 2
    &&& field(messages[0], "role"@) == text("system"@)
    &&& field(messages[0], "content"@) == text(persona::PERSONA@)
    &&& width(messages[1]) == 2
    &&& field(messages[1], "role"@) == text("user"@)
    &&& field(messages[1], "content"@) matches Some(Doc::List(parts))
    &&& parts.len() == 2
    &&& width(parts[0]) == 2
    &&& field(parts[0], "type"@) == text("text"@)
    &&& field(parts[0], "text"@) == text(persona::TURN_PROMPT@)
    &&& width(parts[1]) == 2
    &&& field(parts[1], "type"@) == text("image_url"@)
    &&& field(parts[1], "image_url"@) matches Some(address)
    &&& width(address) == 1
    &&& field(address, "url"@) == text("data:image/png;base64,"@ + base64::encode(image))
}

/// The first part of the user's message.
spec fn prompt_part() -> Doc {
    pair("type"@, Doc::Text("text"@), "text"@, Doc::Text(persona::TURN_PROMPT@))
}

spec fn address(image: Seq<u8>) -> Doc {
    Doc::Object(
        seq![("url"@, Doc::Text("data:image/png;base64,"@ + base64::encode(image)))],
    )
}

spec fn picture_part(image: Seq<u8>) -> Doc {
    pair("type"@, Doc::Text("image_url"@), "image_url"@, address(image))
}

spec fn system_message() -> Doc {
    pair("role"@, Doc::Text("system"@), "content"@, Doc::Text(persona::PERSONA@))
}

spec fn user_message(image: Seq<u8>) -> Doc {
    pair("role"@, Doc::Text("user"@), "content"@, two(prompt_part(), picture_part(image)))
}

spec fn head_fields(s: http::Settings) -> Seq<(Seq<char>, Doc)> {
    seq![
        ("model"@, Doc::Text(s.model)),
        ("stream"@, Doc::Flag(true)),
        ("max_tokens"@, Doc::Number(s.max_tokens as nat)),
    ]
}

spec fn request_fields(s: http::Settings, image: Seq<u8>) -> Seq<(Seq<char>, Doc)> {
    let messages = ("messages"@, two(system_message(), user_message(image)));
    match s.reasoning {
        Some(r) => head_fields(s).push(("reasoning_effort"@, Doc::Text(r))).push(messages),
        None => head_fields(s).push(messages),
    }
}

/// How the parts of the user's message are written.
proof fn lemma_parts_written(image: Seq<u8>)
    ensures
        "type"@ != "text"@,
        "type"@ != "image_url"@,
        written(two(prompt_part(), picture_part(image))) == "[{\"type\":\"text\",\"text\":"@
            + wire::quote(persona::TURN_PROMPT@)
            + "},{\"type\":\"image_url\",\"image_url\":{\"url\":\"data:image/png;base64,"@
            + base64::encode(image) + "\"}}]"@,
{
    let ty = "type"@;
    let te = "text"@;
    let iu = "image_url"@;
    let ur = "url"@;
    let da = "data:image/png;base64,"@;
    let b64 = base64::encode(image);
    reveal_strlit("type");
    reveal_strlit("text");
    reveal_strlit("image_url");
    reveal_strlit("url");
    reveal_strlit("data:image/png;base64,");
    assert(ty[1] == 'y' && te[1] == 'e');
    assert(ty.len() == 4 && iu.len() == 9);
    lemma_quote_plain(ty);
    lemma_quote_plain(te);
    lemma_quote_plain(iu);
    lemma_quote_plain(ur);
    lemma_encode_plain(image);
    let uri = da + b64;
    assert(unescaped(uri)) by {
        assert forall|i: int| 0 <= i < uri.len() implies #[trigger] uri[i] != '"' && uri[i] != '\\'
            && uri[i] != '\n' by {
            if i >= da.len() {
                assert(uri[i] == b64[i - da.len()]);
            } else {
                assert(uri[i] == da[i]);
            }
        }
    }
    lemma_quote_plain(uri);
    lemma_pair(ty, Doc::Text(te), te, Doc::Text(persona::TURN_PROMPT@));
    lemma_pair(ty, Doc::Text(iu), iu, address(image));
    lemma_object(seq![(ur, Doc::Text(uri))]);
    lemma_entries_one((ur, Doc::Text(uri)));
    lemma_two(prompt_part(), picture_part(image));
    let q = wire::quote(persona::TURN_PROMPT@);
    let c1 = "[{\"type\":\"text\",\"text\":"@;
    let c2 = "},{\"type\":\"image_url\",\"image_url\":{\"url\":\"data:image/png;base64,"@;
    let c3 = "\"}}]"@;
    reveal_strlit("[{\"type\":\"text\",\"text\":");
    reveal_strlit("},{\"type\":\"image_url\",\"image_url\":{\"url\":\"data:image/png;base64,");
    reveal_strlit("\"}}]");
    let colon = seq![':'];
    assert(c1 =~= seq!['[', '{'] + wire::quote(ty) + colon + wire::quote(te) + seq![',']
        + wire::quote(te) + colon);
    assert(c2 =~= seq!['}', ',', '{'] + wire::quote(ty) + colon + wire::quote(iu) + seq![',']
        + wire::quote(iu) + colon + seq!['{'] + wire::quote(ur) + colon + seq!['"'] + da);
    assert(c3 =~= seq!['"', '}', '}', ']']);
    let whole = written(two(prompt_part(), picture_part(image)));
    let first = written(prompt_part());
    let second = written(picture_part(image));
    assert(seq!['['] + first =~= c1 + q + seq!['}']);
    assert(written(address(image)) =~= seq!['{'] + wire::quote(ur) + colon + seq!['"'] + da + b64
        + seq!['"', '}']);
    assert(seq!['}', ','] + second =~= c2 + b64 + seq!['"', '}', '}']);
    assert(whole =~= (c1 + q) + (seq!['}', ','] + second) + seq![']']);
    assert(whole =~= c1 + q + c2 + b64 + c3);
}

/// How the messages are written.
proof fn lemma_messages_written(image: Seq<u8>)
    ensures
        "role"@ != "content"@,
        written(two(system_message(), user_message(image)))
            == "[{\"role\":\"system\",\"content\":"@ + wire::quote(persona::PERSONA@)
            + "},{\"role\":\"user\",\"content\":[{\"type\":\"text\",\"text\":"@ + wire::quote(
            persona::TURN_PROMPT@,
        ) + "},{\"type\":\"image_url\",\"image_url\":{\"url\":\"data:image/png;base64,"@
            + base64::encode(image) + "\"}}]}]"@,
{
    let ro = "role"@;
    let co = "content"@;
    let sy = "system"@;
    let us = "user"@;
    reveal_strlit("role");
    reveal_strlit("content");
    reveal_strlit("system");
    reveal_strlit("user");
    assert(ro.len() == 4 && co.len() == 7);
    lemma_quote_plain(ro);
    lemma_quote_plain(co);
    lemma_quote_plain(sy);
    lemma_quote_plain(us);
    lemma_parts_written(image);
    let parts = two(prompt_part(), picture_part(image));
    lemma_pair(ro, Doc::Text(sy), co, Doc::Text(persona::PERSONA@));
    lemma_pair(ro, Doc::Text(us), co, parts);
    lemma_two(system_message(), user_message(image));
    let pq = wire::quote(persona::PERSONA@);
    let tq = wire::quote(persona::TURN_PROMPT@);
    let b64 = base64::encode(image);
    let d0 = "[{\"role\":\"system\",\"content\":"@;
    let d1 = "},{\"role\":\"user\",\"content\":[{\"type\":\"text\",\"text\":"@;
    let c1 = "[{\"type\":\"text\",\"text\":"@;
    let c2 = "},{\"type\":\"image_url\",\"image_url\":{\"url\":\"data:image/png;base64,"@;
    let c3 = "\"}}]"@;
    let d3 = "\"}}]}]"@;
    reveal_strlit("[{\"role\":\"system\",\"content\":");
    reveal_strlit("},{\"role\":\"user\",\"content\":[{\"type\":\"text\",\"text\":");
    reveal_strlit("[{\"type\":\"text\",\"text\":");
    reveal_strlit("\"}}]");
    reveal_strlit("\"}}]}]");
    let colon = seq![':'];
    assert(d0 =~= seq!['[', '{'] + wire::quote(ro) + colon + wire::quote(sy) + seq![',']
        + wire::quote(co) + colon);
    let user = seq!['}', ',', '{'] + wire::quote(ro) + colon + wire::quote(us) + seq![',']
        + wire::quote(co) + colon;
    assert(d1 =~= user + c1);
    assert(d3 =~= c3 + seq!['}', ']']);
    let first = written(system_message());
    let second = written(user_message(image));
    assert(seq!['['] + first =~= d0 + pq + seq!['}']);
    assert(seq!['}', ','] + second =~= user + written(parts) + seq!['}']);
    let whole = written(two(system_message(), user_message(image)));
    assert(whole =~= d0 + pq + (seq!['}', ','] + second) + seq![']']);
    let tail = c1 + tq + c2 + b64 + c3;
    assert(user + tail =~= d1 + tq + c2 + b64 + c3);
    assert(whole =~= d0 + pq + (user + tail) + seq!['}', ']']);
    assert(whole =~= d0 + pq + d1 + tq + c2 + b64 + d3);
}

/// The fixed parts of the request are made of names and brackets.
proof fn lemma_request_parts()
    ensures
        "{\"model\":"@ == seq!['{'] + wire::quote("model"@) + seq![':'],
        ",\"stream\":true,\"max_tokens\":"@ == seq![','] + (wire::quote("stream"@) + seq![':']
            + seq!['t', 'r', 'u', 'e']) + seq![','] + (wire::quote("max_tokens"@) + seq![':']),
        ","@ == seq![','],
        "\"messages\":[{\"role\":\"system\",\"content\":"@ == wire::quote("messages"@) + seq![':']
            + "[{\"role\":\"system\",\"content\":"@,
        "\"}}]}]}"@ == "\"}}]}]"@ + seq!['}'],
        "\"reasoning_effort\":"@ == wire::quote("reasoning_effort"@) + seq![':'],
{
    reveal_strlit("model");
    reveal_strlit("stream");
    reveal_strlit("max_tokens");
    reveal_strlit("reasoning_effort");
    reveal_strlit("messages");
    lemma_quote_plain("model"@);
    lemma_quote_plain("stream"@);
    lemma_quote_plain("max_tokens"@);
    lemma_quote_plain("reasoning_effort"@);
    lemma_quote_plain("messages"@);
    reveal_strlit("{\"model\":");
    reveal_strlit(",\"stream\":true,\"max_tokens\":");
    reveal_strlit(",");
    reveal_strlit("\"messages\":[{\"role\":\"system\",\"content\":");
    reveal_strlit("[{\"role\":\"system\",\"content\":");
    reveal_strlit("\"}}]}]");
    reveal_strlit("\"}}]}]}");
    reveal_strlit("\"reasoning_effort\":");
    assert("{\"model\":"@ =~= seq!['{'] + wire::quote("model"@) + seq![':']);
    assert(",\"stream\":true,\"max_tokens\":"@ =~= seq![','] + (wire::quote("stream"@) + seq![':']
        + seq!['t', 'r', 'u', 'e']) + seq![','] + (wire::quote("max_tokens"@) + seq![':']));
    assert(","@ =~= seq![',']);
    assert("\"messages\":[{\"role\":\"system\",\"content\":"@ =~= wire::quote("messages"@) + seq![
        ':',
    ] + "[{\"role\":\"system\",\"content\":"@);
    assert("\"}}]}]}"@ =~= "\"}}]}]"@ + seq!['}']);
    assert("\"reasoning_effort\":"@ =~= wire::quote("reasoning_effort"@) + seq![':']);
}

/// The first fields of the request, as they are written.
proof fn lemma_head_written(s: http::Settings)
    ensures
        seq!['{'] + entries(head_fields(s)) == "{\"model\":"@ + wire::quote(s.model)
            + ",\"stream\":true,\"max_tokens\":"@ + number::decimal(s.max_tokens as nat),
{
    lemma_request_parts();
    let f1 = ("model"@, Doc::Text(s.model));
    let f2 = ("stream"@, Doc::Flag(true));
    let f3 = ("max_tokens"@, Doc::Number(s.max_tokens as nat));
    lemma_entries_one(f1);
    lemma_entries_push(seq![f1], f2);
    lemma_entries_push(seq![f1].push(f2), f3);
    assert(seq![f1].push(f2).push(f3) =~= head_fields(s));
    let (a, b, c) = (wire::quote("model"@), wire::quote("stream"@), wire::quote("max_tokens"@));
    lemma_head_shape(a, wire::quote(s.model), b, c, number::decimal(s.max_tokens as nat));
}

proof fn lemma_head_shape(
    a: Seq<char>,
    model: Seq<char>,
    b: Seq<char>,
    c: Seq<char>,
    digits: Seq<char>,
)
    ensures
        seq!['{'] + (((a + seq![':'] + model) + seq![','] + (b + seq![':'] + seq![
            't',
            'r',
            'u',
            'e',
        ])) + seq![','] + (c + seq![':'] + digits)) == (seq!['{'] + a + seq![':']) + model + (seq![
            ',',
        ] + (b + seq![':'] + seq!['t', 'r', 'u', 'e']) + seq![','] + (c + seq![':'])) + digits,
{
    let t = b + seq![':'] + seq!['t', 'r', 'u', 'e'];
    assert(seq!['{'] + (((a + seq![':'] + model) + seq![','] + t) + seq![','] + (c + seq![':']
        + digits)) =~= (seq!['{'] + a + seq![':']) + model + (seq![','] + t + seq![','] + (c + seq![
        ':',
    ])) + digits);
}

/// Where brackets stand in a long sum makes no difference.
proof fn lemma_regroup(
    start: Seq<char>,
    comma: Seq<char>,
    mid: Seq<char>,
    a: Seq<char>,
    b: Seq<char>,
    c: Seq<char>,
    d: Seq<char>,
    e: Seq<char>,
    f: Seq<char>,
    g: Seq<char>,
)
    ensures
        start + comma + mid + a + b + c + d + e + f + g == start + comma + mid + (a + b + c + d + e
            + f + g),
{
    assert(start + comma + mid + a + b + c + d + e + f + g =~= start + comma + mid + (a + b + c + d
        + e + f + g));
}

/// The messages of the request, as they are written.
proof fn lemma_tail_written(image: Seq<u8>)
    ensures
        entry(("messages"@, two(system_message(), user_message(image)))) + seq!['}']
            == "\"messages\":[{\"role\":\"system\",\"content\":"@ + wire::quote(persona::PERSONA@)
            + "},{\"role\":\"user\",\"content\":[{\"type\":\"text\",\"text\":"@ + wire::quote(
            persona::TURN_PROMPT@,
        ) + "},{\"type\":\"image_url\",\"image_url\":{\"url\":\"data:image/png;base64,"@
            + base64::encode(image) + "\"}}]}]}"@,
{
    lemma_request_parts();
    lemma_messages_written(image);
    lemma_tail_shape(
        wire::quote("messages"@) + seq![':'],
        "[{\"role\":\"system\",\"content\":"@,
        wire::quote(persona::PERSONA@),
        "},{\"role\":\"user\",\"content\":[{\"type\":\"text\",\"text\":"@,
        wire::quote(persona::TURN_PROMPT@),
        "},{\"type\":\"image_url\",\"image_url\":{\"url\":\"data:image/png;base64,"@,
        base64::encode(image),
        "\"}}]}]"@,
    );
}

proof fn lemma_tail_shape(
    name: Seq<char>,
    a: Seq<char>,
    b: Seq<char>,
    c: Seq<char>,
    d: Seq<char>,
    e: Seq<char>,
    f: Seq<char>,
    g: Seq<char>,
)
    ensures
        name + (a + b + c + d + e + f + g) + seq!['}'] == (name + a) + b + c + d + e + f + (g
            + seq!['}']),
{
    assert(name + (a + b + c + d + e + f + g) + seq!['}'] =~= (name + a) + b + c + d + e + f + (g
        + seq!['}']));
}

/// How the request is written.
proof fn lemma_request_written(s: http::Settings, image: Seq<u8>)
    ensures
        written(Doc::Object(request_fields(s, image))) == http::chat_request(s, image),
{
    let messages = ("messages"@, two(system_message(), user_message(image)));
    let head = head_fields(s);
    lemma_object(request_fields(s, image));
    lemma_request_parts();
    lemma_head_written(s);
    lemma_tail_written(image);
    let start = seq!['{'] + entries(head);
    let tail = entry(messages) + seq!['}'];
    let mid = http::reasoning_field(s.reasoning);
    lemma_regroup(
        start,
        ","@,
        mid,
        "\"messages\":[{\"role\":\"system\",\"content\":"@,
        wire::quote(persona::PERSONA@),
        "},{\"role\":\"user\",\"content\":[{\"type\":\"text\",\"text\":"@,
        wire::quote(persona::TURN_PROMPT@),
        "},{\"type\":\"image_url\",\"image_url\":{\"url\":\"data:image/png;base64,"@,
        base64::encode(image),
        "\"}}]}]}"@,
    );
    assert(http::chat_request(s, image) == start + seq![','] + mid + tail);
    match s.reasoning {
        Some(r) => {
            let f4 = ("reasoning_effort"@, Doc::Text(r));
            lemma_entries_push(head, f4);
            lemma_entries_push(head.push(f4), messages);
            assert(mid == entry(f4) + seq![',']);
            assert(seq!['{'] + (entries(head) + seq![','] + entry(f4) + seq![','] + entry(
                messages,
            )) + seq!['}'] =~= start + seq![','] + (entry(f4) + seq![',']) + tail);
        },
        None => {
            lemma_entries_push(head, messages);
            assert(seq!['{'] + (entries(head) + seq![','] + entry(messages)) + seq!['}'] =~= start
                + seq![','] + Seq::<char>::empty() + tail);
        },
    }
}

/// Read as JSON, the request is a conversation of two messages: the system
/// gives the persona, and the user the prompt and the picture.
pub proof fn law_the_request_is_a_conversation(s: http::Settings, image: Seq<u8>)
    ensures
        exists|d: Doc|
            #![trigger written(d)]
            written(d) == http::chat_request(s, image) && asks(d, s, image),
{
    let fields = request_fields(s, image);
    let d = Doc::Object(fields);
    lemma_request_written(s, image);
    reveal_strlit("model");
    reveal_strlit("stream");
    reveal_strlit("max_tokens");
    reveal_strlit("reasoning_effort");
    reveal_strlit("messages");
    assert("model"@.len() == 5 && "stream"@.len() == 6 && "max_tokens"@.len() == 10
        && "reasoning_effort"@.len() == 16 && "messages"@.len() == 8);
    lemma_field_found(fields, 0);
    lemma_field_found(fields, 1);
    lemma_field_found(fields, 2);
    lemma_field_found(fields, 3);
    if s.reasoning is Some {
        lemma_field_found(fields, 4);
    } else {
        lemma_field_missing(fields, "reasoning_effort"@);
    }
    lemma_messages_written(image);
    lemma_parts_written(image);
    let parts = two(prompt_part(), picture_part(image));
    lemma_pair("role"@, Doc::Text("system"@), "content"@, Doc::Text(persona::PERSONA@));
    lemma_pair("role"@, Doc::Text("user"@), "content"@, parts);
    lemma_pair("type"@, Doc::Text("text"@), "text"@, Doc::Text(persona::TURN_PROMPT@));
    lemma_pair("type"@, Doc::Text("image_url"@), "image_url"@, address(image));
    let uri = "data:image/png;base64,"@ + base64::encode(image);
    lemma_field_found(seq![("url"@, Doc::Text(uri))], 0);
    assert(asks(d, s, image));
}

/// Three fields.
spec fn triple(k: Seq<char>, v: Doc, l: Seq<char>, u: Doc, m: Seq<char>, t: Doc) -> Doc {
    Doc::Object(seq![(k, v), (l, u), (m, t)])
}

proof fn lemma_triple(k: Seq<char>, v: Doc, l: Seq<char>, u: Doc, m: Seq<char>, t: Doc)
    requires
        k != l,
        k != m,
        l != m,
    ensures
        written(triple(k, v, l, u, m, t)) == seq!['{'] + (wire::quote(k) + seq![':'] + written(v))
            + seq![','] + (wire::quote(l) + seq![':'] + written(u)) + seq![','] + (wire::quote(m)
            + seq![':'] + written(t)) + seq!['}'],
        field(triple(k, v, l, u, m, t), k) == Some(v),
        field(triple(k, v, l, u, m, t), l) == Some(u),
        field(triple(k, v, l, u, m, t), m) == Some(t),
        width(triple(k, v, l, u, m, t)) == 3,
{
    let fields = seq![(k, v), (l, u), (m, t)];
    lemma_object(fields);
    assert(fields =~= seq![(k, v)].push((l, u)).push((m, t)));
    lemma_entries_one((k, v));
    lemma_entries_push(seq![(k, v)], (l, u));
    lemma_entries_push(seq![(k, v)].push((l, u)), (m, t));
    assert(written(triple(k, v, l, u, m, t)) =~= seq!['{'] + entry((k, v)) + seq![','] + entry(
        (l, u),
    ) + seq![','] + entry((m, t)) + seq!['}']);
    lemma_field_found(fields, 0);
    lemma_field_found(fields, 1);
    lemma_field_found(fields, 2);
}

/// The fields of a prompt to the resident process: the prompt of the turn, and
/// the picture as its only image.
pub open spec fn prompts(d: Doc, image: Seq<u8>) -> bool {
    &&& width(d) == 3
    &&& field(d, "type"@) == text("prompt"@)
    &&& field(d, "message"@) == text(persona::TURN_PROMPT@)
    &&& field(d, "images"@) matches Some(Doc::List(images))
    &&& images.len() == 1
    &&& width(images[0]) == 3
    &&& field(images[0], "type"@) == text("image"@)
    &&& field(images[0], "data"@) == text(base64::encode(image))
    &&& field(images[0], "mimeType"@) == text("image/png"@)
}

spec fn image_doc(image: Seq<u8>) -> Doc {
    triple(
        "type"@,
        Doc::Text("image"@),
        "data"@,
        Doc::Text(base64::encode(image)),
        "mimeType"@,
        Doc::Text("image/png"@),
    )
}

proof fn lemma_image_written(image: Seq<u8>)
    ensures
        "type"@ != "data"@,
        "type"@ != "mimeType"@,
        "data"@ != "mimeType"@,
        written(image_doc(image)) == "{\"type\":\"image\",\"data\":\""@ + base64::encode(image)
            + "\",\"mimeType\":\"image/png\"}"@,
{
    let (ty, da, mi) = ("type"@, "data"@, "mimeType"@);
    let (im, pn) = ("image"@, "image/png"@);
    let b64 = base64::encode(image);
    reveal_strlit("type");
    reveal_strlit("data");
    reveal_strlit("mimeType");
    reveal_strlit("image");
    reveal_strlit("image/png");
    assert(ty[0] == 't' && da[0] == 'd' && mi.len() == 8);
    lemma_quote_plain(ty);
    lemma_quote_plain(da);
    lemma_quote_plain(mi);
    lemma_quote_plain(im);
    lemma_quote_plain(pn);
    lemma_encode_plain(image);
    lemma_quote_plain(b64);
    lemma_triple(ty, Doc::Text(im), da, Doc::Text(b64), mi, Doc::Text(pn));
    reveal_strlit("{\"type\":\"image\",\"data\":\"");
    reveal_strlit("\",\"mimeType\":\"image/png\"}");
    let a = "{\"type\":\"image\",\"data\":\""@;
    let b = "\",\"mimeType\":\"image/png\"}"@;
    assert(a =~= seq!['{'] + (wire::quote(ty) + seq![':'] + wire::quote(im)) + seq![',']
        + wire::quote(da) + seq![':', '"']);
    assert(b =~= seq!['"', ','] + (wire::quote(mi) + seq![':'] + wire::quote(pn)) + seq!['}']);
    assert(written(image_doc(image)) =~= a + b64 + b);
}

/// Read as JSON, a prompt to the resident process carries the prompt of the
/// turn and the picture; it is one line.
pub proof fn law_the_prompt_carries_the_picture(image: Seq<u8>)
    ensures
        exists|d: Doc|
            #![trigger written(d)]
            pi::prompt_line(image) == written(d) + seq!['\n'] && prompts(d, image),
{
    let (ty, me, im) = ("type"@, "message"@, "images"@);
    let pr = "prompt"@;
    let d = triple(
        ty,
        Doc::Text(pr),
        me,
        Doc::Text(persona::TURN_PROMPT@),
        im,
        one(image_doc(image)),
    );
    lemma_image_written(image);
    lemma_one(image_doc(image));
    reveal_strlit("type");
    reveal_strlit("message");
    reveal_strlit("images");
    reveal_strlit("prompt");
    assert(ty.len() == 4 && me.len() == 7 && im.len() == 6);
    lemma_quote_plain(ty);
    lemma_quote_plain(me);
    lemma_quote_plain(im);
    lemma_quote_plain(pr);
    lemma_triple(
        ty,
        Doc::Text(pr),
        me,
        Doc::Text(persona::TURN_PROMPT@),
        im,
        one(image_doc(image)),
    );
    lemma_triple(
        ty,
        Doc::Text("image"@),
        "data"@,
        Doc::Text(base64::encode(image)),
        "mimeType"@,
        Doc::Text("image/png"@),
    );
    lemma_prompt_written(image, d);
    assert(prompts(d, image));
}

proof fn lemma_prompt_written(image: Seq<u8>, d: Doc)
    requires
        written(d) == seq!['{'] + (wire::quote("type"@) + seq![':'] + wire::quote("prompt"@))
            + seq![','] + (wire::quote("message"@) + seq![':'] + wire::quote(
            persona::TURN_PROMPT@,
        )) + seq![','] + (wire::quote("images"@) + seq![':'] + (seq!['['] + (
        "{\"type\":\"image\",\"data\":\""@ + base64::encode(image)
            + "\",\"mimeType\":\"image/png\"}"@) + seq![']'])) + seq!['}'],
        wire::quote("type"@) == seq!['"'] + "type"@ + seq!['"'],
        wire::quote("prompt"@) == seq!['"'] + "prompt"@ + seq!['"'],
        wire::quote("message"@) == seq!['"'] + "message"@ + seq!['"'],
        wire::quote("images"@) == seq!['"'] + "images"@ + seq!['"'],
    ensures
        pi::prompt_line(image) == written(d) + seq!['\n'],
{
    let q = wire::quote(persona::TURN_PROMPT@);
    let b64 = base64::encode(image);
    let a = "{\"type\":\"prompt\",\"message\":"@;
    let b = ",\"images\":[{\"type\":\"image\",\"data\":\""@;
    let c = "\",\"mimeType\":\"image/png\"}]}\n"@;
    let x = "{\"type\":\"image\",\"data\":\""@;
    let y = "\",\"mimeType\":\"image/png\"}"@;
    assert(a =~= seq!['{'] + (wire::quote("type"@) + seq![':'] + wire::quote("prompt"@)) + seq![
        ',',
    ] + (wire::quote("message"@) + seq![':'])) by {
        reveal_strlit("type");
        reveal_strlit("message");
        reveal_strlit("prompt");
        reveal_strlit("{\"type\":\"prompt\",\"message\":");
    }
    assert(b =~= seq![','] + (wire::quote("images"@) + seq![':'] + (seq!['['] + x))) by {
        reveal_strlit("images");
        reveal_strlit(",\"images\":[{\"type\":\"image\",\"data\":\"");
        reveal_strlit("{\"type\":\"image\",\"data\":\"");
    }
    assert(c =~= y + seq![']', '}', '\n']) by {
        reveal_strlit("\",\"mimeType\":\"image/png\"}]}\n");
        reveal_strlit("\",\"mimeType\":\"image/png\"}");
    }
    let t = wire::quote("type"@) + seq![':'] + wire::quote("prompt"@);
    let m = wire::quote("message"@) + seq![':'];
    let i = wire::quote("images"@) + seq![':'];
    assert(a + q + b + b64 + c =~= (seq!['{'] + t + seq![','] + (m + q) + seq![','] + (i + (seq![
        '[',
    ] + (x + b64 + y) + seq![']'])) + seq!['}']) + seq!['\n']);
}

} // verus!
