//! JSON values, and the text inside them.

use vstd::prelude::*;

use crate::text;

verus! {

/// A JSON value. What a number is plays no role here.
pub enum Json {
    Null,
    Bool(bool),
    Number,
    Text(String),
    Array(Vec<Json>),
    Object(Vec<(String, Json)>),
}

/// What a JSON value stands for.
pub enum Tree {
    Null,
    Bool(bool),
    Number,
    Text(Seq<char>),
    Array(Seq<Tree>),
    Object(Seq<(Seq<char>, Tree)>),
}

impl Json {
    /// What the value stands for.
    pub open spec fn tree(self) -> Tree
        decreases self,
    {
        match self {
            Json::Null => Tree::Null,
            Json::Bool(b) => Tree::Bool(b),
            Json::Number => Tree::Number,
            Json::Text(s) => Tree::Text(s@),
            Json::Array(items) => Tree::Array(
                Seq::new(
                    items@.len(),
                    |i: int|
                        if 0 <= i < items@.len() {
                            items@[i].tree()
                        } else {
                            Tree::Null
                        },
                ),
            ),
            Json::Object(entries) => Tree::Object(
                Seq::new(
                    entries@.len(),
                    |i: int|
                        if 0 <= i < entries@.len() {
                            (entries@[i].0@, entries@[i].1.tree())
                        } else {
                            (seq![], Tree::Null)
                        },
                ),
            ),
        }
    }
}

/// `serde_json::Value`, a JSON value of any shape.
#[verifier::external_type_specification]
#[verifier::external_body]
pub struct ExValue(serde_json::Value);

/// What a `serde_json::Value` holds.
pub uninterp spec fn json_tree(v: serde_json::Value) -> Tree;

/// The value that `serde_json::from_str` reads from a text; `None` where the
/// text is no JSON.
pub uninterp spec fn json_parse(s: Seq<char>) -> Option<Tree>;

/// `serde_json::from_str`, whose result depends on the text alone.
#[verifier::external_body]
fn value_from_str(s: &str) -> (r: Option<serde_json::Value>)
    ensures
        (match r {
            Some(v) => json_parse(s@) == Some(json_tree(v)),
            None => json_parse(s@) is None,
        }),
{
    serde_json::from_str(s).ok()
}

/// A value that has been opened: its variant, and the values in it.
enum Opened {
    Null,
    Bool(bool),
    Number,
    Text(String),
    Array(Vec<serde_json::Value>),
    Object(Vec<(String, serde_json::Value)>),
}

/// What an opened value holds: what the values in it hold, in their order.
spec fn opened_tree(o: Opened) -> Tree {
    match o {
        Opened::Null => Tree::Null,
        Opened::Bool(b) => Tree::Bool(b),
        Opened::Number => Tree::Number,
        Opened::Text(s) => Tree::Text(s@),
        Opened::Array(items) => Tree::Array(
            items@.map_values(|v: serde_json::Value| json_tree(v)),
        ),
        Opened::Object(entries) => Tree::Object(
            entries@.map_values(|e: (String, serde_json::Value)| (e.0@, json_tree(e.1))),
        ),
    }
}

/// The variants of `serde_json::Value`, with `serde_json::Map::into_iter` for
/// the entries of an object: what a value holds is what stands in its variant.
#[verifier::external_body]
fn open_value(v: serde_json::Value) -> (r: Opened)
    ensures
        json_tree(v) == opened_tree(r),
{
    match v {
        serde_json::Value::Null => Opened::Null,
        serde_json::Value::Bool(b) => Opened::Bool(b),
        serde_json::Value::Number(_) => Opened::Number,
        serde_json::Value::String(s) => Opened::Text(s),
        serde_json::Value::Array(items) => Opened::Array(items),
        serde_json::Value::Object(entries) => Opened::Object(entries.into_iter().collect()),
    }
}

/// A value as one of this library.
fn json_of_value(v: serde_json::Value) -> (r: Json)
    ensures
        r.tree() == json_tree(v),
    decreases json_tree(v),
{
    let ghost whole = json_tree(v);
    match open_value(v) {
        Opened::Null => Json::Null,
        Opened::Bool(b) => Json::Bool(b),
        Opened::Number => Json::Number,
        Opened::Text(s) => Json::Text(s),
        Opened::Array(items) => {
            let ghost trees = whole->Array_0;
            let ghost all = items@;
            let mut rest = items;
            let mut out: Vec<Json> = Vec::new();
            while rest.len() > 0
                invariant
                    whole == json_tree(v),
                    whole == Tree::Array(trees),
                    trees.len() == all.len(),
                    forall|i: int| 0 <= i < all.len() ==> #[trigger] trees[i] == json_tree(all[i]),
                    rest@.len() <= all.len(),
                    rest@ == all.take(rest@.len() as int),
                    out@.len() == all.len() - rest@.len(),
                    forall|i: int|
                        0 <= i < out@.len() ==> (#[trigger] out@[i]).tree() == trees[all.len() - 1
                            - i],
                decreases rest@.len(),
            {
                let ghost n = rest@.len();
                match rest.pop() {
                    Some(item) => {
                        proof {
                            assert(item == all[n - 1]);
                            assert(trees[n - 1] == json_tree(item));
                            assert(decreases_to!(whole => whole->Array_0));
                            assert(decreases_to!(trees => trees[n - 1]));
                        }
                        out.push(json_of_value(item));
                    },
                    None => {},
                }
            }
            let items = reversed(out);
            assert(Json::Array(items).tree()->Array_0 =~= trees);
            Json::Array(items)
        },
        Opened::Object(entries) => {
            let ghost trees = whole->Object_0;
            let ghost all = entries@;
            let mut rest = entries;
            let mut out: Vec<(String, Json)> = Vec::new();
            while rest.len() > 0
                invariant
                    whole == json_tree(v),
                    whole == Tree::Object(trees),
                    trees.len() == all.len(),
                    forall|i: int|
                        0 <= i < all.len() ==> #[trigger] trees[i] == (
                            all[i].0@,
                            json_tree(all[i].1),
                        ),
                    rest@.len() <= all.len(),
                    rest@ == all.take(rest@.len() as int),
                    out@.len() == all.len() - rest@.len(),
                    forall|i: int|
                        0 <= i < out@.len() ==> ((#[trigger] out@[i]).0@, out@[i].1.tree())
                            == trees[all.len() - 1 - i],
                decreases rest@.len(),
            {
                let ghost n = rest@.len();
                match rest.pop() {
                    Some((key, value)) => {
                        proof {
                            assert((key, value) == all[n - 1]);
                            assert(trees[n - 1] == (key@, json_tree(value)));
                            assert(decreases_to!(whole => whole->Object_0));
                            assert(decreases_to!(trees => trees[n - 1]));
                            assert(decreases_to!(trees[n - 1] => trees[n - 1].1));
                        }
                        out.push((key, json_of_value(value)));
                    },
                    None => {},
                }
            }
            let entries = reversed(out);
            assert(Json::Object(entries).tree()->Object_0 =~= trees);
            Json::Object(entries)
        },
    }
}

/// A list the other way round.
fn reversed<T>(list: Vec<T>) -> (r: Vec<T>)
    ensures
        r@.len() == list@.len(),
        forall|i: int| 0 <= i < list@.len() ==> #[trigger] r@[i] == list@[list@.len() - 1 - i],
{
    let ghost all = list@;
    let mut rest = list;
    let mut out: Vec<T> = Vec::new();
    while rest.len() > 0
        invariant
            rest@.len() <= all.len(),
            rest@ == all.take(rest@.len() as int),
            out@.len() == all.len() - rest@.len(),
            forall|i: int| 0 <= i < out@.len() ==> #[trigger] out@[i] == all[all.len() - 1 - i],
        decreases rest@.len(),
    {
        match rest.pop() {
            Some(item) => {
                out.push(item);
            },
            None => {},
        }
    }
    out
}

/// Reads a JSON value.
pub fn parse_json(s: &str) -> (r: Option<Json>)
    ensures
        (match r {
            Some(v) => json_parse(s@) == Some(v.tree()),
            None => json_parse(s@) is None,
        }),
{
    match value_from_str(s) {
        Some(v) => Some(json_of_value(v)),
        None => None,
    }
}

/// The first entry with a key, from `from` on.
pub open spec fn entry_of(entries: Seq<(Seq<char>, Tree)>, key: Seq<char>, from: int) -> Option<int>
    decreases entries.len() - from,
{
    if from < 0 || from >= entries.len() {
        None
    } else if entries[from].0 == key {
        Some(from)
    } else {
        entry_of(entries, key, from + 1)
    }
}

/// The field of a value; `None` where it is no object or has no such field.
pub open spec fn field(t: Tree, key: Seq<char>) -> Option<Tree> {
    match t {
        Tree::Object(entries) => match entry_of(entries, key, 0) {
            Some(i) => Some(entries[i].1),
            None => None,
        },
        _ => None,
    }
}

/// The text of a field that is a string.
pub open spec fn string_field(t: Tree, key: Seq<char>) -> Option<Seq<char>> {
    match field(t, key) {
        Some(Tree::Text(s)) => Some(s),
        _ => None,
    }
}

/// A text that is not empty.
pub open spec fn nonempty(s: Seq<char>) -> Option<Seq<char>> {
    if s.len() == 0 {
        None
    } else {
        Some(s)
    }
}

/// The text that a value stands for: a string is itself; an object has it in
/// its string `text`, or else in its `content`; an array has that of its parts,
/// one after another, and none if that is empty.
pub open spec fn text_value(t: Tree) -> Option<Seq<char>>
    decreases t, 0int,
{
    match t {
        Tree::Text(s) => Some(s),
        Tree::Array(parts) => nonempty(parts_text(parts, parts.len() as int)),
        Tree::Object(entries) => match string_field(t, "text"@) {
            Some(s) => Some(s),
            None => match entry_of(entries, "content"@, 0) {
                Some(i) if 0 <= i < entries.len() => text_value(entries[i].1),
                _ => None,
            },
        },
        _ => None,
    }
}

/// The text of the first `n` parts of an array; only objects have one.
pub open spec fn parts_text(parts: Seq<Tree>, n: int) -> Seq<char>
    decreases parts, n,
{
    if n <= 0 || n > parts.len() {
        seq![]
    } else {
        let own = match parts[n - 1] {
            Tree::Object(_) => text_value(parts[n - 1]),
            _ => None,
        };
        parts_text(parts, n - 1) + or_nothing(own)
    }
}

/// A text, or the empty one.
pub open spec fn or_nothing(s: Option<Seq<char>>) -> Seq<char> {
    match s {
        Some(s) => s,
        None => seq![],
    }
}

/// The text of a field.
pub open spec fn text_field(t: Tree, key: Seq<char>) -> Option<Seq<char>> {
    match field(t, key) {
        Some(v) => text_value(v),
        None => None,
    }
}

/// What an optional value stands for.
pub open spec fn tree_of(v: Option<&Json>) -> Option<Tree> {
    match v {
        Some(v) => Some(v.tree()),
        None => None,
    }
}

/// What an optional string stands for.
pub open spec fn text_of(s: Option<String>) -> Option<Seq<char>> {
    match s {
        Some(s) => Some(s@),
        None => None,
    }
}

/// The first entry with a key.
fn find_entry(entries: &Vec<(String, Json)>, key: &str) -> (r: Option<usize>)
    ensures
        (match r {
            Some(i) => i < entries@.len() && entry_of(
                Json::Object(*entries).tree()->Object_0,
                key@,
                0,
            ) == Some(i as int),
            None => entry_of(Json::Object(*entries).tree()->Object_0, key@, 0) is None,
        }),
{
    let cs = text::chars_of(key);
    let ghost list = Json::Object(*entries).tree()->Object_0;
    let mut i: usize = 0;
    while i < entries.len()
        invariant
            i <= entries@.len(),
            cs@ == key@,
            list == Json::Object(*entries).tree()->Object_0,
            entry_of(list, key@, 0) == entry_of(list, key@, i as int),
        decreases entries@.len() - i,
    {
        assert(list[i as int].0 == entries@[i as int].0@);
        if text::same_str(cs.as_slice(), entries[i].0.as_str()) {
            return Some(i);
        }
        i += 1;
    }
    None
}

impl Json {
    /// The field of a value.
    pub fn get(&self, key: &str) -> (r: Option<&Json>)
        ensures
            tree_of(r) == field(self.tree(), key@),
    {
        match self {
            Json::Object(entries) => match find_entry(entries, key) {
                Some(i) => Some(&entries[i].1),
                None => None,
            },
            _ => None,
        }
    }

    /// Whether a field is the given string.
    pub fn field_is(&self, key: &str, value: &str) -> (r: bool)
        ensures
            r == (string_field(self.tree(), key@) == Some(value@)),
    {
        match self.get(key) {
            Some(Json::Text(s)) => {
                let cs = text::chars_of(s.as_str());
                text::same_str(cs.as_slice(), value)
            },
            _ => false,
        }
    }
}

/// The text that a value stands for.
pub fn json_text_value(value: &Json) -> (r: Option<String>)
    ensures
        text_of(r) == text_value(value.tree()),
    decreases value, 0int,
{
    match value {
        Json::Text(s) => Some(s.clone()),
        Json::Array(parts) => {
            let out = text_of_parts(parts);
            if out.as_str().is_empty() {
                None
            } else {
                Some(out)
            }
        },
        Json::Object(entries) => {
            if let Some(Json::Text(s)) = value.get("text") {
                return Some(s.clone());
            }
            match find_entry(entries, "content") {
                Some(i) => json_text_value(&entries[i].1),
                None => None,
            }
        },
        _ => None,
    }
}

/// The text of the parts of an array.
fn text_of_parts(parts: &Vec<Json>) -> (out: String)
    ensures
        out@ == parts_text(Json::Array(*parts).tree()->Array_0, parts@.len() as int),
    decreases parts, 1int,
{
    let ghost list = Json::Array(*parts).tree()->Array_0;
    let mut out = String::new();
    let mut i: usize = 0;
    while i < parts.len()
        invariant
            i <= parts@.len(),
            list == Json::Array(*parts).tree()->Array_0,
            out@ == parts_text(list, i as int),
        decreases parts@.len() - i,
    {
        assert(list[i as int] == parts@[i as int].tree());
        match &parts[i] {
            Json::Object(_) => {
                if let Some(s) = json_text_value(&parts[i]) {
                    text::push_text(&mut out, s.as_str());
                }
            },
            _ => {},
        }
        i += 1;
    }
    out
}

} // verus!
