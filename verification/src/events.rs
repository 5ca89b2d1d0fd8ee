//! What holds of the events of a stream, said of the fields that they have.

use vstd::prelude::*;

use crate::json;
use crate::json::Tree;
use crate::sse;

verus! {

/// An object has this value in this field, and only there.
pub open spec fn has(t: Tree, key: Seq<char>, v: Tree) -> bool {
    match t {
        Tree::Object(entries) => exists|i: int|
            0 <= i < entries.len() && #[trigger] entries[i] == (key, v) && forall|j: int|
                0 <= j < entries.len() && j != i ==> (#[trigger] entries[j]).0 != key,
        _ => false,
    }
}

/// An object has no such field.
pub open spec fn lacks(t: Tree, key: Seq<char>) -> bool {
    match t {
        Tree::Object(entries) => forall|i: int|
            0 <= i < entries.len() ==> (#[trigger] entries[i]).0 != key,
        _ => false,
    }
}

proof fn lemma_entry(entries: Seq<(Seq<char>, Tree)>, key: Seq<char>, from: int)
    requires
        0 <= from,
    ensures
        (match json::entry_of(entries, key, from) {
            Some(i) => from <= i < entries.len() && entries[i].0 == key,
            None => forall|i: int|
                from <= i < entries.len() ==> (#[trigger] entries[i]).0 != key,
        }),
    decreases entries.len() - from,
{
    if from < entries.len() && entries[from].0 != key {
        lemma_entry(entries, key, from + 1);
    }
}

proof fn lemma_has(t: Tree, key: Seq<char>, v: Tree)
    requires
        has(t, key, v),
    ensures
        json::field(t, key) == Some(v),
{
    let entries = t->Object_0;
    lemma_entry(entries, key, 0);
    let i = choose|i: int|
        0 <= i < entries.len() && #[trigger] entries[i] == (key, v) && forall|j: int|
            0 <= j < entries.len() && j != i ==> (#[trigger] entries[j]).0 != key;
    assert(entries[i].0 == key);
}

proof fn lemma_lacks(t: Tree, key: Seq<char>)
    requires
        lacks(t, key),
    ensures
        json::field(t, key) is None,
{
    lemma_entry(t->Object_0, key, 0);
}

/// Texts, one after another.
pub open spec fn all_of(texts: Seq<Seq<char>>) -> Seq<char>
    decreases texts.len(),
{
    if texts.len() == 0 {
        seq![]
    } else {
        all_of(texts.drop_last()) + texts.last()
    }
}

/// A choice that adds a text to the reply.
pub open spec fn delta_choice(choice: Tree, s: Seq<char>) -> bool {
    &&& lacks(choice, "message"@)
    &&& lacks(choice, "text"@)
    &&& exists|delta: Tree| #[trigger]
        has(choice, "delta"@, delta) && has(delta, "content"@, Tree::Text(s)) && lacks(
            delta,
            "text"@,
        )
}

proof fn lemma_delta_choice(choice: Tree, s: Seq<char>)
    requires
        delta_choice(choice, s),
    ensures
        sse::choice_text(choice) == s,
{
    let delta = choose|delta: Tree| #[trigger]
        has(choice, "delta"@, delta) && has(delta, "content"@, Tree::Text(s)) && lacks(
            delta,
            "text"@,
        );
    lemma_has(choice, "delta"@, delta);
    lemma_has(delta, "content"@, Tree::Text(s));
    lemma_lacks(delta, "text"@);
    lemma_lacks(choice, "message"@);
    lemma_lacks(choice, "text"@);
    assert(sse::choice_text(choice) =~= s);
}

proof fn lemma_choices(choices: Seq<Tree>, texts: Seq<Seq<char>>, n: int)
    requires
        choices.len() == texts.len(),
        0 <= n <= choices.len(),
        forall|i: int|
            0 <= i < choices.len() ==> #[trigger] delta_choice(choices[i], texts[i]),
    ensures
        sse::choices_text(choices, n) == all_of(texts.take(n)),
    decreases n,
{
    if n > 0 {
        lemma_choices(choices, texts, n - 1);
        assert(delta_choice(choices[n - 1], texts[n - 1]));
        lemma_delta_choice(choices[n - 1], texts[n - 1]);
        assert(texts.take(n).drop_last() =~= texts.take(n - 1));
    }
}

/// An event of a chat completion adds what the deltas of its choices hold, in
/// their order.
pub proof fn law_chat_deltas_are_added(t: Tree, choices: Seq<Tree>, texts: Seq<Seq<char>>)
    requires
        lacks(t, "type"@),
        has(t, "choices"@, Tree::Array(choices)),
        choices.len() == texts.len(),
        forall|i: int|
            0 <= i < choices.len() ==> #[trigger] delta_choice(choices[i], texts[i]),
        all_of(texts).len() > 0,
    ensures
        sse::event_of(t) == Some(sse::Event::Delta(all_of(texts))),
{
    lemma_lacks(t, "type"@);
    lemma_has(t, "choices"@, Tree::Array(choices));
    lemma_choices(choices, texts, choices.len() as int);
    assert(texts.take(choices.len() as int) =~= texts);
}

/// An event of the responses endpoint says by its type whether its text is a
/// piece of the reply or the whole.
pub proof fn law_the_type_tells_pieces_from_the_whole(t: Tree, s: Seq<char>)
    ensures
        has(t, "type"@, Tree::Text("response.output_text.delta"@)) && has(
            t,
            "delta"@,
            Tree::Text(s),
        ) ==> sse::event_of(t) == Some(sse::Event::Delta(s)),
        has(t, "type"@, Tree::Text("response.output_text.done"@)) && has(t, "text"@, Tree::Text(s))
            ==> sse::event_of(t) == Some(sse::Event::Final(s)),
{
    let d = "response.output_text.delta"@;
    let f = "response.output_text.done"@;
    reveal_strlit("response.output_text.delta");
    reveal_strlit("response.output_text.done");
    assert(d.len() == 26 && f.len() == 25);
    if has(t, "type"@, Tree::Text(d)) && has(t, "delta"@, Tree::Text(s)) {
        lemma_has(t, "type"@, Tree::Text(d));
        lemma_has(t, "delta"@, Tree::Text(s));
    }
    if has(t, "type"@, Tree::Text(f)) && has(t, "text"@, Tree::Text(s)) {
        lemma_has(t, "type"@, Tree::Text(f));
        lemma_has(t, "text"@, Tree::Text(s));
    }
}

/// An item of a finished response: a message of the assistant with a text, or
/// something that is not by the assistant.
pub open spec fn output_item(item: Tree, s: Option<Seq<char>>) -> bool {
    match s {
        Some(s) => has(item, "type"@, Tree::Text("message"@)) && has(
            item,
            "role"@,
            Tree::Text("assistant"@),
        ) && has(item, "content"@, Tree::Text(s)),
        None => lacks(item, "role"@) || exists|r: Seq<char>| #[trigger]
            has(item, "role"@, Tree::Text(r)) && r != "assistant"@,
    }
}

/// The texts that there are, one after another.
pub open spec fn all_there(texts: Seq<Option<Seq<char>>>) -> Seq<char>
    decreases texts.len(),
{
    if texts.len() == 0 {
        seq![]
    } else {
        all_there(texts.drop_last()) + match texts.last() {
            Some(s) => s,
            None => seq![],
        }
    }
}

proof fn lemma_output(items: Seq<Tree>, texts: Seq<Option<Seq<char>>>, n: int)
    requires
        items.len() == texts.len(),
        0 <= n <= items.len(),
        forall|i: int| 0 <= i < items.len() ==> #[trigger] output_item(items[i], texts[i]),
    ensures
        sse::output_text(items, n) == all_there(texts.take(n)),
    decreases n,
{
    if n > 0 {
        lemma_output(items, texts, n - 1);
        let item = items[n - 1];
        assert(output_item(items[n - 1], texts[n - 1]));
        assert(texts.take(n).drop_last() =~= texts.take(n - 1));
        match texts[n - 1] {
            Some(s) => {
                lemma_has(item, "type"@, Tree::Text("message"@));
                lemma_has(item, "role"@, Tree::Text("assistant"@));
                lemma_has(item, "content"@, Tree::Text(s));
            },
            None => {
                if lacks(item, "role"@) {
                    lemma_lacks(item, "role"@);
                } else {
                    let r = choose|r: Seq<char>| #[trigger]
                        has(item, "role"@, Tree::Text(r)) && r != "assistant"@;
                    lemma_has(item, "role"@, Tree::Text(r));
                }
                assert(sse::output_text(items, n - 1) + Seq::<char>::empty() =~= sse::output_text(
                    items,
                    n - 1,
                ));
            },
        }
    }
}

/// A finished response gives the whole of what the assistant said in it, and
/// nothing that anyone else did.
pub proof fn law_a_finished_response_is_the_whole(
    t: Tree,
    response: Tree,
    items: Seq<Tree>,
    texts: Seq<Option<Seq<char>>>,
)
    requires
        has(t, "type"@, Tree::Text("response.completed"@)),
        has(t, "response"@, response),
        has(response, "output"@, Tree::Array(items)),
        items.len() == texts.len(),
        forall|i: int| 0 <= i < items.len() ==> #[trigger] output_item(items[i], texts[i]),
        all_there(texts).len() > 0,
    ensures
        sse::event_of(t) == Some(sse::Event::Final(all_there(texts))),
{
    reveal_strlit("response.output_text.delta");
    reveal_strlit("response.output_text.done");
    reveal_strlit("response.completed");
    assert("response.completed"@.len() == 18);
    assert("response.output_text.delta"@.len() == 26 && "response.output_text.done"@.len() == 25);
    lemma_has(t, "type"@, Tree::Text("response.completed"@));
    lemma_has(t, "response"@, response);
    lemma_has(response, "output"@, Tree::Array(items));
    lemma_output(items, texts, items.len() as int);
    assert(texts.take(items.len() as int) =~= texts);
}

/// A minimal relay sends its text at the top level.
pub proof fn law_a_relay_speaks_at_the_top(t: Tree, s: Seq<char>)
    requires
        lacks(t, "type"@),
        lacks(t, "choices"@),
        lacks(t, "delta"@),
        s.len() > 0,
    ensures
        has(t, "content"@, Tree::Text(s)) && lacks(t, "text"@) ==> sse::event_of(t) == Some(
            sse::Event::Delta(s),
        ),
        has(t, "text"@, Tree::Text(s)) && lacks(t, "content"@) ==> sse::event_of(t) == Some(
            sse::Event::Delta(s),
        ),
        lacks(t, "content"@) && lacks(t, "text"@) ==> sse::event_of(t) is None,
{
    lemma_lacks(t, "type"@);
    lemma_lacks(t, "choices"@);
    lemma_lacks(t, "delta"@);
    if has(t, "content"@, Tree::Text(s)) && lacks(t, "text"@) {
        lemma_has(t, "content"@, Tree::Text(s));
        lemma_lacks(t, "text"@);
        assert(sse::relay_text(t) =~= s);
    }
    if has(t, "text"@, Tree::Text(s)) && lacks(t, "content"@) {
        lemma_has(t, "text"@, Tree::Text(s));
        lemma_lacks(t, "content"@);
        assert(sse::relay_text(t) =~= s);
    }
    if lacks(t, "content"@) && lacks(t, "text"@) {
        lemma_lacks(t, "content"@);
        lemma_lacks(t, "text"@);
    }
}

} // verus!
