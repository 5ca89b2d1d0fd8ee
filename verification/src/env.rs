//! The configuration file `oracle.env`: lines that set environment variables.

use vstd::prelude::*;

use crate::lines;
use crate::speech;
use crate::text;

verus! {

/// A value without the quotes around it.
pub open spec fn unquote(value: Seq<char>) -> Seq<char> {
    if value.len() >= 2 && value[0] == value.last() && (value[0] == '"' || value[0] == '\'') {
        value.subrange(1, value.len() - 1)
    } else {
        value
    }
}

/// The variable that a line sets, and its value. Blank lines, comments, lines
/// without `=` and lines without a name set nothing.
pub open spec fn assignment(line: Seq<char>) -> Option<(Seq<char>, Seq<char>)> {
    let line = text::trim(line);
    if line.len() == 0 || line[0] == '#' {
        None
    } else {
        let line = text::trim(text::without_prefix(line, "export "@));
        match text::find_from(line, seq!['='], 0) {
            None => None,
            Some(i) => {
                let key = text::trim(line.take(i));
                if key.len() == 0 {
                    None
                } else {
                    Some((key, unquote(text::trim(line.skip(i + 1)))))
                }
            },
        }
    }
}

/// `line` sets `name`.
pub open spec fn assigns(line: Seq<char>, name: Seq<char>) -> bool {
    assignment(line) matches Some(p) && p.0 == name
}

/// `updates` gives `name` a value.
pub open spec fn sets(updates: Seq<(Seq<char>, Seq<char>)>, name: Seq<char>) -> bool {
    exists|i: int| 0 <= i < updates.len() && #[trigger] updates[i].0 == name
}

/// The variables that the lines of a file set, given those that are set
/// already. A variable that has a value keeps it, and the first line that sets
/// a variable is the one that counts.
pub open spec fn updates(
    file: Seq<Seq<char>>,
    taken: Set<Seq<char>>,
) -> Seq<(Seq<char>, Seq<char>)>
    decreases file.len(),
{
    if file.len() == 0 {
        seq![]
    } else {
        let before = updates(file.drop_last(), taken);
        match assignment(file.last()) {
            Some((key, value)) if !taken.contains(key) && !sets(before, key) => before.push(
                (key, value),
            ),
            _ => before,
        }
    }
}

/// The names in a list.
pub open spec fn names(list: Seq<String>) -> Set<Seq<char>> {
    Set::new(|name: Seq<char>| exists|i: int| 0 <= i < list.len() && (#[trigger] list[i])@ == name)
}

/// Names and values as texts.
pub open spec fn pairs(list: Seq<(String, String)>) -> Seq<(Seq<char>, Seq<char>)> {
    list.map_values(|p: (String, String)| (p.0@, p.1@))
}

/// A value without the quotes around it.
pub fn unquote_env_value(value: &str) -> (r: String)
    ensures
        r@ == unquote(value@),
{
    let cs = text::chars_of(value);
    let n: usize = cs.len();
    if n >= 2 && cs[0] == cs[n - 1] && (cs[0] == '"' || cs[0] == '\'') {
        text::string_of(text::part(cs.as_slice(), 1, n - 1))
    } else {
        text::string_of(cs.as_slice())
    }
}

/// The variable that a line sets, and its value.
pub fn parse_env_line(line: &[char]) -> (r: Option<(String, String)>)
    ensures
        (match r {
            Some(p) => assignment(line@) == Some((p.0@, p.1@)),
            None => assignment(line@) is None,
        }),
{
    let line = text::trimmed(line);
    if line.len() == 0 || line[0] == '#' {
        return None;
    }
    let line = match text::strip_start(line, "export ") {
        Some(rest) => rest,
        None => line,
    };
    let line = text::trimmed(line);
    let mark: Vec<char> = vec!['='];
    assert(mark@ =~= seq!['=']);
    match text::find(line, mark.as_slice(), 0) {
        None => None,
        Some(i) => {
            let head = text::part(line, 0, i);
            let tail = text::part(line, i + 1, line.len());
            proof {
                assert(head@ =~= line@.take(i as int));
                assert(tail@ =~= line@.skip(i + 1));
            }
            let key = text::trimmed(head);
            if key.len() == 0 {
                None
            } else {
                let value = text::string_of(text::trimmed(tail));
                Some((text::string_of(key), unquote_env_value(value.as_str())))
            }
        },
    }
}

/// Whether a list holds a name.
fn listed(list: &Vec<String>, name: &str) -> (r: bool)
    ensures
        r == names(list@).contains(name@),
{
    let cs = text::chars_of(name);
    let mut i: usize = 0;
    while i < list.len()
        invariant
            i <= list@.len(),
            cs@ == name@,
            forall|j: int| 0 <= j < i ==> (#[trigger] list@[j])@ != name@,
        decreases list@.len() - i,
    {
        if text::same_str(cs.as_slice(), list[i].as_str()) {
            assert(list@[i as int]@ == name@);
            return true;
        }
        i += 1;
    }
    false
}

/// Whether some updates give a name a value.
fn updated(list: &Vec<(String, String)>, name: &str) -> (r: bool)
    ensures
        r == sets(pairs(list@), name@),
{
    let cs = text::chars_of(name);
    let mut i: usize = 0;
    while i < list.len()
        invariant
            i <= list@.len(),
            cs@ == name@,
            forall|j: int| 0 <= j < i ==> (#[trigger] pairs(list@)[j]).0 != name@,
        decreases list@.len() - i,
    {
        if text::same_str(cs.as_slice(), list[i].0.as_str()) {
            assert(pairs(list@)[i as int].0 == name@);
            return true;
        }
        i += 1;
    }
    false
}

/// The variables to set for the text of a configuration file, given the names
/// that are set already: explicit environment variables win over file values.
pub fn env_updates(file: &str, already_set: &Vec<String>) -> (out: Vec<(String, String)>)
    ensures
        pairs(out@) == updates(lines::lines(file@), names(already_set@)),
{
    let cs = text::chars_of(file);
    let list = lines::split_lines(cs.as_slice());
    let ghost all = lines::lines(file@);
    let ghost taken = names(already_set@);
    let mut out: Vec<(String, String)> = Vec::new();
    let mut i: usize = 0;
    assert(lines::texts(list@).len() == all.len());
    assert(pairs(out@) =~= updates(all.take(0), taken));
    while i < list.len()
        invariant
            i <= list@.len(),
            taken == names(already_set@),
            lines::texts(list@) == all,
            list@.len() == all.len(),
            pairs(out@) == updates(all.take(i as int), taken),
        decreases list@.len() - i,
    {
        let ghost before = out@;
        assert(lines::texts(list@)[i as int] == list@[i as int]@);
        assert(all.take(i + 1).drop_last() =~= all.take(i as int));
        assert(all.take(i + 1).last() == list@[i as int]@);
        match parse_env_line(list[i].as_slice()) {
            None => {},
            Some((key, value)) => {
                if !listed(already_set, key.as_str()) && !updated(&out, key.as_str()) {
                    out.push((key, value));
                    assert(pairs(out@) =~= pairs(before).push((key@, value@)));
                }
            },
        }
        i += 1;
    }
    assert(all.take(i as int) =~= all);
    out
}

/// Explicit environment variables win over file values: what is set already is
/// never set again.
pub proof fn law_explicit_variables_win(file: Seq<Seq<char>>, taken: Set<Seq<char>>)
    ensures
        forall|i: int|
            0 <= i < updates(file, taken).len() ==> !taken.contains(
                (#[trigger] updates(file, taken)[i]).0,
            ),
    decreases file.len(),
{
    if file.len() > 0 {
        let before = updates(file.drop_last(), taken);
        law_explicit_variables_win(file.drop_last(), taken);
        assert forall|i: int| 0 <= i < updates(file, taken).len() implies !taken.contains(
            (#[trigger] updates(file, taken)[i]).0,
        ) by {
            if i < before.len() {
                assert(updates(file, taken)[i] == before[i]);
            }
        }
    }
}

/// No variable is set twice.
pub proof fn law_no_variable_is_set_twice(file: Seq<Seq<char>>, taken: Set<Seq<char>>)
    ensures
        forall|i: int, j: int|
            0 <= i < j < updates(file, taken).len() ==> (#[trigger] updates(file, taken)[i]).0 != (
            #[trigger] updates(file, taken)[j]).0,
    decreases file.len(),
{
    if file.len() > 0 {
        let before = updates(file.drop_last(), taken);
        law_no_variable_is_set_twice(file.drop_last(), taken);
        assert forall|i: int, j: int| 0 <= i < j < updates(file, taken).len() implies (
        #[trigger] updates(file, taken)[i]).0 != (#[trigger] updates(file, taken)[j]).0 by {
            assert(updates(file, taken)[i] == before[i]);
            if j < before.len() {
                assert(updates(file, taken)[j] == before[j]);
            }
        }
    }
}

/// The first line of the file that sets a variable gives it its value, unless
/// it had one.
pub proof fn law_the_first_line_counts(
    file: Seq<Seq<char>>,
    taken: Set<Seq<char>>,
    n: int,
    name: Seq<char>,
    value: Seq<char>,
)
    requires
        0 <= n < file.len(),
        assignment(file[n]) == Some((name, value)),
        !taken.contains(name),
        forall|m: int| 0 <= m < n ==> !assigns(#[trigger] file[m], name),
    ensures
        updates(file, taken).contains((name, value)),
    decreases file.len(),
{
    let first = file.drop_last();
    let before = updates(first, taken);
    if n == file.len() - 1 {
        assert(!sets(before, name)) by {
            if sets(before, name) {
                lemma_set_by_some_line(first, taken, name);
                let m = choose|m: int| 0 <= m < first.len() && assigns(#[trigger] first[m], name);
                assert(first[m] == file[m]);
            }
        }
        assert(updates(file, taken).last() == (name, value));
    } else {
        assert forall|m: int| 0 <= m < n implies !assigns(#[trigger] first[m], name) by {
            assert(first[m] == file[m]);
        }
        law_the_first_line_counts(first, taken, n, name, value);
        let k = choose|k: int| 0 <= k < before.len() && before[k] == (name, value);
        assert(updates(file, taken)[k] == (name, value));
    }
}

/// What is set is set by some line.
proof fn lemma_set_by_some_line(file: Seq<Seq<char>>, taken: Set<Seq<char>>, name: Seq<char>)
    requires
        sets(updates(file, taken), name),
    ensures
        exists|m: int| 0 <= m < file.len() && assigns(#[trigger] file[m], name),
    decreases file.len(),
{
    let all = updates(file, taken);
    let i = choose|i: int| 0 <= i < all.len() && #[trigger] all[i].0 == name;
    let first = file.drop_last();
    let before = updates(first, taken);
    if i < before.len() {
        assert(before[i].0 == name);
        lemma_set_by_some_line(first, taken, name);
        let m = choose|m: int| 0 <= m < first.len() && assigns(#[trigger] first[m], name);
        assert(assigns(file[m], name));
    } else {
        assert(assigns(file[file.len() - 1], name));
    }
}

/// A name that a line can set: it neither begins nor ends with white space,
/// looks neither like a comment nor like `export`, and has no `=` in it.
pub open spec fn plain_name(name: Seq<char>) -> bool {
    &&& speech::bare(name)
    &&& name[0] != '#'
    &&& forall|i: int| 0 <= i < name.len() ==> #[trigger] name[i] != '='
    &&& !text::begins_with(name.push(' '), seq!['e', 'x', 'p', 'o', 'r', 't', ' '])
}

/// A value that is not in quotes.
pub open spec fn unquoted(value: Seq<char>) -> bool {
    value[0] != value.last() || value.len() == 1 || (value[0] != '"' && value[0] != '\'')
}

/// A line gives the variable before its first `=` the value after it, whatever
/// white space stands around them and whether or not it is exported. Quotes
/// around the value are not part of it.
pub proof fn law_a_line_sets_its_variable(
    exported: bool,
    name: Seq<char>,
    value: Seq<char>,
    a: Seq<char>,
    b: Seq<char>,
    c: Seq<char>,
    d: Seq<char>,
)
    requires
        plain_name(name),
        speech::bare(value),
        speech::blank(a),
        speech::blank(b),
        speech::blank(c),
        speech::blank(d),
    ensures
        ({
            let export = if exported {
                seq!['e', 'x', 'p', 'o', 'r', 't', ' ']
            } else {
                seq![]
            };
            let line = a + (export + name + b + seq!['='] + c + value) + d;
            assignment(line) == Some(
                (
                    name,
                    if unquoted(value) {
                        value
                    } else {
                        value.subrange(1, value.len() - 1)
                    },
                ),
            )
        }),
{
    let word = seq!['e', 'x', 'p', 'o', 'r', 't', ' '];
    let export = if exported {
        word
    } else {
        seq![]
    };
    reveal_strlit("export ");
    assert("export "@ =~= word);
    let rest = name + b + seq!['='] + c + value;
    let core = export + name + b + seq!['='] + c + value;
    assert(core =~= export + rest);
    let line = a + core + d;
    assert(core.last() == value.last());
    assert(core[0] == (if exported {
        'e'
    } else {
        name[0]
    }));
    assert(!text::is_space('e'));
    speech::law_trimming_bares_the_text(a, core, d);
    if exported {
        assert(core.take(7) =~= word);
        assert(core.skip(7) =~= rest);
    } else {
        assert(core =~= rest);
        lemma_export_is_not_begun(name, b, c, value, word);
    }
    assert(text::without_prefix(core, "export "@) == rest);
    lemma_named(name, b, c, value);
}

/// The name is what stands before the first `=`.
proof fn lemma_named(name: Seq<char>, b: Seq<char>, c: Seq<char>, value: Seq<char>)
    requires
        plain_name(name),
        speech::bare(value),
        speech::blank(b),
        speech::blank(c),
    ensures
        ({
            let rest = name + b + seq!['='] + c + value;
            let i = (name.len() + b.len()) as int;
            &&& text::trim(rest) == rest
            &&& text::find_from(rest, seq!['='], 0) == Some(i)
            &&& text::trim(rest.take(i)) == name
            &&& text::trim(rest.skip(i + 1)) == value
        }),
{
    let rest = name + b + seq!['='] + c + value;
    assert(rest[0] == name[0] && rest.last() == value.last());
    speech::law_trimming_bares_the_text(seq![], rest, seq![]);
    assert(seq![] + rest + seq![] =~= rest);
    let i = (name.len() + b.len()) as int;
    lemma_no_equals_sign(name, b);
    lemma_equals_sign(name + b, c + value);
    assert(rest =~= (name + b) + seq!['='] + (c + value));
    assert(rest.take(i) =~= seq![] + name + b);
    speech::law_trimming_bares_the_text(seq![], name, b);
    assert(rest.skip(i + 1) =~= c + value + seq![]);
    speech::law_trimming_bares_the_text(c, value, seq![]);
}

/// The first `=` is the one that no other stands before.
proof fn lemma_equals_sign(before: Seq<char>, after: Seq<char>)
    requires
        forall|i: int| 0 <= i < before.len() ==> #[trigger] before[i] != '=',
    ensures
        text::find_from(before + seq!['='] + after, seq!['='], 0) == Some(before.len() as int),
{
    let s = before + seq!['='] + after;
    let i = before.len() as int;
    assert(s.subrange(i, i + 1) =~= seq!['=']);
    assert(text::occurs_at(s, seq!['='], i));
    text::lemma_find_from(s, seq!['='], 0);
    let k = text::find_from(s, seq!['='], 0)->0;
    if k < i {
        assert(s.subrange(k, k + 1)[0] == '=');
        assert(s[k] == before[k]);
    }
}

/// White space is no `=`.
proof fn lemma_no_equals_sign(name: Seq<char>, b: Seq<char>)
    requires
        plain_name(name),
        speech::blank(b),
    ensures
        forall|i: int| 0 <= i < (name + b).len() ==> #[trigger] (name + b)[i] != '=',
{
    assert forall|i: int| 0 <= i < (name + b).len() implies #[trigger] (name + b)[i] != '=' by {
        if i >= name.len() {
            assert((name + b)[i] == b[i - name.len()]);
            assert(text::is_space(b[i - name.len()]));
        } else {
            assert((name + b)[i] == name[i]);
        }
    }
}

/// What is not exported does not begin as if it were.
proof fn lemma_export_is_not_begun(
    name: Seq<char>,
    b: Seq<char>,
    c: Seq<char>,
    value: Seq<char>,
    word: Seq<char>,
)
    requires
        plain_name(name),
        speech::blank(b),
        word == seq!['e', 'x', 'p', 'o', 'r', 't', ' '],
    ensures
        !text::begins_with(name + b + seq!['='] + c + value, word),
{
    let rest = name + b + seq!['='] + c + value;
    let n = name.len() as int;
    if text::begins_with(rest, word) {
        assert forall|i: int| 0 <= i < 7 implies rest[i] == word[i] by {
            assert(rest.take(7)[i] == word[i]);
        }
        if n >= 6 {
            let named = name.push(' ');
            assert forall|i: int| 0 <= i < 7 implies #[trigger] named[i] == word[i] by {
                if i < n {
                    assert(rest[i] == name[i]);
                }
            }
            assert(named.take(7) =~= word);
        } else {
            assert(rest[n] == word[n]);
            if b.len() > 0 {
                assert(rest[n] == b[0] && text::is_space(b[0]));
            } else {
                assert(rest[n] == '=');
            }
        }
    }
}

/// Comments and lines without `=` set nothing.
pub proof fn law_comments_set_nothing(a: Seq<char>, core: Seq<char>, d: Seq<char>)
    requires
        speech::blank(a),
        speech::blank(d),
        speech::bare(core),
        core[0] == '#' || forall|i: int| 0 <= i < core.len() ==> #[trigger] core[i] != '=',
    ensures
        assignment(a + core + d) is None,
{
    speech::law_trimming_bares_the_text(a, core, d);
    if core[0] != '#' {
        let rest = text::without_prefix(core, "export "@);
        let line = text::trim(rest);
        text::lemma_find_from(line, seq!['='], 0);
        if let Some(i) = text::find_from(line, seq!['='], 0) {
            assert(line.subrange(i, i + 1)[0] == '=');
            speech::lemma_trim_part(rest);
            let k = choose|k: int|
                0 <= k && k + line.len() <= rest.len() && #[trigger] rest.subrange(
                    k,
                    k + line.len(),
                ) == line;
            assert(rest.subrange(k, k + line.len())[i] == rest[k + i]);
            let m = core.len() - rest.len();
            assert(core[m + k + i] == rest[k + i]);
        }
    }
}

} // verus!
