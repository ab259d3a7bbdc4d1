//! JSON documents: paths through them and the text they hold.

use vstd::prelude::*;
use vstd::string::*;

use crate::text;
use crate::text::{same_text, split_text};

verus! {

/// A JSON document. A number is held in its text form; the members of an
/// object stand in the order in which they are walked, each key once.
#[derive(Debug, PartialEq)]
pub enum Json {
    Null,
    Bool(bool),
    Number(String),
    Text(String),
    List(Vec<Json>),
    Object(Vec<(String, Json)>),
}

/// A JSON document as a mathematical value.
pub enum JsonView {
    Null,
    Bool(bool),
    Number(Seq<char>),
    Text(Seq<char>),
    List(Seq<JsonView>),
    Object(Seq<(Seq<char>, JsonView)>),
}

impl View for Json {
    type V = JsonView;

    closed spec fn view(&self) -> JsonView {
        view_of(*self)
    }
}

pub closed spec fn view_of(doc: Json) -> JsonView
    decreases doc,
{
    match doc {
        Json::Null => JsonView::Null,
        Json::Bool(b) => JsonView::Bool(b),
        Json::Number(n) => JsonView::Number(n@),
        Json::Text(s) => JsonView::Text(s@),
        Json::List(items) => JsonView::List(
            Seq::new(
                items@.len(),
                |i: int|
                    if 0 <= i < items@.len() {
                        view_of(items@[i])
                    } else {
                        JsonView::Null
                    },
            ),
        ),
        Json::Object(members) => JsonView::Object(
            Seq::new(
                members@.len(),
                |i: int|
                    if 0 <= i < members@.len() {
                        (members@[i].0@, view_of(members@[i].1))
                    } else {
                        (Seq::empty(), JsonView::Null)
                    },
            ),
        ),
    }
}

/// The views of the items of a list.
pub open spec fn items_view(items: Seq<Json>) -> Seq<JsonView> {
    items.map_values(|j: Json| j@)
}

/// The views of the members of an object.
pub open spec fn members_view(members: Seq<(String, Json)>) -> Seq<(Seq<char>, JsonView)> {
    members.map_values(|m: (String, Json)| (m.0@, m.1@))
}

/// The view of each form of document.
pub broadcast proof fn lemma_view(doc: Json)
    ensures
        #[trigger] doc@ == (match doc {
            Json::Null => JsonView::Null,
            Json::Bool(b) => JsonView::Bool(b),
            Json::Number(n) => JsonView::Number(n@),
            Json::Text(s) => JsonView::Text(s@),
            Json::List(items) => JsonView::List(items_view(items@)),
            Json::Object(members) => JsonView::Object(members_view(members@)),
        }),
{
    match doc {
        Json::List(items) => {
            assert(doc@->List_0 =~= items_view(items@));
        },
        Json::Object(members) => {
            assert(doc@->Object_0 =~= members_view(members@));
        },
        _ => {},
    }
}

/// `serde_json::Value`, a parsed document.
#[verifier::external_type_specification]
#[verifier::external_body]
pub struct ExValue(serde_json::Value);

/// What a `serde_json::Value` holds.
pub uninterp spec fn value_view(value: serde_json::Value) -> JsonView;

/// What `serde_json::from_str` makes of a text, where it accepts it.
pub uninterp spec fn json_in(text: Seq<char>) -> Option<JsonView>;

/// Calls `serde_json::from_str`. Whether the text is accepted, and what
/// document it then is, depends on the text alone.
#[verifier::external_body]
fn value_from_text(text: &str) -> (r: Option<serde_json::Value>)
    ensures
        match r {
            Some(value) => json_in(text@) == Some(value_view(value)),
            None => json_in(text@) is None,
        },
{
    serde_json::from_str::<serde_json::Value>(text).ok()
}

/// Takes a `serde_json::Value` apart, variant by variant; a number becomes the
/// text that `serde_json::Number` prints, and members keep the order in which
/// `serde_json::Map` hands them out.
#[verifier::external_body]
fn json_of_value(value: serde_json::Value) -> (r: Json)
    ensures
        r@ == value_view(value),
{
    match value {
        serde_json::Value::Null => Json::Null,
        serde_json::Value::Bool(b) => Json::Bool(b),
        serde_json::Value::Number(n) => Json::Number(n.to_string()),
        serde_json::Value::String(s) => Json::Text(s),
        serde_json::Value::Array(a) => Json::List(a.into_iter().map(json_of_value).collect()),
        serde_json::Value::Object(m) => Json::Object(
            m.into_iter().map(|(k, v)| (k, json_of_value(v))).collect(),
        ),
    }
}

/// Parses a JSON text.
pub fn parse_json(text: &str) -> (r: Option<Json>)
    ensures
        match r {
            Some(doc) => json_in(text@) == Some(doc@),
            None => json_in(text@) is None,
        },
{
    match value_from_text(text) {
        Some(value) => Some(json_of_value(value)),
        None => None,
    }
}

/// The value of `key` among the members of an object.
pub open spec fn member(members: Seq<(Seq<char>, JsonView)>, key: Seq<char>) -> Option<JsonView>
    decreases members.len(),
{
    if members.len() == 0 {
        None
    } else if members[0].0 == key {
        Some(members[0].1)
    } else {
        member(members.drop_first(), key)
    }
}

/// One step along a path: an empty segment stays, any other goes to the
/// member of that name.
pub open spec fn step(doc: JsonView, segment: Seq<char>) -> Option<JsonView> {
    if segment.len() == 0 {
        Some(doc)
    } else {
        match doc {
            JsonView::Object(members) => member(members, segment),
            _ => None,
        }
    }
}

/// Where a path of segments leads from `doc`.
pub open spec fn walk_path(doc: JsonView, segments: Seq<Seq<char>>) -> Option<JsonView>
    decreases segments.len(),
{
    if segments.len() == 0 {
        Some(doc)
    } else {
        match step(doc, segments[0]) {
            Some(next) => walk_path(next, segments.drop_first()),
            None => None,
        }
    }
}

/// What stands at a dotted path.
pub open spec fn at_path(doc: JsonView, path: Seq<char>) -> Option<JsonView> {
    walk_path(doc, text::split(path, '.'))
}

/// The key under which a scalar is indexed.
pub open spec fn scalar_text(doc: JsonView) -> Option<Seq<char>> {
    match doc {
        JsonView::Bool(b) => Some(
            if b {
                "true"@
            } else {
                "false"@
            },
        ),
        JsonView::Number(n) => Some(n),
        JsonView::Text(s) => Some(s),
        _ => None,
    }
}

/// The position of the first member named `key`.
fn find_member(members: &Vec<(String, Json)>, key: &str) -> (r: Option<usize>)
    ensures
        match r {
            Some(i) => i < members@.len() && member(members_view(members@), key@) == Some(
                members@[i as int].1@,
            ),
            None => member(members_view(members@), key@) is None,
        },
{
    let ghost all = members_view(members@);
    let mut i: usize = 0;
    assert(all.skip(0) =~= all);
    while i < members.len()
        invariant
            all == members_view(members@),
            i <= members@.len(),
            member(all, key@) == member(all.skip(i as int), key@),
        decreases members@.len() - i,
    {
        assert(all.skip(i as int).drop_first() =~= all.skip(i + 1));
        if same_text(members[i].0.as_str(), key) {
            return Some(i);
        }
        i += 1;
    }
    None
}

/// Walks a dot-separated path through a document by object keys.
pub fn extract_path<'a>(doc: &'a Json, path: &str) -> (r: Option<&'a Json>)
    ensures
        match r {
            Some(found) => at_path(doc@, path@) == Some(found@),
            None => at_path(doc@, path@) is None,
        },
{
    broadcast use lemma_view;

    let segments = split_text(path, '.');
    let ghost all = text::texts(segments@);
    let mut current: &'a Json = doc;
    let mut i: usize = 0;
    assert(all.skip(0) =~= all);
    while i < segments.len()
        invariant
            all == text::texts(segments@),
            all == text::split(path@, '.'),
            i <= segments@.len(),
            walk_path(doc@, all) == walk_path(current@, all.skip(i as int)),
        decreases segments@.len() - i,
    {
        broadcast use lemma_view;

        let segment = segments[i].as_str();
        proof {
            assert(all.skip(i as int).drop_first() =~= all.skip(i + 1));
            assert(all.skip(i as int)[0] == segment@);
        }
        if text_empty(segment) {
            i += 1;
            continue ;
        }
        match current {
            Json::Object(members) => {
                match find_member(members, segment) {
                    Some(at) => {
                        current = &members[at].1;
                    },
                    None => {
                        return None;
                    },
                }
            },
            _ => {
                return None;
            },
        }
        i += 1;
    }
    Some(current)
}

/// Whether a text has no characters.
fn text_empty(s: &str) -> (r: bool)
    ensures
        r == (s@.len() == 0),
{
    s.unicode_len() == 0
}

/// The text form of a scalar, by which it is indexed; nothing for null, lists
/// and objects.
pub fn scalar_key_text(v: &Json) -> (r: Option<String>)
    ensures
        match r {
            Some(s) => scalar_text(v@) == Some(s@),
            None => scalar_text(v@) is None,
        },
{
    broadcast use lemma_view;

    match v {
        Json::Bool(b) => if *b {
            Some("true".to_owned())
        } else {
            Some("false".to_owned())
        },
        Json::Number(n) => Some(n.clone()),
        Json::Text(s) => Some(s.clone()),
        _ => None,
    }
}

/// The text leaves of a document, in order.
pub open spec fn leaves(doc: JsonView) -> Seq<Seq<char>>
    decreases doc,
{
    match doc {
        JsonView::Text(s) => seq![s],
        JsonView::List(items) => leaves_of_items(items),
        JsonView::Object(members) => leaves_of_members(members),
        _ => seq![],
    }
}

pub open spec fn leaves_of_items(items: Seq<JsonView>) -> Seq<Seq<char>>
    decreases items,
{
    if items.len() == 0 {
        seq![]
    } else {
        leaves_of_items(items.drop_last()) + leaves(items[items.len() - 1])
    }
}

pub open spec fn leaves_of_members(members: Seq<(Seq<char>, JsonView)>) -> Seq<Seq<char>>
    decreases members,
{
    if members.len() == 0 {
        seq![]
    } else {
        leaves_of_members(members.drop_last()) + leaves(members[members.len() - 1].1)
    }
}

/// `out` with each word added behind a space, except where `out` is still
/// empty.
pub open spec fn with_words(out: Seq<char>, words: Seq<Seq<char>>) -> Seq<char>
    decreases words.len(),
{
    if words.len() == 0 {
        out
    } else {
        let before = with_words(out, words.drop_last());
        if before.len() == 0 {
            words.last()
        } else {
            before.push(' ') + words.last()
        }
    }
}

/// Words added in two goes.
pub proof fn lemma_with_words_split(out: Seq<char>, a: Seq<Seq<char>>, b: Seq<Seq<char>>)
    ensures
        with_words(out, a + b) == with_words(with_words(out, a), b),
    decreases b.len(),
{
    if b.len() == 0 {
        assert(a + b =~= a);
    } else {
        lemma_with_words_split(out, a, b.drop_last());
        assert((a + b).drop_last() =~= a + b.drop_last());
    }
}

/// Adds every text leaf of a document to `out`, with a space between them.
pub fn collect_json_strings(v: &Json, out: &mut String)
    ensures
        final(out)@ == with_words(old(out)@, leaves(v@)),
    decreases v,
{
    broadcast use lemma_view;

    match v {
        Json::Text(s) => {
            proof {
                assert(seq![s@].drop_last() =~= Seq::<Seq<char>>::empty());
                reveal_with_fuel(with_words, 2);
            }
            if !text_empty(out.as_str()) {
                out.push(' ');
            }
            out.append(s.as_str());
            assert(out@ =~= with_words(old(out)@, leaves(v@)));
        },
        Json::List(items) => {
            let ghost all = items_view(items@);
            let ghost before = out@;
            let mut i: usize = 0;
            assert(all.take(0) =~= Seq::<JsonView>::empty());
            while i < items.len()
                invariant
                    all == items_view(items@),
                    *v == Json::List(*items),
                    i <= items@.len(),
                    out@ == with_words(before, leaves_of_items(all.take(i as int))),
                decreases items@.len() - i,
            {
                broadcast use lemma_view;

                proof {
                    assert(decreases_to!(v => v->List_0));
                    assert(decreases_to!(v->List_0 => v->List_0@));
                    assert(decreases_to!(items@ => items@[i as int]));
                    assert(all.take(i + 1).drop_last() =~= all.take(i as int));
                    lemma_with_words_split(
                        before,
                        leaves_of_items(all.take(i as int)),
                        leaves(items@[i as int]@),
                    );
                }
                collect_json_strings(&items[i], out);
                i += 1;
            }
            assert(all.take(items@.len() as int) =~= all);
        },
        Json::Object(members) => {
            let ghost all = members_view(members@);
            let ghost before = out@;
            let mut i: usize = 0;
            assert(all.take(0) =~= Seq::<(Seq<char>, JsonView)>::empty());
            while i < members.len()
                invariant
                    all == members_view(members@),
                    *v == Json::Object(*members),
                    i <= members@.len(),
                    out@ == with_words(before, leaves_of_members(all.take(i as int))),
                decreases members@.len() - i,
            {
                broadcast use lemma_view;

                proof {
                    assert(decreases_to!(v => v->Object_0));
                    assert(decreases_to!(v->Object_0 => v->Object_0@));
                    assert(decreases_to!(members@ => members@[i as int]));
                    assert(decreases_to!(members@[i as int] => members@[i as int].1));
                    assert(all.take(i + 1).drop_last() =~= all.take(i as int));
                    lemma_with_words_split(
                        before,
                        leaves_of_members(all.take(i as int)),
                        leaves(members@[i as int].1@),
                    );
                }
                collect_json_strings(&members[i].1, out);
                i += 1;
            }
            assert(all.take(members@.len() as int) =~= all);
        },
        _ => {
            assert(leaves(v@) =~= Seq::<Seq<char>>::empty());
        },
    }
}

/// A member of an object is the first of its name.
pub proof fn law_member_is_the_first_of_its_name(
    members: Seq<(Seq<char>, JsonView)>,
    key: Seq<char>,
)
    ensures
        match member(members, key) {
            Some(v) => exists|i: int|
                0 <= i < members.len() && (#[trigger] members[i]) == (key, v) && forall|j: int|
                    0 <= j < i ==> (#[trigger] members[j]).0 != key,
            None => forall|j: int| 0 <= j < members.len() ==> (#[trigger] members[j]).0 != key,
        },
    decreases members.len(),
{
    if members.len() > 0 {
        let rest = members.drop_first();
        law_member_is_the_first_of_its_name(rest, key);
        assert forall|j: int| 0 < j < members.len() implies #[trigger] members[j]
            == rest[j - 1] by {}
        if members[0].0 != key {
            match member(rest, key) {
                Some(v) => {
                    let i = choose|i: int|
                        0 <= i < rest.len() && (#[trigger] rest[i]) == (key, v) && forall|j: int|
                            0 <= j < i ==> (#[trigger] rest[j]).0 != key;
                    assert(members[i + 1] == (key, v));
                    assert forall|j: int| 0 <= j < i + 1 implies (#[trigger] members[j]).0
                        != key by {
                        if j > 0 {
                            assert(rest[j - 1].0 != key);
                        }
                    }
                },
                None => {},
            }
        } else {
            assert(members[0] == (key, members[0].1));
        }
    }
}

/// A path of names with dots between them leads from member to member; through
/// anything but an object it leads nowhere.
pub proof fn law_path_leads_from_member_to_member(
    doc: JsonView,
    name: Seq<char>,
    rest: Seq<char>,
)
    requires
        name.len() > 0,
        !name.contains('.'),
    ensures
        at_path(doc, name) == (match doc {
            JsonView::Object(members) => member(members, name),
            _ => None,
        }),
        at_path(doc, name + seq!['.'] + rest) == (match doc {
            JsonView::Object(members) => match member(members, name) {
                Some(next) => at_path(next, rest),
                None => None,
            },
            _ => None,
        }),
{
    let none = Seq::<char>::empty();
    assert forall|i: int| 0 <= i < name.len() implies name[i] != '.' by {
        assert(name.contains(name[i]));
    }
    text::lemma_split_head(name, none, '.');
    assert(name + none =~= name);
    assert(text::split(none, '.') =~= seq![none]);
    assert(text::split(name, '.') =~= seq![name]);
    let tail = seq!['.'] + rest;
    text::lemma_split_head(name, tail, '.');
    assert(tail.drop_first() =~= rest);
    assert(name + tail =~= name + seq!['.'] + rest);
    let all = text::split(name + seq!['.'] + rest, '.');
    text::lemma_split_len(rest, '.');
    assert(all =~= seq![name] + text::split(rest, '.'));
    assert(all.drop_first() =~= text::split(rest, '.'));
    reveal_with_fuel(walk_path, 3);
    assert(seq![name].drop_first() =~= Seq::<Seq<char>>::empty());
}

/// Truth values, numbers and texts have a text of their own; nothing else has.
pub proof fn law_only_scalars_have_a_text(doc: JsonView)
    ensures
        match doc {
            JsonView::Bool(b) => scalar_text(doc) == Some(
                if b {
                    seq!['t', 'r', 'u', 'e']
                } else {
                    seq!['f', 'a', 'l', 's', 'e']
                },
            ),
            JsonView::Number(n) => scalar_text(doc) == Some(n),
            JsonView::Text(s) => scalar_text(doc) == Some(s),
            _ => scalar_text(doc) is None,
        },
{
    reveal_strlit("true");
    reveal_strlit("false");
    assert("true"@ =~= seq!['t', 'r', 'u', 'e']);
    assert("false"@ =~= seq!['f', 'a', 'l', 's', 'e']);
}

/// The texts in a document are gathered from its front to its end, from the values
/// of its members and never from their names.
pub proof fn law_texts_are_gathered_in_order(
    items: Seq<JsonView>,
    last: JsonView,
    members: Seq<(Seq<char>, JsonView)>,
    name: Seq<char>,
    s: Seq<char>,
)
    ensures
        leaves(JsonView::Text(s)) == seq![s],
        leaves(JsonView::List(items.push(last))) == leaves(JsonView::List(items)) + leaves(last),
        leaves(JsonView::Object(members.push((name, last)))) == leaves(JsonView::Object(members))
            + leaves(last),
        leaves(JsonView::List(Seq::empty())).len() == 0,
        leaves(JsonView::Object(Seq::empty())).len() == 0,
        leaves(JsonView::Null).len() == 0,
{
    assert(items.push(last).drop_last() =~= items);
    assert(members.push((name, last)).drop_last() =~= members);
}

/// Texts are put together with one space between them.
pub proof fn law_texts_are_parted_by_spaces(words: Seq<Seq<char>>)
    requires
        forall|i: int| 0 <= i < words.len() ==> (#[trigger] words[i]).len() > 0,
    ensures
        with_words(Seq::empty(), words) == text::joined(words, ' '),
    decreases words.len(),
{
    if words.len() > 0 {
        let head = words.drop_last();
        let last = words.last();
        assert(words[words.len() - 1] == last);
        assert forall|i: int| 0 <= i < head.len() implies (#[trigger] head[i]).len() > 0 by {
            assert(head[i] == words[i]);
        }
        law_texts_are_parted_by_spaces(head);
        if head.len() > 0 {
            text::lemma_joined_parts(head, seq![last], ' ');
            assert(head + seq![last] =~= words);
            assert(head[0].len() > 0);
            assert(text::joined(head, ' ').len() > 0);
            assert(text::joined(head, ' ').push(' ') + last =~= text::joined(words, ' '));
        } else {
            assert(head =~= Seq::<Seq<char>>::empty());
        }
    }
}

} // verus!
