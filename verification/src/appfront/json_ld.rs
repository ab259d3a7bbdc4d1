//! Structured data about a page, in the vocabulary of schema.org.

use vstd::prelude::*;
use vstd::string::*;

use super::ui_tree;
use super::ui_tree::{MediaType, NodeKind, UITree};
use crate::json;
use crate::json::Json;
use crate::text;
use crate::text::same_text;

verus! {

/// The members of an object.
pub type Members = Seq<(Seq<char>, json::JsonView)>;

/// The members with one set: in the place of its old value, else at the end.
pub open spec fn with_member(ms: Members, key: Seq<char>, value: json::JsonView) -> Members
    decreases ms.len(),
{
    if ms.len() == 0 {
        seq![(key, value)]
    } else if ms[0].0 == key {
        ms.update(0, (key, value))
    } else {
        seq![ms[0]] + with_member(ms.drop_first(), key, value)
    }
}

proof fn lemma_with_member_at(ms: Members, i: int, key: Seq<char>, value: json::JsonView)
    requires
        0 <= i <= ms.len(),
        forall|j: int| 0 <= j < i ==> (#[trigger] ms[j]).0 != key,
        i < ms.len() ==> ms[i].0 == key,
    ensures
        with_member(ms, key, value) == if i < ms.len() {
            ms.update(i, (key, value))
        } else {
            ms.push((key, value))
        },
    decreases i,
{
    if i > 0 {
        let rest = ms.drop_first();
        assert(ms[0].0 != key);
        assert forall|j: int| 0 <= j < i - 1 implies (#[trigger] rest[j]).0 != key by {
            assert(ms[j + 1].0 != key);
        }
        lemma_with_member_at(rest, i - 1, key, value);
        if i < ms.len() {
            assert(with_member(ms, key, value) =~= ms.update(i, (key, value)));
        } else {
            assert(with_member(ms, key, value) =~= ms.push((key, value)));
        }
    } else if ms.len() == 0 {
        assert(with_member(ms, key, value) =~= ms.push((key, value)));
    }
}

/// A member that was set is read back, and the others stay.
pub proof fn law_set_member_is_read_back(
    ms: Members,
    key: Seq<char>,
    value: json::JsonView,
    other: Seq<char>,
)
    ensures
        json::member(with_member(ms, key, value), other) == if other == key {
            Some(value)
        } else {
            json::member(ms, other)
        },
    decreases ms.len(),
{
    let all = with_member(ms, key, value);
    if ms.len() == 0 {
        assert(all.drop_first() =~= Seq::empty());
        reveal_with_fuel(json::member, 2);
    } else if ms[0].0 == key {
        assert(all.drop_first() =~= ms.drop_first());
    } else {
        assert(all.drop_first() =~= with_member(ms.drop_first(), key, value));
        law_set_member_is_read_back(ms.drop_first(), key, value, other);
    }
}

fn put(ms: &mut Vec<(String, Json)>, key: &str, value: Json)
    ensures
        json::members_view(final(ms)@) == with_member(
            json::members_view(old(ms)@),
            key@,
            value@,
        ),
{
    let ghost all = json::members_view(ms@);
    let mut i: usize = 0;
    while i < ms.len() && !same_text(ms[i].0.as_str(), key)
        invariant
            *ms == *old(ms),
            all == json::members_view(ms@),
            i <= ms@.len(),
            forall|j: int| 0 <= j < i ==> (#[trigger] all[j]).0 != key@,
        decreases ms@.len() - i,
    {
        i += 1;
    }
    proof {
        lemma_with_member_at(all, i as int, key@, value@);
    }
    if i < ms.len() {
        ms[i] = (key.to_owned(), value);
        assert(json::members_view(ms@) =~= all.update(i as int, (key@, value@)));
    } else {
        ms.push((key.to_owned(), value));
        assert(json::members_view(ms@) =~= all.push((key@, value@)));
    }
}

/// A text as a document.
pub open spec fn txt(s: Seq<char>) -> json::JsonView {
    json::JsonView::Text(s)
}

fn text_doc(s: &str) -> (r: Json)
    ensures
        r@ == txt(s@),
{
    broadcast use json::lemma_view;

    Json::Text(s.to_owned())
}

fn put_text(ms: &mut Vec<(String, Json)>, key: &str, value: &str)
    ensures
        json::members_view(final(ms)@) == with_member(
            json::members_view(old(ms)@),
            key@,
            txt(value@),
        ),
{
    put(ms, key, text_doc(value));
}

fn object(ms: Vec<(String, Json)>) -> (r: Json)
    ensures
        r@ == json::JsonView::Object(json::members_view(ms@)),
{
    broadcast use json::lemma_view;

    Json::Object(ms)
}

fn list(items: Vec<Json>) -> (r: Json)
    ensures
        r@ == json::JsonView::List(json::items_view(items@)),
{
    broadcast use json::lemma_view;

    Json::List(items)
}

fn no_members() -> (ms: Vec<(String, Json)>)
    ensures
        json::members_view(ms@) == Members::empty(),
{
    let ms: Vec<(String, Json)> = Vec::new();
    assert(json::members_view(ms@) =~= Members::empty());
    ms
}

/// The members of a plain page element, with its description where it has one.
pub open spec fn element<Msg>(meta: ui_tree::MetaView<Msg>) -> Members {
    let ms = with_member(Members::empty(), "@type"@, txt("WebPageElement"@));
    match meta.description {
        Some(d) => with_member(ms, "description"@, txt(d)),
        None => ms,
    }
}

fn web_page_element<Msg>(meta: &ui_tree::NodeMeta<Msg>) -> (ms: Vec<(String, Json)>)
    ensures
        json::members_view(ms@) == element(meta@),
{
    let mut ms = no_members();
    put_text(&mut ms, "@type", "WebPageElement");
    match &meta.ai.description {
        Some(d) => {
            put_text(&mut ms, "description", d.as_str());
        },
        None => {},
    }
    ms
}

/// Parameters as members; of two with one name the last counts.
pub open spec fn params_of(params: Seq<(Seq<char>, Seq<char>)>) -> Members
    decreases params.len(),
{
    if params.len() == 0 {
        Members::empty()
    } else {
        with_member(params_of(params.drop_last()), params.last().0, txt(params.last().1))
    }
}

/// The object that stands for an action.
pub open spec fn action_of(
    name: Seq<char>,
    action: Seq<char>,
    params: Seq<(Seq<char>, Seq<char>)>,
) -> json::JsonView {
    let entry = with_member(
        with_member(Members::empty(), "@type"@, txt("EntryPoint"@)),
        "action"@,
        txt(action),
    );
    let target = if params.len() > 0 {
        with_member(entry, "actionParams"@, json::JsonView::Object(params_of(params)))
    } else {
        entry
    };
    json::JsonView::Object(
        with_member(
            with_member(
                with_member(Members::empty(), "@type"@, txt("Action"@)),
                "name"@,
                txt(name),
            ),
            "target"@,
            json::JsonView::Object(target),
        ),
    )
}

fn action_entry(name: &str, action: &str, params: &Vec<(String, String)>) -> (r: Json)
    ensures
        r@ == action_of(name@, action@, ui_tree::pair_views(params@)),
{
    let ghost all = ui_tree::pair_views(params@);
    let mut target = no_members();
    put_text(&mut target, "@type", "EntryPoint");
    put_text(&mut target, "action", action);
    if params.len() > 0 {
        let mut p = no_members();
        let mut i: usize = 0;
        assert(all.take(0) =~= Seq::<(Seq<char>, Seq<char>)>::empty());
        while i < params.len()
            invariant
                all == ui_tree::pair_views(params@),
                i <= params@.len(),
                json::members_view(p@) == params_of(all.take(i as int)),
            decreases params@.len() - i,
        {
            proof {
                assert(all.take(i + 1).drop_last() =~= all.take(i as int));
                assert(all.take(i + 1).last() == all[i as int]);
            }
            put_text(&mut p, params[i].0.as_str(), params[i].1.as_str());
            i += 1;
        }
        assert(all.take(params@.len() as int) =~= all);
        put(&mut target, "actionParams", object(p));
    }
    let mut ms = no_members();
    put_text(&mut ms, "@type", "Action");
    put_text(&mut ms, "name", name);
    put(&mut ms, "target", object(target));
    object(ms)
}

/// Texts as a list.
pub open spec fn text_list(list: Seq<Seq<char>>) -> json::JsonView {
    json::JsonView::List(list.map_values(|s: Seq<char>| txt(s)))
}

fn texts_doc(items: &Vec<String>) -> (r: Json)
    ensures
        r@ == text_list(text::texts(items@)),
{
    let mut out: Vec<Json> = Vec::new();
    let mut i: usize = 0;
    while i < items.len()
        invariant
            i <= items@.len(),
            out@.len() == i,
            forall|k: int| 0 <= k < i ==> (#[trigger] out@[k])@ == txt(items@[k]@),
        decreases items@.len() - i,
    {
        out.push(text_doc(items[i].as_str()));
        i += 1;
    }
    assert(json::items_view(out@) =~= text::texts(items@).map_values(|s: Seq<char>| txt(s)));
    list(out)
}

/// The values of options, without their labels.
pub open spec fn option_values(options: Seq<(Seq<char>, Seq<char>)>) -> json::JsonView {
    json::JsonView::List(options.map_values(|o: (Seq<char>, Seq<char>)| txt(o.0)))
}

fn options_doc(options: &Vec<(String, String)>) -> (r: Json)
    ensures
        r@ == option_values(ui_tree::pair_views(options@)),
{
    let mut out: Vec<Json> = Vec::new();
    let mut i: usize = 0;
    while i < options.len()
        invariant
            i <= options@.len(),
            out@.len() == i,
            forall|k: int| 0 <= k < i ==> (#[trigger] out@[k])@ == txt(options@[k].0@),
        decreases options@.len() - i,
    {
        out.push(text_doc(options[i].0.as_str()));
        i += 1;
    }
    assert(json::items_view(out@) =~= ui_tree::pair_views(options@).map_values(
        |o: (Seq<char>, Seq<char>)| txt(o.0),
    ));
    list(out)
}

/// The rows of a table.
pub open spec fn row_list(rows: Seq<Seq<Seq<char>>>) -> json::JsonView {
    json::JsonView::List(rows.map_values(|r: Seq<Seq<char>>| text_list(r)))
}

fn rows_doc(rows: &Vec<Vec<String>>) -> (r: Json)
    ensures
        r@ == row_list(ui_tree::row_views(rows@)),
{
    let mut out: Vec<Json> = Vec::new();
    let mut i: usize = 0;
    while i < rows.len()
        invariant
            i <= rows@.len(),
            out@.len() == i,
            forall|k: int|
                0 <= k < i ==> (#[trigger] out@[k])@ == text_list(text::texts(rows@[k]@)),
        decreases rows@.len() - i,
    {
        out.push(texts_doc(&rows[i]));
        i += 1;
    }
    assert(json::items_view(out@) =~= ui_tree::row_views(rows@).map_values(
        |r: Seq<Seq<char>>| text_list(r),
    ));
    list(out)
}

/// Texts with a comma and a space between them.
pub open spec fn joined(list: Seq<Seq<char>>) -> Seq<char>
    decreases list.len(),
{
    if list.len() == 0 {
        Seq::empty()
    } else if list.len() == 1 {
        list[0]
    } else {
        joined(list.drop_last()) + ", "@ + list.last()
    }
}

fn join(items: &Vec<String>) -> (s: String)
    ensures
        s@ == joined(text::texts(items@)),
{
    let ghost all = text::texts(items@);
    let mut s = String::new();
    let mut i: usize = 0;
    assert(all.take(0) =~= Seq::<Seq<char>>::empty());
    while i < items.len()
        invariant
            all == text::texts(items@),
            i <= items@.len(),
            s@ == joined(all.take(i as int)),
        decreases items@.len() - i,
    {
        proof {
            assert(all.take(i + 1).drop_last() =~= all.take(i as int));
            assert(all.take(i + 1).last() == all[i as int]);
        }
        let ghost before = s@;
        if i > 0 {
            s.append(", ");
        }
        s.append(items[i].as_str());
        proof {
            if i == 0 {
                assert(before =~= Seq::empty());
                assert(s@ =~= all[0]);
            }
        }
        i += 1;
    }
    assert(all.take(items@.len() as int) =~= all);
    s
}

/// The entry of one of the items of a list.
pub open spec fn list_item() -> json::JsonView {
    json::JsonView::Object(
        with_member(
            with_member(Members::empty(), "@type"@, txt("ListItem"@)),
            "position"@,
            json::JsonView::Number("0"@),
        ),
    )
}

fn list_item_doc() -> (r: Json)
    ensures
        r@ == list_item(),
{
    broadcast use json::lemma_view;

    let mut ms = no_members();
    put_text(&mut ms, "@type", "ListItem");
    put(&mut ms, "position", Json::Number("0".to_owned()));
    object(ms)
}

/// A list of `n` times the same.
pub open spec fn times(n: nat, doc: json::JsonView) -> json::JsonView {
    json::JsonView::List(Seq::new(n, |i: int| doc))
}

fn items_doc(n: usize) -> (r: Json)
    ensures
        r@ == times(n as nat, list_item()),
{
    let mut out: Vec<Json> = Vec::new();
    let mut i: usize = 0;
    while i < n
        invariant
            i <= n,
            out@.len() == i,
            forall|k: int| 0 <= k < i ==> (#[trigger] out@[k])@ == list_item(),
        decreases n - i,
    {
        out.push(list_item_doc());
        i += 1;
    }
    assert(json::items_view(out@) =~= Seq::new(n as nat, |i: int| list_item()));
    list(out)
}

fn nulls_doc(n: usize) -> (r: Json)
    ensures
        r@ == times(n as nat, json::JsonView::Null),
{
    broadcast use json::lemma_view;

    let mut out: Vec<Json> = Vec::new();
    let mut i: usize = 0;
    while i < n
        invariant
            i <= n,
            out@.len() == i,
            forall|k: int| 0 <= k < i ==> (#[trigger] out@[k])@ == json::JsonView::Null,
        decreases n - i,
    {
        broadcast use json::lemma_view;

        out.push(Json::Null);
        i += 1;
    }
    assert(json::items_view(out@) =~= Seq::new(n as nat, |i: int| json::JsonView::Null));
    list(out)
}

/// The members of a text field, with the action that sets it.
pub open spec fn field_of<Msg>(
    meta: ui_tree::MetaView<Msg>,
    name: Seq<char>,
    value: Seq<char>,
) -> Members {
    let ms = with_member(
        with_member(element(meta), "name"@, txt(name)),
        "value"@,
        txt(value),
    );
    match meta.action {
        Some(a) => with_member(
            ms,
            "potentialAction"@,
            action_of("Set "@ + value, a, meta.params),
        ),
        None => ms,
    }
}

fn field<Msg>(meta: &ui_tree::NodeMeta<Msg>, name: &str, value: &str) -> (ms: Vec<(String, Json)>)
    ensures
        json::members_view(ms@) == field_of(meta@, name@, value@),
{
    let mut ms = web_page_element(meta);
    put_text(&mut ms, "name", name);
    put_text(&mut ms, "value", value);
    match &meta.ai.action {
        Some(a) => {
            let mut label = "Set ".to_owned();
            label.append(value);
            put(
                &mut ms,
                "potentialAction",
                action_entry(label.as_str(), a.as_str(), &meta.ai.params),
            );
        },
        None => {},
    }
    ms
}

/// The members of a choice.
pub open spec fn choice_of<Msg>(
    meta: ui_tree::MetaView<Msg>,
    name: Seq<char>,
    options: Seq<(Seq<char>, Seq<char>)>,
    selected: Seq<char>,
) -> Members {
    with_member(
        with_member(with_member(element(meta), "name"@, txt(name)), "value"@, txt(selected)),
        "options"@,
        option_values(options),
    )
}

fn choice<Msg>(
    meta: &ui_tree::NodeMeta<Msg>,
    name: &str,
    options: &Vec<(String, String)>,
    selected: &str,
) -> (ms: Vec<(String, Json)>)
    ensures
        json::members_view(ms@) == choice_of(
            meta@,
            name@,
            ui_tree::pair_views(options@),
            selected@,
        ),
{
    let mut ms = web_page_element(meta);
    put_text(&mut ms, "name", name);
    put_text(&mut ms, "value", selected);
    put(&mut ms, "options", options_doc(options));
    ms
}

/// The entry of an element itself. One that moves its content elsewhere has
/// none.
pub open spec fn entry_of<Msg>(t: ui_tree::TreeView<Msg>) -> Option<json::JsonView> {
    let page = element(t.meta);
    match t.kind {
        ui_tree::KindView::Container(children) => Some(
            json::JsonView::Object(
                if children.len() > 0 {
                    with_member(
                        page,
                        "hasPart"@,
                        times(children.len(), json::JsonView::Null),
                    )
                } else {
                    page
                },
            ),
        ),
        ui_tree::KindView::Heading(_, s) => Some(
            json::JsonView::Object(with_member(page, "headline"@, txt(s))),
        ),
        ui_tree::KindView::Text(s) => Some(
            json::JsonView::Object(with_member(page, "text"@, txt(s))),
        ),
        ui_tree::KindView::Button(label) => Some(
            match t.meta.action {
                Some(a) => action_of(label, a, t.meta.params),
                None => if t.meta.on_click is Some {
                    action_of(label, "click"@, Seq::empty())
                } else {
                    json::JsonView::Object(with_member(page, "name"@, txt(label)))
                },
            },
        ),
        ui_tree::KindView::Input(value) => Some(
            json::JsonView::Object(field_of(t.meta, "input"@, value)),
        ),
        ui_tree::KindView::Textarea(value) => Some(
            json::JsonView::Object(field_of(t.meta, "textarea"@, value)),
        ),
        ui_tree::KindView::Checkbox(label, checked) => Some(
            json::JsonView::Object(
                with_member(
                    with_member(page, "name"@, txt(label)),
                    "value"@,
                    json::JsonView::Bool(checked),
                ),
            ),
        ),
        ui_tree::KindView::Select(options, selected) => Some(
            json::JsonView::Object(choice_of(t.meta, "select"@, options, selected)),
        ),
        ui_tree::KindView::Radio(name, options, selected) => Some(
            json::JsonView::Object(choice_of(t.meta, name, options, selected)),
        ),
        ui_tree::KindView::List(items) => Some(
            json::JsonView::Object(
                with_member(page, "itemListElement"@, times(items.len(), list_item())),
            ),
        ),
        ui_tree::KindView::DataGrid(columns, rows) => Some(
            json::JsonView::Object(
                with_member(
                    with_member(
                        with_member(
                            with_member(page, "@type"@, txt("Table"@)),
                            "about"@,
                            txt(joined(columns)),
                        ),
                        "columnList"@,
                        text_list(columns),
                    ),
                    "rows"@,
                    row_list(rows),
                ),
            ),
        ),
        ui_tree::KindView::Image(src, alt) => {
            let ms = with_member(
                with_member(
                    with_member(Members::empty(), "@type"@, txt("ImageObject"@)),
                    "contentUrl"@,
                    txt(src),
                ),
                "description"@,
                txt(alt),
            );
            Some(
                json::JsonView::Object(
                    match t.meta.description {
                        Some(d) => with_member(ms, "name"@, txt(d)),
                        None => ms,
                    },
                ),
            )
        },
        ui_tree::KindView::Link(href, s) => Some(
            json::JsonView::Object(
                with_member(
                    with_member(
                        with_member(page, "@type"@, txt("WebPageElement"@)),
                        "url"@,
                        txt(href),
                    ),
                    "name"@,
                    txt(s),
                ),
            ),
        ),
        ui_tree::KindView::Media(src, alt, media_type) => Some(
            json::JsonView::Object(
                with_member(
                    with_member(
                        with_member(
                            Members::empty(),
                            "@type"@,
                            txt(
                                match media_type {
                                    MediaType::Audio => "AudioObject"@,
                                    MediaType::Video => "VideoObject"@,
                                },
                            ),
                        ),
                        "contentUrl"@,
                        txt(src),
                    ),
                    "description"@,
                    txt(alt),
                ),
            ),
        ),
        ui_tree::KindView::Portal(_) => None,
    }
}

fn entry<Msg>(ui: &UITree<Msg>) -> (r: Option<Json>)
    ensures
        match r {
            Some(doc) => entry_of(ui@) == Some(doc@),
            None => entry_of(ui@) is None,
        },
{
    broadcast use json::lemma_view;

    proof {
        ui_tree::lemma_view(*ui);
    }
    let ms = match &ui.kind {
        NodeKind::Container { children } => {
            let mut ms = web_page_element(&ui.meta);
            if children.len() > 0 {
                put(&mut ms, "hasPart", nulls_doc(children.len()));
            }
            ms
        },
        NodeKind::Heading { text, .. } => {
            let mut ms = web_page_element(&ui.meta);
            put_text(&mut ms, "headline", text.as_str());
            ms
        },
        NodeKind::Text { text } => {
            let mut ms = web_page_element(&ui.meta);
            put_text(&mut ms, "text", text.as_str());
            ms
        },
        NodeKind::Button { label } => {
            match &ui.meta.ai.action {
                Some(a) => {
                    return Some(action_entry(label.as_str(), a.as_str(), &ui.meta.ai.params));
                },
                None => {},
            }
            if ui.meta.on_click.is_some() {
                let none: Vec<(String, String)> = Vec::new();
                assert(ui_tree::pair_views(none@) =~= Seq::<(Seq<char>, Seq<char>)>::empty());
                return Some(action_entry(label.as_str(), "click", &none));
            }
            let mut ms = web_page_element(&ui.meta);
            put_text(&mut ms, "name", label.as_str());
            ms
        },
        NodeKind::Input { value } => field(&ui.meta, "input", value.as_str()),
        NodeKind::Textarea { value } => field(&ui.meta, "textarea", value.as_str()),
        NodeKind::Checkbox { label, checked } => {
            let mut ms = web_page_element(&ui.meta);
            put_text(&mut ms, "name", label.as_str());
            put(&mut ms, "value", Json::Bool(*checked));
            ms
        },
        NodeKind::Select { options, selected } => choice(
            &ui.meta,
            "select",
            options,
            selected.as_str(),
        ),
        NodeKind::Radio { name, options, selected } => choice(
            &ui.meta,
            name.as_str(),
            options,
            selected.as_str(),
        ),
        NodeKind::List { items } => {
            let mut ms = web_page_element(&ui.meta);
            put(&mut ms, "itemListElement", items_doc(items.len()));
            ms
        },
        NodeKind::DataGrid { columns, rows } => {
            let mut ms = web_page_element(&ui.meta);
            put_text(&mut ms, "@type", "Table");
            let about = join(columns);
            put_text(&mut ms, "about", about.as_str());
            put(&mut ms, "columnList", texts_doc(columns));
            put(&mut ms, "rows", rows_doc(rows));
            ms
        },
        NodeKind::Image { src, alt } => {
            let mut ms = no_members();
            put_text(&mut ms, "@type", "ImageObject");
            put_text(&mut ms, "contentUrl", src.as_str());
            put_text(&mut ms, "description", alt.as_str());
            match &ui.meta.ai.description {
                Some(d) => {
                    put_text(&mut ms, "name", d.as_str());
                },
                None => {},
            }
            ms
        },
        NodeKind::Link { href, text } => {
            let mut ms = web_page_element(&ui.meta);
            put_text(&mut ms, "@type", "WebPageElement");
            put_text(&mut ms, "url", href.as_str());
            put_text(&mut ms, "name", text.as_str());
            ms
        },
        NodeKind::Media { src, alt, media_type } => {
            let mut ms = no_members();
            match media_type {
                MediaType::Audio => {
                    put_text(&mut ms, "@type", "AudioObject");
                },
                MediaType::Video => {
                    put_text(&mut ms, "@type", "VideoObject");
                },
            }
            put_text(&mut ms, "contentUrl", src.as_str());
            put_text(&mut ms, "description", alt.as_str());
            ms
        },
        NodeKind::Portal { .. } => {
            return None;
        },
    };
    Some(object(ms))
}

/// The entries of a tree: its own, then those below it, in order.
pub open spec fn graph_of<Msg>(t: ui_tree::TreeView<Msg>) -> Seq<json::JsonView>
    decreases t,
{
    let own = match entry_of(t) {
        Some(e) => seq![e],
        None => Seq::empty(),
    };
    match t.kind {
        ui_tree::KindView::Container(children) => own + graph_of_all(children),
        ui_tree::KindView::List(items) => own + graph_of_all(items),
        ui_tree::KindView::Portal(content) => own + graph_of(*content),
        _ => own,
    }
}

pub open spec fn graph_of_all<Msg>(ts: Seq<ui_tree::TreeView<Msg>>) -> Seq<json::JsonView>
    decreases ts,
{
    if ts.len() == 0 {
        Seq::empty()
    } else {
        graph_of_all(ts.drop_last()) + graph_of(ts[ts.len() - 1])
    }
}

/// Adds the entries of a tree to `graph`.
fn walk<Msg>(ui: &UITree<Msg>, graph: &mut Vec<Json>)
    ensures
        json::items_view(final(graph)@) == json::items_view(old(graph)@) + graph_of(ui@),
    decreases ui,
{
    proof {
        ui_tree::lemma_view(*ui);
    }
    let ghost start = json::items_view(graph@);
    let ghost own = match entry_of(ui@) {
        Some(e) => seq![e],
        None => Seq::empty(),
    };
    match entry(ui) {
        Some(e) => {
            graph.push(e);
            assert(json::items_view(graph@) =~= start + own);
        },
        None => {
            assert(json::items_view(graph@) =~= start + own);
        },
    }
    match &ui.kind {
        NodeKind::Container { children } => {
            proof {
                assert(decreases_to!(ui => ui.kind));
            }
            walk_all(children, graph);
            assert(json::items_view(graph@) =~= start + graph_of(ui@));
        },
        NodeKind::List { items } => {
            proof {
                assert(decreases_to!(ui => ui.kind));
            }
            walk_all(items, graph);
            assert(json::items_view(graph@) =~= start + graph_of(ui@));
        },
        NodeKind::Portal { content } => {
            proof {
                assert(decreases_to!(ui => ui.kind));
            }
            walk(content, graph);
            assert(json::items_view(graph@) =~= start + graph_of(ui@));
        },
        _ => {},
    }
}

fn walk_all<Msg>(list: &Vec<UITree<Msg>>, graph: &mut Vec<Json>)
    ensures
        json::items_view(final(graph)@) == json::items_view(old(graph)@) + graph_of_all(
            ui_tree::trees(list@),
        ),
    decreases list,
{
    let ghost all = ui_tree::trees(list@);
    let ghost start = json::items_view(graph@);
    let mut i: usize = 0;
    assert(all.take(0) =~= Seq::<ui_tree::TreeView<Msg>>::empty());
    assert(start =~= start + graph_of_all(all.take(0)));
    while i < list.len()
        invariant
            all == ui_tree::trees(list@),
            i <= list@.len(),
            json::items_view(graph@) == start + graph_of_all(all.take(i as int)),
        decreases list@.len() - i,
    {
        proof {
            assert(decreases_to!(list => list@));
            assert(decreases_to!(list@ => list@[i as int]));
            assert(all.take(i + 1).drop_last() =~= all.take(i as int));
            assert(all.take(i + 1)[i as int] == list@[i as int]@);
        }
        walk(&list[i], graph);
        assert(json::items_view(graph@) =~= start + graph_of_all(all.take(i + 1)));
        i += 1;
    }
    assert(all.take(list@.len() as int) =~= all);
}

/// The document for a tree.
pub open spec fn json_ld_of<Msg>(t: ui_tree::TreeView<Msg>) -> json::JsonView {
    json::JsonView::Object(
        with_member(
            with_member(Members::empty(), "@context"@, txt("https://schema.org"@)),
            "@graph"@,
            json::JsonView::List(graph_of(t)),
        ),
    )
}

/// Describes a tree as a graph of entries.
pub fn to_json_ld<Msg>(ui: &UITree<Msg>) -> (r: Json)
    ensures
        r@ == json_ld_of(ui@),
{
    let mut graph: Vec<Json> = Vec::new();
    let ghost start = json::items_view(graph@);
    walk(ui, &mut graph);
    assert(start + graph_of(ui@) =~= graph_of(ui@));
    let mut ms = no_members();
    put_text(&mut ms, "@context", "https://schema.org");
    put(&mut ms, "@graph", list(graph));
    object(ms)
}

/// The number of elements of a tree that have an entry.
pub open spec fn shown<Msg>(t: ui_tree::TreeView<Msg>) -> nat
    decreases t,
{
    match t.kind {
        ui_tree::KindView::Container(children) => 1 + shown_all(children),
        ui_tree::KindView::List(items) => 1 + shown_all(items),
        ui_tree::KindView::Portal(content) => shown(*content),
        _ => 1,
    }
}

pub open spec fn shown_all<Msg>(ts: Seq<ui_tree::TreeView<Msg>>) -> nat
    decreases ts,
{
    if ts.len() == 0 {
        0
    } else {
        shown_all(ts.drop_last()) + shown(ts[ts.len() - 1])
    }
}

/// Every element but those that move their content has one entry.
pub proof fn law_every_element_has_one_entry<Msg>(t: ui_tree::TreeView<Msg>)
    ensures
        graph_of(t).len() == shown(t),
    decreases t,
{
    match t.kind {
        ui_tree::KindView::Container(children) => {
            lemma_all_have_entries(children);
        },
        ui_tree::KindView::List(items) => {
            lemma_all_have_entries(items);
        },
        ui_tree::KindView::Portal(content) => {
            law_every_element_has_one_entry(*content);
        },
        _ => {},
    }
}

proof fn lemma_all_have_entries<Msg>(ts: Seq<ui_tree::TreeView<Msg>>)
    ensures
        graph_of_all(ts).len() == shown_all(ts),
    decreases ts,
{
    if ts.len() > 0 {
        lemma_all_have_entries(ts.drop_last());
        law_every_element_has_one_entry(ts[ts.len() - 1]);
    }
}

/// What a document says under a name.
pub open spec fn told(doc: Option<json::JsonView>, name: Seq<char>) -> Option<json::JsonView> {
    match doc {
        Some(json::JsonView::Object(ms)) => json::member(ms, name),
        _ => None,
    }
}

/// What an action is called by.
pub open spec fn called(doc: json::JsonView) -> Option<json::JsonView> {
    told(told(Some(doc), "target"@), "action"@)
}

/// What an action gives under the name of a parameter.
pub open spec fn handed(doc: json::JsonView, name: Seq<char>) -> Option<json::JsonView> {
    told(told(told(Some(doc), "target"@), "actionParams"@), name)
}

proof fn lemma_set_members()
    ensures
        forall|ms: Members, key: Seq<char>, value: json::JsonView, other: Seq<char>| #[trigger]
            json::member(with_member(ms, key, value), other) == if other == key {
                Some(value)
            } else {
                json::member(ms, other)
            },
{
    assert forall|ms: Members, key: Seq<char>, value: json::JsonView, other: Seq<char>| #[trigger]
        json::member(with_member(ms, key, value), other) == if other == key {
            Some(value)
        } else {
            json::member(ms, other)
        } by {
        law_set_member_is_read_back(ms, key, value, other);
    }
}

/// A parameter is given the last value that was set for its name.
pub proof fn law_last_value_of_a_parameter_counts(params: Seq<(Seq<char>, Seq<char>)>, i: int)
    requires
        0 <= i < params.len(),
        forall|k: int| i < k < params.len() ==> (#[trigger] params[k]).0 != params[i].0,
    ensures
        json::member(params_of(params), params[i].0) == Some(txt(params[i].1)),
    decreases params.len(),
{
    lemma_set_members();
    if i < params.len() - 1 {
        let head = params.drop_last();
        assert(head[i] == params[i]);
        assert forall|k: int| i < k < head.len() implies (#[trigger] head[k]).0 != head[i].0 by {
            assert(head[k] == params[k]);
        }
        law_last_value_of_a_parameter_counts(head, i);
        assert(params[params.len() - 1].0 != params[i].0);
    }
}

/// An action tells its name, what it is called by and the values of its
/// parameters.
pub proof fn law_action_tells_name_call_and_parameters(
    name: Seq<char>,
    action: Seq<char>,
    params: Seq<(Seq<char>, Seq<char>)>,
    i: int,
)
    ensures
        told(Some(action_of(name, action, params)), "@type"@) == Some(txt("Action"@)),
        told(Some(action_of(name, action, params)), "name"@) == Some(txt(name)),
        called(action_of(name, action, params)) == Some(txt(action)),
        0 <= i < params.len() && (forall|k: int|
            i < k < params.len() ==> (#[trigger] params[k]).0 != params[i].0) ==> handed(
            action_of(name, action, params),
            params[i].0,
        ) == Some(txt(params[i].1)),
        params.len() == 0 ==> told(
            told(Some(action_of(name, action, params)), "target"@),
            "actionParams"@,
        ) is None,
{
    lemma_set_members();
    reveal_strlit("@type");
    reveal_strlit("name");
    reveal_strlit("target");
    reveal_strlit("action");
    reveal_strlit("actionParams");
    assert("@type"@.len() == 5 && "@type"@[0] == '@');
    assert("name"@.len() == 4 && "name"@[0] == 'n');
    assert("target"@.len() == 6 && "target"@[0] == 't');
    assert("action"@.len() == 6 && "action"@[0] == 'a');
    assert("actionParams"@.len() == 12 && "actionParams"@[0] == 'a');
    if 0 <= i < params.len() && (forall|k: int|
        i < k < params.len() ==> (#[trigger] params[k]).0 != params[i].0) {
        law_last_value_of_a_parameter_counts(params, i);
    }
}

/// The entry of an element tells what the element shows: the text of a heading, of
/// a paragraph and of a link with its address, the address and the description of
/// an image and of a medium.
pub proof fn law_entry_tells_what_is_shown<Msg>(t: ui_tree::TreeView<Msg>)
    ensures
        t.kind matches ui_tree::KindView::Heading(_, s) ==> told(entry_of(t), "headline"@) == Some(
            txt(s),
        ),
        t.kind matches ui_tree::KindView::Text(s) ==> told(entry_of(t), "text"@) == Some(txt(s)),
        t.kind matches ui_tree::KindView::Link(href, s) ==> told(entry_of(t), "url"@) == Some(
            txt(href),
        ) && told(entry_of(t), "name"@) == Some(txt(s)),
        t.kind matches ui_tree::KindView::Image(src, alt) ==> told(entry_of(t), "contentUrl"@)
            == Some(txt(src)) && told(entry_of(t), "description"@) == Some(txt(alt)) && told(
            entry_of(t),
            "@type"@,
        ) == Some(txt("ImageObject"@)),
        t.kind matches ui_tree::KindView::Media(src, alt, kind) ==> told(
            entry_of(t),
            "contentUrl"@,
        ) == Some(txt(src)) && told(entry_of(t), "description"@) == Some(txt(alt)) && told(
            entry_of(t),
            "@type"@,
        ) == Some(
            txt(
                if kind is Audio {
                    "AudioObject"@
                } else {
                    "VideoObject"@
                },
            ),
        ),
        (t.kind is Heading || t.kind is Text || t.kind is Link || t.kind is Input || t.kind is Textarea
            || t.kind is Checkbox || t.kind is Select || t.kind is Radio || t.kind is List
            || t.kind is Container) ==> told(entry_of(t), "@type"@) == Some(
            txt("WebPageElement"@),
        ) && (t.meta.description matches Some(d) ==> told(entry_of(t), "description"@) == Some(
            txt(d),
        )),
{
    lemma_set_members();
    reveal_strlit("@type");
    reveal_strlit("description");
    reveal_strlit("headline");
    reveal_strlit("text");
    reveal_strlit("url");
    reveal_strlit("name");
    reveal_strlit("contentUrl");
    reveal_strlit("value");
    reveal_strlit("options");
    reveal_strlit("hasPart");
    reveal_strlit("itemListElement");
    reveal_strlit("potentialAction");
    assert("@type"@.len() == 5 && "@type"@[0] == '@');
    assert("description"@.len() == 11 && "description"@[0] == 'd');
    assert("headline"@.len() == 8 && "headline"@[0] == 'h');
    assert("text"@.len() == 4 && "text"@[0] == 't');
    assert("url"@.len() == 3 && "url"@[0] == 'u');
    assert("name"@.len() == 4 && "name"@[0] == 'n');
    assert("contentUrl"@.len() == 10 && "contentUrl"@[0] == 'c');
    assert("value"@.len() == 5 && "value"@[0] == 'v');
    assert("options"@.len() == 7 && "options"@[0] == 'o');
    assert("hasPart"@.len() == 7 && "hasPart"@[0] == 'h');
    assert("itemListElement"@.len() == 15 && "itemListElement"@[0] == 'i');
    assert("potentialAction"@.len() == 15 && "potentialAction"@[0] == 'p');
}

/// The entry of a field tells its value; of a choice also what can be chosen, in
/// order; of a table its columns and its rows, cell by cell. A button tells its
/// action, or a click.
pub proof fn law_entry_tells_what_can_be_done<Msg>(t: ui_tree::TreeView<Msg>, i: int, j: int)
    ensures
        t.kind matches ui_tree::KindView::Input(v) ==> told(entry_of(t), "value"@) == Some(txt(v))
            && (t.meta.action matches Some(a) ==> (told(entry_of(t), "potentialAction"@) matches Some(
            x,
        ) && called(x) == Some(txt(a)))),
        t.kind matches ui_tree::KindView::Textarea(v) ==> told(entry_of(t), "value"@) == Some(
            txt(v),
        ) && (t.meta.action matches Some(a) ==> (told(
            entry_of(t),
            "potentialAction"@,
        ) matches Some(x) && called(x) == Some(txt(a)))),
        t.kind matches ui_tree::KindView::Checkbox(label, on) ==> told(entry_of(t), "name"@)
            == Some(txt(label)) && told(entry_of(t), "value"@) == Some(json::JsonView::Bool(on)),
        t.kind matches ui_tree::KindView::Select(options, chosen) ==> told(entry_of(t), "value"@)
            == Some(txt(chosen)) && (told(entry_of(t), "options"@) matches Some(
            json::JsonView::List(os),
        ) && os.len() == options.len() && (0 <= i < options.len() ==> os[i] == txt(options[i].0))),
        t.kind matches ui_tree::KindView::Radio(name, options, chosen) ==> told(
            entry_of(t),
            "name"@,
        ) == Some(txt(name)) && told(entry_of(t), "value"@) == Some(txt(chosen)) && (told(
            entry_of(t),
            "options"@,
        ) matches Some(json::JsonView::List(os)) && os.len() == options.len() && (0 <= i
            < options.len() ==> os[i] == txt(options[i].0))),
        t.kind matches ui_tree::KindView::DataGrid(columns, rows) ==> told(entry_of(t), "@type"@)
            == Some(txt("Table"@)) && (told(entry_of(t), "columnList"@) matches Some(
            json::JsonView::List(cs),
        ) && cs.len() == columns.len() && (0 <= i < columns.len() ==> cs[i] == txt(columns[i])))
            && (told(entry_of(t), "rows"@) matches Some(json::JsonView::List(rs)) && rs.len()
            == rows.len() && (0 <= i < rows.len() ==> (rs[i] matches json::JsonView::List(cells)
            && cells.len() == rows[i].len() && (0 <= j < rows[i].len() ==> cells[j] == txt(
            rows[i][j],
        ))))),
        t.kind matches ui_tree::KindView::Button(label) ==> told(entry_of(t), "name"@) == Some(
            txt(label),
        ) && (t.meta.action matches Some(a) ==> called(entry_of(t)->0) == Some(txt(a))) && (
        t.meta.action is None && t.meta.on_click is Some ==> called(entry_of(t)->0) == Some(
            txt("click"@),
        )),
        t.kind matches ui_tree::KindView::List(items) ==> (told(
            entry_of(t),
            "itemListElement"@,
        ) matches Some(json::JsonView::List(xs)) && xs.len() == items.len()),
{
    lemma_set_members();
    reveal_strlit("@type");
    reveal_strlit("description");
    reveal_strlit("name");
    reveal_strlit("value");
    reveal_strlit("options");
    reveal_strlit("about");
    reveal_strlit("rows");
    reveal_strlit("columnList");
    reveal_strlit("target");
    reveal_strlit("action");
    reveal_strlit("actionParams");
    reveal_strlit("itemListElement");
    reveal_strlit("potentialAction");
    assert("@type"@.len() == 5 && "@type"@[0] == '@');
    assert("description"@.len() == 11 && "description"@[0] == 'd');
    assert("name"@.len() == 4 && "name"@[0] == 'n');
    assert("value"@.len() == 5 && "value"@[0] == 'v');
    assert("options"@.len() == 7 && "options"@[0] == 'o');
    assert("about"@.len() == 5 && "about"@[0] == 'a');
    assert("rows"@.len() == 4 && "rows"@[0] == 'r');
    assert("columnList"@.len() == 10 && "columnList"@[0] == 'c');
    assert("target"@.len() == 6 && "target"@[0] == 't');
    assert("action"@.len() == 6 && "action"@[0] == 'a');
    assert("actionParams"@.len() == 12 && "actionParams"@[0] == 'a');
    assert("itemListElement"@.len() == 15 && "itemListElement"@[0] == 'i');
    assert("potentialAction"@.len() == 15 && "potentialAction"@[0] == 'p');
}

/// An element's own entry stands before those of what it holds, and those stand in
/// the order of the elements.
pub proof fn law_entries_stand_in_order<Msg>(
    t: ui_tree::TreeView<Msg>,
    a: Seq<ui_tree::TreeView<Msg>>,
    b: Seq<ui_tree::TreeView<Msg>>,
)
    ensures
        !(t.kind is Portal) ==> graph_of(t).len() > 0 && entry_of(t) == Some(graph_of(t)[0]),
        t.kind matches ui_tree::KindView::Container(cs) ==> graph_of(t).drop_first()
            == graph_of_all(cs),
        t.kind matches ui_tree::KindView::List(cs) ==> graph_of(t).drop_first() == graph_of_all(cs),
        t.kind matches ui_tree::KindView::Portal(c) ==> graph_of(t) == graph_of(*c),
        graph_of_all(a + b) == graph_of_all(a) + graph_of_all(b),
        graph_of_all(seq![t]) == graph_of(t),
    decreases b.len(),
{
    reveal_with_fuel(graph_of, 2);
    reveal_with_fuel(graph_of_all, 2);
    match t.kind {
        ui_tree::KindView::Container(cs) => {
            assert(graph_of(t).drop_first() =~= graph_of_all(cs));
        },
        ui_tree::KindView::List(cs) => {
            assert(graph_of(t).drop_first() =~= graph_of_all(cs));
        },
        ui_tree::KindView::Portal(c) => {
            assert(graph_of(t) =~= graph_of(*c));
        },
        _ => {},
    }
    assert(seq![t].drop_last() =~= Seq::<ui_tree::TreeView<Msg>>::empty());
    assert(graph_of_all(seq![t]) =~= graph_of(t));
    if b.len() == 0 {
        assert(a + b =~= a);
        assert(graph_of_all(a) + graph_of_all(b) =~= graph_of_all(a));
    } else {
        law_entries_stand_in_order(t, a, b.drop_last());
        assert((a + b).drop_last() =~= a + b.drop_last());
        assert(graph_of_all(a + b) =~= graph_of_all(a) + graph_of_all(b));
    }
}

/// Names are joined in order, parted by commas.
pub proof fn law_names_are_parted_by_commas(a: Seq<Seq<char>>, b: Seq<Seq<char>>, x: Seq<char>)
    ensures
        joined(seq![x]) == x,
        a.len() > 0 && b.len() > 0 ==> joined(a + b) == joined(a) + ", "@ + joined(b),
    decreases b.len(),
{
    if a.len() > 0 && b.len() > 0 {
        assert((a + b).drop_last() =~= a + b.drop_last());
        if b.len() == 1 {
            assert(a + b.drop_last() =~= a);
        } else {
            law_names_are_parted_by_commas(a, b.drop_last(), x);
            assert(joined(a + b) =~= joined(a) + ", "@ + joined(b));
        }
    }
}

/// The document names its vocabulary and holds the entries of the elements.
pub proof fn law_document_holds_the_entries<Msg>(t: ui_tree::TreeView<Msg>)
    ensures
        told(Some(json_ld_of(t)), "@context"@) == Some(txt("https://schema.org"@)),
        told(Some(json_ld_of(t)), "@graph"@) == Some(json::JsonView::List(graph_of(t))),
{
    lemma_set_members();
    reveal_strlit("@context");
    reveal_strlit("@graph");
    assert("@context"@.len() == 8 && "@graph"@.len() == 6);
}

} // verus!
