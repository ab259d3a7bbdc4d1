//! Trees of interface elements.

use vstd::prelude::*;
use vstd::string::*;

use crate::text;

verus! {

/// What a media element plays.
#[derive(Debug, Clone, Copy, PartialEq, Eq, Structural)]
pub enum MediaType {
    Audio,
    Video,
}

/// What is told of an element to programs that read the page.
#[derive(Debug, PartialEq)]
pub struct AiMeta {
    pub description: Option<String>,
    pub action: Option<String>,
    pub params: Vec<(String, String)>,
}

/// What an element carries besides its kind.
#[derive(Debug, PartialEq)]
pub struct NodeMeta<Msg> {
    pub key: Option<String>,
    pub on_click: Option<Msg>,
    pub ai: AiMeta,
}

/// The kinds of elements.
#[derive(Debug, PartialEq)]
pub enum NodeKind<Msg> {
    Container { children: Vec<UITree<Msg>> },
    Heading { level: u8, text: String },
    Text { text: String },
    Button { label: String },
    Input { value: String },
    Textarea { value: String },
    Checkbox { label: String, checked: bool },
    Select { options: Vec<(String, String)>, selected: String },
    Radio { name: String, options: Vec<(String, String)>, selected: String },
    List { items: Vec<UITree<Msg>> },
    DataGrid { columns: Vec<String>, rows: Vec<Vec<String>> },
    Image { src: String, alt: String },
    Link { href: String, text: String },
    Media { src: String, alt: String, media_type: MediaType },
    Portal { content: Box<UITree<Msg>> },
}

/// An element with what stands below it.
#[derive(Debug, PartialEq)]
pub struct UITree<Msg> {
    pub kind: NodeKind<Msg>,
    pub meta: NodeMeta<Msg>,
}

/// What an element carries, as a mathematical value.
pub struct MetaView<Msg> {
    pub key: Option<Seq<char>>,
    pub on_click: Option<Msg>,
    pub description: Option<Seq<char>>,
    pub action: Option<Seq<char>>,
    pub params: Seq<(Seq<char>, Seq<char>)>,
}

/// The kinds of elements, as mathematical values.
pub enum KindView<Msg> {
    Container(Seq<TreeView<Msg>>),
    Heading(u8, Seq<char>),
    Text(Seq<char>),
    Button(Seq<char>),
    Input(Seq<char>),
    Textarea(Seq<char>),
    Checkbox(Seq<char>, bool),
    Select(Seq<(Seq<char>, Seq<char>)>, Seq<char>),
    Radio(Seq<char>, Seq<(Seq<char>, Seq<char>)>, Seq<char>),
    List(Seq<TreeView<Msg>>),
    DataGrid(Seq<Seq<char>>, Seq<Seq<Seq<char>>>),
    Image(Seq<char>, Seq<char>),
    Link(Seq<char>, Seq<char>),
    Media(Seq<char>, Seq<char>, MediaType),
    Portal(Box<TreeView<Msg>>),
}

/// A tree, as a mathematical value.
pub struct TreeView<Msg> {
    pub kind: KindView<Msg>,
    pub meta: MetaView<Msg>,
}

pub open spec fn opt_view(s: Option<String>) -> Option<Seq<char>> {
    match s {
        Some(s) => Some(s@),
        None => None,
    }
}

pub open spec fn pair_views(ps: Seq<(String, String)>) -> Seq<(Seq<char>, Seq<char>)> {
    ps.map_values(|p: (String, String)| (p.0@, p.1@))
}

pub open spec fn row_views(rows: Seq<Vec<String>>) -> Seq<Seq<Seq<char>>> {
    rows.map_values(|r: Vec<String>| text::texts(r@))
}

impl<Msg> View for NodeMeta<Msg> {
    type V = MetaView<Msg>;

    open spec fn view(&self) -> MetaView<Msg> {
        MetaView {
            key: opt_view(self.key),
            on_click: self.on_click,
            description: opt_view(self.ai.description),
            action: opt_view(self.ai.action),
            params: pair_views(self.ai.params@),
        }
    }
}

impl<Msg> View for UITree<Msg> {
    type V = TreeView<Msg>;

    closed spec fn view(&self) -> TreeView<Msg> {
        view_of(*self)
    }
}

pub closed spec fn view_of<Msg>(ui: UITree<Msg>) -> TreeView<Msg>
    decreases ui,
{
    TreeView {
        kind: match ui.kind {
            NodeKind::Container { children } => KindView::Container(
                Seq::new(
                    children@.len(),
                    |i: int|
                        if 0 <= i < children@.len() {
                            view_of(children@[i])
                        } else {
                            arbitrary()
                        },
                ),
            ),
            NodeKind::Heading { level, text } => KindView::Heading(level, text@),
            NodeKind::Text { text } => KindView::Text(text@),
            NodeKind::Button { label } => KindView::Button(label@),
            NodeKind::Input { value } => KindView::Input(value@),
            NodeKind::Textarea { value } => KindView::Textarea(value@),
            NodeKind::Checkbox { label, checked } => KindView::Checkbox(label@, checked),
            NodeKind::Select { options, selected } => KindView::Select(
                pair_views(options@),
                selected@,
            ),
            NodeKind::Radio { name, options, selected } => KindView::Radio(
                name@,
                pair_views(options@),
                selected@,
            ),
            NodeKind::List { items } => KindView::List(
                Seq::new(
                    items@.len(),
                    |i: int|
                        if 0 <= i < items@.len() {
                            view_of(items@[i])
                        } else {
                            arbitrary()
                        },
                ),
            ),
            NodeKind::DataGrid { columns, rows } => KindView::DataGrid(
                text::texts(columns@),
                row_views(rows@),
            ),
            NodeKind::Image { src, alt } => KindView::Image(src@, alt@),
            NodeKind::Link { href, text } => KindView::Link(href@, text@),
            NodeKind::Media { src, alt, media_type } => KindView::Media(src@, alt@, media_type),
            NodeKind::Portal { content } => KindView::Portal(Box::new(view_of(*content))),
        },
        meta: ui.meta@,
    }
}

/// The views of trees.
pub open spec fn trees<Msg>(list: Seq<UITree<Msg>>) -> Seq<TreeView<Msg>> {
    list.map_values(|t: UITree<Msg>| t@)
}

/// The view of each kind of element.
pub proof fn lemma_view<Msg>(ui: UITree<Msg>)
    ensures
        ui@.meta == ui.meta@,
        ui@.kind == (match ui.kind {
            NodeKind::Container { children } => KindView::Container(trees(children@)),
            NodeKind::Heading { level, text } => KindView::Heading(level, text@),
            NodeKind::Text { text } => KindView::Text(text@),
            NodeKind::Button { label } => KindView::Button(label@),
            NodeKind::Input { value } => KindView::Input(value@),
            NodeKind::Textarea { value } => KindView::Textarea(value@),
            NodeKind::Checkbox { label, checked } => KindView::Checkbox(label@, checked),
            NodeKind::Select { options, selected } => KindView::Select(
                pair_views(options@),
                selected@,
            ),
            NodeKind::Radio { name, options, selected } => KindView::Radio(
                name@,
                pair_views(options@),
                selected@,
            ),
            NodeKind::List { items } => KindView::List(trees(items@)),
            NodeKind::DataGrid { columns, rows } => KindView::DataGrid(
                text::texts(columns@),
                row_views(rows@),
            ),
            NodeKind::Image { src, alt } => KindView::Image(src@, alt@),
            NodeKind::Link { href, text } => KindView::Link(href@, text@),
            NodeKind::Media { src, alt, media_type } => KindView::Media(src@, alt@, media_type),
            NodeKind::Portal { content } => KindView::Portal(Box::new((*content)@)),
        }),
{
    match ui.kind {
        NodeKind::Container { children } => {
            assert(ui@.kind->Container_0 =~= trees(children@));
        },
        NodeKind::List { items } => {
            assert(ui@.kind->List_0 =~= trees(items@));
        },
        _ => {},
    }
}

/// What a new element carries: nothing.
pub open spec fn plain<Msg>() -> MetaView<Msg> {
    MetaView {
        key: None,
        on_click: None,
        description: None,
        action: None,
        params: Seq::empty(),
    }
}

fn plain_meta<Msg>() -> (m: NodeMeta<Msg>)
    ensures
        m@ == plain::<Msg>(),
{
    let m = NodeMeta {
        key: None,
        on_click: None,
        ai: AiMeta { description: None, action: None, params: Vec::new() },
    };
    assert(m@.params =~= plain::<Msg>().params);
    m
}

impl<Msg> UITree<Msg> {
    /// An element of the given kind.
    pub fn node(kind: NodeKind<Msg>) -> (t: UITree<Msg>)
        ensures
            t.kind == kind,
            t.meta@ == plain::<Msg>(),
    {
        UITree { kind, meta: plain_meta() }
    }

    /// A box around other elements.
    pub fn container(children: Vec<UITree<Msg>>) -> (t: UITree<Msg>)
        ensures
            t@ == (TreeView { kind: KindView::<Msg>::Container(trees(children@)), meta: plain() }),
    {
        let t = UITree::node(NodeKind::Container { children });
        proof {
            lemma_view(t);
        }
        t
    }

    /// A heading of a level.
    pub fn heading(level: u8, text: &str) -> (t: UITree<Msg>)
        ensures
            t@ == (TreeView { kind: KindView::<Msg>::Heading(level, text@), meta: plain() }),
    {
        let t = UITree::node(NodeKind::Heading { level, text: text.to_owned() });
        proof {
            lemma_view(t);
        }
        t
    }

    /// A paragraph of text.
    pub fn text(text: &str) -> (t: UITree<Msg>)
        ensures
            t@ == (TreeView { kind: KindView::<Msg>::Text(text@), meta: plain() }),
    {
        let t = UITree::node(NodeKind::Text { text: text.to_owned() });
        proof {
            lemma_view(t);
        }
        t
    }

    /// A button with a label.
    pub fn button(label: &str) -> (t: UITree<Msg>)
        ensures
            t@ == (TreeView { kind: KindView::<Msg>::Button(label@), meta: plain() }),
    {
        let t = UITree::node(NodeKind::Button { label: label.to_owned() });
        proof {
            lemma_view(t);
        }
        t
    }

    /// A field for input that holds a value.
    pub fn input(value: &str) -> (t: UITree<Msg>)
        ensures
            t@ == (TreeView { kind: KindView::<Msg>::Input(value@), meta: plain() }),
    {
        let t = UITree::node(NodeKind::Input { value: value.to_owned() });
        proof {
            lemma_view(t);
        }
        t
    }

    /// A list of items.
    pub fn list(items: Vec<UITree<Msg>>) -> (t: UITree<Msg>)
        ensures
            t@ == (TreeView { kind: KindView::<Msg>::List(trees(items@)), meta: plain() }),
    {
        let t = UITree::node(NodeKind::List { items });
        proof {
            lemma_view(t);
        }
        t
    }

    /// The element, known to programs by an action.
    pub fn ai_action(self, action: &str) -> (t: UITree<Msg>)
        ensures
            t@.kind == self@.kind,
            t@.meta == (MetaView { action: Some(action@), ..self@.meta }),
    {
        let mut t = self;
        t.meta.ai.action = Some(action.to_owned());
        proof {
            lemma_view(self);
            lemma_view(t);
        }
        t
    }

    /// The element with one more parameter of its action.
    pub fn ai_param(self, name: &str, value: &str) -> (t: UITree<Msg>)
        ensures
            t@.kind == self@.kind,
            t@.meta == (MetaView {
                params: self@.meta.params.push((name@, value@)),
                ..self@.meta
            }),
    {
        let mut t = self;
        t.meta.ai.params.push((name.to_owned(), value.to_owned()));
        proof {
            lemma_view(self);
            lemma_view(t);
            assert(t@.meta.params =~= self@.meta.params.push((name@, value@)));
        }
        t
    }

    /// The element, sending a message when it is clicked.
    pub fn on_click(self, msg: Msg) -> (t: UITree<Msg>)
        ensures
            t@.kind == self@.kind,
            t@.meta == (MetaView { on_click: Some(msg), ..self@.meta }),
    {
        let mut t = self;
        t.meta.on_click = Some(msg);
        proof {
            lemma_view(self);
            lemma_view(t);
        }
        t
    }

    /// The element, told apart from its siblings by a key.
    pub fn key(self, key: &str) -> (t: UITree<Msg>)
        ensures
            t@.kind == self@.kind,
            t@.meta == (MetaView { key: Some(key@), ..self@.meta }),
    {
        let mut t = self;
        t.meta.key = Some(key.to_owned());
        proof {
            lemma_view(self);
            lemma_view(t);
        }
        t
    }
}

} // verus!
