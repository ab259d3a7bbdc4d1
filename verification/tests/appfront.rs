//! The rest of the user-interface toolkit.

use std::any::Any;
use std::cell::{Cell, RefCell};
use std::rc::Rc;

use tpt_core::appfront::component::{Children, MemoCache};
use tpt_core::appfront::context::{Context, Providers};
use tpt_core::appfront::generate::{generate, match_pattern, Pattern, FALLBACK_SNIPPET};
use tpt_core::appfront::json_ld::to_json_ld;
use tpt_core::appfront::openai_compat::{LlmError, OpenAiCompatProvider, Reply};
use tpt_core::appfront::resource::{Resource, ResourceState};
use tpt_core::appfront::router::{Resolved, Route, RouteTable, Router};
use tpt_core::appfront::signal::Runtime;
use tpt_core::appfront::static_tree::StaticCache;
use tpt_core::appfront::ui_tree::{MediaType, NodeKind, UITree};
use tpt_core::json::Json;

// Documents.

fn member<'a>(doc: &'a Json, key: &str) -> Option<&'a Json> {
    match doc {
        Json::Object(ms) => ms.iter().find(|(k, _)| k == key).map(|(_, v)| v),
        _ => None,
    }
}

fn text_at<'a>(doc: &'a Json, path: &[&str]) -> &'a str {
    let mut at = doc;
    for key in path {
        at = member(at, key).unwrap();
    }
    match at {
        Json::Text(s) => s,
        other => panic!("expected a text, got {other:?}"),
    }
}

fn graph(doc: &Json) -> &Vec<Json> {
    match member(doc, "@graph") {
        Some(Json::List(items)) => items,
        other => panic!("expected a graph, got {other:?}"),
    }
}

#[derive(Debug, Clone, PartialEq)]
enum Msg {
    Clicked,
}

#[test]
fn empty_container_has_no_extra_graph_entries() {
    let ui: UITree<Msg> = UITree::container(vec![]);
    let json = to_json_ld(&ui);
    assert_eq!(text_at(&json, &["@context"]), "https://schema.org");
    let graph = graph(&json);
    assert_eq!(graph.len(), 1);
    assert_eq!(text_at(&graph[0], &["@type"]), "WebPageElement");
    assert!(member(&graph[0], "hasPart").is_none());
}

#[test]
fn heading_and_text_populate_expected_fields() {
    let ui: UITree<Msg> =
        UITree::container(vec![UITree::heading(1, "Title"), UITree::text("Body")]);
    let json = to_json_ld(&ui);
    let graph = graph(&json);
    assert_eq!(text_at(&graph[1], &["headline"]), "Title");
    assert_eq!(text_at(&graph[2], &["text"]), "Body");
}

#[test]
fn button_with_ai_action_produces_action_entry() {
    let ui: UITree<Msg> = UITree::container(vec![UITree::button("Add")
        .ai_action("add_to_cart")
        .ai_param("qty", "1")]);
    let json = to_json_ld(&ui);
    let entry = &graph(&json)[1];
    assert_eq!(text_at(entry, &["@type"]), "Action");
    assert_eq!(text_at(entry, &["name"]), "Add");
    assert_eq!(text_at(entry, &["target", "action"]), "add_to_cart");
    assert_eq!(text_at(entry, &["target", "actionParams", "qty"]), "1");
}

#[test]
fn button_with_only_on_click_falls_back_to_click_action() {
    let ui: UITree<Msg> =
        UITree::container(vec![UITree::button("Go").on_click(Msg::Clicked)]);
    let json = to_json_ld(&ui);
    let entry = &graph(&json)[1];
    assert_eq!(text_at(entry, &["@type"]), "Action");
    assert_eq!(text_at(entry, &["target", "action"]), "click");
}

#[test]
fn button_with_neither_action_nor_click_is_plain_element() {
    let ui: UITree<Msg> = UITree::container(vec![UITree::button("Label")]);
    let json = to_json_ld(&ui);
    let entry = &graph(&json)[1];
    assert_eq!(text_at(entry, &["@type"]), "WebPageElement");
    assert_eq!(text_at(entry, &["name"]), "Label");
}

#[test]
fn input_with_ai_action_has_potential_action() {
    let ui: UITree<Msg> =
        UITree::container(vec![UITree::input("hello").ai_action("set_value")]);
    let json = to_json_ld(&ui);
    let entry = &graph(&json)[1];
    assert_eq!(text_at(entry, &["value"]), "hello");
    assert_eq!(text_at(entry, &["potentialAction", "target", "action"]), "set_value");
}

#[test]
fn list_walks_children_and_reports_item_count() {
    let ui: UITree<Msg> =
        UITree::container(vec![UITree::list(vec![UITree::text("one"), UITree::text("two")])]);
    let json = to_json_ld(&ui);
    let graph = graph(&json);
    match member(&graph[1], "itemListElement") {
        Some(Json::List(items)) => assert_eq!(items.len(), 2),
        other => panic!("expected a list, got {other:?}"),
    }
    assert_eq!(text_at(&graph[2], &["text"]), "one");
    assert_eq!(text_at(&graph[3], &["text"]), "two");
}

fn texts(items: &[&str]) -> Json {
    Json::List(items.iter().map(|s| Json::Text(s.to_string())).collect())
}

#[test]
fn data_grid_reports_table_shape() {
    let columns = vec!["Name".to_string(), "Age".to_string()];
    let rows = vec![
        vec!["Alice".to_string(), "30".to_string()],
        vec!["Bob".to_string(), "25".to_string()],
    ];
    let ui: UITree<Msg> =
        UITree::container(vec![UITree::node(NodeKind::DataGrid { columns, rows })]);
    let json = to_json_ld(&ui);
    let entry = &graph(&json)[1];
    assert_eq!(text_at(entry, &["@type"]), "Table");
    assert_eq!(text_at(entry, &["about"]), "Name, Age");
    assert_eq!(member(entry, "columnList"), Some(&texts(&["Name", "Age"])));
    assert_eq!(
        member(entry, "rows"),
        Some(&Json::List(vec![texts(&["Alice", "30"]), texts(&["Bob", "25"])]))
    );
}

#[test]
fn image_link_media_produce_schema_objects() {
    let ui: UITree<Msg> = UITree::container(vec![
        UITree::node(NodeKind::Image { src: "/logo.png".into(), alt: "Logo".into() }),
        UITree::node(NodeKind::Link { href: "/home".into(), text: "Home".into() }),
        UITree::node(NodeKind::Media {
            src: "/clip.mp4".into(),
            alt: "Clip".into(),
            media_type: MediaType::Video,
        }),
    ]);
    let json = to_json_ld(&ui);
    let graph = graph(&json);
    assert_eq!(text_at(&graph[1], &["@type"]), "ImageObject");
    assert_eq!(text_at(&graph[1], &["contentUrl"]), "/logo.png");
    assert_eq!(text_at(&graph[1], &["description"]), "Logo");
    assert_eq!(text_at(&graph[2], &["@type"]), "WebPageElement");
    assert_eq!(text_at(&graph[2], &["url"]), "/home");
    assert_eq!(text_at(&graph[2], &["name"]), "Home");
    assert_eq!(text_at(&graph[3], &["@type"]), "VideoObject");
    assert_eq!(text_at(&graph[3], &["contentUrl"]), "/clip.mp4");
    assert_eq!(text_at(&graph[3], &["description"]), "Clip");
}

#[test]
fn every_shown_element_has_one_entry() {
    let ui: UITree<Msg> = UITree::container(vec![
        UITree::node(NodeKind::Portal {
            content: Box::new(UITree::container(vec![UITree::text("inside")])),
        }),
        UITree::node(NodeKind::Checkbox { label: "Agree".into(), checked: true }),
        UITree::node(NodeKind::Radio {
            name: "size".into(),
            options: vec![("s".into(), "Small".into()), ("l".into(), "Large".into())],
            selected: "l".into(),
        }),
    ]);
    let json = to_json_ld(&ui);
    let graph = graph(&json);
    // The outer container, the inner one, its text, the box and the choice.
    assert_eq!(graph.len(), 5);
    assert_eq!(member(&graph[3], "value"), Some(&Json::Bool(true)));
    assert_eq!(member(&graph[4], "options"), Some(&texts(&["s", "l"])));
    assert_eq!(text_at(&graph[4], &["value"]), "l");
}

#[test]
fn repeated_parameter_keeps_the_last_value() {
    let ui: UITree<Msg> =
        UITree::button("B").ai_action("a").ai_param("k", "1").ai_param("k", "2");
    let json = to_json_ld(&ui);
    assert_eq!(text_at(&graph(&json)[0], &["target", "actionParams", "k"]), "2");
}

// Starting points.

#[test]
fn matches_counter_keyword() {
    let out = generate("build me a simple counter app");
    assert!(out.contains("Matched pattern: counter"));
    assert!(out.contains("Msg::Increment"));
}

#[test]
fn matches_login_form_case_insensitively() {
    let out = generate("I need a LOGIN screen");
    assert!(out.contains("Matched pattern: login form"));
}

#[test]
fn matches_todo_list() {
    let out = generate("a todo list for groceries");
    assert!(out.contains("Matched pattern: todo list"));
}

#[test]
fn matches_card_and_nav() {
    assert!(generate("a product card").contains("Matched pattern: card"));
    assert!(generate("top navbar with links").contains("Matched pattern: nav bar"));
}

#[test]
fn matches_settings_and_dashboard() {
    assert!(generate("a settings page").contains("Matched pattern: settings list"));
    assert!(generate("admin dashboard shell").contains("Matched pattern: dashboard"));
}

#[test]
fn falls_back_when_nothing_matches() {
    let out = generate("something completely unrelated to any pattern");
    assert!(out.contains("No known pattern matched"));
    assert!(out.contains(FALLBACK_SNIPPET));
}

#[test]
fn output_always_notes_it_is_offline() {
    let out = generate("counter");
    assert!(out.contains("not a live LLM call"));
}

#[test]
fn first_pattern_wins() {
    assert_eq!(match_pattern("a card with a counter"), Some(Pattern::Counter));
    assert_eq!(match_pattern(""), None);
    assert_eq!(match_pattern("\u{c4}RGER: SIGN IN"), Some(Pattern::LoginForm));
}

// Contexts. Types are told apart by numbers.

const THEME: u64 = 1;
const USER: u64 = 2;
const NUMBER: u64 = 3;

#[derive(Debug, Clone, PartialEq)]
struct Theme {
    dark: bool,
}

#[derive(Debug, Clone, PartialEq)]
struct User {
    name: String,
}

struct Tree {
    rt: RefCell<Runtime>,
    providers: RefCell<Providers<Rc<dyn Any>>>,
}

type Shared<T> = Rc<RefCell<Context<T>>>;

impl Tree {
    fn new() -> Tree {
        Tree { rt: RefCell::new(Runtime::new()), providers: RefCell::new(Providers::new()) }
    }

    fn context<T>(&self, value: T) -> Shared<T> {
        Rc::new(RefCell::new(Context::new(&mut self.rt.borrow_mut(), value)))
    }

    fn provide<T: 'static>(&self, key: u64, ctx: &Shared<T>, scope: impl FnOnce()) {
        let shared: Rc<dyn Any> = Rc::new(ctx.clone());
        self.providers.borrow_mut().provide_context(key, shared);
        scope();
        self.providers.borrow_mut().end_context(key);
    }

    fn nearest<T: 'static>(&self, key: u64) -> Option<Shared<T>> {
        let providers = self.providers.borrow();
        providers.use_context(key).and_then(|c| c.downcast_ref::<Shared<T>>()).cloned()
    }

    fn read<T: Clone>(&self, ctx: &Shared<T>) -> T {
        ctx.borrow().get(&mut self.rt.borrow_mut())
    }
}

#[test]
fn use_context_returns_none_when_unprovided() {
    let tree = Tree::new();
    assert!(tree.nearest::<Theme>(THEME).is_none());
}

#[test]
fn provide_then_use_resolves_nearest() {
    let tree = Tree::new();
    let outer = tree.context(Theme { dark: false });
    let mut observed = None;
    tree.provide(THEME, &outer, || {
        observed = tree.nearest::<Theme>(THEME).map(|c| tree.read(&c));
    });
    assert_eq!(observed, Some(Theme { dark: false }));
}

#[test]
fn inner_provider_shadows_outer() {
    let tree = Tree::new();
    let outer = tree.context(Theme { dark: false });
    let inner = tree.context(Theme { dark: true });
    let mut outer_before = None;
    let mut inner_seen = None;
    let mut outer_after = None;
    tree.provide(THEME, &outer, || {
        outer_before = tree.nearest::<Theme>(THEME).map(|c| tree.read(&c));
        tree.provide(THEME, &inner, || {
            inner_seen = tree.nearest::<Theme>(THEME).map(|c| tree.read(&c));
        });
        outer_after = tree.nearest::<Theme>(THEME).map(|c| tree.read(&c));
    });
    assert_eq!(inner_seen, Some(Theme { dark: true }));
    assert_eq!(outer_before, Some(Theme { dark: false }));
    assert_eq!(outer_after, Some(Theme { dark: false }));
    assert!(tree.nearest::<Theme>(THEME).is_none());
}

#[test]
fn different_types_are_independent() {
    let tree = Tree::new();
    let theme = tree.context(Theme { dark: true });
    let user = tree.context(User { name: "ada".to_string() });
    tree.provide(THEME, &theme, || {
        tree.provide(USER, &user, || {
            assert!(tree.nearest::<Theme>(THEME).is_some());
            assert!(tree.nearest::<User>(USER).is_some());
            assert!(tree.nearest::<i32>(NUMBER).is_none());
        });
    });
    assert_eq!(tree.read(&user).name, "ada");
}

#[test]
fn context_updates_are_visible_to_consumers() {
    let tree = Tree::new();
    let theme = tree.context(Theme { dark: false });
    let observed = Rc::new(RefCell::new(None));
    let obs = observed.clone();
    tree.provide(THEME, &theme, || {
        if let Some(c) = tree.nearest::<Theme>(THEME) {
            *obs.borrow_mut() = Some(tree.read(&c));
            c.borrow_mut().set(&mut tree.rt.borrow_mut(), Theme { dark: true });
            *obs.borrow_mut() = Some(tree.read(&c));
        }
    });
    assert_eq!(*observed.borrow(), Some(Theme { dark: true }));
    assert!(tree.read(&theme).dark);
}

#[test]
fn context_wraps_a_signal() {
    let mut rt = Runtime::new();
    let s = tpt_core::appfront::signal::Signal::new(&mut rt, 5);
    let c = Context::from_signal(s);
    assert_eq!(c.signal().value, 5);
}

// Resources.

#[test]
fn new_runs_loader_and_stores_value() {
    let mut rt = Runtime::new();
    let r = Resource::new(&mut rt, || Ok(42));
    assert!(r.is_ready(&mut rt));
    assert_eq!(r.ready_value(&mut rt), Some(&42));
    assert!(!r.is_loading(&mut rt));
    assert!(!r.is_error(&mut rt));
}

#[test]
fn new_captures_loader_error() {
    let mut rt = Runtime::new();
    let r: Resource<i32> = Resource::new(&mut rt, || Err("boom".to_string()));
    assert!(r.is_error(&mut rt));
    assert_eq!(*r.state(&mut rt), ResourceState::Error("boom".to_string()));
}

#[test]
fn ready_and_error_constructors() {
    let mut rt = Runtime::new();
    assert_eq!(Resource::<i32>::ready(&mut rt, 7).ready_value(&mut rt), Some(&7));
    assert!(Resource::<i32>::error(&mut rt, "nope".to_string()).is_error(&mut rt));
}

#[test]
fn load_blocking_updates_state_and_clones_share_it() {
    let mut rt = Runtime::new();
    let r = Rc::new(RefCell::new(Resource::ready(&mut rt, 1)));
    let clone = r.clone();
    r.borrow_mut().load_blocking(&mut rt, || Ok(99));
    assert_eq!(clone.borrow().ready_value(&mut rt), Some(&99));
}

#[test]
fn reload_resets_to_loading() {
    let mut rt = Runtime::new();
    let mut r = Resource::ready(&mut rt, 5);
    r.reload(&mut rt);
    assert!(r.is_loading(&mut rt));
}

#[test]
fn set_result_stores_error() {
    let mut rt = Runtime::new();
    let mut r = Resource::new(&mut rt, || Ok(1));
    r.set_result(&mut rt, Err("late failure".to_string()));
    assert!(r.is_error(&mut rt));
}

#[test]
fn load_async_enters_loading_then_resolves_when_current() {
    let mut rt = Runtime::new();
    let mut r = Resource::<i32>::ready(&mut rt, 0);
    let before = r.generation();
    let (gen, _) = r.load_async(&mut rt);
    assert!(r.is_loading(&mut rt));
    // The load ends at once.
    if r.is_current(gen) {
        r.set_result(&mut rt, Ok(123));
    }
    assert!(r.generation() > before, "generation bumped");
    assert!(r.is_ready(&mut rt), "synchronous spawn committed the result");
    assert_eq!(r.ready_value(&mut rt), Some(&123));
}

#[test]
fn reload_cancels_a_superseded_async_load() {
    let mut rt = Runtime::new();
    let mut r = Resource::<i32>::ready(&mut rt, 0);
    let (gen, _) = r.load_async(&mut rt);
    assert!(r.is_loading(&mut rt));

    r.reload(&mut rt);
    assert!(!r.is_current(gen), "reload invalidated the old generation");

    if r.is_current(gen) {
        r.set_result(&mut rt, Ok(999));
    }
    assert!(r.is_loading(&mut rt), "stale result was cancelled; still Loading");
    assert_eq!(r.ready_value(&mut rt), None);
}

#[test]
fn clones_share_one_generation_counter() {
    let mut rt = Runtime::new();
    let r = Rc::new(RefCell::new(Resource::<String>::ready(&mut rt, "init".to_string())));
    let clone = r.clone();
    let captured = r.borrow().generation();
    clone.borrow_mut().reload(&mut rt);
    assert!(!r.borrow().is_current(captured));
    assert_eq!(r.borrow().generation(), clone.borrow().generation());
}

// Routes.

#[test]
fn route_match_literal_and_root() {
    let r = Route::parse("/").unwrap();
    assert!(r.match_path("/").is_some());
    assert!(r.match_path("/x").is_none());

    let r = Route::parse("/about").unwrap();
    assert!(r.match_path("/about").is_some());
    assert!(r.match_path("/").is_none());
    assert!(r.match_path("/about/extra").is_none());
}

#[test]
fn route_match_param_capture() {
    let r = Route::parse("/users/:id").unwrap();
    let m = r.match_path("/users/42").unwrap();
    assert_eq!(m.get("id"), Some(&"42".to_string()));
    assert!(r.match_path("/users").is_none());
    assert!(r.match_path("/posts/42").is_none());
}

fn show(view: &Resolved) -> UITree<()> {
    match view {
        Resolved::Handler(0, _) => UITree::container(vec![]),
        Resolved::Handler(_, params) => {
            UITree::container(vec![UITree::text(&format!("user {}", params.get("id").unwrap()))])
        }
        Resolved::Fallback | Resolved::Empty => UITree::container(vec![]),
    }
}

#[test]
fn route_table_resolves_and_falls_back() {
    let table = RouteTable::new()
        .route("/")
        .unwrap()
        .route("/users/:id")
        .unwrap()
        .fallback();

    let root = table.resolve("/");
    assert!(matches!(root, Resolved::Handler(0, _)));
    assert!(matches!(show(&root), UITree { kind: NodeKind::Container { .. }, .. }));
    let view = table.resolve("/users/7");
    assert!(matches!(view, Resolved::Handler(1, _)));
    let NodeKind::Container { children } = show(&view).kind else {
        panic!();
    };
    assert_eq!(children[0].kind, NodeKind::Text { text: "user 7".to_string() });
    let unknown = table.resolve("/nope");
    assert!(matches!(unknown, Resolved::Fallback));
    assert!(matches!(show(&unknown), UITree { kind: NodeKind::Container { .. }, .. }));
}

#[test]
fn router_navigation_updates_view_via_signal() {
    let mut rt = Runtime::new();
    let table = RouteTable::new().route("/").unwrap().route("/b").unwrap();
    let mut router = Router::new(&mut rt, table, "/");
    assert_eq!(router.current_path(&mut rt), "/");

    let before = router.signal().get(&mut rt);
    router.navigate(&mut rt, "/b");
    assert_eq!(router.signal().get(&mut rt), "/b");
    assert_ne!(before, router.signal().get(&mut rt));
}

#[test]
fn route_parse_rejects_bad_patterns() {
    assert!(Route::parse("/:").is_err());
    assert!(Route::parse("/users/").is_ok());
}

#[test]
fn route_parse_says_what_is_wrong() {
    assert_eq!(Route::parse("/a//b").unwrap_err(), "empty segment in route `/a//b`");
    assert_eq!(Route::parse("/x/:").unwrap_err(), "unnamed `:` param in route `/x/:`");
    assert_eq!(Route::parse("/users/:id/").unwrap().pattern(), "/users/:id/");
}

#[test]
fn path_without_route_and_fallback_is_empty() {
    let table = RouteTable::default().route("/a/b").unwrap();
    assert!(matches!(table.resolve("a/b/"), Resolved::Handler(0, _)));
    assert!(matches!(table.resolve("/a"), Resolved::Empty));
}

#[test]
fn router_resolves_and_swaps_views_on_navigation() {
    fn view_of(view: Resolved) -> UITree<u8> {
        let (title, click) = match view {
            Resolved::Handler(0, _) => ("Home", 0),
            _ => ("About", 1),
        };
        UITree::container(vec![
            UITree::heading(1, title),
            UITree::button(title).on_click(click),
        ])
    }
    let mut rt = Runtime::new();
    let table = RouteTable::new().route("/").unwrap().route("/about").unwrap();
    let mut router = Router::new(&mut rt, table, "/");

    let v0 = view_of(router.current_view(&mut rt));
    let NodeKind::Container { children } = &v0.kind else {
        panic!();
    };
    assert!(matches!(children[0].kind, NodeKind::Heading { .. }));

    router.navigate(&mut rt, "/about");
    let v1 = view_of(router.current_view(&mut rt));
    let NodeKind::Container { children: c1 } = &v1.kind else {
        panic!();
    };
    match &c1[0].kind {
        NodeKind::Heading { text, .. } => assert_eq!(text, "About"),
        other => panic!("expected heading, got {other:?}"),
    }
    assert_eq!(router.current_path(&mut rt), "/about");
}

// Trees that are built once.

#[test]
fn build_runs_exactly_once_per_id() {
    let mut cache = StaticCache::<()>::new();
    let calls = Rc::new(Cell::new(0usize));
    let calls2 = Rc::clone(&calls);
    let built = cache.static_node(1, || {
        calls2.set(calls2.get() + 1);
        UITree::container(vec![UITree::text("hello")])
    });
    assert_eq!(calls.get(), 1);
    assert!(matches!(built.kind, NodeKind::Container { .. }));

    for _ in 0..5 {
        let again = cache.static_node(1, || panic!("build must not run again for a cached id"));
        assert_eq!(again, built);
    }
    assert_eq!(calls.get(), 1);
}

#[test]
fn distinct_ids_cache_independently() {
    let mut cache = StaticCache::<()>::new();
    let a = cache.static_node(100, || UITree::container(vec![UITree::text("a")]));
    let b = cache.static_node(200, || UITree::container(vec![UITree::text("b")]));
    match (&a.kind, &b.kind) {
        (NodeKind::Container { children: ca }, NodeKind::Container { children: cb }) => {
            match (&ca[0].kind, &cb[0].kind) {
                (NodeKind::Text { text: ta }, NodeKind::Text { text: tb }) => {
                    assert_eq!(ta, "a");
                    assert_eq!(tb, "b");
                }
                _ => panic!("expected text nodes"),
            }
        }
        _ => panic!("expected container nodes"),
    }
}

#[test]
fn cached_tree_is_independent_clone() {
    let mut cache = StaticCache::<()>::new();
    let first = cache.static_node(300, || UITree::container(vec![UITree::text("x")]));
    let second =
        cache.static_node(300, || panic!("build must not run again for a cached id"));
    assert_eq!(format!("{first:?}"), format!("{second:?}"));
}

#[test]
fn memoized_component_reuses_tree_when_props_equal() {
    let mut cache = MemoCache::<u32, ()>::new();
    let builds = Cell::new(0);
    let build = |n: &u32| {
        builds.set(builds.get() + 1);
        UITree::container(vec![UITree::text(&format!("n={n}"))])
    };
    let (first, fresh) = cache.memoized(1, 5, build);
    assert!(fresh);
    let (second, fresh) = cache.memoized(1, 5, build);
    assert!(!fresh);
    assert_eq!(first, second);
    assert_eq!(builds.get(), 1);
    let (third, fresh) = cache.memoized(1, 6, build);
    assert!(fresh);
    assert_ne!(first, third);
    assert_eq!(builds.get(), 2);
}

#[test]
fn children_slot_counts_its_elements() {
    assert!(Children::<()>::none().is_empty());
    let two = Children::<()>(vec![UITree::text("a"), UITree::text("b")]);
    assert!(!two.is_empty());
    assert_eq!(two.len(), 2);
}

// Chat services.

fn provider(key: Option<&str>) -> OpenAiCompatProvider {
    OpenAiCompatProvider::new(
        "openai",
        key.map(|k| k.to_string()),
        "small".to_string(),
        "http://localhost/v1",
    )
}

#[test]
fn request_asks_system_and_user() {
    let p = provider(Some("k"));
    let r = p.request("be brief", "hi");
    assert_eq!(r.model, "small");
    assert_eq!(r.messages[0].role, "system");
    assert_eq!(r.messages[0].content, "be brief");
    assert_eq!(r.messages[1].role, "user");
    assert_eq!(r.messages[1].content, "hi");
    assert_eq!(r.max_tokens, Some(2048));
    assert_eq!(p.authorization(), Some("Bearer k".to_string()));
    assert_eq!(provider(None).authorization(), None);
    assert_eq!(p.name(), "openai");
}

#[test]
fn answers_are_joined_and_empty_ones_refused() {
    let p = provider(None);
    let choices = vec![Some("a".to_string()), None, Some("b".to_string())];
    assert_eq!(p.complete(Reply::Choices(choices)).unwrap(), "a\nb");
    for blank in [vec![], vec![None], vec![Some(" \n\t\u{a0}".to_string())]] {
        let e = p.complete(Reply::Choices(blank)).unwrap_err();
        assert_eq!(e.message(), "`openai` API returned an empty completion");
    }
    assert_eq!(
        p.complete(Reply::Refused(429, None)).unwrap_err().message(),
        "`openai` API returned 429: <no body>"
    );
    assert_eq!(
        p.complete(Reply::Unreadable).unwrap_err().message(),
        "failed to parse the `openai` API JSON response"
    );
    assert!(matches!(p.complete(Reply::Failed), Err(LlmError::Request { .. })));
    assert_eq!(
        p.complete(Reply::Failed).unwrap_err().message(),
        "request to the `openai` chat/completions endpoint failed (network or 4xx/5xx)"
    );
}
