//! Starting points for views, picked by keywords.

use vstd::prelude::*;
use vstd::string::*;

use crate::canopy_index;
use crate::canopy_index::to_lowercase;
use crate::text::chars_of;

verus! {

/// The views that are known.
#[derive(Debug, Clone, Copy, PartialEq, Eq, Structural)]
pub enum Pattern {
    Counter,
    LoginForm,
    TodoList,
    Card,
    NavBar,
    SettingsList,
    Dashboard,
}

pub const COUNTER_SNIPPET: &'static str = r#"tpt_appfront_core::view! {
    <Container class="counter">
        <Heading level={1u8}>"Count: 0"</Heading>
        <Button on_click={Msg::Increment}>"+1"</Button>
    </Container>
}"#;

pub const LOGIN_FORM_SNIPPET: &'static str = r#"tpt_appfront_core::view! {
    <Container class="login-form">
        <Heading level={1u8}>"Sign in"</Heading>
        <Input value="Email" />
        <Input value="Password" />
        <Button on_click={Msg::Submit}>"Sign in"</Button>
    </Container>
}"#;

pub const TODO_LIST_SNIPPET: &'static str = r#"tpt_appfront_core::view! {
    <Container class="todo-list">
        <Heading level={1u8}>"Tasks"</Heading>
        <Input value="New task" />
        <Button on_click={Msg::AddTask}>"Add"</Button>
    </Container>
}"#;

pub const CARD_SNIPPET: &'static str = r#"tpt_appfront_core::view! {
    <Container class="card">
        <Heading level={2u8}>"Title"</Heading>
        <Text>"Description goes here."</Text>
        <Button on_click={Msg::CardAction}>"Learn more"</Button>
    </Container>
}"#;

pub const NAV_BAR_SNIPPET: &'static str = r#"tpt_appfront_core::view! {
    <Container class="navbar">
        <Heading level={1u8}>"Brand"</Heading>
        <Button on_click={Msg::NavHome}>"Home"</Button>
        <Button on_click={Msg::NavAbout}>"About"</Button>
    </Container>
}"#;

pub const SETTINGS_LIST_SNIPPET: &'static str = r#"// Prefer the prebuilt `tpt_appfront_templates::settings_list` for a
// keyed CRUD list. Inline `view!` equivalent:
tpt_appfront_core::view! {
    <Container class="settings">
        <Heading level={1u8}>"Settings"</Heading>
        <List>
            <Container class="row flex items-center">
                <Text>"Item 1"</Text>
                <Button on_click={Msg::Edit(1)}>"Edit"</Button>
                <Button on_click={Msg::Delete(1)}>"Delete"</Button>
            </Container>
        </List>
    </Container>
}"#;

pub const DASHBOARD_SNIPPET: &'static str = r#"// Prefer the prebuilt `tpt_appfront_templates::dashboard_shell`
// (sidebar nav + content area) and fill its `content` with a template.
tpt_appfront_core::view! {
    <Container class="flex h-screen">
        <Container class="w-64 bg-gray-50 p-4">
            <Heading level={2u8}>"App"</Heading>
            <Button on_click={Msg::NavHome}>"Home"</Button>
            <Button on_click={Msg::NavSettings}>"Settings"</Button>
        </Container>
        <Container class="flex-1 p-6">
            <Text>"Content goes here"</Text>
        </Container>
    </Container>
}"#;

/// The view for prompts in which nothing is recognised.
pub const FALLBACK_SNIPPET: &'static str = r#"tpt_appfront_core::view! {
    <Container class="app">
        <Heading level={1u8}>"Hello"</Heading>
        <Text>"Describe your UI more specifically (e.g. \"counter\", \"login form\", \"todo list\", \"card\", \"nav bar\") for a closer starting point."</Text>
    </Container>
}"#;

impl Pattern {
    pub open spec fn title(self) -> Seq<char> {
        match self {
            Pattern::Counter => "counter"@,
            Pattern::LoginForm => "login form"@,
            Pattern::TodoList => "todo list"@,
            Pattern::Card => "card"@,
            Pattern::NavBar => "nav bar"@,
            Pattern::SettingsList => "settings list"@,
            Pattern::Dashboard => "dashboard"@,
        }
    }

    /// What the view is called.
    pub fn name(self) -> (n: &'static str)
        ensures
            n@ == self.title(),
    {
        match self {
            Pattern::Counter => "counter",
            Pattern::LoginForm => "login form",
            Pattern::TodoList => "todo list",
            Pattern::Card => "card",
            Pattern::NavBar => "nav bar",
            Pattern::SettingsList => "settings list",
            Pattern::Dashboard => "dashboard",
        }
    }

    /// The words by which the view is recognised.
    pub open spec fn triggers(self) -> Seq<Seq<char>> {
        match self {
            Pattern::Counter => seq!["counter"@, "increment"@, "count"@],
            Pattern::LoginForm => seq!["login"@, "log in"@, "sign in"@, "signin"@],
            Pattern::TodoList => seq!["todo"@, "to-do"@, "task list"@, "checklist"@],
            Pattern::Card => seq!["card"@, "profile card"@, "product card"@],
            Pattern::NavBar => seq!["nav"@, "navbar"@, "navigation"@, "menu bar"@],
            Pattern::SettingsList => seq!["settings"@, "crud list"@, "list of items"@, "manage items"@],
            Pattern::Dashboard => seq!["dashboard"@, "admin panel"@, "app shell"@, "nav and content"@],
        }
    }

    /// The words by which the view is recognised.
    pub fn keywords(self) -> (ks: Vec<&'static str>)
        ensures
            words(ks@) == self.triggers(),
    {
        let ks: Vec<&'static str> = match self {
            Pattern::Counter => vec!["counter", "increment", "count"],
            Pattern::LoginForm => vec!["login", "log in", "sign in", "signin"],
            Pattern::TodoList => vec!["todo", "to-do", "task list", "checklist"],
            Pattern::Card => vec!["card", "profile card", "product card"],
            Pattern::NavBar => vec!["nav", "navbar", "navigation", "menu bar"],
            Pattern::SettingsList => vec!["settings", "crud list", "list of items", "manage items"],
            Pattern::Dashboard => vec!["dashboard", "admin panel", "app shell", "nav and content"],
        };
        assert(words(ks@) =~= self.triggers());
        ks
    }

    pub open spec fn code(self) -> Seq<char> {
        match self {
            Pattern::Counter => COUNTER_SNIPPET@,
            Pattern::LoginForm => LOGIN_FORM_SNIPPET@,
            Pattern::TodoList => TODO_LIST_SNIPPET@,
            Pattern::Card => CARD_SNIPPET@,
            Pattern::NavBar => NAV_BAR_SNIPPET@,
            Pattern::SettingsList => SETTINGS_LIST_SNIPPET@,
            Pattern::Dashboard => DASHBOARD_SNIPPET@,
        }
    }

    /// The view itself.
    pub fn snippet(self) -> (s: &'static str)
        ensures
            s@ == self.code(),
    {
        match self {
            Pattern::Counter => COUNTER_SNIPPET,
            Pattern::LoginForm => LOGIN_FORM_SNIPPET,
            Pattern::TodoList => TODO_LIST_SNIPPET,
            Pattern::Card => CARD_SNIPPET,
            Pattern::NavBar => NAV_BAR_SNIPPET,
            Pattern::SettingsList => SETTINGS_LIST_SNIPPET,
            Pattern::Dashboard => DASHBOARD_SNIPPET,
        }
    }
}

/// The views, in the order in which they are tried.
pub open spec fn all_patterns() -> Seq<Pattern> {
    seq![
        Pattern::Counter,
        Pattern::LoginForm,
        Pattern::TodoList,
        Pattern::Card,
        Pattern::NavBar,
        Pattern::SettingsList,
        Pattern::Dashboard,
    ]
}

fn patterns() -> (ps: Vec<Pattern>)
    ensures
        ps@ == all_patterns(),
{
    let ps: Vec<Pattern> = vec![
        Pattern::Counter,
        Pattern::LoginForm,
        Pattern::TodoList,
        Pattern::Card,
        Pattern::NavBar,
        Pattern::SettingsList,
        Pattern::Dashboard,
    ];
    assert(ps@ =~= all_patterns());
    ps
}

pub open spec fn words(ks: Seq<&'static str>) -> Seq<Seq<char>> {
    ks.map_values(|k: &'static str| k@)
}

/// Whether `part` stands in `s` at `i`.
pub open spec fn stands_at(s: Seq<char>, i: int, part: Seq<char>) -> bool {
    0 <= i && i + part.len() <= s.len() && s.subrange(i, i + part.len()) == part
}

/// Whether `part` stands in `s` anywhere.
pub open spec fn occurs(s: Seq<char>, part: Seq<char>) -> bool {
    exists|i: int| stands_at(s, i, part)
}

fn contains(s: &Vec<char>, part: &str) -> (r: bool)
    ensures
        r == occurs(s@, part@),
{
    let p = chars_of(part);
    let n: usize = s.len();
    let mut i: usize = 0;
    while p.len() <= n - i
        invariant
            p@ == part@,
            n == s@.len(),
            i <= n,
            forall|k: int| 0 <= k < i ==> !stands_at(s@, k, part@),
        decreases n - i,
    {
        let mut j: usize = 0;
        while j < p.len() && s[i + j] == p[j]
            invariant
                p@ == part@,
                n == s@.len(),
                i + p@.len() <= n,
                j <= p@.len(),
                forall|k: int| 0 <= k < j ==> s@[i + k] == p@[k],
            decreases p@.len() - j,
        {
            j += 1;
        }
        if j == p.len() {
            assert(s@.subrange(i as int, i + part@.len()) =~= part@);
            assert(stands_at(s@, i as int, part@));
            return true;
        }
        proof {
            if stands_at(s@, i as int, part@) {
                assert(s@.subrange(i as int, i + part@.len())[j as int] == part@[j as int]);
            }
        }
        if i == n {
            proof {
                assert forall|k: int| !stands_at(s@, k, part@) by {}
            }
            return false;
        }
        i += 1;
    }
    proof {
        assert forall|k: int| !stands_at(s@, k, part@) by {}
    }
    false
}

/// Whether one of the words by which a view is recognised stands in a prompt
/// in lower case.
pub open spec fn recognised(p: Pattern, lower: Seq<char>) -> bool {
    exists|k: int| 0 <= k < p.triggers().len() && occurs(lower, #[trigger] p.triggers()[k])
}

fn is_recognised(p: Pattern, lower: &Vec<char>) -> (r: bool)
    ensures
        r == recognised(p, lower@),
{
    let ks = p.keywords();
    let mut i: usize = 0;
    while i < ks.len()
        invariant
            words(ks@) == p.triggers(),
            i <= ks@.len(),
            forall|k: int| 0 <= k < i ==> !occurs(lower@, #[trigger] p.triggers()[k]),
        decreases ks@.len() - i,
    {
        assert(p.triggers()[i as int] == ks@[i as int]@);
        if contains(lower, ks[i]) {
            return true;
        }
        i += 1;
    }
    assert(p.triggers().len() == ks@.len());
    false
}

/// Whether a view is the first that a prompt names.
pub open spec fn picked(prompt: Seq<char>, found: Option<Pattern>) -> bool {
    let lower = canopy_index::lowercase(prompt);
    match found {
        Some(p) => exists|i: int|
            0 <= i < all_patterns().len() && #[trigger] all_patterns()[i] == p && recognised(
                p,
                lower,
            ) && forall|k: int|
                0 <= k < i ==> !recognised(#[trigger] all_patterns()[k], lower),
        None => forall|k: int|
            0 <= k < all_patterns().len() ==> !recognised(#[trigger] all_patterns()[k], lower),
    }
}

/// No two views are picked for one prompt.
pub proof fn law_one_view_is_picked(prompt: Seq<char>, a: Option<Pattern>, b: Option<Pattern>)
    requires
        picked(prompt, a),
        picked(prompt, b),
    ensures
        a == b,
{
    let lower = canopy_index::lowercase(prompt);
    let all = all_patterns();
    if let (Some(p), Some(q)) = (a, b) {
        let i = choose|i: int|
            0 <= i < all.len() && #[trigger] all[i] == p && recognised(p, lower) && forall|k: int|
                0 <= k < i ==> !recognised(#[trigger] all[k], lower);
        let j = choose|j: int|
            0 <= j < all.len() && #[trigger] all[j] == q && recognised(q, lower) && forall|k: int|
                0 <= k < j ==> !recognised(#[trigger] all[k], lower);
        if i < j {
            assert(!recognised(all[i], lower));
        } else if j < i {
            assert(!recognised(all[j], lower));
        }
    }
}

/// The first view that a prompt names.
pub fn match_pattern(prompt: &str) -> (found: Option<Pattern>)
    ensures
        picked(prompt@, found),
{
    let lower = to_lowercase(prompt);
    let chars = chars_of(lower.as_str());
    let ps = patterns();
    let mut i: usize = 0;
    while i < ps.len()
        invariant
            ps@ == all_patterns(),
            chars@ == canopy_index::lowercase(prompt@),
            i <= ps@.len(),
            forall|k: int| 0 <= k < i ==> !recognised(#[trigger] all_patterns()[k], chars@),
        decreases ps@.len() - i,
    {
        if is_recognised(ps[i], &chars) {
            assert(all_patterns()[i as int] == ps@[i as int]);
            return Some(ps[i]);
        }
        i += 1;
    }
    None
}

/// The answer to a prompt, given the view that was picked for it.
pub open spec fn answer(prompt: Seq<char>, found: Option<Pattern>) -> Seq<char> {
    let snippet = match found {
        Some(p) => "// Matched pattern: "@ + p.title() + "\n"@ + p.code(),
        None => "// No known pattern matched \""@ + prompt
            + "\" \u{2014} showing a minimal skeleton.\n"@ + FALLBACK_SNIPPET@,
    };
    "// Generated by `tpt-appfront generate --prompt \""@ + prompt + "\"`.\n"@
        + "// This is a rule-based, offline scaffold \u{2014} not a live LLM call.\n"@
        + "// Wire the emitted Msg variants into your app's Msg enum and update loop.\n\n"@
        + snippet + "\n"@
}

/// Writes the answer to a prompt, given the view that was picked for it.
pub fn answer_with(prompt: &str, found: Option<Pattern>) -> (s: String)
    ensures
        s@ == answer(prompt@, found),
{
    let mut snippet = String::new();
    match found {
        Some(p) => {
            snippet = "// Matched pattern: ".to_owned();
            snippet.append(p.name());
            snippet.append("\n");
            snippet.append(p.snippet());
        },
        None => {
            snippet = "// No known pattern matched \"".to_owned();
            snippet.append(prompt);
            snippet.append("\" \u{2014} showing a minimal skeleton.\n");
            snippet.append(FALLBACK_SNIPPET);
        },
    }
    let mut s = "// Generated by `tpt-appfront generate --prompt \"".to_owned();
    s.append(prompt);
    s.append("\"`.\n");
    s.append("// This is a rule-based, offline scaffold \u{2014} not a live LLM call.\n");
    s.append("// Wire the emitted Msg variants into your app's Msg enum and update loop.\n\n");
    s.append(snippet.as_str());
    s.append("\n");
    s
}

/// Answers a prompt with a starting point for a view.
pub fn generate(prompt: &str) -> (s: String)
    ensures
        exists|found: Option<Pattern>|
            picked(prompt@, found) && s@ == #[trigger] answer(prompt@, found),
{
    let found = match_pattern(prompt);
    answer_with(prompt, found)
}

/// The first of the known views one of whose words the prompt holds is the one that
/// is picked, in this order: counter, login form, todo list, card, nav bar,
/// settings list, dashboard.
pub proof fn law_first_known_view_is_picked(prompt: Seq<char>, found: Option<Pattern>)
    requires
        picked(prompt, found),
    ensures
        ({
            let l = canopy_index::lowercase(prompt);
            let c = recognised(Pattern::Counter, l);
            let f = recognised(Pattern::LoginForm, l);
            let t = recognised(Pattern::TodoList, l);
            let d = recognised(Pattern::Card, l);
            let n = recognised(Pattern::NavBar, l);
            let s = recognised(Pattern::SettingsList, l);
            let b = recognised(Pattern::Dashboard, l);
            &&& c ==> found == Some(Pattern::Counter)
            &&& !c && f ==> found == Some(Pattern::LoginForm)
            &&& !c && !f && t ==> found == Some(Pattern::TodoList)
            &&& !c && !f && !t && d ==> found == Some(Pattern::Card)
            &&& !c && !f && !t && !d && n ==> found == Some(Pattern::NavBar)
            &&& !c && !f && !t && !d && !n && s ==> found == Some(Pattern::SettingsList)
            &&& !c && !f && !t && !d && !n && !s && b ==> found == Some(Pattern::Dashboard)
            &&& !c && !f && !t && !d && !n && !s && !b ==> found is None
        }),
{
    let all = all_patterns();
    assert(all[0] == Pattern::Counter);
    assert(all[1] == Pattern::LoginForm);
    assert(all[2] == Pattern::TodoList);
    assert(all[3] == Pattern::Card);
    assert(all[4] == Pattern::NavBar);
    assert(all[5] == Pattern::SettingsList);
    assert(all[6] == Pattern::Dashboard);
}

/// A view is recognised by any of its words, wherever in the prompt it stands.
pub proof fn law_word_is_found_wherever_it_stands(
    p: Pattern,
    k: int,
    head: Seq<char>,
    tail: Seq<char>,
)
    requires
        0 <= k < p.triggers().len(),
    ensures
        recognised(p, head + p.triggers()[k] + tail),
        p.triggers().contains(
            match p {
                Pattern::Counter => "counter"@,
                Pattern::LoginForm => "login"@,
                Pattern::TodoList => "todo"@,
                Pattern::Card => "card"@,
                Pattern::NavBar => "nav"@,
                Pattern::SettingsList => "settings"@,
                Pattern::Dashboard => "dashboard"@,
            },
        ),
{
    let part = p.triggers()[k];
    let s = head + part + tail;
    assert(s.subrange(head.len() as int, (head.len() + part.len()) as int) =~= part);
    assert(stands_at(s, head.len() as int, part));
    assert(occurs(s, p.triggers()[k]));
    let first = p.triggers()[0];
    assert(p.triggers().contains(first));
}

/// The answer holds the prompt, and behind it the code of the view that was found,
/// or of the skeleton, and ends there.
pub proof fn law_answer_holds_prompt_and_code(prompt: Seq<char>, found: Option<Pattern>)
    ensures
        ({
            let a = answer(prompt, found);
            let code = match found {
                Some(p) => p.code(),
                None => FALLBACK_SNIPPET@,
            };
            &&& occurs(a, prompt)
            &&& a.len() > code.len() + prompt.len()
            &&& a.last() == '\n'
            &&& a.subrange(a.len() - 1 - code.len(), a.len() - 1) == code
        }),
{
    let a = answer(prompt, found);
    let code = match found {
        Some(p) => p.code(),
        None => FALLBACK_SNIPPET@,
    };
    let first = "// Generated by `tpt-appfront generate --prompt \""@;
    reveal_strlit("\n");
    reveal_strlit("\"`.\n");
    assert(a.subrange(first.len() as int, (first.len() + prompt.len()) as int) =~= prompt);
    assert(stands_at(a, first.len() as int, prompt));
    assert(a.subrange(a.len() - 1 - code.len(), a.len() - 1) =~= code);
}

} // verus!
