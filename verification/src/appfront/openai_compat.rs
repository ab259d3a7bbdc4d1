//! Talking to services that complete chats.

use vstd::prelude::*;
use vstd::string::*;

use crate::text;
use crate::text::{decimal_text, trim};

verus! {

/// One message of a chat.
#[derive(Debug, Clone, PartialEq)]
pub struct ChatMessage {
    pub role: String,
    pub content: String,
}

/// What a service is asked.
#[derive(Debug, Clone, PartialEq)]
pub struct ChatRequest {
    pub model: String,
    pub messages: Vec<ChatMessage>,
    pub max_tokens: Option<u32>,
}

/// Why there is no answer.
#[derive(Debug, Clone, PartialEq)]
pub enum LlmError {
    /// The request did not get through.
    Request { provider: String },
    /// The service answered with another status than success.
    Status { provider: String, status: u16, body: String },
    /// The answer could not be read.
    Parse { provider: String },
    /// The answer holds nothing.
    Empty { provider: String },
}

impl LlmError {
    pub open spec fn text(&self) -> Seq<char> {
        match self {
            LlmError::Request { provider } => "request to the `"@ + provider@
                + "` chat/completions endpoint failed (network or 4xx/5xx)"@,
            LlmError::Status { provider, status, body } => "`"@ + provider@ + "` API returned "@
                + text::decimal(*status as nat) + ": "@ + body@,
            LlmError::Parse { provider } => "failed to parse the `"@ + provider@
                + "` API JSON response"@,
            LlmError::Empty { provider } => "`"@ + provider@
                + "` API returned an empty completion"@,
        }
    }

    /// What is wrong, in words.
    pub fn message(&self) -> (m: String)
        ensures
            m@ == self.text(),
    {
        match self {
            LlmError::Request { provider } => {
                let mut m = "request to the `".to_owned();
                m.append(provider.as_str());
                m.append("` chat/completions endpoint failed (network or 4xx/5xx)");
                m
            },
            LlmError::Status { provider, status, body } => {
                let mut m = "`".to_owned();
                m.append(provider.as_str());
                m.append("` API returned ");
                m.append(decimal_text(*status as u64).as_str());
                m.append(": ");
                m.append(body.as_str());
                m
            },
            LlmError::Parse { provider } => {
                let mut m = "failed to parse the `".to_owned();
                m.append(provider.as_str());
                m.append("` API JSON response");
                m
            },
            LlmError::Empty { provider } => {
                let mut m = "`".to_owned();
                m.append(provider.as_str());
                m.append("` API returned an empty completion");
                m
            },
        }
    }
}

/// A service that completes chats.
pub struct OpenAiCompatProvider {
    pub provider: String,
    pub api_key: Option<String>,
    pub model: String,
    pub endpoint: String,
}

/// What came back from a service.
pub enum Reply {
    /// Nothing: the request did not get through.
    Failed,
    /// Another status than success, with the body where it could be read.
    Refused(u16, Option<String>),
    /// A body that could not be read.
    Unreadable,
    /// The contents of the choices, where they have one.
    Choices(Vec<Option<String>>),
}

/// The contents that are there, with a line break between them.
pub open spec fn joined(contents: Seq<Option<String>>) -> Option<Seq<char>>
    decreases contents.len(),
{
    if contents.len() == 0 {
        None
    } else {
        match (joined(contents.drop_last()), contents.last()) {
            (before, None) => before,
            (None, Some(s)) => Some(s@),
            (Some(b), Some(s)) => Some(b + "\n"@ + s@),
        }
    }
}

/// The text of an answer; an answer without contents is an empty text.
pub open spec fn completion_of(contents: Seq<Option<String>>) -> Seq<char> {
    match joined(contents) {
        Some(s) => s,
        None => Seq::empty(),
    }
}

fn completion(contents: &Vec<Option<String>>) -> (s: String)
    ensures
        s@ == completion_of(contents@),
{
    let mut s = String::new();
    let mut any = false;
    let mut i: usize = 0;
    assert(contents@.take(0) =~= Seq::<Option<String>>::empty());
    while i < contents.len()
        invariant
            i <= contents@.len(),
            joined(contents@.take(i as int)) == (if any {
                Some(s@)
            } else {
                None
            }),
            !any ==> s@.len() == 0,
        decreases contents@.len() - i,
    {
        assert(contents@.take(i + 1).drop_last() =~= contents@.take(i as int));
        match &contents[i] {
            Some(c) => {
                if any {
                    s.append("\n");
                    s.append(c.as_str());
                } else {
                    s = c.clone();
                    any = true;
                }
            },
            None => {},
        }
        i += 1;
    }
    assert(contents@.take(contents@.len() as int) =~= contents@);
    assert(s@ =~= completion_of(contents@));
    s
}

impl OpenAiCompatProvider {
    /// A client for a service.
    pub fn new(
        provider: &str,
        api_key: Option<String>,
        model: String,
        endpoint: &str,
    ) -> (p: OpenAiCompatProvider)
        ensures
            p.provider@ == provider@,
            p.api_key == api_key,
            p.model == model,
            p.endpoint@ == endpoint@,
    {
        OpenAiCompatProvider {
            provider: provider.to_owned(),
            api_key,
            model,
            endpoint: endpoint.to_owned(),
        }
    }

    /// What the service is called.
    pub fn name(&self) -> (n: &str)
        ensures
            n@ == self.provider@,
    {
        self.provider.as_str()
    }

    /// The question for a user, under the instructions of the system.
    pub fn request(&self, system: &str, user: &str) -> (r: ChatRequest)
        ensures
            r.model@ == self.model@,
            r.messages@.len() == 2,
            r.messages@[0].role@ == "system"@,
            r.messages@[0].content@ == system@,
            r.messages@[1].role@ == "user"@,
            r.messages@[1].content@ == user@,
            r.max_tokens == Some(2048u32),
    {
        let mut messages: Vec<ChatMessage> = Vec::new();
        messages.push(ChatMessage { role: "system".to_owned(), content: system.to_owned() });
        messages.push(ChatMessage { role: "user".to_owned(), content: user.to_owned() });
        ChatRequest { model: self.model.clone(), messages, max_tokens: Some(2048) }
    }

    /// The header that shows the key, where there is one.
    pub fn authorization(&self) -> (h: Option<String>)
        ensures
            match (self.api_key, h) {
                (Some(k), Some(v)) => v@ == "Bearer "@ + k@,
                (None, None) => true,
                _ => false,
            },
    {
        match &self.api_key {
            Some(k) => {
                let mut v = "Bearer ".to_owned();
                v.append(k.as_str());
                Some(v)
            },
            None => None,
        }
    }

    /// The answer in what came back from the service.
    pub fn complete(&self, reply: Reply) -> (r: Result<String, LlmError>)
        ensures
            match reply {
                Reply::Failed => (r matches Err(LlmError::Request { provider }) && provider@
                    == self.provider@),
                Reply::Refused(code, text) => {
                    &&& r matches Err(LlmError::Status { provider, status, body })
                    &&& provider@ == self.provider@
                    &&& status == code
                    &&& body@ == (match text {
                        Some(t) => t@,
                        None => "<no body>"@,
                    })
                },
                Reply::Unreadable => (r matches Err(LlmError::Parse { provider }) && provider@
                    == self.provider@),
                Reply::Choices(contents) => if text::trimmed(
                    completion_of(contents@),
                ).len() == 0 {
                    (r matches Err(LlmError::Empty { provider }) && provider@ == self.provider@)
                } else {
                    (r matches Ok(s) && s@ == completion_of(contents@))
                },
            },
    {
        match reply {
            Reply::Failed => Err(LlmError::Request { provider: self.provider.clone() }),
            Reply::Refused(status, text) => {
                let body = match text {
                    Some(t) => t,
                    None => "<no body>".to_owned(),
                };
                Err(LlmError::Status { provider: self.provider.clone(), status, body })
            },
            Reply::Unreadable => Err(LlmError::Parse { provider: self.provider.clone() }),
            Reply::Choices(contents) => {
                let s = completion(&contents);
                if trim(s.as_str()).as_str().unicode_len() == 0 {
                    Err(LlmError::Empty { provider: self.provider.clone() })
                } else {
                    Ok(s)
                }
            },
        }
    }
}

/// The texts of the choices that have one.
pub open spec fn given(contents: Seq<Option<String>>) -> Seq<Seq<char>>
    decreases contents.len(),
{
    if contents.len() == 0 {
        Seq::empty()
    } else {
        match contents.last() {
            Some(s) => given(contents.drop_last()).push(s@),
            None => given(contents.drop_last()),
        }
    }
}

/// A completion is made of the texts of the choices, each on lines of its own, in
/// order: where no text has a line end, splitting at line ends gives them back.
pub proof fn law_choices_are_put_line_by_line(contents: Seq<Option<String>>)
    ensures
        completion_of(contents) == text::joined(given(contents), '\n'),
        given(contents).len() > 0 && (forall|i: int, k: int|
            0 <= i < given(contents).len() && 0 <= k < given(contents)[i].len() ==> #[trigger] given(
                contents,
            )[i][k] != '\n') ==> text::split(completion_of(contents), '\n') == given(contents),
{
    lemma_lines(contents);
    if given(contents).len() > 0 && (forall|i: int, k: int|
        0 <= i < given(contents).len() && 0 <= k < given(contents)[i].len() ==> #[trigger] given(
            contents,
        )[i][k] != '\n') {
        text::law_joined_pieces_are_split_again(given(contents), '\n');
    }
}

proof fn lemma_lines(contents: Seq<Option<String>>)
    ensures
        given(contents).len() == 0 <==> joined(contents) is None,
        completion_of(contents) == text::joined(given(contents), '\n'),
    decreases contents.len(),
{
    if contents.len() > 0 {
        let head = contents.drop_last();
        lemma_lines(head);
        match contents.last() {
            Some(s) => {
                reveal_strlit("\n");
                assert("\n"@ =~= seq!['\n']);
                lemma_joined_more(given(head), s@);
            },
            None => {},
        }
    }
}

proof fn lemma_joined_more(pieces: Seq<Seq<char>>, s: Seq<char>)
    ensures
        pieces.len() == 0 ==> text::joined(pieces.push(s), '\n') == s,
        pieces.len() > 0 ==> text::joined(pieces.push(s), '\n') == text::joined(pieces, '\n')
            + seq!['\n'] + s,
    decreases pieces.len(),
{
    if pieces.len() > 0 {
        let rest = pieces.drop_first();
        lemma_joined_more(rest, s);
        assert(pieces.push(s).drop_first() =~= rest.push(s));
        if pieces.len() == 1 {
            assert(text::joined(rest.push(s), '\n') == s);
        }
        assert(text::joined(pieces.push(s), '\n') =~= text::joined(pieces, '\n') + seq!['\n'] + s);
    }
}

/// The key is sent as a bearer token, and no token where there is no key.
pub proof fn law_key_is_sent_as_a_token(p: OpenAiCompatProvider, h: Option<String>)
    requires
        call_ensures(OpenAiCompatProvider::authorization, (&p,), h),
    ensures
        h is Some <==> p.api_key is Some,
        h matches Some(v) ==> v@.len() == 7 + p.api_key->0@.len() && v@.skip(7) == p.api_key->0@
            && v@.take(7) == seq!['B', 'e', 'a', 'r', 'e', 'r', ' '],
{
    reveal_strlit("Bearer ");
    if let Some(v) = h {
        assert(v@.skip(7) =~= p.api_key->0@);
        assert(v@.take(7) =~= seq!['B', 'e', 'a', 'r', 'e', 'r', ' ']);
    }
}

/// One choice with a text that is not blank is the completion; a reply without one
/// is a fault of the provider.
pub proof fn law_text_of_a_choice_is_the_completion(
    p: OpenAiCompatProvider,
    s: String,
    contents: Vec<Option<String>>,
    r: Result<String, LlmError>,
)
    requires
        call_ensures(OpenAiCompatProvider::complete, (&p, Reply::Choices(contents)), r),
        contents@ == seq![Some(s)] || contents@ == seq![None, Some(s)] || contents@ == seq![
            Some(s),
            None,
        ],
    ensures
        text::trimmed(s@).len() > 0 ==> (r matches Ok(t) && t@ == s@),
        text::trimmed(s@).len() == 0 ==> (r matches Err(LlmError::Empty { provider }) && provider@
            == p.provider@),
{
    law_choices_are_put_line_by_line(contents@);
    let none: Option<String> = None;
    reveal_with_fuel(given, 3);
    assert(seq![Some(s)].drop_last() =~= Seq::<Option<String>>::empty());
    assert(seq![none, Some(s)].drop_last() =~= seq![none]);
    assert(seq![Some(s), none].drop_last() =~= seq![Some(s)]);
    assert(seq![none].drop_last() =~= Seq::<Option<String>>::empty());
    assert(given(contents@) =~= seq![s@]);
}

} // verus!
