//! The conversation with an Ollama server that produces a summary: the
//! decisions taken on each reply, and the errors reported.

use vstd::prelude::*;

use crate::json::{json_get, JsonValue};
use crate::text::{
    contains_text, debug_quoted, join_texts, join_url, seq_join, str_debug, text_contains,
    text_equals, texts, trim_end_slashes,
};

verus! {

/// Why a summary could not be obtained from the Ollama server.
#[derive(Debug, PartialEq, Eq)]
pub enum Error {
    /// The request could not be made or its reply not read; the text is the
    /// `{:?}` rendering of the transport error.
    Request(String),
    /// The server answered with an error status; the text says why.
    StatusNotOk(String),
    /// The reply held no text.
    NoTextInResponse,
}

/// The text that an error is reported with: its `{:?}` rendering.
pub open spec fn error_text(e: Error) -> Seq<char> {
    match e {
        Error::Request(d) => "Request("@ + d@ + ")"@,
        Error::StatusNotOk(s) => "StatusNotOk("@ + str_debug(s@) + ")"@,
        Error::NoTextInResponse => "NoTextInResponse"@,
    }
}

impl Error {
    /// The text that the error is reported with (see `error_text`).
    pub fn message(&self) -> (r: String)
        ensures
            r@ == error_text(*self),
    {
        match self {
            Error::Request(d) => {
                let mut out = String::from_str("Request(");
                out.append(d.as_str());
                out.append(")");
                out
            },
            Error::StatusNotOk(s) => {
                let mut out = String::from_str("StatusNotOk(");
                let quoted = debug_quoted(s.as_str());
                out.append(quoted.as_str());
                out.append(")");
                out
            },
            Error::NoTextInResponse => String::from_str("NoTextInResponse"),
        }
    }
}

/// The address of the chat endpoint under `base_url`.
pub fn chat_url(base_url: &str) -> (r: String)
    ensures
        r@ == trim_end_slashes(base_url@) + "/api/chat"@,
{
    join_url(base_url, "/api/chat")
}

/// The address of the endpoint that lists the installed models.
pub fn tags_url(base_url: &str) -> (r: String)
    ensures
        r@ == trim_end_slashes(base_url@) + "/api/tags"@,
{
    join_url(base_url, "/api/tags")
}

/// The `name` of a model entry, when it is a string.
pub open spec fn name_of(item: JsonValue) -> Option<Seq<char>> {
    match json_get(item, "name"@) {
        Some(JsonValue::Text(s)) => Some(s@),
        _ => None,
    }
}

/// The names of the entries of `items` that have one, in order.
pub open spec fn names_in(items: Seq<JsonValue>) -> Seq<Seq<char>>
    decreases items.len(),
{
    if items.len() == 0 {
        Seq::empty()
    } else {
        match name_of(items.last()) {
            Some(n) => names_in(items.drop_last()).push(n),
            None => names_in(items.drop_last()),
        }
    }
}

/// The model names that a model listing holds: the names of the entries of
/// its `models` array; none when it has no such array.
pub open spec fn model_names_of(doc: JsonValue) -> Seq<Seq<char>> {
    match json_get(doc, "models"@) {
        Some(JsonValue::Array(items)) => names_in(items@),
        _ => Seq::empty(),
    }
}

/// The model names that the model listing `doc` holds.
pub fn model_names(doc: &JsonValue) -> (r: Vec<String>)
    ensures
        texts(r@) == model_names_of(*doc),
{
    let mut names: Vec<String> = Vec::new();
    match doc.get("models") {
        Some(JsonValue::Array(items)) => {
            let mut i: usize = 0;
            while i < items.len()
                invariant
                    0 <= i <= items@.len(),
                    texts(names@) == names_in(items@.take(i as int)),
                decreases items@.len() - i,
            {
                proof {
                    assert(items@.take(i + 1).drop_last() =~= items@.take(i as int));
                }
                let ghost before = names@;
                match items[i].get("name") {
                    Some(JsonValue::Text(s)) => {
                        names.push(s.clone());
                        assert(texts(names@) =~= texts(before).push(s@));
                    },
                    _ => {},
                }
                i = i + 1;
            }
            assert(items@.take(items@.len() as int) =~= items@);
        },
        _ => {
            assert(texts(names@) =~= Seq::<Seq<char>>::empty());
        },
    }
    names
}

/// What came of asking the server for its installed models.
#[derive(Debug, PartialEq, Eq)]
pub enum ModelLookup {
    /// No reply was had.
    NoReply,
    /// A reply with this status; the document when its body was JSON.
    Reply { status_code: i32, document: Option<JsonValue> },
}

/// Whether a status code is a success (`200..=299`).
pub open spec fn status_ok(status_code: i32) -> bool {
    200 <= status_code <= 299
}

/// The installed models that a lookup tells of: known only from a successful
/// reply that is JSON.
pub open spec fn installed_models_of(lookup: ModelLookup) -> Option<Seq<Seq<char>>> {
    match lookup {
        ModelLookup::Reply { status_code, document: Some(doc) } => if status_ok(status_code) {
            Some(model_names_of(doc))
        } else {
            None
        },
        _ => None,
    }
}

/// The installed models that a lookup tells of (see `installed_models_of`).
pub fn installed_models(lookup: &ModelLookup) -> (r: Option<Vec<String>>)
    ensures
        match installed_models_of(*lookup) {
            Some(names) => r matches Some(v) && texts(v@) == names,
            None => r is None,
        },
{
    match lookup {
        ModelLookup::Reply { status_code, document: Some(doc) } => {
            if *status_code >= 200 && *status_code <= 299 {
                Some(model_names(doc))
            } else {
                None
            }
        },
        _ => None,
    }
}

/// The model listing that the service hands to its page.
#[derive(Debug, PartialEq, Eq)]
pub struct ModelList {
    pub models: Vec<String>,
}

/// The model listing for a lookup: the installed models when they are
/// known, none otherwise.
pub fn model_list(lookup: &ModelLookup) -> (r: ModelList)
    ensures
        texts(r.models@) == (match installed_models_of(*lookup) {
            Some(names) => names,
            None => Seq::empty(),
        }),
{
    match installed_models(lookup) {
        Some(models) => ModelList { models },
        None => {
            let models: Vec<String> = Vec::new();
            assert(texts(models@) =~= Seq::<Seq<char>>::empty());
            ModelList { models }
        },
    }
}

/// What to tell about a model that the server does not have, given the
/// models it has.
pub open spec fn missing_model_text(model: Seq<char>, installed: Seq<Seq<char>>) -> Seq<char> {
    "Model '"@ + model + "' not found. Pull it with: ollama pull "@ + model + ". "@ + (
    if installed.len() == 0 {
        "No local models found. Pull one, e.g.: ollama pull llama3:8b"@
    } else {
        "Installed models: "@ + seq_join(installed, ", "@)
    })
}

/// What to tell about a model that the server does not have (see
/// `missing_model_text`).
pub fn missing_model_message(model: &str, installed: &Vec<String>) -> (r: String)
    ensures
        r@ == missing_model_text(model@, texts(installed@)),
{
    let mut out = String::from_str("Model '");
    out.append(model);
    out.append("' not found. Pull it with: ollama pull ");
    out.append(model);
    out.append(". ");
    if installed.len() == 0 {
        out.append("No local models found. Pull one, e.g.: ollama pull llama3:8b");
    } else {
        out.append("Installed models: ");
        let joined = join_texts(installed, ", ");
        out.append(joined.as_str());
    }
    out
}

/// What a chat reply's status calls for.
#[derive(Debug, PartialEq, Eq)]
pub enum StatusCheck {
    /// A success: read the reply.
    Accepted,
    /// An error that looks like a missing model: look up the installed
    /// models; the text is the reply's body.
    LookUpModels(String),
    /// An error: give up with it.
    Rejected(Error),
}

/// What a chat reply with `status_code` and body text `body` (`None` when
/// the body is no text) calls for: success for `200..=299`; otherwise the
/// body (empty when it is no text) is the error, and a body that mentions
/// `"not found"` or a `404` status calls for a look at the installed models.
pub fn check_status(status_code: i32, body: Option<&str>) -> (r: StatusCheck)
    ensures
        ({
            let text = match body {
                Some(t) => t@,
                None => Seq::empty(),
            };
            if status_ok(status_code) {
                r == StatusCheck::Accepted
            } else if contains_text(text, "not found"@) || status_code == 404 {
                r matches StatusCheck::LookUpModels(t) && t@ == text
            } else {
                r matches StatusCheck::Rejected(Error::StatusNotOk(t)) && t@ == text
            }
        }),
{
    if status_code >= 200 && status_code <= 299 {
        return StatusCheck::Accepted;
    }
    let text = match body {
        Some(t) => String::from_str(t),
        None => String::new(),
    };
    if text_contains(text.as_str(), "not found") || status_code == 404 {
        StatusCheck::LookUpModels(text)
    } else {
        StatusCheck::Rejected(Error::StatusNotOk(text))
    }
}

/// The error for a chat reply that looked like a missing `model`, with body
/// text `body`, once the installed models were looked up: the missing-model
/// message when they are known, the body otherwise.
pub fn missing_model_error(model: &str, body: String, lookup: &ModelLookup) -> (r: Error)
    ensures
        match installed_models_of(*lookup) {
            Some(names) => r matches Error::StatusNotOk(t) && t@ == missing_model_text(
                model@,
                names,
            ),
            None => r == Error::StatusNotOk(body),
        },
{
    match installed_models(lookup) {
        Some(names) => Error::StatusNotOk(missing_model_message(model, &names)),
        None => Error::StatusNotOk(body),
    }
}

/// Who speaks a message of the conversation.
#[derive(Debug, Clone, Copy, PartialEq, Eq, Structural)]
pub enum ChatRole {
    System,
    User,
    Assistant,
}

impl ChatRole {
    /// The name of the role in the chat protocol.
    pub fn name(&self) -> (r: &'static str)
        ensures
            r@ == (match self {
                ChatRole::System => "system"@,
                ChatRole::User => "user"@,
                ChatRole::Assistant => "assistant"@,
            }),
    {
        match self {
            ChatRole::System => "system",
            ChatRole::User => "user",
            ChatRole::Assistant => "assistant",
        }
    }
}

/// A message of the conversation.
#[derive(Debug, PartialEq, Eq)]
pub struct ChatMessage {
    pub role: ChatRole,
    pub content: String,
}

/// The message of a chat reply.
#[derive(Debug, PartialEq, Eq)]
pub struct ReplyMessage {
    pub role: String,
    pub content: String,
}

/// A chat reply: its message, and why the generation stopped.
#[derive(Debug, PartialEq, Eq)]
pub struct ChatReply {
    pub message: Option<ReplyMessage>,
    pub done_reason: Option<String>,
}

/// The text of a reply: the content of its message, when that is not empty.
pub open spec fn reply_text(reply: ChatReply) -> Option<Seq<char>> {
    match reply.message {
        Some(m) => if m.content@.len() > 0 {
            Some(m.content@)
        } else {
            None
        },
        None => None,
    }
}

/// Whether the generation of a reply stopped at its length limit.
pub open spec fn reply_truncated(reply: ChatReply) -> bool {
    match reply.done_reason {
        Some(d) => d@ == "length"@,
        None => false,
    }
}

/// The message that asks the model to go on after a truncated reply.
pub open spec fn continue_prompt() -> Seq<char> {
    "Continue. Finish any unfinished sections, bullets, and examples. Maintain the same formatting."@
}

/// What a reply leads to.
#[derive(Debug, PartialEq, Eq)]
pub enum TurnOutcome {
    /// Ask again: the reply was cut short and turns are left.
    Continue,
    /// Done: the whole summary.
    Finished(String),
}

/// Everything the assistant said in a conversation, in order.
pub open spec fn assistant_text(conversation: Seq<(ChatRole, Seq<char>)>) -> Seq<char>
    decreases conversation.len(),
{
    if conversation.len() == 0 {
        Seq::empty()
    } else {
        let rest = assistant_text(conversation.drop_last());
        if conversation.last().0 == ChatRole::Assistant {
            rest + conversation.last().1
        } else {
            rest
        }
    }
}

/// A conversation that produces one summary.
pub struct ChatSession {
    messages: Vec<ChatMessage>,
    accumulated: String,
    turns: u32,
    max_continuations: u32,
}

/// The role and text of each message.
pub open spec fn conversation_of(messages: Seq<ChatMessage>) -> Seq<(ChatRole, Seq<char>)> {
    messages.map_values(|m: ChatMessage| (m.role, m.content@))
}

impl ChatSession {
    /// The messages so far, by role and text.
    pub closed spec fn conversation(&self) -> Seq<(ChatRole, Seq<char>)> {
        conversation_of(self.messages@)
    }

    /// The summary text gathered so far.
    pub closed spec fn summary_so_far(&self) -> Seq<char> {
        self.accumulated@
    }

    /// How many requests have been made.
    pub closed spec fn turns_taken(&self) -> nat {
        self.turns as nat
    }

    /// How many times a cut-short reply may be followed up.
    pub closed spec fn continuation_limit(&self) -> nat {
        self.max_continuations as nat
    }

    /// A conversation that opens with the system prompt and the transcript,
    /// before any request.
    pub fn new(system_prompt: &str, transcript: &str, max_continuations: u32) -> (r: ChatSession)
        ensures
            r.conversation() == seq![
                (ChatRole::System, system_prompt@),
                (ChatRole::User, transcript@),
            ],
            r.summary_so_far() == Seq::<char>::empty(),
            r.summary_so_far() == assistant_text(r.conversation()),
            r.turns_taken() == 0,
            r.continuation_limit() == max_continuations,
    {
        let mut messages: Vec<ChatMessage> = Vec::new();
        messages.push(ChatMessage { role: ChatRole::System, content: String::from_str(system_prompt) });
        messages.push(ChatMessage { role: ChatRole::User, content: String::from_str(transcript) });
        let r = ChatSession {
            messages,
            accumulated: String::new(),
            turns: 0,
            max_continuations,
        };
        assert(r.conversation() =~= seq![
            (ChatRole::System, system_prompt@),
            (ChatRole::User, transcript@),
        ]);
        proof {
            let c = r.conversation();
            assert(c.drop_last().drop_last() =~= Seq::<(ChatRole, Seq<char>)>::empty());
            assert(assistant_text(c.drop_last().drop_last()) == Seq::<char>::empty());
            assert(c.drop_last().last().0 == ChatRole::System);
            assert(assistant_text(c.drop_last()) == assistant_text(c.drop_last().drop_last()));
            assert(c.last().0 == ChatRole::User);
            assert(assistant_text(c) =~= Seq::<char>::empty());
        }
        r
    }

    /// The messages to send with the next request.
    pub fn messages(&self) -> (r: &Vec<ChatMessage>)
        ensures
            conversation_of(r@) == self.conversation(),
    {
        &self.messages
    }

    /// How many requests have been made.
    pub fn turns(&self) -> (r: u32)
        ensures
            r == self.turns_taken(),
    {
        self.turns
    }

    /// Counts a request that is about to be made.
    pub fn begin_turn(&mut self)
        requires
            old(self).turns_taken() < u32::MAX,
        ensures
            final(self).turns_taken() == old(self).turns_taken() + 1,
            final(self).conversation() == old(self).conversation(),
            final(self).summary_so_far() == old(self).summary_so_far(),
            final(self).continuation_limit() == old(self).continuation_limit(),
    {
        self.turns = self.turns + 1;
    }

    /// Takes in a reply. A reply without text is an error. Otherwise its
    /// text is added to the summary; when the reply was cut short and no
    /// more than `continuation_limit` requests have been made, the reply and
    /// a request to go on join the conversation and the conversation goes on;
    /// else the summary is done.
    pub fn absorb_reply(&mut self, reply: ChatReply) -> (r: Result<TurnOutcome, Error>)
        ensures
            final(self).turns_taken() == old(self).turns_taken(),
            final(self).continuation_limit() == old(self).continuation_limit(),
            match reply_text(reply) {
                None => {
                    &&& r == Err::<TurnOutcome, Error>(Error::NoTextInResponse)
                    &&& final(self).conversation() == old(self).conversation()
                    &&& final(self).summary_so_far() == old(self).summary_so_far()
                },
                Some(chunk) => {
                    &&& final(self).summary_so_far() == old(self).summary_so_far() + chunk
                    &&& (old(self).summary_so_far() == assistant_text(old(self).conversation())
                        && r == Ok::<TurnOutcome, Error>(TurnOutcome::Continue))
                        ==> final(self).summary_so_far() == assistant_text(final(self).conversation())
                    &&& if reply_truncated(reply) && old(self).turns_taken() <= old(
                        self,
                    ).continuation_limit() {
                        &&& r == Ok::<TurnOutcome, Error>(TurnOutcome::Continue)
                        &&& final(self).conversation() == old(self).conversation() + seq![
                            (ChatRole::Assistant, chunk),
                            (ChatRole::User, continue_prompt()),
                        ]
                    } else {
                        &&& r matches Ok(TurnOutcome::Finished(s))
                        &&& s@ == final(self).summary_so_far()
                        &&& final(self).conversation() == old(self).conversation()
                    }
                },
            },
    {
        let truncated = match &reply.done_reason {
            Some(d) => text_equals(d.as_str(), "length"),
            None => false,
        };
        let chunk = match reply.message {
            Some(m) => if !m.content.as_str().is_empty() {
                m.content
            } else {
                return Err(Error::NoTextInResponse);
            },
            None => return Err(Error::NoTextInResponse),
        };
        self.accumulated.append(chunk.as_str());
        if !truncated || self.turns > self.max_continuations {
            return Ok(TurnOutcome::Finished(self.accumulated.clone()));
        }
        let ghost before = self.messages@;
        let ghost text = chunk@;
        self.messages.push(ChatMessage { role: ChatRole::Assistant, content: chunk });
        self.messages.push(
            ChatMessage {
                role: ChatRole::User,
                content: String::from_str(
                    "Continue. Finish any unfinished sections, bullets, and examples. Maintain the same formatting.",
                ),
            },
        );
        assert(conversation_of(self.messages@) =~= conversation_of(before) + seq![
            (ChatRole::Assistant, text),
            (ChatRole::User, continue_prompt()),
        ]);
        proof {
            let c0 = conversation_of(before);
            let c1 = conversation_of(self.messages@);
            assert(c1.drop_last() =~= c0.push((ChatRole::Assistant, text)));
            let c2 = c0.push((ChatRole::Assistant, text));
            assert(c2.drop_last() =~= c0);
            assert(c1.last().0 == ChatRole::User);
            assert(assistant_text(c1) == assistant_text(c1.drop_last()));
            assert(c2.last() == (ChatRole::Assistant, text));
            assert(assistant_text(c2) == assistant_text(c2.drop_last()) + c2.last().1);
            assert(assistant_text(c1) == assistant_text(c0) + text);
        }
        Ok(TurnOutcome::Continue)
    }
}

/// An entry whose `name` member is the string `n` is named `n`.
pub proof fn law_entry_name(item: JsonValue, n: String)
    requires
        json_get(item, "name"@) == Some(JsonValue::Text(n)),
    ensures
        name_of(item) == Some(n@),
{
}

/// Every entry with a string name is listed, in order, after the names of
/// the entries before it; an entry without one adds nothing. There is no
/// cap on the number of names.
pub proof fn law_names_grow_by_entry(items: Seq<JsonValue>, item: JsonValue)
    ensures
        match json_get(item, "name"@) {
            Some(JsonValue::Text(n)) => names_in(items.push(item)) == names_in(items).push(n@),
            _ => names_in(items.push(item)) == names_in(items),
        },
        names_in(Seq::<JsonValue>::empty()) == Seq::<Seq<char>>::empty(),
{
    assert(items.push(item).drop_last() =~= items);
}

/// The number of names listed is the number of entries that have a string
/// name.
pub proof fn law_names_count(items: Seq<JsonValue>)
    ensures
        names_in(items).len() == items.filter(|x: JsonValue| name_of(x) is Some).len(),
    decreases items.len(),
{
    reveal(Seq::filter);
    if items.len() > 0 {
        law_names_count(items.drop_last());
    }
}

/// A listing whose `models` member is an array lists the names of its
/// entries; anything else lists none.
pub proof fn law_listing_names(doc: JsonValue)
    ensures
        match json_get(doc, "models"@) {
            Some(JsonValue::Array(items)) => model_names_of(doc) == names_in(items@),
            _ => model_names_of(doc) == Seq::<Seq<char>>::empty(),
        },
{
}

} // verus!
