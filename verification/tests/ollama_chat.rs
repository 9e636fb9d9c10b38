use tldr_ollama::json::JsonValue;
use tldr_ollama::ollama::{
    chat_url, check_status, installed_models, missing_model_error, missing_model_message,
    model_list, model_names, tags_url, ChatReply, ChatRole, ChatSession, Error, ModelLookup,
    ReplyMessage, StatusCheck, TurnOutcome,
};

fn listing(names: &[&str]) -> JsonValue {
    let items = names
        .iter()
        .map(|n| JsonValue::Object(vec![("name".to_string(), JsonValue::Text(n.to_string()))]))
        .collect();
    JsonValue::Object(vec![("models".to_string(), JsonValue::Array(items))])
}

fn reply(text: &str, reason: Option<&str>) -> ChatReply {
    ChatReply {
        message: Some(ReplyMessage { role: "assistant".to_string(), content: text.to_string() }),
        done_reason: reason.map(|r| r.to_string()),
    }
}

#[test]
fn urls() {
    assert_eq!(chat_url("http://127.0.0.1:11434/"), "http://127.0.0.1:11434/api/chat");
    assert_eq!(tags_url("http://127.0.0.1:11434"), "http://127.0.0.1:11434/api/tags");
}

#[test]
fn names_from_listing() {
    let doc = JsonValue::Object(vec![(
        "models".to_string(),
        JsonValue::Array(vec![
            JsonValue::Object(vec![("name".to_string(), JsonValue::Text("llama3:8b".to_string()))]),
            JsonValue::Object(vec![("name".to_string(), JsonValue::Number("3".to_string()))]),
            JsonValue::Text("name".to_string()),
            JsonValue::Object(vec![
                ("size".to_string(), JsonValue::Number("1".to_string())),
                ("name".to_string(), JsonValue::Text("qwen".to_string())),
            ]),
        ]),
    )]);
    assert_eq!(model_names(&doc), vec!["llama3:8b".to_string(), "qwen".to_string()]);
    assert_eq!(model_names(&JsonValue::Null), Vec::<String>::new());
    let not_array = JsonValue::Object(vec![("models".to_string(), JsonValue::Null)]);
    assert_eq!(model_names(&not_array), Vec::<String>::new());
}

#[test]
fn json_lookup() {
    let doc = JsonValue::Object(vec![
        ("a".to_string(), JsonValue::Bool(true)),
        ("b".to_string(), JsonValue::Null),
    ]);
    assert_eq!(doc.get("a"), Some(&JsonValue::Bool(true)));
    assert_eq!(doc.get("b"), Some(&JsonValue::Null));
    assert_eq!(doc.get("c"), None);
    assert_eq!(JsonValue::Array(vec![]).get("a"), None);
}

#[test]
fn model_listing_needs_success() {
    let ok = ModelLookup::Reply { status_code: 200, document: Some(listing(&["a", "b"])) };
    assert_eq!(model_list(&ok).models, vec!["a".to_string(), "b".to_string()]);
    let edge = ModelLookup::Reply { status_code: 299, document: Some(listing(&["a"])) };
    assert_eq!(installed_models(&edge), Some(vec!["a".to_string()]));
    let bad = ModelLookup::Reply { status_code: 500, document: Some(listing(&["a"])) };
    assert_eq!(model_list(&bad).models, Vec::<String>::new());
    let redirect = ModelLookup::Reply { status_code: 300, document: Some(listing(&["a"])) };
    assert_eq!(installed_models(&redirect), None);
    let not_json = ModelLookup::Reply { status_code: 200, document: None };
    assert_eq!(installed_models(&not_json), None);
    assert_eq!(model_list(&ModelLookup::NoReply).models, Vec::<String>::new());
}

#[test]
fn status_checks() {
    assert_eq!(check_status(200, Some("{}")), StatusCheck::Accepted);
    assert_eq!(check_status(299, None), StatusCheck::Accepted);
    assert_eq!(
        check_status(500, Some("model \"x\" not found")),
        StatusCheck::LookUpModels("model \"x\" not found".to_string())
    );
    assert_eq!(check_status(404, None), StatusCheck::LookUpModels(String::new()));
    assert_eq!(
        check_status(500, Some("boom")),
        StatusCheck::Rejected(Error::StatusNotOk("boom".to_string()))
    );
    assert_eq!(check_status(199, None), StatusCheck::Rejected(Error::StatusNotOk(String::new())));
}

#[test]
fn missing_model_messages() {
    assert_eq!(
        missing_model_message("m:1", &vec![]),
        "Model 'm:1' not found. Pull it with: ollama pull m:1. No local models found. Pull one, e.g.: ollama pull llama3:8b"
    );
    assert_eq!(
        missing_model_message("m", &vec!["a".to_string(), "b".to_string()]),
        "Model 'm' not found. Pull it with: ollama pull m. Installed models: a, b"
    );
    let found = ModelLookup::Reply { status_code: 200, document: Some(listing(&["a"])) };
    assert_eq!(
        missing_model_error("m", "raw".to_string(), &found),
        Error::StatusNotOk(
            "Model 'm' not found. Pull it with: ollama pull m. Installed models: a".to_string()
        )
    );
    assert_eq!(
        missing_model_error("m", "raw".to_string(), &ModelLookup::NoReply),
        Error::StatusNotOk("raw".to_string())
    );
}

#[test]
fn error_messages() {
    assert_eq!(Error::NoTextInResponse.message(), "NoTextInResponse");
    assert_eq!(Error::StatusNotOk("a \"b\"".to_string()).message(), "StatusNotOk(\"a \\\"b\\\"\")");
    assert_eq!(Error::Request("IoError(x)".to_string()).message(), "Request(IoError(x))");
}

#[test]
fn single_turn_summary() {
    let mut s = ChatSession::new("sys", "transcript", 2);
    assert_eq!(s.messages().len(), 2);
    assert_eq!(s.messages()[0].role, ChatRole::System);
    assert_eq!(s.messages()[1].content, "transcript");
    s.begin_turn();
    assert_eq!(s.absorb_reply(reply("Summary.", Some("stop"))), Ok(TurnOutcome::Finished("Summary.".to_string())));
    assert_eq!(s.messages().len(), 2);
    assert_eq!(s.turns(), 1);
}

#[test]
fn continuation_turns_are_bounded() {
    let mut s = ChatSession::new("sys", "t", 2);
    let mut requests = 0;
    let mut parts = vec!["one ", "two ", "three ", "four "].into_iter();
    let outcome = loop {
        s.begin_turn();
        requests += 1;
        match s.absorb_reply(reply(parts.next().unwrap(), Some("length"))).unwrap() {
            TurnOutcome::Continue => continue,
            TurnOutcome::Finished(text) => break text,
        }
    };
    assert_eq!(requests, 3);
    assert_eq!(outcome, "one two three ");
    let roles: Vec<&str> = s.messages().iter().map(|m| m.role.name()).collect();
    assert_eq!(roles, vec!["system", "user", "assistant", "user", "assistant", "user"]);
    assert_eq!(s.messages()[2].content, "one ");
    assert_eq!(
        s.messages()[3].content,
        "Continue. Finish any unfinished sections, bullets, and examples. Maintain the same formatting."
    );
}

#[test]
fn no_continuation_when_limit_is_zero() {
    let mut s = ChatSession::new("sys", "t", 0);
    s.begin_turn();
    assert_eq!(s.absorb_reply(reply("cut", Some("length"))), Ok(TurnOutcome::Finished("cut".to_string())));
}

#[test]
fn empty_replies_are_errors() {
    let mut s = ChatSession::new("sys", "t", 2);
    s.begin_turn();
    assert_eq!(s.absorb_reply(reply("", None)), Err(Error::NoTextInResponse));
    let none = ChatReply { message: None, done_reason: Some("stop".to_string()) };
    assert_eq!(s.absorb_reply(none), Err(Error::NoTextInResponse));
    assert_eq!(s.messages().len(), 2);
}
