use twinz::client::{ClientInput, ClientRequest};

fn send(line: &str) -> ClientRequest {
    match ClientInput::from_line(line) {
        ClientInput::Send(r) => r,
        other => panic!("expected a request, got {:?}", other),
    }
}

fn words(ws: &[&str]) -> Vec<String> {
    ws.iter().map(|w| w.to_string()).collect()
}

#[test]
fn lower_case_get_is_a_get() {
    assert_eq!(send("get name\n"), ClientRequest::Get("name".to_string()));
    assert_eq!(send("GeT name"), ClientRequest::Get("name".to_string()));
}

#[test]
fn set_with_two_arguments_is_a_put() {
    assert_eq!(send("  set k v  "), ClientRequest::Put("k".to_string(), "v".to_string()));
}

#[test]
fn ping_ignores_its_arguments() {
    assert_eq!(send("ping"), ClientRequest::Ping);
    assert_eq!(send("PING a b c"), ClientRequest::Ping);
}

#[test]
fn wrong_argument_counts_are_sent_as_words() {
    assert_eq!(send("GET"), ClientRequest::Raw(words(&["GET"])));
    assert_eq!(send("get a b"), ClientRequest::Raw(words(&["get", "a", "b"])));
    assert_eq!(send("set k"), ClientRequest::Raw(words(&["set", "k"])));
    assert_eq!(send("hello\tworld"), ClientRequest::Raw(words(&["hello", "world"])));
}

#[test]
fn upper_casing_follows_unicode() {
    // "ß" upper-cases to "SS", so this is no command word.
    assert_eq!(send("straße x"), ClientRequest::Raw(words(&["straße", "x"])));
}

#[test]
fn blank_lines_are_skipped() {
    assert_eq!(ClientInput::from_line(""), ClientInput::Skip);
    assert_eq!(ClientInput::from_line("   \t\n"), ClientInput::Skip);
}

#[test]
fn exit_and_quit_end_the_session_in_any_case() {
    assert_eq!(ClientInput::from_line("exit\n"), ClientInput::Quit);
    assert_eq!(ClientInput::from_line("  QuIt "), ClientInput::Quit);
    assert_eq!(ClientInput::from_line("EXIT now"), ClientInput::Send(ClientRequest::Raw(words(&["EXIT", "now"]))));
    assert_eq!(ClientInput::from_line("exits"), ClientInput::Send(ClientRequest::Raw(words(&["exits"]))));
}

#[test]
fn from_words_takes_the_upper_cased_head_as_given() {
    let parts = words(&["get", "k"]);
    assert_eq!(ClientRequest::from_words("GET", &parts), ClientRequest::Get("k".to_string()));
    assert_eq!(ClientRequest::from_words("get", &parts), ClientRequest::Raw(parts.clone()));
}
