use protohackers::chat::{name_from_line, strip_newline, Outgoing, ServerContext, MAX_CONNECTIONS};

fn pairs(out: &[Outgoing]) -> Vec<(String, String)> {
    out.iter().map(|o| (o.recipient.clone(), o.message.clone())).collect()
}

fn pair(recipient: &str, message: &str) -> (String, String) {
    (recipient.to_string(), message.to_string())
}

#[test]
fn joining_announces_the_room_and_the_newcomer() {
    let mut ctx = ServerContext::new();
    assert_eq!(pairs(&ctx.add_client("alice")), vec![pair("alice", "* The room contains: \n")]);
    assert_eq!(
        pairs(&ctx.add_client("bob")),
        vec![pair("bob", "* The room contains: alice\n"), pair("alice", "* bob has entered the room\n")]
    );
    assert_eq!(
        pairs(&ctx.add_client("carol")),
        vec![
            pair("carol", "* The room contains: alice, bob\n"),
            pair("alice", "* carol has entered the room\n"),
            pair("bob", "* carol has entered the room\n"),
        ]
    );
    assert_eq!(ctx.get_name_string(), "alice, bob, carol");
}

#[test]
fn chat_messages_go_to_everyone_else() {
    let mut ctx = ServerContext::new();
    ctx.add_client("alice");
    ctx.add_client("bob");
    ctx.add_client("carol");
    assert_eq!(
        pairs(&ctx.handle_client_message("bob", "hi all")),
        vec![pair("alice", "[bob] hi all\n"), pair("carol", "[bob] hi all\n")]
    );
    assert_eq!(
        pairs(&ctx.broadcast("note\n", None)),
        vec![pair("alice", "note\n"), pair("bob", "note\n"), pair("carol", "note\n")]
    );
}

#[test]
fn leaving_is_announced_to_the_rest() {
    let mut ctx = ServerContext::new();
    ctx.add_client("alice");
    ctx.add_client("bob");
    ctx.add_client("carol");
    assert_eq!(
        pairs(&ctx.remove_client("alice")),
        vec![pair("bob", "* alice has left the room\n"), pair("carol", "* alice has left the room\n")]
    );
    assert_eq!(ctx.get_name_string(), "bob, carol");
    assert!(ctx.remove_client("alice").is_empty());
    assert_eq!(ctx.get_name_string(), "bob, carol");
    assert!(ctx.is_valid_name("alice"));
}

#[test]
fn names_must_be_short_alphanumeric_and_unused() {
    let mut ctx = ServerContext::new();
    ctx.add_client("bob");
    assert!(ctx.is_valid_name("Carol1"));
    assert!(ctx.is_valid_name(&"a".repeat(32)));
    assert!(!ctx.is_valid_name(&"a".repeat(33)));
    assert!(!ctx.is_valid_name(""));
    assert!(!ctx.is_valid_name("bob"));
    assert!(ctx.is_valid_name("Bob"));
    assert!(!ctx.is_valid_name("carol_1"));
    assert!(!ctx.is_valid_name("car ol"));
    assert!(!ctx.is_valid_name("josé"));
}

#[test]
fn connections_are_capped() {
    let mut ctx = ServerContext::new();
    for _ in 0..MAX_CONNECTIONS {
        assert!(ctx.try_open_connection());
    }
    assert!(!ctx.try_open_connection());
    ctx.close_connection();
    assert!(ctx.try_open_connection());
    assert!(!ctx.try_open_connection());
}

#[test]
fn names_and_lines_lose_their_newlines() {
    assert_eq!(name_from_line("bob\n"), "bob");
    assert_eq!(name_from_line("bob\n\n"), "bob");
    assert_eq!(name_from_line("bob"), "bob");
    assert_eq!(name_from_line("\n"), "");
    assert_eq!(name_from_line("bob\r\n"), "bob\r");

    let mut line = b"hello\n".to_vec();
    strip_newline(&mut line);
    assert_eq!(line, b"hello");
    strip_newline(&mut line);
    assert_eq!(line, b"hello");
    let mut line = b"two\n\n".to_vec();
    strip_newline(&mut line);
    assert_eq!(line, b"two\n");
}
