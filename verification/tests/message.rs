use irc::message::{parse_lines, Message};

#[test]
fn message_test() {
    let msg = Message::new(":username1!~username1@8.8.8.8 JOIN #test1\r\n").unwrap();
    assert_eq!(msg.command(), "JOIN");
    assert_eq!(msg.params(), "#test1");
    assert_eq!(msg.resolv_prefix(), ("username1", "~username1", "8.8.8.8"));

    let msg = Message::new(":sbw!~Thunderbi@8.8.8.8 PRIVMSG #test1 :123\r\n").unwrap();
    assert_eq!(msg.command(), "PRIVMSG");
    assert_eq!(msg.channel(), "#test1");
    assert_eq!(msg.content(), "123");

    let msg = Message::new("PING :hitchcock.freenode.net\r\n").unwrap();
    assert_eq!(msg.servername(), "hitchcock.freenode.net");
    assert_eq!(msg.resolv_prefix(), ("", "", ""));

    let msg = Message::new(":sbw!~Thunderbi@1.1.1.1 PRIVMSG #test1 :b, a \r\n").unwrap();
    assert_eq!(msg.content(), "b, a");

    let msg: Message = ":wilhelm.freenode.net 433 * username1 :Nickname is already in use."
        .parse()
        .unwrap();
    assert_eq!(msg.command(), "433");
}

#[test]
fn test_brige_bot() {
    let msg = ":somebot!~a@1.1.1.1 PRIVMSG #test1 :some-bot realname: realcontent"
        .parse::<Message>()
        .unwrap();
    assert_eq!(msg.is_maybe_bot(), true);

    let msg = ":somebridge!~a@1.1.1.1 PRIVMSG #test1 :some-bot realname: realcontent"
        .parse::<Message>()
        .unwrap();
    assert_eq!(msg.is_maybe_bot(), true);
}

#[test]
fn line_without_space_is_refused() {
    assert_eq!(Message::new("PING").err(), Some("parse error."));
    assert_eq!(Message::new("").err(), Some("parse error."));
    assert!("QUIT".parse::<Message>().is_err());
}

#[test]
fn truncated_line_is_recognised_and_refused_by_parse() {
    assert!(Message::is_truncated(":server.example QUIT"));
    assert!(!Message::is_truncated(":server.example QUIT "));
    assert!(!Message::is_truncated("PING server"));
    assert!(!Message::is_truncated("PING"));
    assert_eq!(":server.example QUIT".parse::<Message>().err(), Some("parse error."));
}

#[test]
fn prefixed_line_reads_back_its_parts() {
    // a line built from a prefix, a command and parameters
    let msg = Message::new(":nick!user@host NOTICE  me :hello  ").unwrap();
    assert_eq!(msg.command(), "NOTICE");
    assert_eq!(msg.params(), "me :hello");
    assert_eq!(msg.resolv_prefix(), ("nick", "user", "host"));
    assert_eq!(msg.servername(), "nick!user@host");
}

#[test]
fn unprefixed_line_reads_back_its_parts() {
    let msg = Message::new("PRIVMSG \t#rust :hi\r\n").unwrap();
    assert_eq!(msg.command(), "PRIVMSG");
    assert_eq!(msg.params(), "#rust :hi");
    assert_eq!(msg.nickname(), "");
    assert_eq!(msg.servername(), "rust :hi");
}

#[test]
fn empty_first_word_is_an_empty_command() {
    let msg = Message::new(" PING x").unwrap();
    assert_eq!(msg.command(), "");
    assert_eq!(msg.params(), "PING x");
}

#[test]
fn prefix_splits_at_the_last_at_sign() {
    let msg = Message::new(":n!u@v@h JOIN #c").unwrap();
    assert_eq!(msg.resolv_prefix(), ("n", "u@v", "h"));
    // an `@` at the very end cannot start the host
    let msg = Message::new(":n!u@h@ JOIN #c").unwrap();
    assert_eq!(msg.resolv_prefix(), ("n", "u", "h@"));
    let msg = Message::new(":n-1_x!u@h JOIN #c").unwrap();
    assert_eq!(msg.nickname(), "n-1_x");
}

#[test]
fn malformed_prefixes_give_empty_parts() {
    for line in [
        ":!u@h JOIN #c",
        ":n.x!u@h JOIN #c",
        ":n!@h JOIN #c",
        ":n!u@ JOIN #c",
        ":nuh JOIN #c",
        ":n!uh JOIN #c",
    ] {
        let msg = Message::new(line).unwrap();
        assert_eq!(msg.resolv_prefix(), ("", "", ""), "{}", line);
    }
}

#[test]
fn channel_and_content_edge_cases() {
    let msg = Message::new("PRIVMSG #chan,#other :x").unwrap();
    assert_eq!(msg.channel(), "#chan");
    assert_eq!(msg.content(), "");
    let msg = Message::new("PRIVMSG # :x").unwrap();
    assert_eq!(msg.channel(), "");
    assert_eq!(msg.content(), "");
    let msg = Message::new("PRIVMSG #c :").unwrap();
    assert_eq!(msg.channel(), "#c");
    assert_eq!(msg.content(), "");
    let msg = Message::new("PRIVMSG #c :a\nb").unwrap();
    assert_eq!(msg.content(), "");
    let msg = Message::new("PRIVMSG nick :hello").unwrap();
    assert_eq!(msg.channel(), "");
    // word characters beyond ASCII belong to a channel's name
    let msg = Message::new("PRIVMSG #café :ça va").unwrap();
    assert_eq!(msg.channel(), "#café");
    assert_eq!(msg.content(), "ça va");
}

#[test]
fn servername_of_prefixed_line() {
    let msg = Message::new(":irc.example.org 001 me :Welcome").unwrap();
    assert!(msg.has_servername());
    assert_eq!(msg.servername(), "irc.example.org");
}

#[test]
fn servername_needs_text_to_cut() {
    let msg = Message::new("PING ").unwrap();
    assert!(!msg.has_servername());
    let msg = Message::new("PING éa").unwrap();
    assert!(!msg.has_servername());
    let msg = Message::new("PING :a").unwrap();
    assert!(msg.has_servername());
}

#[test]
fn bots_are_told_by_their_nickname() {
    let msg = Message::new(":alice!a@h PRIVMSG #c :I am a bot").unwrap();
    assert!(!msg.is_maybe_bot());
    let msg = Message::new(":irc-bridge!a@h PRIVMSG #c :x").unwrap();
    assert!(msg.is_maybe_bot());
    let msg = Message::new("PRIVMSG #c :x").unwrap();
    assert!(!msg.is_maybe_bot());
}

#[test]
fn record_fields_hold_what_is_not_empty() {
    let msg = Message::new(":sbw!~T@8.8.8.8 PRIVMSG #test1 :123\r\n").unwrap();
    let fields = msg.record_fields();
    let expected: Vec<(String, String)> = vec![
        ("raw".into(), ":sbw!~T@8.8.8.8 PRIVMSG #test1 :123\r\n".into()),
        ("channel".into(), "#test1".into()),
        ("nick".into(), "sbw".into()),
        ("content".into(), "123".into()),
        ("params".into(), "#test1 :123".into()),
        ("command".into(), "PRIVMSG".into()),
    ];
    assert_eq!(fields, expected);

    let msg = Message::new("PING ").unwrap();
    let fields = msg.record_fields();
    let expected: Vec<(String, String)> = vec![
        ("raw".into(), "PING ".into()),
        ("command".into(), "PING".into()),
    ];
    assert_eq!(fields, expected);
}

#[test]
fn describe_lists_the_parts() {
    let msg = Message::new(":a!b@c JOIN #x").unwrap();
    assert_eq!(
        msg.describe(),
        "\nraw_message: :a!b@c JOIN #xprefix: :a!b@c\ncommand: JOIN\nparams: #x\n"
    );
}

#[test]
fn lines_are_cut_and_read_in_order() {
    let msgs = parse_lines("PING :a\nnonsense\n:s 001 me :hi\n:t QUIT\nPONG b");
    let commands: Vec<&str> = msgs.iter().map(|m| m.command()).collect();
    assert_eq!(commands, vec!["PING", "001", "PONG"]);
    assert!(parse_lines("").is_empty());
    assert_eq!(parse_lines("\n\n").len(), 0);
}

#[test]
fn nicknames_hold_no_white_space() {
    let msg = Message::new(":n\u{a0}x!u@h JOIN #c").unwrap();
    assert_eq!(msg.nickname(), "");
    let msg = Message::new(":n\u{3000}!u@h JOIN #c").unwrap();
    assert_eq!(msg.resolv_prefix(), ("", "", ""));
    let msg = Message::new("PRIVMSG #a\u{2003}b :x").unwrap();
    assert_eq!(msg.channel(), "#a");
}
