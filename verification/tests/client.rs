use irc::client::{Followup, IRCClient, Interest};
use irc::message::Message;

fn drain(c: &mut IRCClient) -> Vec<String> {
    let mut out = Vec::new();
    while let Some(line) = c.pop_outgoing() {
        out.push(line);
    }
    out
}

#[test]
fn startup_queues_the_login() {
    let mut c = IRCClient::new();
    c.set_nick_name("Vivians");
    c.set_real_name("Real Name");
    c.set_password("secret ");
    c.startup();
    assert_eq!(
        drain(&mut c),
        vec!["PASS secret\n", "NICK Vivians\n", "USER Vivians 8 * :Real Name\n"]
    );
    assert!(!c.has_outgoing());
}

#[test]
fn default_identity_logs_in_as_ircrobot() {
    let mut c = IRCClient::new();
    c.startup();
    assert_eq!(
        drain(&mut c),
        vec!["PASS *\n", "NICK IRCRobot\n", "USER IRCRobot 8 * :IRCRobot\n"]
    );
}

#[test]
fn ping_is_answered_with_pong() {
    let mut c = IRCClient::new();
    let msg = Message::new("PING :hitchcock.freenode.net\r\n").unwrap();
    assert!(matches!(c.process(&msg), Followup::Nothing));
    assert_eq!(drain(&mut c), vec!["PONG hitchcock.freenode.net\n"]);
}

#[test]
fn nickserv_notice_joins_the_channels_in_order() {
    let mut c = IRCClient::new();
    c.append_auto_join_channel("test1");
    c.append_auto_join_channel("rust");
    let other = Message::new(":someone!a@b NOTICE me :hi").unwrap();
    c.process(&other);
    assert!(!c.has_outgoing());
    let msg = Message::new(":NickServ!NickServ@services. NOTICE me :identify").unwrap();
    c.process(&msg);
    assert_eq!(drain(&mut c), vec!["JOIN #test1\n", "JOIN #rust\n"]);
}

#[test]
fn privmsg_asks_for_the_link_and_answers() {
    let mut c = IRCClient::new();
    c.set_nick_name("bot");
    let msg = Message::new(":sbw!~T@h PRIVMSG #test1 :hey bot, see bot").unwrap();
    assert!(matches!(c.process(&msg), Followup::ResolveUrl));
    assert!(!c.has_outgoing());
    c.process_privmsg(&msg, Some("↑ Title: x".to_string()));
    assert_eq!(
        drain(&mut c),
        vec!["PRIVMSG #test1 :sbw, ↑ Title: x\n", "PRIVMSG #test1 :hey sbw, see sbw\n"]
    );
    c.process_privmsg(&msg, None);
    assert_eq!(drain(&mut c), vec!["PRIVMSG #test1 :hey sbw, see sbw\n"]);
    let quiet = Message::new(":sbw!~T@h PRIVMSG #test1 :nothing").unwrap();
    c.process_privmsg(&quiet, None);
    assert!(!c.has_outgoing());
}

#[test]
fn taken_nickname_gets_a_number_below_100() {
    for _ in 0..50 {
        let mut c = IRCClient::new();
        let msg = Message::new(":srv 433 * IRCRobot :Nickname is already in use.").unwrap();
        c.process(&msg);
        let lines = drain(&mut c);
        assert_eq!(lines.len(), 1);
        let line = &lines[0];
        assert!(line.starts_with("NICK IRCRobot"));
        assert!(line.ends_with('\n'));
        let n: u32 = line["NICK IRCRobot".len()..line.len() - 1].parse().unwrap();
        assert!(n < 100);
    }
}

#[test]
fn other_commands_change_nothing() {
    let mut c = IRCClient::new();
    for line in [":a!b@c JOIN #x", ":srv 001 me :Welcome", ":a!b@c QUIT :bye"] {
        let msg = Message::new(line).unwrap();
        assert!(matches!(c.process(&msg), Followup::Nothing));
    }
    assert!(!c.has_outgoing());
}

#[test]
fn events_are_accepted_for_the_own_token_only() {
    let mut c = IRCClient::new();
    c.set_token(0);
    assert!(c.accepts_event(0, false));
    assert!(!c.accepts_event(0, true));
    assert!(!c.accepts_event(1, false));
}

#[test]
fn queued_lines_are_trimmed_and_end_in_a_line_feed() {
    let mut c = IRCClient::new();
    c.set_password("  p w  ");
    c.set_nick_name(" n");
    c.set_real_name("r \t");
    c.startup();
    for line in drain(&mut c) {
        assert!(line.ends_with('\n'));
        let body = &line[..line.len() - 1];
        assert_eq!(body, body.trim());
    }
}

#[test]
fn mention_with_empty_nickname_inserts_everywhere() {
    let mut c = IRCClient::new();
    c.set_nick_name("");
    let msg = Message::new(":s!u@h PRIVMSG #c :ab").unwrap();
    c.process_privmsg(&msg, None);
    assert_eq!(drain(&mut c), vec!["PRIVMSG #c :sasbs\n"]);
}

#[test]
fn rename_with_suffix_appends_the_number() {
    let mut c = IRCClient::new();
    c.rename_with_suffix(7);
    assert_eq!(drain(&mut c), vec!["NICK IRCRobot7\n"]);
    c.rename_with_suffix(42);
    assert_eq!(drain(&mut c), vec!["NICK IRCRobot742\n"]);
}

#[test]
fn ready_plan_writes_only_what_is_queued() {
    let mut c = IRCClient::new();
    c.set_token(3);
    assert!(c.ready_plan(4, false, true, true).is_none());
    assert!(c.ready_plan(3, true, true, true).is_none());
    let p = c.ready_plan(3, false, true, true).unwrap();
    assert!(!p.write && p.read);
    assert!(matches!(c.interest(), Interest::Readable));
    c.startup();
    let p = c.ready_plan(3, false, false, true).unwrap();
    assert!(p.write && !p.read);
    assert!(matches!(c.interest(), Interest::ReadableWritable));
}
