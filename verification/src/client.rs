//! The robot's session: its identity, the channels it joins, and the queue of
//! command lines waiting to be written to the server. What it does with each
//! line the server sends is decided here; reading and writing the socket,
//! storing lines and fetching links are left to the caller.

use vstd::prelude::*;

use crate::message::{
    channel_view, content_view, nick_view, servername_defined, servername_view, Message,
    MessageView,
};
use crate::text::{
    contains_text, decimal, lemma_trim_idempotent, push_char, push_decimal, replace_text,
    replace_view, same_text, text_contains, trim, trim_view,
};
use rand::Rng;

verus! {

/// The robot's settings and queue, as texts.
pub struct ClientView {
    pub nick: Seq<char>,
    pub real_name: Seq<char>,
    pub password: Seq<char>,
    pub channels: Seq<Seq<char>>,
    pub token: Option<usize>,
    pub queue: Seq<Seq<char>>,
}

/// An IRC session.
pub struct IRCClient {
    irc_nick_name: String,
    irc_real_name: String,
    irc_password: String,
    auto_join_channels: Vec<String>,
    mio_token: Option<usize>,
    remaining: Vec<String>,
}

/// What the caller must do after `process` has handled a message.
pub enum Followup {
    /// Nothing more.
    Nothing,
    /// Resolve the link in the message's content (the steps in `url`, from
    /// `resolv_url_start`) and hand the reply to `process_privmsg`.
    ResolveUrl,
}

/// What the event handler does with an event that is for the session.
pub struct ReadyPlan {
    /// Write the oldest queued line first.
    pub write: bool,
    /// Then read and handle what the server sent.
    pub read: bool,
}

/// What the session's socket is registered for after an event.
pub enum Interest {
    /// Reading only: nothing is queued.
    Readable,
    /// Reading and writing: lines are queued.
    ReadableWritable,
}

/// The line that is queued for the command `cmd`: `cmd` without surrounding
/// white space, ended by a line feed.
pub open spec fn queued(cmd: Seq<char>) -> Seq<char> {
    trim_view(cmd).push('\n')
}

/// A line as every queued line is: a command without surrounding white space,
/// ended by one line feed.
pub open spec fn clean_line(l: Seq<char>) -> bool {
    &&& l.len() > 0
    &&& l.last() == '\n'
    &&& trim_view(l.drop_last()) == l.drop_last()
}

/// The command that joins `channel`.
pub open spec fn join_command(channel: Seq<char>) -> Seq<char> {
    "JOIN #"@ + channel
}

/// The command that sends `text` to `target`.
pub open spec fn privmsg_command(target: Seq<char>, text: Seq<char>) -> Seq<char> {
    "PRIVMSG "@ + target + " :"@ + text
}

/// The lines that join each of `channels`, in order.
pub open spec fn join_lines(channels: Seq<Seq<char>>) -> Seq<Seq<char>> {
    channels.map_values(|c: Seq<char>| queued(join_command(c)))
}

/// The three lines that log in: password, nickname, user.
pub open spec fn login_lines(v: ClientView) -> Seq<Seq<char>> {
    seq![
        queued("PASS "@ + v.password),
        queued("NICK "@ + v.nick),
        queued("USER "@ + v.nick + " 8 * :"@ + v.real_name),
    ]
}

/// The lines queued for a channel message `m`, given the reply that resolving
/// its link gave: the reply addressed to the sender, then, when the message
/// mentions the robot's nickname, the message repeated with that nickname
/// replaced by the sender's.
pub open spec fn privmsg_lines(
    own_nick: Seq<char>,
    m: MessageView,
    url_reply: Option<Seq<char>>,
) -> Seq<Seq<char>> {
    let channel = channel_view(m.params);
    let content = content_view(m.params);
    let sender = nick_view(m);
    let first = match url_reply {
        Some(res) => seq![queued(privmsg_command(channel, sender + ", "@ + res))],
        None => Seq::<Seq<char>>::empty(),
    };
    let second = if contains_text(content, own_nick) {
        seq![queued(privmsg_command(channel, replace_view(content, own_nick, sender)))]
    } else {
        Seq::<Seq<char>>::empty()
    };
    first + second
}

/// `process` may be called on `m`: a `PING` must carry a server name.
pub open spec fn processable(m: MessageView) -> bool {
    m.command == "PING"@ ==> servername_defined(m)
}

/// The settings and queue after `process` has handled `m`, for the commands
/// other than `433`, whose new nickname rests on chance.
pub open spec fn after_process(v: ClientView, m: MessageView) -> ClientView {
    if m.command == "PING"@ {
        ClientView { queue: v.queue.push(queued("PONG "@ + servername_view(m))), ..v }
    } else if m.command == "NOTICE"@ && nick_view(m) == "NickServ"@ {
        ClientView { queue: v.queue + join_lines(v.channels), ..v }
    } else {
        v
    }
}

/// Only a `PING` and a `NOTICE` from `NickServ` change the session through
/// `process` (besides `433`): every other message, a `JOIN` by anyone among
/// them, leaves the settings and the queue as they were, so the channels are
/// queued for joining only on the `NOTICE` from `NickServ`.
pub proof fn lemma_other_messages_change_nothing(v: ClientView, m: MessageView)
    requires
        m.command != "PING"@,
        !(m.command == "NOTICE"@ && nick_view(m) == "NickServ"@),
    ensures
        after_process(v, m) == v,
{
}

/// Processing adds lines at the end of the queue and touches nothing else:
/// the settings stay, and what was queued before stays first, in order.
pub proof fn lemma_process_only_appends(v: ClientView, m: MessageView)
    ensures
        ({
            let w = after_process(v, m);
            &&& w.nick == v.nick && w.real_name == v.real_name && w.password == v.password
            &&& w.channels == v.channels && w.token == v.token
            &&& v.queue.len() <= w.queue.len()
            &&& w.queue.take(v.queue.len() as int) == v.queue
        }),
{
    let w = after_process(v, m);
    assert(w.queue.take(v.queue.len() as int) =~= v.queue);
}

/// A channel message is answered with one line for a link reply and one for
/// a mention of the robot's nickname, and with nothing when it has neither.
pub proof fn lemma_privmsg_line_count(own_nick: Seq<char>, m: MessageView, url_reply: Option<Seq<char>>)
    ensures
        privmsg_lines(own_nick, m, url_reply).len() == (if url_reply is Some { 1int } else { 0int })
            + (if contains_text(content_view(m.params), own_nick) { 1int } else { 0int }),
{
}

impl View for IRCClient {
    type V = ClientView;

    closed spec fn view(&self) -> ClientView {
        ClientView {
            nick: self.irc_nick_name@,
            real_name: self.irc_real_name@,
            password: self.irc_password@,
            channels: self.auto_join_channels@.map_values(|s: String| s@),
            token: self.mio_token,
            queue: self.remaining@.map_values(|s: String| s@),
        }
    }
}

/// Calls `rand::thread_rng().gen_range(0..bound)`. Claimed: the number is
/// below `bound`, the range being half-open; `gen_range` panics only on an
/// empty range, which `bound > 0` rules out. Which number comes out rests on
/// chance and is not stated. The generator panics only when the operating
/// system's random source cannot seed it, which no argument can cause.
#[verifier::external_body]
fn random_below(bound: u32) -> (n: u32)
    requires
        bound > 0,
    ensures
        n < bound,
{
    rand::thread_rng().gen_range(0..bound)
}

/// Every queued line is clean: the queued form of a command is a fixed point.
pub proof fn lemma_queued_is_clean(cmd: Seq<char>)
    ensures
        clean_line(queued(cmd)),
{
    lemma_trim_idempotent(cmd);
    assert(queued(cmd).drop_last() =~= trim_view(cmd));
}

impl IRCClient {
    /// Every line in the queue is clean.
    #[verifier::type_invariant]
    spec fn queue_is_clean(self) -> bool {
        forall|i: int| 0 <= i < self.remaining@.len() ==> clean_line(#[trigger] self.remaining@[i]@)
    }

    /// A session named `IRCRobot`, with password `*`, no channels, no token
    /// and nothing queued.
    pub fn new() -> (c: IRCClient)
        ensures
            c@.nick == "IRCRobot"@,
            c@.real_name == "IRCRobot"@,
            c@.password == "*"@,
            c@.channels == Seq::<Seq<char>>::empty(),
            c@.token == None::<usize>,
            c@.queue == Seq::<Seq<char>>::empty(),
    {
        let c = IRCClient {
            irc_nick_name: "IRCRobot".to_owned(),
            irc_real_name: "IRCRobot".to_owned(),
            irc_password: "*".to_owned(),
            auto_join_channels: Vec::new(),
            mio_token: None,
            remaining: Vec::new(),
        };
        assert(c@.channels =~= Seq::<Seq<char>>::empty());
        assert(c@.queue =~= Seq::<Seq<char>>::empty());
        c
    }

    /// Sets the token under which the session's socket is registered.
    pub fn set_token(&mut self, token: usize)
        ensures
            final(self)@ == (ClientView { token: Some(token), ..old(self)@ }),
    {
        proof {
            use_type_invariant(&*self);
        }
        self.mio_token = Some(token);
    }

    /// Adds a channel to join once the nickname service has answered.
    pub fn append_auto_join_channel(&mut self, channel: &str)
        ensures
            final(self)@ == (ClientView { channels: old(self)@.channels.push(channel@), ..old(self)@ }),
    {
        proof {
            use_type_invariant(&*self);
        }
        let mut channels = Vec::new();
        std::mem::swap(&mut channels, &mut self.auto_join_channels);
        channels.push(channel.to_owned());
        self.auto_join_channels = channels;
        assert(self@.channels =~= old(self)@.channels.push(channel@));
    }

    /// Sets the nickname.
    pub fn set_nick_name(&mut self, name: &str)
        ensures
            final(self)@ == (ClientView { nick: name@, ..old(self)@ }),
    {
        proof {
            use_type_invariant(&*self);
        }
        self.irc_nick_name = name.to_owned();
    }

    /// Sets the real name.
    pub fn set_real_name(&mut self, name: &str)
        ensures
            final(self)@ == (ClientView { real_name: name@, ..old(self)@ }),
    {
        proof {
            use_type_invariant(&*self);
        }
        self.irc_real_name = name.to_owned();
    }

    /// Sets the password.
    pub fn set_password(&mut self, pwd: &str)
        ensures
            final(self)@ == (ClientView { password: pwd@, ..old(self)@ }),
    {
        proof {
            use_type_invariant(&*self);
        }
        self.irc_password = pwd.to_owned();
    }

    /// Queues the command `cmd`.
    fn command(&mut self, cmd: &str)
        ensures
            final(self)@ == (ClientView { queue: old(self)@.queue.push(queued(cmd@)), ..old(self)@ }),
    {
        let mut buf = trim(cmd).to_owned();
        push_char(&mut buf, '\n');
        proof {
            use_type_invariant(&*self);
            lemma_queued_is_clean(cmd@);
        }
        let mut queue = Vec::new();
        std::mem::swap(&mut queue, &mut self.remaining);
        queue.push(buf);
        self.remaining = queue;
        assert(self@.queue =~= old(self)@.queue.push(queued(cmd@)));
    }

    /// Queues the login: password, nickname and user lines.
    pub fn startup(&mut self)
        ensures
            final(self)@ == (ClientView {
                queue: old(self)@.queue + login_lines(old(self)@),
                ..old(self)@
            }),
    {
        let pass = "PASS ".to_owned().concat(self.irc_password.as_str());
        self.command(pass.as_str());
        let nick = "NICK ".to_owned().concat(self.irc_nick_name.as_str());
        self.command(nick.as_str());
        let user = "USER ".to_owned().concat(self.irc_nick_name.as_str()).concat(" 8 * :").concat(
            self.irc_real_name.as_str(),
        );
        self.command(user.as_str());
        assert(self@.queue =~= old(self)@.queue + login_lines(old(self)@));
    }

    /// Queues a line that joins `channel`.
    fn join(&mut self, channel: &str)
        ensures
            final(self)@ == (ClientView {
                queue: old(self)@.queue.push(queued(join_command(channel@))),
                ..old(self)@
            }),
    {
        let msg = "JOIN #".to_owned().concat(channel);
        self.command(msg.as_str());
    }

    /// Queues a line that sends `msg` to `target`.
    fn privmsg(&mut self, target: &str, msg: &str)
        ensures
            final(self)@ == (ClientView {
                queue: old(self)@.queue.push(queued(privmsg_command(target@, msg@))),
                ..old(self)@
            }),
    {
        let line = "PRIVMSG ".to_owned().concat(target).concat(" :").concat(msg);
        self.command(line.as_str());
    }

    /// Queues a line that joins each channel of the session, in order.
    fn join_channels(&mut self)
        ensures
            final(self)@ == (ClientView {
                queue: old(self)@.queue + join_lines(old(self)@.channels),
                ..old(self)@
            }),
    {
        let channels = self.auto_join_channels.clone();
        let ghost start = self@;
        assert(forall|k: int| 0 <= k < channels@.len() ==> (#[trigger] channels@[k])@ == start.channels[k]);
        let mut i: usize = 0;
        while i < channels.len()
            invariant
                channels@.len() == start.channels.len(),
                forall|k: int| 0 <= k < channels@.len() ==> (#[trigger] channels@[k])@ == start.channels[k],
                i <= channels@.len(),
                self@ == (ClientView {
                    queue: start.queue + join_lines(start.channels).take(i as int),
                    ..start
                }),
            decreases channels.len() - i,
        {
            let ghost before = self@;
            self.join(channels[i].as_str());
            proof {
                assert(start.channels[i as int] == channels@[i as int]@);
                assert(join_lines(start.channels).take(i + 1) =~= join_lines(start.channels).take(
                    i as int,
                ).push(queued(join_command(channels@[i as int]@))));
                assert(self@.queue =~= start.queue + join_lines(start.channels).take(i + 1));
            }
            i = i + 1;
        }
        assert(join_lines(start.channels).take(i as int) =~= join_lines(start.channels));
    }

    /// Answers a `PING` with a `PONG` to the server.
    fn process_ping(&mut self, msg: &Message)
        requires
            servername_defined(msg@),
        ensures
            final(self)@ == (ClientView {
                queue: old(self)@.queue.push(queued("PONG "@ + servername_view(msg@))),
                ..old(self)@
            }),
    {
        let command = "PONG ".to_owned().concat(msg.servername());
        self.command(command.as_str());
    }

    /// A `JOIN` needs no answer.
    fn process_join(&mut self, msg: &Message)
        ensures
            final(self)@ == old(self)@,
    {
    }

    /// When the nickname service speaks, joins the session's channels.
    fn process_notice(&mut self, msg: &Message)
        ensures
            final(self)@ == (if nick_view(msg@) == "NickServ"@ {
                ClientView { queue: old(self)@.queue + join_lines(old(self)@.channels), ..old(self)@ }
            } else {
                old(self)@
            }),
    {
        let from = msg.nickname();
        if same_text(from, "NickServ") {
            self.join_channels();
        }
    }

    /// Answers a channel message, given what resolving its link replied:
    /// first the reply, addressed to the sender; then, when the message
    /// mentions the robot's nickname, the message with that nickname replaced
    /// by the sender's.
    pub fn process_privmsg(&mut self, msg: &Message, url_reply: Option<String>)
        ensures
            final(self)@ == (ClientView {
                queue: old(self)@.queue + privmsg_lines(
                    old(self)@.nick,
                    msg@,
                    match url_reply {
                        Some(r) => Some(r@),
                        None => None,
                    },
                ),
                ..old(self)@
            }),
    {
        let ghost start = self@;
        let content = msg.content();
        if let Some(res) = url_reply {
            let text = msg.nickname().to_owned().concat(", ").concat(res.as_str());
            self.privmsg(msg.channel(), text.as_str());
        }
        let ghost mid = self@;
        if text_contains(content, self.irc_nick_name.as_str()) {
            let replaced = replace_text(content, self.irc_nick_name.as_str(), msg.nickname());
            self.privmsg(msg.channel(), replaced.as_str());
        }
        assert(self@.queue =~= start.queue + privmsg_lines(
            start.nick,
            msg@,
            match url_reply {
                Some(r) => Some(r@),
                None => None,
            },
        ));
    }

    /// Takes `suffix` onto the nickname and queues a line announcing the new
    /// nickname.
    pub fn rename_with_suffix(&mut self, suffix: u32)
        ensures
            final(self)@ == (ClientView {
                nick: old(self)@.nick + decimal(suffix as nat),
                queue: old(self)@.queue.push(queued("NICK "@ + old(self)@.nick + decimal(suffix as nat))),
                ..old(self)@
            }),
    {
        proof {
            use_type_invariant(&*self);
        }
        let mut new_nick = self.irc_nick_name.clone();
        push_decimal(&mut new_nick, suffix as u64);
        self.irc_nick_name = new_nick;
        assert(self@.nick == old(self)@.nick + decimal(suffix as nat));
        let msg = "NICK ".to_owned().concat(self.irc_nick_name.as_str());
        assert(msg@ == "NICK "@ + old(self)@.nick + decimal(suffix as nat));
        self.command(msg.as_str());
    }

    /// The nickname is taken: appends a random number below 100 to it and
    /// announces the new one.
    fn process_433(&mut self)
        ensures
            exists|n: nat|
                n < 100 && final(self)@ == (ClientView {
                    nick: old(self)@.nick + #[trigger] decimal(n),
                    queue: old(self)@.queue.push(queued("NICK "@ + old(self)@.nick + decimal(n))),
                    ..old(self)@
                }),
    {
        let n = random_below(100);
        self.rename_with_suffix(n);
        assert(n < 100);
    }

    /// Handles one message from the server. `PING` is answered, `NOTICE` from
    /// the nickname service joins the channels, `433` renames the robot,
    /// `PRIVMSG` asks the caller to resolve its link (`ResolveUrl`), and
    /// anything else is left alone.
    pub fn process(&mut self, msg: &Message) -> (f: Followup)
        requires
            processable(msg@),
        ensures
            (msg@.command == "PRIVMSG"@) == (f is ResolveUrl),
            msg@.command != "433"@ ==> final(self)@ == after_process(old(self)@, msg@),
            msg@.command != "PING"@ && !(msg@.command == "NOTICE"@ && nick_view(msg@) == "NickServ"@)
                && msg@.command != "433"@ ==> final(self)@ == old(self)@,
            msg@.command == "433"@ ==> exists|n: nat|
                n < 100 && final(self)@ == (ClientView {
                    nick: old(self)@.nick + #[trigger] decimal(n),
                    queue: old(self)@.queue.push(queued("NICK "@ + old(self)@.nick + decimal(n))),
                    ..old(self)@
                }),
    {
        let command = msg.command();
        proof {
            // the five command words differ from each other
            reveal_strlit("PING");
            reveal_strlit("JOIN");
            reveal_strlit("PRIVMSG");
            reveal_strlit("NOTICE");
            reveal_strlit("433");
            assert("PING"@.len() == 4 && "JOIN"@.len() == 4 && "PRIVMSG"@.len() == 7
                && "NOTICE"@.len() == 6 && "433"@.len() == 3);
            assert("PING"@[0] == 'P' && "JOIN"@[0] == 'J');
        }
        if same_text(command, "PING") {
            self.process_ping(msg);
            Followup::Nothing
        } else if same_text(command, "JOIN") {
            self.process_join(msg);
            Followup::Nothing
        } else if same_text(command, "PRIVMSG") {
            Followup::ResolveUrl
        } else if same_text(command, "NOTICE") {
            self.process_notice(msg);
            Followup::Nothing
        } else if same_text(command, "433") {
            self.process_433();
            Followup::Nothing
        } else {
            Followup::Nothing
        }
    }

    /// The token under which the session's socket is registered, if set.
    pub fn token(&self) -> (r: Option<usize>)
        ensures
            r == self@.token,
    {
        self.mio_token
    }

    /// Whether an event for `token` is for this session and is not an error.
    pub fn accepts_event(&self, token: usize, is_error: bool) -> (r: bool)
        requires
            self@.token is Some,
        ensures
            r == (self@.token == Some(token) && !is_error),
    {
        match self.mio_token {
            Some(t) => t == token && !is_error,
            None => false,
        }
    }

    /// Whether lines are waiting to be written.
    pub fn has_outgoing(&self) -> (r: bool)
        ensures
            r == (self@.queue.len() > 0),
    {
        self.remaining.len() > 0
    }

    /// The handler's plan for an event with `token` and the given readiness:
    /// nothing when the event is not for the session or is an error;
    /// otherwise, write one queued line when the socket is writable and a
    /// line is waiting, and read when it is readable.
    pub fn ready_plan(&self, token: usize, is_error: bool, readable: bool, writable: bool) -> (r:
        Option<ReadyPlan>)
        requires
            self@.token is Some,
        ensures
            r is None <==> !(self@.token == Some(token) && !is_error),
            r matches Some(p) ==> p.write == (writable && self@.queue.len() > 0) && p.read
                == readable,
    {
        if !self.accepts_event(token, is_error) {
            return None;
        }
        Some(ReadyPlan { write: writable && self.has_outgoing(), read: readable })
    }

    /// What to register the socket for after an event: reading, and writing
    /// too when lines are queued.
    pub fn interest(&self) -> (r: Interest)
        ensures
            (r is ReadableWritable) == (self@.queue.len() > 0),
    {
        if self.has_outgoing() {
            Interest::ReadableWritable
        } else {
            Interest::Readable
        }
    }

    /// Takes the oldest queued line, if any: lines leave in the order they
    /// were queued, and every line is a command without surrounding white
    /// space, ended by one line feed.
    pub fn pop_outgoing(&mut self) -> (r: Option<String>)
        ensures
            r matches Some(l) ==> clean_line(l@),
            old(self)@.queue.len() == 0 ==> r is None && final(self)@ == old(self)@,
            old(self)@.queue.len() > 0 ==> r is Some && r->0@ == old(self)@.queue[0] && final(self)@
                == (ClientView { queue: old(self)@.queue.drop_first(), ..old(self)@ }),
    {
        if self.remaining.len() == 0 {
            return None;
        }
        proof {
            use_type_invariant(&*self);
        }
        let mut queue = Vec::new();
        std::mem::swap(&mut queue, &mut self.remaining);
        let line = queue.remove(0);
        self.remaining = queue;
        assert(self@.queue =~= old(self)@.queue.drop_first());
        Some(line)
    }
}

} // verus!
