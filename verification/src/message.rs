//! One line of the IRC protocol: `[:prefix] command params`, and the parts
//! of it that the robot reads: the sender's nickname, user and host, the
//! channel, the text of a channel message and the server name.

use vstd::prelude::*;

use crate::text::{
    chars_of, contains_text, is_white_space, is_word_char, leading_run, lemma_leading_run,
    lemma_leading_run_shape, lemma_word_char_is_not_white_space, no_white_space, text_contains,
    trim, trim_view, white_space, word_char, word_lead, word_pred,
};

verus! {

/// The four texts a message is made of.
pub struct MessageView {
    pub raw: Seq<char>,
    pub prefix: Seq<char>,
    pub command: Seq<char>,
    pub params: Seq<char>,
}

/// A parsed IRC line.
pub struct Message {
    raw_message: String,
    prefix: String,
    command: String,
    params: String,
}

impl View for Message {
    type V = MessageView;

    closed spec fn view(&self) -> MessageView {
        MessageView {
            raw: self.raw_message@,
            prefix: self.prefix@,
            command: self.command@,
            params: self.params@,
        }
    }
}

// ---------------------------------------------------------------------------
// The line grammar
// ---------------------------------------------------------------------------

/// Characters other than `c`, as a predicate.
pub open spec fn not_char_pred(c: char) -> spec_fn(char) -> bool {
    |x: char| x != c
}

/// Index of the first space of `s`, or its length.
pub open spec fn first_space(s: Seq<char>) -> nat {
    leading_run(s, not_char_pred(' '))
}

/// The first word of a line: what precedes its first space.
pub open spec fn first_word(m: Seq<char>) -> Seq<char> {
    m.take(first_space(m) as int)
}

/// What follows the first space of a line.
pub open spec fn after_first_word(m: Seq<char>) -> Seq<char> {
    m.skip(first_space(m) + 1int)
}

/// The line starts with a prefix: its first word begins with `:`.
pub open spec fn has_prefix(m: Seq<char>) -> bool {
    first_word(m).len() > 0 && first_word(m)[0] == ':'
}

/// A line that holds a space but whose prefix is followed by a command and no
/// further space: its parameters would start past its end. `Message::new` is
/// not called on such a line, and `from_str` refuses it.
pub open spec fn is_truncated_line(m: Seq<char>) -> bool {
    &&& m.contains(' ')
    &&& has_prefix(m)
    &&& !after_first_word(m).contains(' ')
}

/// The message a line (that holds a space) is read as. The line is cut at its
/// spaces: a first word that starts with `:` is the prefix and the next word
/// is the command; otherwise there is no prefix and the first word is the
/// command. The parameters are the rest of the line after the command's
/// space, without leading and trailing white space.
pub open spec fn parse_view(m: Seq<char>) -> MessageView {
    let rest = after_first_word(m);
    if has_prefix(m) {
        let i2 = first_space(rest);
        MessageView {
            raw: m,
            prefix: first_word(m),
            command: rest.take(i2 as int),
            params: trim_view(rest.skip(i2 + 1int)),
        }
    } else {
        MessageView { raw: m, prefix: seq![], command: first_word(m), params: trim_view(rest) }
    }
}

/// Characters of a nickname in a prefix: word characters and `-`.
pub open spec fn name_char(c: char) -> bool {
    c == '-' || word_char(c)
}

/// `name_char`, as a predicate.
pub open spec fn name_pred() -> spec_fn(char) -> bool {
    |c: char| name_char(c)
}

/// The largest index `k` with `1 <= k < hi` and `r[k] == c`, or -1.
pub open spec fn last_index_below(r: Seq<char>, c: char, hi: int) -> int
    decreases hi,
{
    if hi <= 1 {
        -1
    } else if r[hi - 1] == c {
        hi - 1
    } else {
        last_index_below(r, c, hi - 1)
    }
}

/// The nickname, user and host of a prefix `:nick!user@host`, as the pattern
/// `^:([-\w\d]+)!(\S+)@(\S+)$` captures them: the nickname is the run of
/// word characters and `-` after the colon, which a `!` must end; the rest
/// must hold no white space and splits at its last `@` that leaves a user and
/// a host of at least one character each.
pub open spec fn prefix_parts(p: Seq<char>) -> Option<(Seq<char>, Seq<char>, Seq<char>)> {
    if p.len() > 0 && p[0] == ':' {
        let body = p.skip(1);
        let n = leading_run(body, name_pred());
        if 0 < n < body.len() && body[n as int] == '!' {
            let r = body.skip(n + 1int);
            let k = last_index_below(r, '@', r.len() - 1);
            if no_white_space(r) && k >= 1 {
                Some((body.take(n as int), r.take(k), r.skip(k + 1)))
            } else {
                None
            }
        } else {
            None
        }
    } else {
        None
    }
}

/// What `resolv_prefix` answers: the three parts, or three empty texts.
pub open spec fn resolved_prefix(p: Seq<char>) -> (Seq<char>, Seq<char>, Seq<char>) {
    match prefix_parts(p) {
        Some(t) => t,
        None => (seq![], seq![], seq![]),
    }
}

/// The sender's nickname, or the empty text.
pub open spec fn nick_view(v: MessageView) -> Seq<char> {
    resolved_prefix(v.prefix).0
}

/// The channel that parameters start with, as `^(#[\w\d]+).*?` captures it:
/// `#` and the longest run of word characters after it, of at least one.
pub open spec fn channel_view(q: Seq<char>) -> Seq<char> {
    let n = word_lead(q.skip(1)) as int;
    if q.len() > 0 && q[0] == '#' && n > 0 {
        q.take(n + 1)
    } else {
        seq![]
    }
}

/// The text of a channel message, as `^#[\w\d]+ :(.+)$` captures it from the
/// parameters: after `#`, a run of word characters, a space and a colon, the
/// rest of the parameters, which must be at least one character long and hold
/// no line feed.
pub open spec fn content_view(q: Seq<char>) -> Seq<char> {
    let n = word_lead(q.skip(1)) as int;
    let t = q.skip(n + 3);
    if q.len() > 0 && q[0] == '#' && n > 0 && n + 3 < q.len() && q[n + 1] == ' ' && q[n + 2]
        == ':' && !t.contains('\n') {
        t
    } else {
        seq![]
    }
}

/// `servername` can cut the first character off: the text it cuts from is
/// not empty and starts with a one-byte character.
pub open spec fn servername_defined(v: MessageView) -> bool {
    if v.prefix.len() > 0 {
        (v.prefix[0] as u32) < 0x80
    } else {
        v.params.len() > 0 && (v.params[0] as u32) < 0x80
    }
}

/// The server name: the prefix without its first character, or, when there
/// is no prefix, the parameters without theirs.
pub open spec fn servername_view(v: MessageView) -> Seq<char> {
    if v.prefix.len() > 0 {
        v.prefix.skip(1)
    } else {
        v.params.skip(1)
    }
}

/// The sender's nickname suggests a bot: it holds `bot` or `bridge`.
pub open spec fn maybe_bot_view(v: MessageView) -> bool {
    contains_text(nick_view(v), "bot"@) || contains_text(nick_view(v), "bridge"@)
}

/// The fields a stored message has, in order: the raw line always, then the
/// channel, nickname, content, parameters and command, each only when it is
/// not empty.
pub open spec fn record_fields(v: MessageView) -> Seq<(Seq<char>, Seq<char>)> {
    let opt = |key: Seq<char>, value: Seq<char>|
        if value.len() > 0 {
            seq![(key, value)]
        } else {
            Seq::<(Seq<char>, Seq<char>)>::empty()
        };
    seq![("raw"@, v.raw)] + opt("channel"@, channel_view(v.params)) + opt("nick"@, nick_view(v))
        + opt("content"@, content_view(v.params)) + opt("params"@, v.params) + opt(
        "command"@,
        v.command,
    )
}


/// The lines of `s`, cut at each line feed, as `str::split('\n')` yields them:
/// a text with `k` line feeds gives `k + 1` lines, empty ones included.
pub open spec fn split_lines(s: Seq<char>) -> Seq<Seq<char>>
    decreases s.len(),
{
    let i = leading_run(s, not_char_pred('\n'));
    if i < s.len() {
        seq![s.take(i as int)] + split_lines(s.skip(i + 1int))
    } else {
        seq![s]
    }
}

/// A line that reads as a message: it holds a space and is not truncated.
pub open spec fn parses(l: Seq<char>) -> bool {
    l.contains(' ') && !is_truncated_line(l)
}

/// The messages that the lines `ls` read as, in order; lines that do not
/// read as messages are left out.
pub open spec fn parsed_lines(ls: Seq<Seq<char>>) -> Seq<MessageView>
    decreases ls.len(),
{
    if ls.len() == 0 {
        seq![]
    } else {
        (if parses(ls[0]) {
            seq![parse_view(ls[0])]
        } else {
            Seq::<MessageView>::empty()
        }) + parsed_lines(ls.drop_first())
    }
}

/// The views of a vector of messages.
pub open spec fn views(ms: Seq<Message>) -> Seq<MessageView> {
    ms.map_values(|m: Message| m@)
}

// ---------------------------------------------------------------------------
// Laws of the grammar
// ---------------------------------------------------------------------------

/// `s` holds no space.
pub open spec fn no_space(s: Seq<char>) -> bool {
    !s.contains(' ')
}

/// The first space of `a + [' '] + b` is where `a` ends, when `a` holds none.
proof fn lemma_first_space_after(a: Seq<char>, b: Seq<char>)
    requires
        no_space(a),
    ensures
        first_space(a + seq![' '] + b) == a.len(),
{
    let m = a + seq![' '] + b;
    assert forall|k: int| 0 <= k < a.len() implies #[trigger] not_char_pred(' ')(m[k]) by {
        assert(m[k] == a[k]);
        if a[k] == ' ' {
            assert(a.contains(' '));
        }
    }
    assert(m[a.len() as int] == ' ');
    lemma_leading_run(m, not_char_pred(' '), a.len() as int);
}

/// A line made of a prefix, a command and parameters reads back as that
/// prefix, that command and the parameters without surrounding white space,
/// when the prefix starts with `:` and neither it nor the command holds a
/// space.
pub proof fn lemma_parse_with_prefix(prefix: Seq<char>, command: Seq<char>, params: Seq<char>)
    requires
        prefix.len() > 0,
        prefix[0] == ':',
        no_space(prefix),
        no_space(command),
    ensures
        ({
            let line = prefix + seq![' '] + command + seq![' '] + params;
            &&& line.contains(' ')
            &&& !is_truncated_line(line)
            &&& parse_view(line) == (MessageView {
                raw: line,
                prefix,
                command,
                params: trim_view(params),
            })
        }),
{
    let tail = command + seq![' '] + params;
    let line = prefix + seq![' '] + command + seq![' '] + params;
    assert(line =~= prefix + seq![' '] + tail);
    lemma_first_space_after(prefix, tail);
    lemma_first_space_after(command, params);
    assert(line[prefix.len() as int] == ' ');
    assert(first_word(line) =~= prefix);
    assert(after_first_word(line) =~= tail);
    assert(tail[command.len() as int] == ' ');
    assert(tail.take(command.len() as int) =~= command);
    assert(tail.skip(command.len() + 1int) =~= params);
}

/// A line made of a command and parameters reads back as that command, no
/// prefix, and the parameters without surrounding white space, when the
/// command holds no space and does not start with `:`.
pub proof fn lemma_parse_without_prefix(command: Seq<char>, params: Seq<char>)
    requires
        no_space(command),
        command.len() == 0 || command[0] != ':',
    ensures
        ({
            let line = command + seq![' '] + params;
            &&& line.contains(' ')
            &&& !is_truncated_line(line)
            &&& parse_view(line) == (MessageView {
                raw: line,
                prefix: seq![],
                command,
                params: trim_view(params),
            })
        }),
{
    let line = command + seq![' '] + params;
    lemma_first_space_after(command, params);
    assert(line[command.len() as int] == ' ');
    assert(first_word(line) =~= command);
    assert(after_first_word(line) =~= params);
}

/// The server name of a `PING` without prefix is what follows the colon of
/// its parameter; that of a line with a prefix is the prefix without its
/// colon.
pub proof fn lemma_servername_of_ping_and_prefix(
    name: Seq<char>,
    prefix: Seq<char>,
    command: Seq<char>,
    params: Seq<char>,
)
    requires
        name.len() > 0,
        !is_white_space(name.last()),
        prefix.len() > 0,
        prefix[0] == ':',
        no_space(prefix),
        no_space(command),
    ensures
        servername_defined(parse_view("PING :"@ + name)),
        servername_view(parse_view("PING :"@ + name)) == name,
        servername_view(parse_view(prefix + seq![' '] + command + seq![' '] + params))
            == prefix.skip(1),
{
    reveal_strlit("PING :");
    reveal_strlit("PING");
    let ping = "PING"@;
    assert(ping =~= seq!['P', 'I', 'N', 'G']);
    assert("PING :"@ + name =~= ping + seq![' '] + (seq![':'] + name));
    assert(no_space(ping)) by {
        if ping.contains(' ') {
            let k = choose|k: int| 0 <= k < ping.len() && ping[k] == ' ';
            assert(ping[k] != ' ');
        }
    }
    lemma_parse_without_prefix(ping, seq![':'] + name);
    let q = seq![':'] + name;
    assert(seq![] + q + seq![] =~= q);
    assert(forall|k: int| 0 <= k < 0 ==> is_white_space(#[trigger] Seq::<char>::empty()[k]));
    crate::text::lemma_trim_strips_both_ends(seq![], q, seq![]);
    assert(q.last() == name.last());
    assert(q.skip(1) =~= name);
    lemma_parse_with_prefix(prefix, command, params);
}

/// The lines `ls` put back together, a line feed between each two.
pub open spec fn join_with_line_feeds(ls: Seq<Seq<char>>) -> Seq<char>
    decreases ls.len(),
{
    if ls.len() == 0 {
        seq![]
    } else if ls.len() == 1 {
        ls[0]
    } else {
        ls[0] + seq!['\n'] + join_with_line_feeds(ls.drop_first())
    }
}

/// Cutting a text into lines loses nothing and cuts at every line feed: no
/// line holds a line feed, there is at least one line, and putting the
/// lines back together with line feeds gives the text.
pub proof fn lemma_split_lines_cuts_at_every_line_feed(s: Seq<char>)
    ensures
        split_lines(s).len() > 0,
        forall|k: int| 0 <= k < split_lines(s).len() ==> !(#[trigger] split_lines(s)[k]).contains(
            '\n',
        ),
        join_with_line_feeds(split_lines(s)) == s,
    decreases s.len(),
{
    let p = not_char_pred('\n');
    let i = leading_run(s, p);
    lemma_leading_run_shape(s, p);
    let a = s.take(i as int);
    assert(!a.contains('\n')) by {
        if a.contains('\n') {
            let k = choose|k: int| 0 <= k < a.len() && a[k] == '\n';
            assert(p(s[k]));
        }
    }
    if i < s.len() {
        let rest = s.skip(i + 1int);
        lemma_split_lines_cuts_at_every_line_feed(rest);
        let ls = split_lines(s);
        assert(ls == seq![a] + split_lines(rest));
        assert(ls.drop_first() =~= split_lines(rest));
        assert forall|k: int| 0 <= k < ls.len() implies !(#[trigger] ls[k]).contains('\n') by {
            if k > 0 {
                assert(ls[k] == split_lines(rest)[k - 1]);
            }
        }
        assert(s =~= a + seq!['\n'] + rest);
    } else {
        assert(a =~= s);
    }
}

/// A text without line feeds is one line.
pub proof fn lemma_one_line(s: Seq<char>)
    requires
        !s.contains('\n'),
    ensures
        split_lines(s) == seq![s],
{
    let p = not_char_pred('\n');
    assert forall|k: int| 0 <= k < s.len() implies #[trigger] p(s[k]) by {
        if s[k] == '\n' {
            assert(s.contains('\n'));
        }
    }
    lemma_leading_run(s, p, s.len() as int);
}

/// `last_index_below` finds `k` when `c` is at `k` and nowhere between `k`
/// and `hi`.
proof fn lemma_last_index_below(r: Seq<char>, c: char, hi: int, k: int)
    requires
        1 <= k < hi <= r.len(),
        r[k] == c,
        forall|j: int| k < j < hi ==> r[j] != c,
    ensures
        last_index_below(r, c, hi) == k,
    decreases hi,
{
    if hi - 1 != k {
        lemma_last_index_below(r, c, hi - 1, k);
    }
}

/// What `last_index_below` finds holds `c` and lies in `[1, hi)`.
proof fn lemma_last_index_below_found(r: Seq<char>, c: char, hi: int)
    ensures
        last_index_below(r, c, hi) == -1 || (1 <= last_index_below(r, c, hi) < hi
            && r[last_index_below(r, c, hi)] == c),
    decreases hi,
{
    if hi > 1 && r[hi - 1] != c {
        lemma_last_index_below_found(r, c, hi - 1);
    }
}

/// The parts of a prefix are three empty texts, or three texts of at least
/// one character, none holding white space, that the prefix is made of as
/// `:nick!user@host`, the nickname being word characters and `-`.
pub proof fn lemma_resolved_prefix_shape(p: Seq<char>)
    ensures
        ({
            let (n, u, h) = resolved_prefix(p);
            ||| (n.len() == 0 && u.len() == 0 && h.len() == 0 && prefix_parts(p) is None)
            ||| {
                &&& n.len() > 0 && u.len() > 0 && h.len() > 0
                &&& no_white_space(n) && no_white_space(u) && no_white_space(h)
                &&& forall|k: int| 0 <= k < n.len() ==> name_char(#[trigger] n[k])
                &&& p == seq![':'] + n + seq!['!'] + u + seq!['@'] + h
            }
        }),
{
    if prefix_parts(p) is Some {
        let body = p.skip(1);
        let n = leading_run(body, name_pred());
        let r = body.skip(n + 1int);
        let k = last_index_below(r, '@', r.len() - 1);
        lemma_leading_run_shape(body, name_pred());
        lemma_last_index_below_found(r, '@', r.len() - 1);
        let nick = body.take(n as int);
        assert forall|j: int| 0 <= j < nick.len() implies name_char(#[trigger] nick[j]) by {
            assert(name_pred()(body[j]));
        }
        assert(no_white_space(nick)) by {
            assert forall|j: int| 0 <= j < nick.len() implies !is_white_space(#[trigger] nick[j]) by {
                assert(name_char(nick[j]));
                lemma_word_char_is_not_white_space(nick[j]);
            }
        }
        let user = r.take(k);
        let host = r.skip(k + 1);
        assert(no_white_space(user)) by {
            assert forall|j: int| 0 <= j < user.len() implies !is_white_space(#[trigger] user[j]) by {
                assert(user[j] == r[j]);
            }
        }
        assert(no_white_space(host)) by {
            assert forall|j: int| 0 <= j < host.len() implies !is_white_space(#[trigger] host[j]) by {
                assert(host[j] == r[j + k + 1]);
            }
        }
        assert(body =~= nick + seq!['!'] + r);
        assert(r =~= user + seq!['@'] + host);
        assert(p =~= seq![':'] + nick + seq!['!'] + user + seq!['@'] + host);
    }
}

/// A prefix made of a nickname, a user and a host reads back as those three,
/// when the nickname is word characters and `-`, the user and host hold no
/// white space, all three are at least one character long, and the host has
/// no `@` before its last character.
pub proof fn lemma_prefix_roundtrip(nick: Seq<char>, user: Seq<char>, host: Seq<char>)
    requires
        nick.len() > 0,
        user.len() > 0,
        host.len() > 0,
        forall|k: int| 0 <= k < nick.len() ==> name_char(#[trigger] nick[k]),
        no_white_space(user),
        no_white_space(host),
        forall|k: int| 0 <= k < host.len() - 1 ==> #[trigger] host[k] != '@',
    ensures
        resolved_prefix(seq![':'] + nick + seq!['!'] + user + seq!['@'] + host) == (nick, user, host),
{
    let p = seq![':'] + nick + seq!['!'] + user + seq!['@'] + host;
    let body = p.skip(1);
    let r = user + seq!['@'] + host;
    assert(body =~= nick + seq!['!'] + r);
    assert forall|k: int| 0 <= k < nick.len() implies #[trigger] name_pred()(body[k]) by {
        assert(body[k] == nick[k]);
    }
    assert(body[nick.len() as int] == '!');
    lemma_leading_run(body, name_pred(), nick.len() as int);
    assert(body.skip(nick.len() + 1int) =~= r);
    assert(no_white_space(r)) by {
        assert forall|k: int| 0 <= k < r.len() implies !is_white_space(#[trigger] r[k]) by {
            if k < user.len() {
                assert(r[k] == user[k]);
            } else if k > user.len() {
                assert(r[k] == host[k - user.len() - 1]);
            }
        }
    }
    assert(r[user.len() as int] == '@');
    assert forall|j: int| user.len() < j < r.len() - 1 implies r[j] != '@' by {
        assert(r[j] == host[j - user.len() - 1]);
    }
    lemma_last_index_below(r, '@', r.len() - 1, user.len() as int);
    assert(body.take(nick.len() as int) =~= nick);
    assert(r.take(user.len() as int) =~= user);
    assert(r.skip(user.len() + 1int) =~= host);
}

/// Parameters made of a channel and a text read back as that channel and that
/// text, when the channel's name is word characters and the text is at least
/// one character long with no line feed.
pub proof fn lemma_channel_content_roundtrip(name: Seq<char>, text: Seq<char>)
    requires
        name.len() > 0,
        forall|k: int| 0 <= k < name.len() ==> word_char(#[trigger] name[k]),
        text.len() > 0,
        !text.contains('\n'),
    ensures
        ({
            let q = seq!['#'] + name + seq![' ', ':'] + text;
            &&& channel_view(q) == seq!['#'] + name
            &&& content_view(q) == text
        }),
{
    let q = seq!['#'] + name + seq![' ', ':'] + text;
    let t = q.skip(1);
    assert(t =~= name + seq![' ', ':'] + text);
    assert forall|k: int| 0 <= k < name.len() implies #[trigger] word_pred()(t[k]) by {
        assert(t[k] == name[k]);
    }
    assert(t[name.len() as int] == ' ');
    lemma_leading_run(t, word_pred(), name.len() as int);
    assert(q.take(name.len() + 1int) =~= seq!['#'] + name);
    assert(q[name.len() + 1int] == ' ');
    assert(q[name.len() + 2int] == ':');
    assert(q.skip(name.len() + 3int) =~= text);
}

/// Whether a sender looks like a bot is decided by its nickname alone: two
/// messages whose senders have the same nickname get the same answer,
/// whatever their users, hosts, commands and parameters.
pub proof fn lemma_maybe_bot_depends_on_nickname_only(v1: MessageView, v2: MessageView)
    requires
        nick_view(v1) == nick_view(v2),
    ensures
        maybe_bot_view(v1) == maybe_bot_view(v2),
{
}

/// A sender looks like a bot exactly when its nickname holds `bot` or
/// `bridge` somewhere; in particular a message without a nickname never does.
pub proof fn lemma_maybe_bot_reads_the_nickname(v: MessageView)
    ensures
        maybe_bot_view(v) <==> contains_text(nick_view(v), seq!['b', 'o', 't']) || contains_text(
            nick_view(v),
            seq!['b', 'r', 'i', 'd', 'g', 'e'],
        ),
        nick_view(v).len() == 0 ==> !maybe_bot_view(v),
{
    reveal_strlit("bot");
    reveal_strlit("bridge");
    let bot = "bot"@;
    let bridge = "bridge"@;
    assert(bot =~= seq!['b', 'o', 't']);
    assert(bridge =~= seq!['b', 'r', 'i', 'd', 'g', 'e']);
}

/// `(a + b)` holds `x` exactly when `a` or `b` does.
proof fn lemma_contains_concat<A>(a: Seq<A>, b: Seq<A>, x: A)
    ensures
        (a + b).contains(x) <==> a.contains(x) || b.contains(x),
{
    if a.contains(x) {
        let i = choose|i: int| 0 <= i < a.len() && a[i] == x;
        assert((a + b)[i] == x);
    }
    if b.contains(x) {
        let i = choose|i: int| 0 <= i < b.len() && b[i] == x;
        assert((a + b)[a.len() + i] == x);
    }
    if (a + b).contains(x) {
        let i = choose|i: int| 0 <= i < (a + b).len() && (a + b)[i] == x;
        if i < a.len() {
            assert(a[i] == x);
        } else {
            assert(b[i - a.len()] == x);
        }
    }
}

/// The field `(key, value)`, when `value` is not empty.
spec fn field_if_present(key: Seq<char>, value: Seq<char>) -> Seq<(Seq<char>, Seq<char>)> {
    if value.len() > 0 {
        seq![(key, value)]
    } else {
        Seq::<(Seq<char>, Seq<char>)>::empty()
    }
}

/// Which pairs `field_if_present` holds.
proof fn lemma_field_if_present(key: Seq<char>, value: Seq<char>, x: (Seq<char>, Seq<char>))
    ensures
        field_if_present(key, value).contains(x) <==> value.len() > 0 && x == (key, value),
{
    if value.len() > 0 && x == (key, value) {
        assert(field_if_present(key, value)[0] == x);
    }
}

/// A stored message starts with its raw line, and holds each of its channel,
/// nickname, content, parameters and command under that field's name exactly
/// when that field is not empty, whatever the other fields are.
pub proof fn lemma_record_holds_the_non_empty_fields(v: MessageView)
    ensures
        record_fields(v).len() > 0,
        record_fields(v)[0] == ("raw"@, v.raw),
        record_fields(v).contains(("channel"@, channel_view(v.params))) <==> channel_view(v.params).len() > 0,
        record_fields(v).contains(("nick"@, nick_view(v))) <==> nick_view(v).len() > 0,
        record_fields(v).contains(("content"@, content_view(v.params))) <==> content_view(v.params).len() > 0,
        record_fields(v).contains(("params"@, v.params)) <==> v.params.len() > 0,
        record_fields(v).contains(("command"@, v.command)) <==> v.command.len() > 0,
{
    reveal_strlit("raw");
    reveal_strlit("channel");
    reveal_strlit("nick");
    reveal_strlit("content");
    reveal_strlit("params");
    reveal_strlit("command");
    let raw = seq![("raw"@, v.raw)];
    let f1 = field_if_present("channel"@, channel_view(v.params));
    let f2 = field_if_present("nick"@, nick_view(v));
    let f3 = field_if_present("content"@, content_view(v.params));
    let f4 = field_if_present("params"@, v.params);
    let f5 = field_if_present("command"@, v.command);
    let r = record_fields(v);
    assert(r =~= raw + f1 + f2 + f3 + f4 + f5);
    assert(r[0] == ("raw"@, v.raw));
    // the six field names differ from each other
    assert("raw"@.len() == 3 && "nick"@.len() == 4 && "params"@.len() == 6 && "channel"@.len() == 7
        && "content"@.len() == 7 && "command"@.len() == 7);
    assert("channel"@[1] == 'h' && "content"@[2] == 'n' && "command"@[2] == 'm');
    let xs = seq![
        ("channel"@, channel_view(v.params)),
        ("nick"@, nick_view(v)),
        ("content"@, content_view(v.params)),
        ("params"@, v.params),
        ("command"@, v.command),
    ];
    assert forall|j: int| 0 <= j < 5 implies ({
        let x = #[trigger] xs[j];
        &&& r.contains(x) <==> raw.contains(x) || f1.contains(x) || f2.contains(x) || f3.contains(x)
            || f4.contains(x) || f5.contains(x)
        &&& !raw.contains(x)
    }) by {
        let x = xs[j];
        lemma_contains_concat(raw + f1 + f2 + f3 + f4, f5, x);
        lemma_contains_concat(raw + f1 + f2 + f3, f4, x);
        lemma_contains_concat(raw + f1 + f2, f3, x);
        lemma_contains_concat(raw + f1, f2, x);
        lemma_contains_concat(raw, f1, x);
        if raw.contains(x) {
            assert(raw[0] == x);
        }
    }
    assert forall|j: int| 0 <= j < 5 implies ({
        let x = #[trigger] xs[j];
        &&& f1.contains(x) <==> (j == 0 && channel_view(v.params).len() > 0)
        &&& f2.contains(x) <==> (j == 1 && nick_view(v).len() > 0)
        &&& f3.contains(x) <==> (j == 2 && content_view(v.params).len() > 0)
        &&& f4.contains(x) <==> (j == 3 && v.params.len() > 0)
        &&& f5.contains(x) <==> (j == 4 && v.command.len() > 0)
    }) by {
        let x = xs[j];
        lemma_field_if_present("channel"@, channel_view(v.params), x);
        lemma_field_if_present("nick"@, nick_view(v), x);
        lemma_field_if_present("content"@, content_view(v.params), x);
        lemma_field_if_present("params"@, v.params, x);
        lemma_field_if_present("command"@, v.command, x);
    }
    assert(xs[0] == ("channel"@, channel_view(v.params)));
    assert(xs[1] == ("nick"@, nick_view(v)));
    assert(xs[2] == ("content"@, content_view(v.params)));
    assert(xs[3] == ("params"@, v.params));
    assert(xs[4] == ("command"@, v.command));
}

// ---------------------------------------------------------------------------
// Small searches on character vectors
// ---------------------------------------------------------------------------

/// Index of the first `c` in `v` at or after `from`, or the length of `v`.
fn find_char_from(v: &Vec<char>, c: char, from: usize) -> (j: usize)
    requires
        from <= v@.len(),
    ensures
        from <= j <= v@.len(),
        forall|k: int| from <= k < j ==> v@[k] != c,
        j == v@.len() || v@[j as int] == c,
        j - from == leading_run(v@.skip(from as int), not_char_pred(c)),
{
    let mut j = from;
    while j < v.len() && v[j] != c
        invariant
            from <= j <= v@.len(),
            forall|k: int| from <= k < j ==> v@[k] != c,
        decreases v.len() - j,
    {
        j = j + 1;
    }
    proof {
        let t = v@.skip(from as int);
        assert forall|k: int| 0 <= k < j - from implies #[trigger] not_char_pred(c)(t[k]) by {
            assert(t[k] == v@[k + from]);
        }
        if j < v@.len() {
            assert(t[j - from] == v@[j as int]);
        }
        lemma_leading_run(t, not_char_pred(c), j - from);
    }
    j
}

/// End of the run of word characters in `v` that starts at `from`.
fn word_run_from(v: &Vec<char>, from: usize) -> (j: usize)
    requires
        from <= v@.len(),
    ensures
        from <= j <= v@.len(),
        j - from == word_lead(v@.skip(from as int)),
{
    let mut j = from;
    while j < v.len() && is_word_char(v[j])
        invariant
            from <= j <= v@.len(),
            forall|k: int| from <= k < j ==> word_char(#[trigger] v@[k]),
        decreases v.len() - j,
    {
        j = j + 1;
    }
    proof {
        let t = v@.skip(from as int);
        assert forall|k: int| 0 <= k < j - from implies #[trigger] word_pred()(t[k]) by {
            assert(t[k] == v@[k + from]);
        }
        if j < v@.len() {
            assert(t[j - from] == v@[j as int]);
        }
        lemma_leading_run(t, word_pred(), j - from);
    }
    j
}

impl Message {
    /// Whether `msg` is a line on which `new` would cut past the end: it holds
    /// a space, starts with a prefix, and has no space after the command.
    pub fn is_truncated(msg: &str) -> (r: bool)
        ensures
            r == is_truncated_line(msg@),
    {
        let v = chars_of(msg);
        let n = v.len();
        let i1 = find_char_from(&v, ' ', 0);
        assert(v@.skip(0) =~= v@);
        if i1 == n {
            assert(!msg@.contains(' '));
            return false;
        }
        proof {
            assert(first_word(msg@) =~= v@.take(i1 as int));
        }
        if !(i1 > 0 && v[0] == ':') {
            return false;
        }
        let i2 = find_char_from(&v, ' ', i1 + 1);
        proof {
            let rest = after_first_word(msg@);
            assert(rest =~= v@.skip(i1 + 1));
            if rest.contains(' ') {
                let k = choose|k: int| 0 <= k < rest.len() && rest[k] == ' ';
                assert(v@[k + i1 + 1] == ' ');
            }
            if i2 < n {
                assert(rest[i2 - i1 - 1] == ' ');
            }
        }
        i2 == n
    }

    /// Reads one IRC line. A line without a space is refused with
    /// `"parse error."`.
    pub fn new(msg: &str) -> (r: Result<Message, &'static str>)
        requires
            !is_truncated_line(msg@),
        ensures
            match r {
                Ok(m) => msg@.contains(' ') && m@ == parse_view(msg@),
                Err(e) => !msg@.contains(' ') && e@ == "parse error."@,
            },
    {
        let v = chars_of(msg);
        let n = v.len();
        let i1 = find_char_from(&v, ' ', 0);
        assert(v@.skip(0) =~= v@);
        if i1 == n {
            assert(!msg@.contains(' '));
            return Err("parse error.");
        }
        let ghost m = msg@;
        let ghost rest = after_first_word(m);
        proof {
            assert(first_word(m) =~= v@.take(i1 as int));
            assert(rest =~= v@.skip(i1 + 1));
        }
        if i1 > 0 && v[0] == ':' {
            let i2 = find_char_from(&v, ' ', i1 + 1);
            proof {
                if i2 == n {
                    let k = choose|k: int| 0 <= k < rest.len() && rest[k] == ' ';
                    assert(v@[k + i1 + 1] == ' ');
                }
                assert(rest.take(i2 - i1 - 1) =~= v@.subrange(i1 + 1, i2 as int));
                assert(rest.skip(i2 - i1 - 1 + 1) =~= v@.subrange(i2 + 1, n as int));
                assert(v@.subrange(0, i1 as int) =~= first_word(m));
            }
            let prefix = msg.substring_char(0, i1).to_owned();
            let command = msg.substring_char(i1 + 1, i2).to_owned();
            let params = trim(msg.substring_char(i2 + 1, n)).to_owned();
            let r = Message { raw_message: msg.to_owned(), prefix, command, params };
            assert(r@ == parse_view(m));
            Ok(r)
        } else {
            proof {
                assert(v@.subrange(0, i1 as int) =~= first_word(m));
                assert(v@.subrange(i1 + 1, n as int) =~= rest);
            }
            let command = msg.substring_char(0, i1).to_owned();
            let params = trim(msg.substring_char(i1 + 1, n)).to_owned();
            let prefix = String::new();
            let r = Message { raw_message: msg.to_owned(), prefix, command, params };
            assert(r@ =~= parse_view(m));
            Ok(r)
        }
    }

    /// The command word.
    pub fn command(&self) -> (r: &str)
        ensures
            r@ == self@.command,
    {
        self.command.as_str()
    }

    /// The parameters.
    pub fn params(&self) -> (r: &str)
        ensures
            r@ == self@.params,
    {
        self.params.as_str()
    }

    /// Whether `servername` can be asked of this message.
    pub fn has_servername(&self) -> (r: bool)
        ensures
            r == servername_defined(self@),
    {
        let p = chars_of(self.prefix.as_str());
        if p.len() > 0 {
            (p[0] as u32) < 0x80
        } else {
            let q = chars_of(self.params.as_str());
            q.len() > 0 && (q[0] as u32) < 0x80
        }
    }

    /// The server name: the prefix without its colon, or, when there is no
    /// prefix, the parameters without their first character.
    pub fn servername(&self) -> (r: &str)
        requires
            servername_defined(self@),
        ensures
            r@ == servername_view(self@),
    {
        if self.prefix.as_str().is_empty() {
            let s = self.params.as_str();
            s.substring_char(1, s.unicode_len())
        } else {
            let s = self.prefix.as_str();
            s.substring_char(1, s.unicode_len())
        }
    }

    /// The sender's nickname, or the empty text when the prefix is not of the
    /// form `:nick!user@host`.
    pub fn nickname(&self) -> (r: &str)
        ensures
            r@ == nick_view(self@),
            no_white_space(r@),
    {
        let (nick, _, _) = self.resolv_prefix();
        nick
    }

    /// The nickname, user and host of the prefix `:nick!user@host`, or three
    /// empty texts when the prefix is not of that form.
    pub fn resolv_prefix(&self) -> (r: (&str, &str, &str))
        ensures
            (r.0@, r.1@, r.2@) == resolved_prefix(self@.prefix),
            no_white_space(r.0@) && no_white_space(r.1@) && no_white_space(r.2@),
    {
        proof {
            lemma_resolved_prefix_shape(self@.prefix);
        }
        let s = self.prefix.as_str();
        let v = chars_of(s);
        let len = v.len();
        let ghost p = v@;
        let empty = s.substring_char(0, 0);
        if len == 0 || v[0] != ':' {
            return (empty, empty, empty);
        }
        let ghost body = p.skip(1);
        let mut i: usize = 1;
        while i < len && (v[i] == '-' || is_word_char(v[i]))
            invariant
                1 <= i <= len,
                len == p.len(),
                v@ == p,
                forall|k: int| 1 <= k < i ==> name_char(#[trigger] p[k]),
            decreases len - i,
        {
            i = i + 1;
        }
        proof {
            assert forall|k: int| 0 <= k < i - 1 implies #[trigger] name_pred()(body[k]) by {
                assert(body[k] == p[k + 1]);
            }
            if i < len {
                assert(body[i - 1] == p[i as int]);
            }
            lemma_leading_run(body, name_pred(), i - 1);
        }
        if i == 1 || i == len || v[i] != '!' {
            return (empty, empty, empty);
        }
        let ghost r = body.skip(i as int);
        assert(r =~= p.skip(i + 1));
        let mut j = i + 1;
        while j < len && !white_space(v[j])
            invariant
                i + 1 <= j <= len,
                len == p.len(),
                v@ == p,
                forall|k: int| i + 1 <= k < j ==> !is_white_space(#[trigger] p[k]),
            decreases len - j,
        {
            j = j + 1;
        }
        if j < len {
            proof {
                assert(r[j - i - 1] == p[j as int]);
            }
            return (empty, empty, empty);
        }
        assert(no_white_space(r)) by {
            assert forall|k: int| 0 <= k < r.len() implies !is_white_space(#[trigger] r[k]) by {
                assert(r[k] == p[k + i + 1]);
            }
        }
        let rlen = len - i - 1;
        if rlen < 3 {
            assert(last_index_below(r, '@', r.len() - 1) == -1);
            return (empty, empty, empty);
        }
        let mut hi = rlen - 1;
        while hi > 1 && v[i + hi] != '@'
            invariant
                1 <= hi <= rlen - 1,
                rlen == r.len(),
                rlen + i + 1 == len,
                len == p.len(),
                v@ == p,
                r == p.skip(i + 1),
                last_index_below(r, '@', hi as int) == last_index_below(r, '@', r.len() - 1),
            decreases hi,
        {
            assert(r[hi - 1] == p[i + hi]);
            hi = hi - 1;
        }
        if hi <= 1 {
            return (empty, empty, empty);
        }
        assert(r[hi - 1] == p[i + hi]);
        let k = hi - 1;
        proof {
            assert(body.take(i - 1) =~= p.subrange(1, i as int));
            assert(r.take(k as int) =~= p.subrange(i + 1, i + 1 + k));
            assert(r.skip(k + 1) =~= p.subrange(i + 2 + k, len as int));
        }
        (s.substring_char(1, i), s.substring_char(i + 1, i + 1 + k), s.substring_char(i + 2 + k, len))
    }

    /// The channel the parameters start with, or the empty text.
    pub fn channel(&self) -> (r: &str)
        ensures
            r@ == channel_view(self@.params),
    {
        let s = self.params.as_str();
        let v = chars_of(s);
        if v.len() == 0 || v[0] != '#' {
            return s.substring_char(0, 0);
        }
        let e = word_run_from(&v, 1);
        if e == 1 {
            return s.substring_char(0, 0);
        }
        assert(v@.take(e as int) =~= v@.subrange(0, e as int));
        s.substring_char(0, e)
    }

    /// The text of a channel message, or the empty text.
    pub fn content(&self) -> (r: &str)
        ensures
            r@ == content_view(self@.params),
    {
        let s = self.params.as_str();
        let v = chars_of(s);
        let len = v.len();
        if len == 0 || v[0] != '#' {
            return s.substring_char(0, 0);
        }
        let e = word_run_from(&v, 1);
        if e == 1 || len - e <= 2 || v[e] != ' ' || v[e + 1] != ':' {
            return s.substring_char(0, 0);
        }
        let nl = find_char_from(&v, '\n', e + 2);
        let ghost t = v@.skip(e + 2);
        assert(t =~= v@.subrange(e + 2, len as int));
        if nl < len {
            assert(t[nl - e - 2] == '\n');
            return s.substring_char(0, 0);
        }
        assert(!t.contains('\n')) by {
            if t.contains('\n') {
                let k = choose|k: int| 0 <= k < t.len() && t[k] == '\n';
                assert(v@[k + e + 2] == '\n');
            }
        }
        s.substring_char(e + 2, len)
    }

    /// Whether the sender's nickname suggests a bot.
    pub fn is_maybe_bot(&self) -> (r: bool)
        ensures
            r == maybe_bot_view(self@),
    {
        let nick = self.nickname();
        text_contains(nick, "bot") || text_contains(nick, "bridge")
    }

    /// The message as the robot prints it: the raw line, then the prefix,
    /// command and parameters, one per line.
    pub fn describe(&self) -> (r: String)
        ensures
            r@ == "\nraw_message: "@ + self@.raw + "prefix: "@ + self@.prefix + "\ncommand: "@
                + self@.command + "\nparams: "@ + self@.params + "\n"@,
    {
        "\nraw_message: ".to_owned().concat(self.raw_message.as_str()).concat("prefix: ").concat(
            self.prefix.as_str(),
        ).concat("\ncommand: ").concat(self.command.as_str()).concat("\nparams: ").concat(
            self.params.as_str(),
        ).concat("\n")
    }

    /// The fields under which the message is stored, in order.
    pub fn record_fields(&self) -> (r: Vec<(String, String)>)
        ensures
            r@.len() == record_fields(self@).len(),
            forall|i: int|
                0 <= i < r@.len() ==> (#[trigger] r@[i]).0@ == record_fields(self@)[i].0 && r@[i].1@
                    == record_fields(self@)[i].1,
    {
        let mut r: Vec<(String, String)> = Vec::new();
        r.push(("raw".to_owned(), self.raw_message.clone()));
        let ghost spec = record_fields(self@);
        let ghost mut done: Seq<(Seq<char>, Seq<char>)> = seq![("raw"@, self@.raw)];
        let channel = self.channel();
        if !channel.is_empty() {
            r.push(("channel".to_owned(), channel.to_owned()));
            proof {
                done = done + seq![("channel"@, channel@)];
            }
        }
        let nick = self.nickname();
        if !nick.is_empty() {
            r.push(("nick".to_owned(), nick.to_owned()));
            proof {
                done = done + seq![("nick"@, nick@)];
            }
        }
        let content = self.content();
        if !content.is_empty() {
            r.push(("content".to_owned(), content.to_owned()));
            proof {
                done = done + seq![("content"@, content@)];
            }
        }
        let params = self.params();
        if !params.is_empty() {
            r.push(("params".to_owned(), params.to_owned()));
            proof {
                done = done + seq![("params"@, params@)];
            }
        }
        let command = self.command();
        if !command.is_empty() {
            r.push(("command".to_owned(), command.to_owned()));
            proof {
                done = done + seq![("command"@, command@)];
            }
        }
        assert(done =~= spec);
        r
    }
}

/// Cuts what was read from the server into lines and reads each line that
/// holds a message, in order.
pub fn parse_lines(buf: &str) -> (r: Vec<Message>)
    ensures
        views(r@) == parsed_lines(split_lines(buf@)),
{
    let v = chars_of(buf);
    let n = v.len();
    let mut out: Vec<Message> = Vec::new();
    let mut start: usize = 0;
    assert(v@.skip(0) =~= v@);
    loop
        invariant_except_break
            start <= n,
            n == v@.len(),
            v@ == buf@,
            views(out@) + parsed_lines(split_lines(v@.skip(start as int))) == parsed_lines(
                split_lines(buf@),
            ),
        ensures
            views(out@) == parsed_lines(split_lines(buf@)),
        decreases n - start,
    {
        let j = find_char_from(&v, '\n', start);
        let line = buf.substring_char(start, j);
        let ghost rest = v@.skip(start as int);
        let ghost before = views(out@);
        proof {
            assert(line@ =~= rest.take(j - start));
            if j < n {
                assert(rest.skip(j - start + 1) =~= v@.skip(j + 1));
                let ls = split_lines(rest);
                assert(ls =~= seq![line@] + split_lines(v@.skip(j + 1)));
                assert(ls.drop_first() =~= split_lines(v@.skip(j + 1)));
            } else {
                assert(rest.take(j - start) =~= rest);
                assert(split_lines(rest) =~= seq![line@]);
                assert(split_lines(rest).drop_first() =~= Seq::<Seq<char>>::empty());
            }
        }
        if !Message::is_truncated(line) {
            match Message::new(line) {
                Ok(m) => {
                    out.push(m);
                    assert(views(out@) =~= before + seq![m@]);
                },
                Err(_) => {},
            }
        }
        if j == n {
            proof {
                let ls = split_lines(rest);
                assert(ls.drop_first() =~= Seq::<Seq<char>>::empty());
                assert(parsed_lines(ls.drop_first()) =~= Seq::<MessageView>::empty());
                if parses(line@) {
                    assert(views(out@) =~= before + parsed_lines(ls));
                } else {
                    assert(views(out@) =~= before + parsed_lines(ls));
                }
            }
            break ;
        }
        start = j + 1;
    }
    out
}

impl std::str::FromStr for Message {
    type Err = &'static str;

    /// Reads one IRC line as `Message::new` does; a truncated line, on which
    /// `new` cannot be called, is refused with the same error.
    fn from_str(s: &str) -> (r: Result<Message, &'static str>)
        ensures
            match r {
                Ok(m) => parses(s@) && m@ == parse_view(s@),
                Err(e) => !parses(s@) && e@ == "parse error."@,
            },
    {
        if Message::is_truncated(s) {
            Err("parse error.")
        } else {
            Message::new(s)
        }
    }
}

} // verus!
