# irc

An IRC robot. It logs in, joins its channels once the nickname service has
spoken, answers `PING`, renames itself when its nickname is taken, stores
every line it receives, and answers a link posted in a channel with the page's
title, an image's size or a GitHub repository's description.

The library (`src/`) is verified with Verus:

- `text`: white space, word characters, trimming, searching, replacing and
  decimal numerals on character sequences;
- `message`: the IRC line grammar (prefix, command, parameters) and the parts
  read from it: nickname, user, host, channel, channel text, server name;
- `url`: finding a link, recognising a GitHub repository, reading a page's
  title and an image's size, and the steps of resolving a link;
- `client`: the session's settings and its queue of outgoing command lines,
  and what each received message does to them.

The program (`app/`) runs the event loop on the socket, fetches links over
HTTP and stores messages in MongoDB; `app/main.rs db_tools` prints the latest
stored channel messages.
