//! The grammar functions against the regular expressions they implement.

use irc::message::Message;
use irc::url::{get_url, github_api_url, is_html};
use regex::Regex;

fn samples() -> Vec<String> {
    let mut v: Vec<String> = vec![
        "abchttps://a.b.com/", "ftps://a.b.com", "ftp://a.b.com/c/", "x HTTP://A b", "https:// x",
        "httpſ://q", "http://a\u{3000}b", "xx ftp://\u{85}a", "", "h", "https://", "http:/x",
        "FTP://z\nq", "kelvin hTTP://K", "two http://a http://b",
    ]
    .into_iter()
    .map(String::from)
    .collect();
    let pieces = ["http", "https", "ftp", "://", "s", "x", " ", "\t", "ſ", "é", ":", "/", "H"];
    // every combination of three pieces
    for a in pieces.iter() {
        for b in pieces.iter() {
            for c in pieces.iter() {
                v.push(format!("{}{}{}", a, b, c));
            }
        }
    }
    v
}

#[test]
fn get_url_agrees_with_the_regular_expression() {
    let re = Regex::new(r"(?i)(https|http|ftp)://[\S/]+").unwrap();
    for s in samples() {
        let expected = re.find(&s).map(|m| m.as_str());
        assert_eq!(get_url(&s), expected, "{:?}", s);
    }
}

#[test]
fn prefix_agrees_with_the_regular_expression() {
    let re = Regex::new(r"^:([-\w\d]+)!(\S+)@(\S+)$").unwrap();
    let prefixes = [
        ":a!b@c", ":n!u@v@h", ":n!u@h@", ":!u@h", ":n!@h", ":n!u@", ":é-ü!x@y", ":n.x!u@h",
        ":n!u!v@h", ":n!u@@h", ":n!u@h\u{a0}", ":_!_@_", ":a!b@c!d",
    ];
    for p in prefixes {
        let line = format!("{} JOIN #c", p);
        let msg = Message::new(&line).unwrap();
        let expected = match re.captures(p) {
            Some(c) => (
                c.get(1).unwrap().as_str(),
                c.get(2).unwrap().as_str(),
                c.get(3).unwrap().as_str(),
            ),
            None => ("", "", ""),
        };
        assert_eq!(msg.resolv_prefix(), expected, "{:?}", p);
    }
}

#[test]
fn channel_and_content_agree_with_the_regular_expressions() {
    let channel = Regex::new(r"^(#[\w\d]+).*?").unwrap();
    let content = Regex::new(r"^#[\w\d]+ :(.+)$").unwrap();
    let params = [
        "#a :b", "#a", "#", "#a b", "#a :", "#a :x\ny", "#a :\r", "#日本 :語", "#a_1 :x y ",
        "a :b", "#a\u{300} :z", "#a  :b", "#a :b\n",
    ];
    for q in params {
        let line = format!("PRIVMSG {}", q);
        let msg = Message::new(&line).unwrap();
        let q = msg.params().to_string();
        let ch = channel.captures(&q).map(|c| c.get(1).unwrap().as_str()).unwrap_or("");
        let co = content.captures(&q).map(|c| c.get(1).unwrap().as_str()).unwrap_or("");
        assert_eq!(msg.channel(), ch, "{:?}", q);
        assert_eq!(msg.content(), co, "{:?}", q);
    }
}

#[test]
fn github_agrees_with_the_regular_expression() {
    let re = Regex::new(r"(?i)//github\.com/([-_\w]+)/([-_\w]+)").unwrap();
    let links = [
        "https://github.com/a/b", "https://github.com/a", "https://github.com/a/", "//GITHUB.COM/x-y/z_",
        "https://github.com/a.b//github.com/c/d", "https://github.com/é/ü/x", "https://githubxcom/a/b",
    ];
    for l in links {
        let expected = re.captures(l).map(|c| {
            format!(
                "https://api.github.com/repos/{}/{}",
                c.get(1).unwrap().as_str(),
                c.get(2).unwrap().as_str()
            )
        });
        assert_eq!(github_api_url(l), expected, "{:?}", l);
    }
}

#[test]
fn title_agrees_with_the_regular_expression() {
    let re = Regex::new(r"(?i)<title>(.+)</title>").unwrap();
    let pages = [
        "<title>a</title>", "<TITLE>a</TITLE>", "<title></title>", "<title>a</title>b</title>",
        "<title>a\n</title>", "<title>\n<title>b</title>", "x<title>a</title>\n<title>c</title>",
        "<title>a</title\n>", "<tItLe>ſ</TiTlE>", "<title>x</title><title>y</title>",
    ];
    for p in pages {
        let expected = re
            .captures(p)
            .map(|c| format!("↑ Title: {}", c.get(1).unwrap().as_str()));
        assert_eq!(is_html(p), expected, "{:?}", p);
    }
}
