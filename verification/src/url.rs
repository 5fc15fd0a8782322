//! The link resolver: finding a link in a channel message, recognising a
//! GitHub repository, reading a page's title and an image's size, and the
//! replies made of them. Fetching over the network is the caller's; the steps
//! here say what to fetch next and what to reply with what came back.

use vstd::prelude::*;

use crate::message::not_char_pred;
use crate::text::{
    chars_of, ci_eq, ci_match_at, ci_match_at_exec, decimal, is_white_space, is_word_char,
    leading_run, lemma_leading_run, lemma_leading_run_shape, no_white_space, push_decimal,
    push_signed_decimal, signed_decimal, solid_lead, solid_pred, text_starts_with, white_space,
    word_char,
};

verus! {

// ---------------------------------------------------------------------------
// Finding a link
// ---------------------------------------------------------------------------

/// `https://`
pub open spec fn https_pat() -> Seq<char> {
    seq!['h', 't', 't', 'p', 's', ':', '/', '/']
}

/// `http://`
pub open spec fn http_pat() -> Seq<char> {
    seq!['h', 't', 't', 'p', ':', '/', '/']
}

/// `ftp://`
pub open spec fn ftp_pat() -> Seq<char> {
    seq!['f', 't', 'p', ':', '/', '/']
}

/// `pat` matches case-insensitively at `i` and a character that is not white
/// space follows it.
pub open spec fn scheme_at(s: Seq<char>, i: int, pat: Seq<char>) -> bool {
    ci_match_at(s, i, pat) && i + pat.len() < s.len() && !is_white_space(s[i + pat.len()])
}

/// A link starts at `i`: the pattern `(?i)(https|http|ftp)://[\S/]+` matches
/// there.
pub open spec fn link_at(s: Seq<char>, i: int) -> bool {
    scheme_at(s, i, https_pat()) || scheme_at(s, i, http_pat()) || scheme_at(s, i, ftp_pat())
}

/// The first position at or after `i` where a link starts, or -1.
pub open spec fn first_link_from(s: Seq<char>, i: int) -> int
    decreases s.len() - i,
{
    if i < 0 || i >= s.len() {
        -1
    } else if link_at(s, i) {
        i
    } else {
        first_link_from(s, i + 1)
    }
}

/// The link in `s`, as `(?i)(https|http|ftp)://[\S/]+` finds it: it starts at
/// the first position where a scheme, `://` and a character that is not white
/// space follow, and runs up to the next white space or the end.
pub open spec fn link_view(s: Seq<char>) -> Option<Seq<char>> {
    let i = first_link_from(s, 0);
    if i >= 0 {
        Some(s.subrange(i, i + solid_lead(s.skip(i))))
    } else {
        None
    }
}

/// The pattern `https://` as a vector.
fn https_vec() -> (v: Vec<char>)
    ensures
        v@ == https_pat(),
{
    let v = vec!['h', 't', 't', 'p', 's', ':', '/', '/'];
    assert(v@ =~= https_pat());
    v
}

/// The pattern `http://` as a vector.
fn http_vec() -> (v: Vec<char>)
    ensures
        v@ == http_pat(),
{
    let v = vec!['h', 't', 't', 'p', ':', '/', '/'];
    assert(v@ =~= http_pat());
    v
}

/// The pattern `ftp://` as a vector.
fn ftp_vec() -> (v: Vec<char>)
    ensures
        v@ == ftp_pat(),
{
    let v = vec!['f', 't', 'p', ':', '/', '/'];
    assert(v@ =~= ftp_pat());
    v
}

/// Decides `scheme_at`.
fn scheme_at_exec(s: &Vec<char>, i: usize, pat: &Vec<char>) -> (r: bool)
    ensures
        r == scheme_at(s@, i as int, pat@),
{
    ci_match_at_exec(s, i, pat) && pat.len() < s.len() - i && !white_space(s[i + pat.len()])
}

/// End of the run of characters that are not white space, from `from`.
fn solid_run_from(v: &Vec<char>, from: usize) -> (j: usize)
    requires
        from <= v@.len(),
    ensures
        from <= j <= v@.len(),
        j - from == solid_lead(v@.skip(from as int)),
{
    let mut j = from;
    while j < v.len() && !white_space(v[j])
        invariant
            from <= j <= v@.len(),
            forall|k: int| from <= k < j ==> !is_white_space(#[trigger] v@[k]),
        decreases v.len() - j,
    {
        j = j + 1;
    }
    proof {
        let t = v@.skip(from as int);
        assert forall|k: int| 0 <= k < j - from implies #[trigger] solid_pred()(t[k]) by {
            assert(t[k] == v@[k + from]);
        }
        if j < v@.len() {
            assert(t[j - from] == v@[j as int]);
        }
        lemma_leading_run(t, solid_pred(), j - from);
    }
    j
}

/// The first link in `content`: from a scheme `https`, `http` or `ftp`
/// (in any case) followed by `://`, up to the next white space.
pub fn get_url(content: &str) -> (r: Option<&str>)
    ensures
        match r {
            Some(u) => link_view(content@) == Some(u@),
            None => link_view(content@) is None,
        },
{
    let v = chars_of(content);
    let n = v.len();
    let https = https_vec();
    let http = http_vec();
    let ftp = ftp_vec();
    let mut i: usize = 0;
    while i < n
        invariant
            n == v@.len(),
            v@ == content@,
            https@ == https_pat(),
            http@ == http_pat(),
            ftp@ == ftp_pat(),
            i <= n,
            first_link_from(v@, 0) == first_link_from(v@, i as int),
        decreases n - i,
    {
        if scheme_at_exec(&v, i, &https) || scheme_at_exec(&v, i, &http) || scheme_at_exec(
            &v,
            i,
            &ftp,
        ) {
            let e = solid_run_from(&v, i);
            return Some(content.substring_char(i, e));
        }
        i = i + 1;
    }
    None
}

// ---------------------------------------------------------------------------
// Laws of link finding
// ---------------------------------------------------------------------------

/// `first_link_from` finds a link, and no link starts before it.
proof fn lemma_first_link_from(s: Seq<char>, i: int)
    requires
        0 <= i,
    ensures
        ({
            let r = first_link_from(s, i);
            &&& r == -1 || (i <= r < s.len() && link_at(s, r))
            &&& forall|j: int| i <= j < (if r == -1 { s.len() as int } else { r }) ==> !link_at(s, j)
        }),
    decreases s.len() - i,
{
    if i < s.len() && !link_at(s, i) {
        lemma_first_link_from(s, i + 1);
    }
}

/// `u` is the piece of `s` from `i`: a link starts at `i`, none starts before
/// it, and `u` runs from `i` over characters that are not white space up to
/// white space or the end.
pub open spec fn leftmost_longest_link(s: Seq<char>, u: Seq<char>, i: int) -> bool {
    &&& 0 <= i
    &&& i + u.len() <= s.len()
    &&& s.subrange(i, i + u.len()) == u
    &&& link_at(s, i)
    &&& forall|j: int| 0 <= j < i ==> !link_at(s, j)
    &&& no_white_space(u)
    &&& (i + u.len() == s.len() || is_white_space(s[i + u.len()]))
}

/// The link found in a message is the leftmost place where a link starts,
/// and runs to the next white space or the end; when none is found, no link
/// starts anywhere.
pub proof fn lemma_link_is_leftmost_and_longest(s: Seq<char>)
    ensures
        link_view(s) is None ==> forall|j: int| 0 <= j < s.len() ==> !link_at(s, j),
        link_view(s) is Some ==> exists|i: int|
            #[trigger] leftmost_longest_link(s, link_view(s)->0, i),
{
    lemma_first_link_from(s, 0);
    let i = first_link_from(s, 0);
    if i >= 0 {
        let t = s.skip(i);
        lemma_leading_run_shape(t, solid_pred());
        let n = solid_lead(t) as int;
        let u = s.subrange(i, i + n);
        assert(no_white_space(u)) by {
            assert forall|k: int| 0 <= k < u.len() implies !is_white_space(#[trigger] u[k]) by {
                assert(u[k] == t[k]);
                assert(solid_pred()(t[k]));
            }
        }
        if i + n < s.len() {
            assert(s[i + n] == t[n]);
        }
        assert(s.subrange(i, i + u.len()) =~= u);
        assert(leftmost_longest_link(s, u, i));
        assert(link_view(s) == Some(u));
        assert(leftmost_longest_link(s, link_view(s)->0, i));
    } else {
        assert(link_view(s) is None);
    }
}

/// A message that is nothing but a link yields that link.
pub proof fn lemma_bare_link(u: Seq<char>)
    requires
        link_at(u, 0),
        no_white_space(u),
    ensures
        link_view(u) == Some(u),
{
    assert(first_link_from(u, 0) == 0);
    assert(u.skip(0) =~= u);
    assert forall|k: int| 0 <= k < u.len() implies #[trigger] solid_pred()(u[k]) by {}
    lemma_leading_run(u, solid_pred(), u.len() as int);
    assert(u.subrange(0, u.len() as int) =~= u);
}

/// A link starts at `i` exactly when `https://`, `http://` or `ftp://`
/// matches there, letters in any case, and some character that is not white
/// space follows: a digit, a `/` or a `[` as well as a letter.
pub proof fn lemma_link_at_reads_the_scheme(s: Seq<char>, i: int)
    ensures
        link_at(s, i) <==> {
            ||| (ci_match_at(s, i, "https://"@) && i + 8 < s.len() && !is_white_space(s[i + 8]))
            ||| (ci_match_at(s, i, "http://"@) && i + 7 < s.len() && !is_white_space(s[i + 7]))
            ||| (ci_match_at(s, i, "ftp://"@) && i + 6 < s.len() && !is_white_space(s[i + 6]))
        },
{
    reveal_strlit("https://");
    reveal_strlit("http://");
    reveal_strlit("ftp://");
    assert("https://"@ =~= https_pat());
    assert("http://"@ =~= http_pat());
    assert("ftp://"@ =~= ftp_pat());
}

/// A scheme, `://` and any text without white space make a link that is
/// found whole: `get_url` gives back such a message unchanged, whatever
/// character comes first after `://`.
pub proof fn lemma_scheme_and_text_is_a_link(scheme: Seq<char>, u: Seq<char>)
    requires
        scheme == "https://"@ || scheme == "http://"@ || scheme == "ftp://"@,
        u.len() > 0,
        no_white_space(u),
    ensures
        link_view(scheme + u) == Some(scheme + u),
{
    reveal_strlit("https://");
    reveal_strlit("http://");
    reveal_strlit("ftp://");
    let s = scheme + u;
    let n = scheme.len() as int;
    assert forall|k: int| 0 <= k < n implies ci_eq(#[trigger] s[0 + k], scheme[k]) by {
        assert(s[0 + k] == scheme[k]);
    }
    assert(s[n] == u[0]);
    assert(ci_match_at(s, 0, scheme));
    lemma_link_at_reads_the_scheme(s, 0);
    assert(link_at(s, 0));
    assert(no_white_space(s)) by {
        assert forall|k: int| 0 <= k < s.len() implies !is_white_space(#[trigger] s[k]) by {
            if k < n {
                assert(s[k] == scheme[k]);
            } else {
                assert(s[k] == u[k - n]);
            }
        }
    }
    lemma_bare_link(s);
}

/// A repository page's link gives the API address of the same owner and
/// repository, when both names are made of word characters, `-` and `_`.
pub proof fn lemma_github_api_roundtrip(owner: Seq<char>, project: Seq<char>)
    requires
        owner.len() > 0,
        project.len() > 0,
        forall|k: int| 0 <= k < owner.len() ==> repo_char(#[trigger] owner[k]),
        forall|k: int| 0 <= k < project.len() ==> repo_char(#[trigger] project[k]),
    ensures
        ({
            let link = "https://github.com/"@ + owner + "/"@ + project;
            &&& is_github_view(link)
            &&& github_api_view(link) == Some("https://api.github.com/repos/"@ + owner + "/"@ + project)
        }),
{
    let empty = Seq::<char>::empty();
    lemma_github_api_ignores_tail(owner, project, empty);
    assert("https://github.com/"@ + owner + "/"@ + project + empty =~= "https://github.com/"@ + owner
        + "/"@ + project);
}

/// What follows the repository's name in a GitHub link does not change the
/// API address: `.git`, a `/tree/...` path, a query or a fragment after the
/// name give the address of the same owner and repository, as long as the
/// first character after the name is not itself a name character.
pub proof fn lemma_github_api_ignores_tail(owner: Seq<char>, project: Seq<char>, tail: Seq<char>)
    requires
        owner.len() > 0,
        project.len() > 0,
        forall|k: int| 0 <= k < owner.len() ==> repo_char(#[trigger] owner[k]),
        forall|k: int| 0 <= k < project.len() ==> repo_char(#[trigger] project[k]),
        tail.len() == 0 || !repo_char(tail[0]),
    ensures
        ({
            let link = "https://github.com/"@ + owner + "/"@ + project + tail;
            &&& is_github_view(link)
            &&& github_api_view(link) == Some("https://api.github.com/repos/"@ + owner + "/"@ + project)
        }),
{
    reveal_strlit("https://github.com/");
    reveal_strlit("/");
    let pre = "https://github.com/"@;
    let link = "https://github.com/"@ + owner + "/"@ + project + tail;
    assert(pre.len() == 19);
    assert(github_https_prefix().is_prefix_of(link)) by {
        assert(link.subrange(0, 19) =~= pre);
    }
    // no match before position 6: the first six characters are not `/`
    assert forall|i: int| 0 <= i < 6 implies !#[trigger] repo_at(link, i) by {
        assert(link[i] == pre[i]);
        assert(!ci_eq(link[i + 0], github_pat()[0]));
    }
    assert(ci_match_at(link, 6, github_pat())) by {
        assert forall|k: int| 0 <= k < 13 implies ci_eq(#[trigger] link[6 + k], github_pat()[k]) by {
            assert(link[6 + k] == pre[6 + k]);
        }
    }
    let o = owner.len() as int;
    let after = link.skip(19);
    assert(after =~= owner + seq!['/'] + project + tail);
    assert forall|k: int| 0 <= k < owner.len() implies #[trigger] repo_pred()(after[k]) by {
        assert(after[k] == owner[k]);
    }
    assert(after[owner.len() as int] == '/');
    lemma_leading_run(after, repo_pred(), owner.len() as int);
    let rest = link.skip(19 + o + 1);
    assert(rest =~= project + tail);
    assert forall|k: int| 0 <= k < project.len() implies #[trigger] repo_pred()(rest[k]) by {
        assert(rest[k] == project[k]);
    }
    if tail.len() > 0 {
        assert(rest[project.len() as int] == tail[0]);
    }
    lemma_leading_run(rest, repo_pred(), project.len() as int);
    assert(link[19 + o] == '/');
    assert(repo_at(link, 6));
    assert(first_repo_from(link, 6) == 6);
    assert(!repo_at(link, 5));
    assert(first_repo_from(link, 5) == 6);
    assert(!repo_at(link, 4));
    assert(first_repo_from(link, 4) == 6);
    assert(!repo_at(link, 3));
    assert(first_repo_from(link, 3) == 6);
    assert(!repo_at(link, 2));
    assert(first_repo_from(link, 2) == 6);
    assert(!repo_at(link, 1));
    assert(first_repo_from(link, 1) == 6);
    assert(!repo_at(link, 0));
    assert(first_repo_from(link, 0) == 6);
    assert(link.subrange(19, 19 + o) =~= owner);
    assert(link.subrange(19 + o + 1, 19 + o + 1 + project.len()) =~= project);
}

/// `last_close_below` finds `k` when `</title>` matches at `k` and nowhere
/// between `k` and `hi`.
proof fn lemma_last_close_below(s: Seq<char>, a: int, hi: int, k: int)
    requires
        a < k < hi,
        ci_match_at(s, k, close_tag()),
        forall|j: int| k < j < hi ==> !ci_match_at(s, j, close_tag()),
    ensures
        last_close_below(s, a, hi) == k,
    decreases hi - a,
{
    if hi - 1 != k {
        lemma_last_close_below(s, a, hi - 1, k);
    }
}

/// The title of a page that is one title element is the element's text, when
/// that text is at least one character long and holds no line feed.
pub proof fn lemma_title_of_title_element(title: Seq<char>)
    requires
        title.len() > 0,
        !title.contains('\n'),
    ensures
        title_view(open_tag() + title + close_tag()) == Some(title),
{
    let s = open_tag() + title + close_tag();
    let len = s.len() as int;
    let t = s.skip(7);
    assert forall|k: int| 0 <= k < t.len() implies #[trigger] not_char_pred('\n')(t[k]) by {
        assert(t[k] == s[k + 7]);
        if 7 + k < 7 + title.len() {
            assert(s[k + 7] == title[k]);
            if title[k] == '\n' {
                assert(title.contains('\n'));
            }
        } else {
            assert(s[k + 7] == close_tag()[k - title.len()]);
        }
    }
    lemma_leading_run(t, not_char_pred('\n'), t.len() as int);
    assert(line_end(s, 7) == len);
    let k = len - 8;
    assert(ci_match_at(s, k, close_tag())) by {
        assert forall|m: int| 0 <= m < 8 implies ci_eq(#[trigger] s[k + m], close_tag()[m]) by {
            assert(s[k + m] == close_tag()[m]);
        }
    }
    lemma_last_close_below(s, 7, len + 1, k);
    assert(ci_match_at(s, 0, open_tag())) by {
        assert forall|m: int| 0 <= m < 7 implies ci_eq(#[trigger] s[0 + m], open_tag()[m]) by {
            assert(s[0 + m] == open_tag()[m]);
        }
    }
    assert(title_at(s, 0));
    assert(s.subrange(7, k) =~= title);
}

/// No title starts between `i` and `j`: the first one from `i` is the first
/// one from `j`.
proof fn lemma_first_title_skips(s: Seq<char>, i: int, j: int)
    requires
        0 <= i <= j <= s.len(),
        forall|k: int| i <= k < j ==> !#[trigger] title_at(s, k),
    ensures
        first_title_from(s, i) == first_title_from(s, j),
    decreases j - i,
{
    if i < j {
        lemma_first_title_skips(s, i + 1, j);
    }
}

/// The title runs from the first `<title>` to the last `</title>` on its
/// line: text before the element (without a `<`) is passed over, a
/// `</title>` inside the title is part of it, and the next line does not
/// count.
pub proof fn lemma_title_runs_to_the_last_close(head: Seq<char>, title: Seq<char>, tail: Seq<char>)
    requires
        !head.contains('<'),
        title.len() > 0,
        !title.contains('\n'),
        tail.len() == 0 || tail[0] == '\n',
    ensures
        title_view(head + open_tag() + title + close_tag() + tail) == Some(title),
{
    let s = head + open_tag() + title + close_tag() + tail;
    let h = head.len() as int;
    let a = h + 7;
    let k = a + title.len();
    assert forall|i: int| 0 <= i < h implies !#[trigger] title_at(s, i) by {
        assert(s[i] == head[i]);
        if s[i] == '<' {
            assert(head.contains('<'));
        }
        assert(!ci_eq(s[i + 0], open_tag()[0]));
    }
    lemma_first_title_skips(s, 0, h);
    // the line from the title's start ends right after `</title>`
    let t = s.skip(a);
    assert forall|m: int| 0 <= m < title.len() + 8 implies #[trigger] not_char_pred('\n')(t[m]) by {
        assert(t[m] == s[a + m]);
        if m < title.len() {
            assert(s[a + m] == title[m]);
            if title[m] == '\n' {
                assert(title.contains('\n'));
            }
        } else {
            assert(s[a + m] == close_tag()[m - title.len()]);
        }
    }
    if tail.len() > 0 {
        assert(t[title.len() + 8int] == tail[0]);
    }
    lemma_leading_run(t, not_char_pred('\n'), title.len() + 8int);
    assert(line_end(s, a) == k + 8);
    assert(ci_match_at(s, k, close_tag())) by {
        assert forall|m: int| 0 <= m < 8 implies ci_eq(#[trigger] s[k + m], close_tag()[m]) by {
            assert(s[k + m] == close_tag()[m]);
        }
    }
    assert forall|j: int| k < j < k + 9 implies !ci_match_at(s, j, close_tag()) by {
        if j + 8 <= s.len() {
            if j < k + 8 {
                assert(s[j + 0] == close_tag()[j - k]);
            } else {
                assert(s[j + 0] == tail[0]);
            }
            assert(!ci_eq(s[j + 0], close_tag()[0]));
        }
    }
    lemma_last_close_below(s, a, k + 9, k);
    assert(ci_match_at(s, h, open_tag())) by {
        assert forall|m: int| 0 <= m < 7 implies ci_eq(#[trigger] s[h + m], open_tag()[m]) by {
            assert(s[h + m] == open_tag()[m]);
        }
    }
    assert(title_at(s, h));
    assert(s.subrange(a, k) =~= title);
}

// ---------------------------------------------------------------------------
// GitHub repositories
// ---------------------------------------------------------------------------

/// `https://github.com/`
pub open spec fn github_https_prefix() -> Seq<char> {
    "https://github.com/"@
}

/// `http://github.com/`
pub open spec fn github_http_prefix() -> Seq<char> {
    "http://github.com/"@
}

/// The link is a GitHub page: it starts with `https://github.com/` or
/// `http://github.com/`.
pub open spec fn is_github_view(u: Seq<char>) -> bool {
    github_https_prefix().is_prefix_of(u) || github_http_prefix().is_prefix_of(u)
}

/// Whether the link is a GitHub page.
pub fn is_url_github(res: &str) -> (r: bool)
    ensures
        r == is_github_view(res@),
{
    text_starts_with(res, "https://github.com/") || text_starts_with(res, "http://github.com/")
}

/// `//github.com/`
pub open spec fn github_pat() -> Seq<char> {
    seq!['/', '/', 'g', 'i', 't', 'h', 'u', 'b', '.', 'c', 'o', 'm', '/']
}

/// Characters of an owner or repository name: word characters, `-` and `_`.
pub open spec fn repo_char(c: char) -> bool {
    c == '-' || c == '_' || word_char(c)
}

/// `repo_char`, as a predicate.
pub open spec fn repo_pred() -> spec_fn(char) -> bool {
    |c: char| repo_char(c)
}

/// Length of the owner's name in a match at `i`.
pub open spec fn owner_len(s: Seq<char>, i: int) -> int {
    leading_run(s.skip(i + 13), repo_pred()) as int
}

/// Length of the repository's name in a match at `i`.
pub open spec fn project_len(s: Seq<char>, i: int) -> int {
    leading_run(s.skip(i + 13 + owner_len(s, i) + 1), repo_pred()) as int
}

/// `(?i)//github\.com/([-_\w]+)/([-_\w]+)` matches at `i`: the owner's name is
/// the longest run of name characters after `//github.com/`, a `/` ends it,
/// and the repository's name is the longest run after that; both are at least
/// one character long.
pub open spec fn repo_at(s: Seq<char>, i: int) -> bool {
    let o = owner_len(s, i);
    &&& ci_match_at(s, i, github_pat())
    &&& o > 0
    &&& i + 13 + o < s.len()
    &&& s[i + 13 + o] == '/'
    &&& project_len(s, i) > 0
}

/// The first position at or after `i` where `repo_at` holds, or -1.
pub open spec fn first_repo_from(s: Seq<char>, i: int) -> int
    decreases s.len() - i,
{
    if i < 0 || i >= s.len() {
        -1
    } else if repo_at(s, i) {
        i
    } else {
        first_repo_from(s, i + 1)
    }
}

/// The owner and repository named by the first match in `s`.
pub open spec fn repo_view(s: Seq<char>) -> Option<(Seq<char>, Seq<char>)> {
    let i = first_repo_from(s, 0);
    let o = owner_len(s, i);
    let start = i + 13 + o + 1;
    if i >= 0 {
        Some((s.subrange(i + 13, i + 13 + o), s.subrange(start, start + project_len(s, i))))
    } else {
        None
    }
}

/// The address of the GitHub API that describes the repository of the link.
pub open spec fn github_api_view(u: Seq<char>) -> Option<Seq<char>> {
    match repo_view(u) {
        Some((owner, project)) => Some("https://api.github.com/repos/"@ + owner + "/"@ + project),
        None => None,
    }
}

/// The pattern `//github.com/` as a vector.
fn github_vec() -> (v: Vec<char>)
    ensures
        v@ == github_pat(),
{
    let v = vec!['/', '/', 'g', 'i', 't', 'h', 'u', 'b', '.', 'c', 'o', 'm', '/'];
    assert(v@ =~= github_pat());
    v
}

/// End of the run of name characters in `v` from `from`.
fn repo_run_from(v: &Vec<char>, from: usize) -> (j: usize)
    requires
        from <= v@.len(),
    ensures
        from <= j <= v@.len(),
        j - from == leading_run(v@.skip(from as int), repo_pred()),
{
    let mut j = from;
    while j < v.len() && (v[j] == '-' || v[j] == '_' || is_word_char(v[j]))
        invariant
            from <= j <= v@.len(),
            forall|k: int| from <= k < j ==> repo_char(#[trigger] v@[k]),
        decreases v.len() - j,
    {
        j = j + 1;
    }
    proof {
        let t = v@.skip(from as int);
        assert forall|k: int| 0 <= k < j - from implies #[trigger] repo_pred()(t[k]) by {
            assert(t[k] == v@[k + from]);
        }
        if j < v@.len() {
            assert(t[j - from] == v@[j as int]);
        }
        lemma_leading_run(t, repo_pred(), j - from);
    }
    j
}

/// The address of the GitHub API for the repository that `res` names, if it
/// names one.
pub fn github_api_url(res: &str) -> (r: Option<String>)
    ensures
        match r {
            Some(a) => github_api_view(res@) == Some(a@),
            None => github_api_view(res@) is None,
        },
{
    let v = chars_of(res);
    let n = v.len();
    let pat = github_vec();
    let mut i: usize = 0;
    while i < n
        invariant
            n == v@.len(),
            v@ == res@,
            pat@ == github_pat(),
            i <= n,
            first_repo_from(v@, 0) == first_repo_from(v@, i as int),
        decreases n - i,
    {
        if ci_match_at_exec(&v, i, &pat) {
            let o_end = repo_run_from(&v, i + 13);
            if o_end > i + 13 && o_end < n && v[o_end] == '/' {
                let p_end = repo_run_from(&v, o_end + 1);
                if p_end > o_end + 1 {
                    assert(repo_at(v@, i as int));
                    let owner = res.substring_char(i + 13, o_end);
                    let project = res.substring_char(o_end + 1, p_end);
                    let api = "https://api.github.com/repos/".to_owned().concat(owner).concat(
                        "/",
                    ).concat(project);
                    return Some(api);
                }
            }
        }
        i = i + 1;
    }
    None
}

/// A repository as the GitHub API describes it.
pub struct GithubRepo {
    pub name: String,
    pub description: String,
    pub stargazers_count: i64,
    pub forks_count: i64,
}

/// The reply that describes a repository.
pub open spec fn github_summary_view(
    name: Seq<char>,
    description: Seq<char>,
    stars: int,
    forks: int,
) -> Seq<char> {
    "↑ Github/"@ + name + ": "@ + description + ". Star: "@ + signed_decimal(stars) + ", Fork: "@
        + signed_decimal(forks) + "."@
}

/// `↑ Github/{name}: {description}. Star: {stars}, Fork: {forks}.`
pub fn github_summary(repo: &GithubRepo) -> (r: String)
    ensures
        r@ == github_summary_view(
            repo.name@,
            repo.description@,
            repo.stargazers_count as int,
            repo.forks_count as int,
        ),
{
    let mut r = "↑ Github/".to_owned().concat(repo.name.as_str()).concat(": ").concat(
        repo.description.as_str(),
    ).concat(". Star: ");
    push_signed_decimal(&mut r, repo.stargazers_count);
    r.append(", Fork: ");
    push_signed_decimal(&mut r, repo.forks_count);
    r.append(".");
    r
}

// ---------------------------------------------------------------------------
// Page titles
// ---------------------------------------------------------------------------

/// `<title>`
pub open spec fn open_tag() -> Seq<char> {
    seq!['<', 't', 'i', 't', 'l', 'e', '>']
}

/// `</title>`
pub open spec fn close_tag() -> Seq<char> {
    seq!['<', '/', 't', 'i', 't', 'l', 'e', '>']
}

/// End of the line that contains position `a`: the first line feed at or
/// after `a`, or the length of `s`.
pub open spec fn line_end(s: Seq<char>, a: int) -> int {
    a + leading_run(s.skip(a), not_char_pred('\n'))
}

/// The largest `j` with `a < j < hi` where `</title>` matches
/// case-insensitively, or -1.
pub open spec fn last_close_below(s: Seq<char>, a: int, hi: int) -> int
    decreases hi - a,
{
    if hi <= a + 1 {
        -1
    } else if ci_match_at(s, hi - 1, close_tag()) {
        hi - 1
    } else {
        last_close_below(s, a, hi - 1)
    }
}

/// Where the title that opens at `i` closes: the last `</title>` on the same
/// line that leaves at least one character between the tags, or -1.
pub open spec fn title_close(s: Seq<char>, i: int) -> int {
    last_close_below(s, i + 7, line_end(s, i + 7) + 1)
}

/// `(?i)<title>(.+)</title>` matches at `i`.
pub open spec fn title_at(s: Seq<char>, i: int) -> bool {
    ci_match_at(s, i, open_tag()) && title_close(s, i) > i + 7
}

/// The first position at or after `i` where a title matches, or -1.
pub open spec fn first_title_from(s: Seq<char>, i: int) -> int
    decreases s.len() - i,
{
    if i < 0 || i >= s.len() {
        -1
    } else if title_at(s, i) {
        i
    } else {
        first_title_from(s, i + 1)
    }
}

/// The title of a page, as `(?i)<title>(.+)</title>` captures it: from the
/// first `<title>` (in any case) that a `</title>` follows on the same line,
/// up to the last such `</title>` on that line, at least one character long.
pub open spec fn title_view(s: Seq<char>) -> Option<Seq<char>> {
    let i = first_title_from(s, 0);
    if i >= 0 {
        Some(s.subrange(i + 7, title_close(s, i)))
    } else {
        None
    }
}

/// The reply that gives a page's title.
pub open spec fn title_reply_view(s: Seq<char>) -> Option<Seq<char>> {
    match title_view(s) {
        Some(t) => Some("↑ Title: "@ + t),
        None => None,
    }
}

/// The pattern `<title>` as a vector.
fn open_tag_vec() -> (v: Vec<char>)
    ensures
        v@ == open_tag(),
{
    let v = vec!['<', 't', 'i', 't', 'l', 'e', '>'];
    assert(v@ =~= open_tag());
    v
}

/// The pattern `</title>` as a vector.
fn close_tag_vec() -> (v: Vec<char>)
    ensures
        v@ == close_tag(),
{
    let v = vec!['<', '/', 't', 'i', 't', 'l', 'e', '>'];
    assert(v@ =~= close_tag());
    v
}

/// `↑ Title: {title}` for the page `text`, or nothing when it has no title.
pub fn is_html(text: &str) -> (r: Option<String>)
    ensures
        match r {
            Some(t) => title_reply_view(text@) == Some(t@),
            None => title_reply_view(text@) is None,
        },
{
    let v = chars_of(text);
    let n = v.len();
    let open = open_tag_vec();
    let close = close_tag_vec();
    let mut i: usize = 0;
    while i < n
        invariant
            n == v@.len(),
            v@ == text@,
            open@ == open_tag(),
            close@ == close_tag(),
            i <= n,
            first_title_from(v@, 0) == first_title_from(v@, i as int),
        decreases n - i,
    {
        if ci_match_at_exec(&v, i, &open) {
            let a = i + 7;
            let e = find_newline_from(&v, a);
            let mut j = e;
            while j > a && !ci_match_at_exec(&v, j, &close)
                invariant
                    a <= j <= e,
                    a == i + 7,
                    e == line_end(v@, a as int),
                    e <= v@.len(),
                    close@ == close_tag(),
                    last_close_below(v@, a as int, j + 1) == last_close_below(
                        v@,
                        a as int,
                        e + 1,
                    ),
                decreases j,
            {
                j = j - 1;
            }
            if j > a {
                assert(title_at(v@, i as int));
                let title = text.substring_char(a, j);
                return Some("↑ Title: ".to_owned().concat(title));
            }
        }
        i = i + 1;
    }
    None
}

/// End of the line that contains position `a` of `v`.
fn find_newline_from(v: &Vec<char>, a: usize) -> (e: usize)
    requires
        a <= v@.len(),
    ensures
        e == line_end(v@, a as int),
        a <= e <= v@.len(),
{
    let mut j = a;
    while j < v.len() && v[j] != '\n'
        invariant
            a <= j <= v@.len(),
            forall|k: int| a <= k < j ==> v@[k] != '\n',
        decreases v.len() - j,
    {
        j = j + 1;
    }
    proof {
        let t = v@.skip(a as int);
        assert forall|k: int| 0 <= k < j - a implies #[trigger] not_char_pred('\n')(t[k]) by {
            assert(t[k] == v@[k + a]);
        }
        if j < v@.len() {
            assert(t[j - a] == v@[j as int]);
        }
        lemma_leading_run(t, not_char_pred('\n'), j - a);
    }
    j
}

// ---------------------------------------------------------------------------
// Images
// ---------------------------------------------------------------------------

/// Calls `image::load_from_memory` and reads the decoded image's width and
/// height; `None` when decoding fails. Nothing is claimed of the answer: it
/// depends on more than the bytes, since the crate first consults decoding and
/// format-detection hooks that any code in the process may register, and the
/// decoders enabled in this build (those of the crate's default formats) take
/// pages. Reading those hooks unwraps a process-wide lock, which panics if
/// another thread poisoned it; no argument can cause or avoid that.
#[verifier::external_body]
fn image_dimensions(bytes: &[u8]) -> Option<(u32, u32)> {
    match image::load_from_memory(bytes) {
        Ok(img) => Some((img.width(), img.height())),
        Err(_) => None,
    }
}

/// The reply that describes an image.
pub open spec fn image_summary_view(subtype: Seq<char>, width: nat, height: nat) -> Seq<char> {
    "↑ Image/"@ + subtype + ", size = "@ + decimal(width) + "x"@ + decimal(height) + " pixels"@
}

/// `↑ Image/{subtype}, size = {width}x{height} pixels`
pub fn image_summary(subtype: &str, width: u32, height: u32) -> (r: String)
    ensures
        r@ == image_summary_view(subtype@, width as nat, height as nat),
{
    let mut r = "↑ Image/".to_owned().concat(subtype).concat(", size = ");
    push_decimal(&mut r, width as u64);
    r.append("x");
    push_decimal(&mut r, height as u64);
    r.append(" pixels");
    r
}

/// The reply for an image of the given subtype, given what decoding it gave:
/// its size, or nothing when it did not decode.
pub fn image_reply(subtype: &str, dims: Option<(u32, u32)>) -> (r: Option<String>)
    ensures
        match dims {
            Some((w, h)) => (r matches Some(t) && t@ == image_summary_view(
                subtype@,
                w as nat,
                h as nat,
            )),
            None => r is None,
        },
{
    match dims {
        Some((w, h)) => Some(image_summary(subtype, w, h)),
        None => None,
    }
}

/// The reply for an image of the given subtype whose content is `bytes`:
/// its size once the `image` crate has decoded it, or nothing when decoding
/// fails. The bytes go to the decoder as they are; which size it reports is
/// not stated.
pub fn is_image(subtype: &str, bytes: &[u8]) -> (r: Option<String>)
    ensures
        r matches Some(t) ==> exists|w: nat, h: nat|
            w <= u32::MAX && h <= u32::MAX && t@ == #[trigger] image_summary_view(subtype@, w, h),
{
    let dims = image_dimensions(bytes);
    let r = image_reply(subtype, dims);
    proof {
        if let Some((w, h)) = dims {
            assert(r->0@ == image_summary_view(subtype@, w as nat, h as nat));
        }
    }
    r
}

// ---------------------------------------------------------------------------
// The steps of resolving a link
// ---------------------------------------------------------------------------

/// What to fetch.
pub enum Fetch {
    /// The GitHub API's description of a repository; when that fails, the
    /// page itself.
    Github { api_url: String, page_url: String },
    /// The page.
    Page { url: String },
}

/// What to do once the response's head has arrived.
pub enum PageAction {
    /// Reply with this, or not at all.
    Reply(Option<String>),
    /// Read the body as text and hand it to `is_html`.
    ReadTitle,
    /// Read the body as bytes and hand them, with this subtype, to
    /// `is_image`.
    ReadImage(String),
}

/// The kind of content a response declares.
pub enum ContentKind {
    /// No content type.
    Missing,
    /// `text/html`.
    Html,
    /// `image/*`, with its subtype.
    Image(String),
    /// Anything else.
    Other,
}

/// The reply for a response that is not `200 OK`.
pub open spec fn error_reply_view(status: Seq<char>) -> Seq<char> {
    "↑ Err: "@ + status
}

/// Where resolving the link in `content` starts: nothing when it holds no
/// link; the GitHub API when the link is a GitHub page that names a
/// repository; the page otherwise.
pub fn resolv_url_start(content: &str) -> (r: Option<Fetch>)
    ensures
        link_view(content@) is None ==> r is None,
        link_view(content@) matches Some(u) ==> match r {
            Some(Fetch::Github { api_url, page_url }) => is_github_view(u) && github_api_view(u)
                == Some(api_url@) && page_url@ == u,
            Some(Fetch::Page { url }) => url@ == u && !(is_github_view(u) && github_api_view(u) is Some),
            None => false,
        },
{
    match get_url(content) {
        None => None,
        Some(url) => {
            if is_url_github(url) {
                if let Some(api) = github_api_url(url) {
                    return Some(Fetch::Github { api_url: api, page_url: url.to_owned() });
                }
            }
            Some(Fetch::Page { url: url.to_owned() })
        },
    }
}

/// After asking the GitHub API: its description of the repository, when it
/// gave one, is the reply; otherwise the page is fetched.
pub fn github_step(page_url: &str, repo: Option<GithubRepo>) -> (r: Result<String, Fetch>)
    ensures
        match repo {
            Some(g) => (r matches Ok(t) && t@ == github_summary_view(
                g.name@,
                g.description@,
                g.stargazers_count as int,
                g.forks_count as int,
            )),
            None => (r matches Err(Fetch::Page { url }) && url@ == page_url@),
        },
{
    match repo {
        Some(g) => Ok(github_summary(&g)),
        None => Err(Fetch::Page { url: page_url.to_owned() }),
    }
}

/// After the head of the page's response: a status other than `200 OK` is
/// replied with `↑ Err: {status}`; an HTML page's title or an image's size is
/// read from the body; any other content gets no reply.
pub fn page_step(status_ok: bool, status: &str, kind: ContentKind) -> (r: PageAction)
    ensures
        !status_ok ==> (r matches PageAction::Reply(Some(t)) && t@ == error_reply_view(status@)),
        status_ok ==> match kind {
            ContentKind::Html => r is ReadTitle,
            ContentKind::Image(sub) => (r matches PageAction::ReadImage(s) && s@ == sub@),
            _ => r matches PageAction::Reply(None),
        },
{
    if !status_ok {
        return PageAction::Reply(Some("↑ Err: ".to_owned().concat(status)));
    }
    match kind {
        ContentKind::Html => PageAction::ReadTitle,
        ContentKind::Image(sub) => PageAction::ReadImage(sub),
        _ => PageAction::Reply(None),
    }
}

} // verus!
