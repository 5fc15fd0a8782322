//! Character-level text primitives shared by the message grammar and the link
//! resolver: white space, word characters, runs, trimming, searching,
//! replacing and decimal numerals.

use vstd::prelude::*;

verus! {

/// Copies the characters of `s` into a vector, in order.
pub fn chars_of(s: &str) -> (v: Vec<char>)
    ensures
        v@ == s@,
{
    let mut v: Vec<char> = Vec::new();
    for c in it: s.chars()
        invariant
            v@ == it.seq().take(it.index() as int),
            it.seq() == s@,
    {
        v.push(c);
    }
    v
}

// ---------------------------------------------------------------------------
// Character classes
// ---------------------------------------------------------------------------

/// The Unicode `White_Space` property: what `char::is_whitespace`, `str::trim`
/// and the `\s` class of regular expressions all treat as white space.
pub open spec fn is_white_space(c: char) -> bool {
    let u = c as u32;
    ||| 0x09 <= u <= 0x0d
    ||| u == 0x20
    ||| u == 0x85
    ||| u == 0xa0
    ||| u == 0x1680
    ||| 0x2000 <= u <= 0x200a
    ||| u == 0x2028
    ||| u == 0x2029
    ||| u == 0x202f
    ||| u == 0x205f
    ||| u == 0x3000
}

/// Decides `is_white_space`.
pub fn white_space(c: char) -> (b: bool)
    ensures
        b == is_white_space(c),
{
    let u = c as u32;
    (0x09 <= u && u <= 0x0d) || u == 0x20 || u == 0x85 || u == 0xa0 || u == 0x1680 || (0x2000
        <= u && u <= 0x200a) || u == 0x2028 || u == 0x2029 || u == 0x202f || u == 0x205f || u
        == 0x3000
}

/// The ASCII word characters `[0-9A-Za-z_]`.
pub open spec fn ascii_word(c: char) -> bool {
    let u = c as u32;
    ||| 0x30 <= u <= 0x39
    ||| 0x41 <= u <= 0x5a
    ||| 0x61 <= u <= 0x7a
    ||| u == 0x5f
}

/// Whether a character beyond ASCII is a Unicode word character, a member of
/// the class `\w` of regular expressions (`Alphabetic`, `Join_Control`,
/// decimal digits, marks and connector punctuation). The table behind it takes
/// pages; it is the one that the `regex` crate's `\w` uses.
pub uninterp spec fn unicode_word_char(c: char) -> bool;

/// The class `\w`: on ASCII exactly `[0-9A-Za-z_]`, beyond it the Unicode
/// word characters, none of which is white space.
pub open spec fn word_char(c: char) -> bool {
    if (c as u32) < 0x80 {
        ascii_word(c)
    } else {
        unicode_word_char(c) && !is_white_space(c)
    }
}

/// Calls `regex_syntax::is_word_character`. Claimed: on ASCII the answer is
/// exactly `[0-9A-Za-z_]` (the function tests ASCII word bytes first, and its
/// table holds no other ASCII character); beyond ASCII it is
/// `unicode_word_char(c)`; and no white space character is a word character
/// (the table holds none of them). It panics only when the crate is built
/// without its `unicode-perl` feature, which the default features include.
#[verifier::external_body]
pub(crate) fn is_word_char(c: char) -> (b: bool)
    ensures
        (c as u32) < 0x80 ==> b == ascii_word(c),
        (c as u32) >= 0x80 ==> b == unicode_word_char(c),
        is_white_space(c) ==> !b,
{
    regex_syntax::is_word_character(c)
}

/// No white space character is a word character.
pub proof fn lemma_word_char_is_not_white_space(c: char)
    ensures
        is_white_space(c) ==> !word_char(c),
{
}

// ---------------------------------------------------------------------------
// Runs of characters
// ---------------------------------------------------------------------------

/// Length of the longest prefix of `s` whose characters all satisfy `p`.
pub open spec fn leading_run(s: Seq<char>, p: spec_fn(char) -> bool) -> nat
    decreases s.len(),
{
    if s.len() > 0 && p(s[0]) {
        1 + leading_run(s.drop_first(), p)
    } else {
        0
    }
}

/// Length of the longest suffix of `s` whose characters all satisfy `p`.
pub open spec fn trailing_run(s: Seq<char>, p: spec_fn(char) -> bool) -> nat
    decreases s.len(),
{
    if s.len() > 0 && p(s.last()) {
        1 + trailing_run(s.drop_last(), p)
    } else {
        0
    }
}

/// A prefix of length `i` that satisfies `p` and cannot be extended is the
/// leading run.
pub proof fn lemma_leading_run(s: Seq<char>, p: spec_fn(char) -> bool, i: int)
    requires
        0 <= i <= s.len(),
        forall|k: int| 0 <= k < i ==> #[trigger] p(s[k]),
        i == s.len() || !p(s[i]),
    ensures
        leading_run(s, p) == i,
    decreases i,
{
    if i > 0 {
        let t = s.drop_first();
        assert forall|k: int| 0 <= k < i - 1 implies #[trigger] p(t[k]) by {
            assert(t[k] == s[k + 1]);
        }
        if i - 1 < t.len() {
            assert(t[i - 1] == s[i]);
        }
        lemma_leading_run(t, p, i - 1);
    }
}

/// The leading run is a prefix that satisfies `p` and cannot be extended.
pub proof fn lemma_leading_run_shape(s: Seq<char>, p: spec_fn(char) -> bool)
    ensures
        leading_run(s, p) <= s.len(),
        forall|k: int| 0 <= k < leading_run(s, p) ==> #[trigger] p(s[k]),
        leading_run(s, p) == s.len() || !p(s[leading_run(s, p) as int]),
    decreases s.len(),
{
    if s.len() > 0 && p(s[0]) {
        let t = s.drop_first();
        lemma_leading_run_shape(t, p);
        assert forall|k: int| 0 <= k < leading_run(s, p) implies #[trigger] p(s[k]) by {
            if k > 0 {
                assert(s[k] == t[k - 1]);
            }
        }
        if leading_run(s, p) < s.len() {
            assert(s[leading_run(s, p) as int] == t[leading_run(t, p) as int]);
        }
    }
}

/// A suffix of length `i` that satisfies `p` and cannot be extended is the
/// trailing run.
pub proof fn lemma_trailing_run(s: Seq<char>, p: spec_fn(char) -> bool, i: int)
    requires
        0 <= i <= s.len(),
        forall|k: int| s.len() - i <= k < s.len() ==> #[trigger] p(s[k]),
        i == s.len() || !p(s[s.len() - 1 - i]),
    ensures
        trailing_run(s, p) == i,
    decreases i,
{
    if i > 0 {
        let t = s.drop_last();
        assert forall|k: int| t.len() - (i - 1) <= k < t.len() implies #[trigger] p(t[k]) by {
            assert(t[k] == s[k]);
        }
        if i - 1 < t.len() {
            assert(t[t.len() - 1 - (i - 1)] == s[s.len() - 1 - i]);
        }
        assert(p(s[s.len() - 1]));
        lemma_trailing_run(t, p, i - 1);
    }
}

/// The trailing run is a suffix that satisfies `p` and cannot be extended.
pub proof fn lemma_trailing_run_shape(s: Seq<char>, p: spec_fn(char) -> bool)
    ensures
        trailing_run(s, p) <= s.len(),
        forall|k: int| s.len() - trailing_run(s, p) <= k < s.len() ==> #[trigger] p(s[k]),
        trailing_run(s, p) == s.len() || !p(s[s.len() - 1 - trailing_run(s, p)]),
    decreases s.len(),
{
    if s.len() > 0 && p(s.last()) {
        let t = s.drop_last();
        lemma_trailing_run_shape(t, p);
        assert forall|k: int| s.len() - trailing_run(s, p) <= k < s.len() implies #[trigger] p(
            s[k],
        ) by {
            if k < s.len() - 1 {
                assert(s[k] == t[k]);
            }
        }
        if trailing_run(s, p) < s.len() {
            assert(s[s.len() - 1 - trailing_run(s, p)] == t[t.len() - 1 - trailing_run(t, p)]);
        }
    }
}

/// White space, as a predicate.
pub open spec fn ws_pred() -> spec_fn(char) -> bool {
    |c: char| is_white_space(c)
}

/// Word characters, as a predicate.
pub open spec fn word_pred() -> spec_fn(char) -> bool {
    |c: char| word_char(c)
}

/// Characters that are not white space, as a predicate.
pub open spec fn solid_pred() -> spec_fn(char) -> bool {
    |c: char| !is_white_space(c)
}

/// Number of white space characters at the start of `s`.
pub open spec fn ws_lead(s: Seq<char>) -> nat {
    leading_run(s, ws_pred())
}

/// Number of white space characters at the end of `s`.
pub open spec fn ws_trail(s: Seq<char>) -> nat {
    trailing_run(s, ws_pred())
}

/// Number of word characters at the start of `s`.
pub open spec fn word_lead(s: Seq<char>) -> nat {
    leading_run(s, word_pred())
}

/// Number of characters at the start of `s` that are not white space.
pub open spec fn solid_lead(s: Seq<char>) -> nat {
    leading_run(s, solid_pred())
}

/// Number of characters at the start of `s` before the first `c`; the length
/// of `s` when `c` does not occur.
pub open spec fn index_of_char(s: Seq<char>, c: char) -> nat {
    leading_run(s, |x: char| x != c)
}

/// `s` holds no white space.
pub open spec fn no_white_space(s: Seq<char>) -> bool {
    forall|k: int| 0 <= k < s.len() ==> !is_white_space(#[trigger] s[k])
}

// ---------------------------------------------------------------------------
// Trimming
// ---------------------------------------------------------------------------

/// `s` without its leading and trailing white space: what `str::trim` returns.
pub open spec fn trim_view(s: Seq<char>) -> Seq<char> {
    let t = s.skip(ws_lead(s) as int);
    t.take(t.len() - ws_trail(t))
}

/// `s` without its leading and trailing white space.
pub fn trim(s: &str) -> (r: &str)
    ensures
        r@ == trim_view(s@),
{
    let v = chars_of(s);
    let n = v.len();
    let mut i: usize = 0;
    while i < n && white_space(v[i])
        invariant
            n == v@.len(),
            i <= n,
            forall|k: int| 0 <= k < i ==> is_white_space(#[trigger] v@[k]),
        decreases n - i,
    {
        i = i + 1;
    }
    let ghost ws = ws_pred();
    proof {
        lemma_leading_run(v@, ws, i as int);
    }
    let mut j: usize = n;
    while j > i && white_space(v[j - 1])
        invariant
            n == v@.len(),
            i <= j <= n,
            forall|k: int| j <= k < n ==> is_white_space(#[trigger] v@[k]),
        decreases j,
    {
        j = j - 1;
    }
    proof {
        let t = v@.skip(i as int);
        assert forall|k: int| t.len() - (n - j) <= k < t.len() implies #[trigger] ws(t[k]) by {
            assert(t[k] == v@[k + i]);
        }
        if n - j < t.len() {
            assert(t[t.len() - 1 - (n - j)] == v@[j - 1]);
        }
        lemma_trailing_run(t, ws, n - j);
        assert(t.take(t.len() - (n - j)) =~= v@.subrange(i as int, j as int));
    }
    s.substring_char(i, j)
}

/// Trimming twice trims no more than trimming once.
pub proof fn lemma_trim_idempotent(s: Seq<char>)
    ensures
        trim_view(trim_view(s)) == trim_view(s),
{
    let ws = ws_pred();
    let t = s.skip(ws_lead(s) as int);
    let r = trim_view(s);
    lemma_leading_run_shape(s, ws);
    lemma_trailing_run_shape(t, ws);
    if r.len() == 0 {
        lemma_leading_run(r, ws, 0);
        assert(r.skip(0) =~= r);
        lemma_trailing_run(r, ws, 0);
        assert(trim_view(r) =~= r);
    } else {
        assert(r[0] == t[0]);
        assert(!ws(r[0]));
        lemma_leading_run(r, ws, 0);
        assert(r.skip(0) =~= r);
        assert(r[r.len() - 1] == t[t.len() - 1 - ws_trail(t)]);
        lemma_trailing_run(r, ws, 0);
        assert(trim_view(r) =~= r);
    }
}

/// Trimming takes off exactly the white space around a text: white space
/// before and after a text that starts and ends with other characters
/// leaves that text, white space inside it included.
pub proof fn lemma_trim_strips_both_ends(before: Seq<char>, t: Seq<char>, after: Seq<char>)
    requires
        forall|k: int| 0 <= k < before.len() ==> is_white_space(#[trigger] before[k]),
        forall|k: int| 0 <= k < after.len() ==> is_white_space(#[trigger] after[k]),
        t.len() > 0,
        !is_white_space(t[0]),
        !is_white_space(t.last()),
    ensures
        trim_view(before + t + after) == t,
{
    let ws = ws_pred();
    let s = before + t + after;
    assert forall|k: int| 0 <= k < before.len() implies #[trigger] ws(s[k]) by {
        assert(s[k] == before[k]);
    }
    assert(s[before.len() as int] == t[0]);
    lemma_leading_run(s, ws, before.len() as int);
    let u = s.skip(before.len() as int);
    assert(u =~= t + after);
    assert forall|k: int| u.len() - after.len() <= k < u.len() implies #[trigger] ws(u[k]) by {
        assert(u[k] == after[k - t.len()]);
    }
    assert(u[u.len() - 1 - after.len()] == t.last());
    lemma_trailing_run(u, ws, after.len() as int);
    assert(u.take(u.len() - after.len()) =~= t);
}

/// A trimmed text neither starts nor ends with white space.
pub proof fn lemma_trim_has_no_white_ends(s: Seq<char>)
    ensures
        trim_view(s).len() > 0 ==> !is_white_space(trim_view(s)[0]) && !is_white_space(
            trim_view(s).last(),
        ),
        trim_view(s).len() <= s.len(),
{
    let ws = ws_pred();
    let t = s.skip(ws_lead(s) as int);
    lemma_leading_run_shape(s, ws);
    lemma_trailing_run_shape(t, ws);
    let r = trim_view(s);
    if r.len() > 0 {
        assert(r[0] == t[0]);
        assert(r.last() == t[t.len() - 1 - ws_trail(t)]);
    }
}

// ---------------------------------------------------------------------------
// Comparing, searching, replacing
// ---------------------------------------------------------------------------

/// Whether `a` and `b` hold the same characters.
pub fn same_text(a: &str, b: &str) -> (r: bool)
    ensures
        r == (a@ == b@),
{
    let x = chars_of(a);
    let y = chars_of(b);
    if x.len() != y.len() {
        return false;
    }
    let mut i: usize = 0;
    while i < x.len()
        invariant
            x@ == a@,
            y@ == b@,
            x@.len() == y@.len(),
            i <= x@.len(),
            forall|k: int| 0 <= k < i ==> x@[k] == y@[k],
        decreases x.len() - i,
    {
        if x[i] != y[i] {
            return false;
        }
        i = i + 1;
    }
    assert(x@ =~= y@);
    true
}

/// `needle` occurs in `hay` starting at position `i`.
pub open spec fn occurs_at(hay: Seq<char>, needle: Seq<char>, i: int) -> bool {
    0 <= i && i + needle.len() <= hay.len() && hay.subrange(i, i + needle.len()) == needle
}

/// `needle` occurs somewhere in `hay`: what `str::contains` answers.
pub open spec fn contains_text(hay: Seq<char>, needle: Seq<char>) -> bool {
    exists|i: int| occurs_at(hay, needle, i)
}

/// Whether `needle` occurs in `hay` at position `i` of the vectors.
fn occurs_at_exec(hay: &Vec<char>, needle: &Vec<char>, i: usize) -> (r: bool)
    ensures
        r == occurs_at(hay@, needle@, i as int),
{
    if i > hay.len() || needle.len() > hay.len() - i {
        return false;
    }
    let mut k: usize = 0;
    while k < needle.len()
        invariant
            hay@.len() <= usize::MAX,
            i + needle@.len() <= hay@.len(),
            k <= needle@.len(),
            forall|m: int| 0 <= m < k ==> hay@[i + m] == needle@[m],
        decreases needle.len() - k,
    {
        if hay[i + k] != needle[k] {
            assert(hay@.subrange(i as int, i + needle@.len())[k as int] != needle@[k as int]);
            return false;
        }
        k = k + 1;
    }
    assert(hay@.subrange(i as int, i + needle@.len()) =~= needle@);
    true
}

/// Whether `needle` occurs in `hay`.
pub fn text_contains(hay: &str, needle: &str) -> (r: bool)
    ensures
        r == contains_text(hay@, needle@),
{
    let h = chars_of(hay);
    let n = chars_of(needle);
    if n.len() > h.len() {
        return false;
    }
    let last = h.len() - n.len();
    let mut i: usize = 0;
    while i < last
        invariant
            h@ == hay@,
            n@ == needle@,
            last + n@.len() == h@.len(),
            i <= last,
            forall|j: int| 0 <= j < i ==> !occurs_at(h@, n@, j),
        decreases last - i,
    {
        if occurs_at_exec(&h, &n, i) {
            return true;
        }
        i = i + 1;
    }
    if occurs_at_exec(&h, &n, last) {
        return true;
    }
    assert forall|j: int| !occurs_at(h@, n@, j) by {
        if 0 <= j && j + n@.len() <= h@.len() && j != last {
            assert(j < i);
        }
    }
    false
}

/// Whether `s` starts with `prefix`.
pub fn text_starts_with(s: &str, prefix: &str) -> (r: bool)
    ensures
        r == prefix@.is_prefix_of(s@),
{
    let h = chars_of(s);
    let p = chars_of(prefix);
    let r = occurs_at_exec(&h, &p, 0);
    proof {
        if r {
            assert(p@ =~= h@.subrange(0, p@.len() as int));
        }
        if p@.is_prefix_of(h@) {
            assert(occurs_at(h@, p@, 0));
        }
    }
    r
}

/// `s` with every occurrence of `from` replaced by `to`, taking occurrences
/// from left to right without overlap; an empty `from` occurs before every
/// character and at the end. This is what `str::replace` returns.
pub open spec fn replace_view(s: Seq<char>, from: Seq<char>, to: Seq<char>) -> Seq<char>
    decreases s.len(),
{
    if s.len() == 0 {
        if from.len() == 0 {
            to
        } else {
            seq![]
        }
    } else if from.len() == 0 {
        to + seq![s[0]] + replace_view(s.drop_first(), from, to)
    } else if from.is_prefix_of(s) {
        to + replace_view(s.skip(from.len() as int), from, to)
    } else {
        seq![s[0]] + replace_view(s.drop_first(), from, to)
    }
}

/// `s` with every occurrence of `from` replaced by `to`.
pub fn replace_text(s: &str, from: &str, to: &str) -> (r: String)
    ensures
        r@ == replace_view(s@, from@, to@),
{
    let h = chars_of(s);
    let f = chars_of(from);
    let mut out = String::new();
    let mut i: usize = 0;
    assert(h@.skip(0) =~= h@);
    while i < h.len()
        invariant
            h@ == s@,
            f@ == from@,
            i <= h@.len(),
            out@ + replace_view(h@.skip(i as int), f@, to@) == replace_view(s@, from@, to@),
        decreases h.len() - i,
    {
        let ghost rest = h@.skip(i as int);
        if f.len() == 0 {
            assert(rest.drop_first() =~= h@.skip(i + 1));
            out.append(to);
            push_char(&mut out, h[i]);
            i = i + 1;
            assert(out@ + replace_view(h@.skip(i as int), f@, to@) =~= replace_view(
                s@,
                from@,
                to@,
            ));
        } else if occurs_at_exec(&h, &f, i) {
            assert(f@ =~= rest.subrange(0, f@.len() as int));
            assert(rest.skip(f@.len() as int) =~= h@.skip(i + f@.len()));
            out.append(to);
            i = i + f.len();
            assert(out@ + replace_view(h@.skip(i as int), f@, to@) =~= replace_view(
                s@,
                from@,
                to@,
            ));
        } else {
            assert(!f@.is_prefix_of(rest)) by {
                if f@.is_prefix_of(rest) {
                    assert(h@.subrange(i as int, i + f@.len()) =~= rest.subrange(
                        0,
                        f@.len() as int,
                    ));
                }
            }
            assert(rest.drop_first() =~= h@.skip(i + 1));
            push_char(&mut out, h[i]);
            i = i + 1;
            assert(out@ + replace_view(h@.skip(i as int), f@, to@) =~= replace_view(
                s@,
                from@,
                to@,
            ));
        }
    }
    if f.len() == 0 {
        out.append(to);
    }
    assert(h@.skip(i as int) =~= Seq::<char>::empty());
    assert(out@ =~= replace_view(s@, from@, to@));
    out
}

/// Replacing a text by itself changes nothing.
pub proof fn lemma_replace_by_itself(s: Seq<char>, from: Seq<char>)
    requires
        from.len() > 0,
    ensures
        replace_view(s, from, from) == s,
    decreases s.len(),
{
    if s.len() > 0 {
        if from.is_prefix_of(s) {
            lemma_replace_by_itself(s.skip(from.len() as int), from);
            assert(from + s.skip(from.len() as int) =~= s);
        } else {
            lemma_replace_by_itself(s.drop_first(), from);
            assert(seq![s[0]] + s.drop_first() =~= s);
        }
    }
}

/// A text in which `from` does not occur comes back unchanged.
pub proof fn lemma_replace_absent(s: Seq<char>, from: Seq<char>, to: Seq<char>)
    requires
        from.len() > 0,
        !contains_text(s, from),
    ensures
        replace_view(s, from, to) == s,
    decreases s.len(),
{
    if s.len() > 0 {
        if from.is_prefix_of(s) {
            assert(occurs_at(s, from, 0)) by {
                assert(s.subrange(0, from.len() as int) =~= from);
            }
        }
        let t = s.drop_first();
        assert(!contains_text(t, from)) by {
            if contains_text(t, from) {
                let i = choose|i: int| occurs_at(t, from, i);
                assert(s.subrange(i + 1, i + 1 + from.len()) =~= t.subrange(i, i + from.len()));
                assert(occurs_at(s, from, i + 1));
            }
        }
        lemma_replace_absent(t, from, to);
        assert(seq![s[0]] + t =~= s);
    }
}

/// Every occurrence is replaced, not only the first: a text made of `from`
/// and then `rest` becomes `to` followed by `rest` with its own occurrences
/// replaced.
pub proof fn lemma_replace_every_occurrence(rest: Seq<char>, from: Seq<char>, to: Seq<char>)
    requires
        from.len() > 0,
    ensures
        replace_view(from + rest, from, to) == to + replace_view(rest, from, to),
{
    let s = from + rest;
    assert(from.is_prefix_of(s)) by {
        assert(s.subrange(0, from.len() as int) =~= from);
    }
    assert(s.skip(from.len() as int) =~= rest);
}

// ---------------------------------------------------------------------------
// Case-insensitive matching of patterns written in lower case
// ---------------------------------------------------------------------------

/// Whether `c` matches the pattern character `p` case-insensitively, by the
/// simple case folding that the `regex` crate applies under `(?i)`: an ASCII
/// lower-case letter also matches its capital, `s` also matches the long s
/// U+017F and `k` also matches the Kelvin sign U+212A; any other pattern
/// character matches only itself.
pub open spec fn ci_eq(c: char, p: char) -> bool {
    ||| c == p
    ||| (0x61 <= (p as u32) <= 0x7a && (c as u32) + 0x20 == (p as u32))
    ||| (p == 's' && (c as u32) == 0x17f)
    ||| (p == 'k' && (c as u32) == 0x212a)
}

/// Decides `ci_eq`.
pub fn ci_char_eq(c: char, p: char) -> (r: bool)
    ensures
        r == ci_eq(c, p),
{
    let cu = c as u32;
    let pu = p as u32;
    cu == pu || (0x61 <= pu && pu <= 0x7a && cu + 0x20 == pu) || (p == 's' && cu == 0x17f) || (p
        == 'k' && cu == 0x212a)
}

/// `pat` matches `s` case-insensitively at position `i`.
pub open spec fn ci_match_at(s: Seq<char>, i: int, pat: Seq<char>) -> bool {
    &&& 0 <= i
    &&& i + pat.len() <= s.len()
    &&& forall|k: int| 0 <= k < pat.len() ==> ci_eq(#[trigger] s[i + k], pat[k])
}

/// Decides `ci_match_at`.
pub fn ci_match_at_exec(s: &Vec<char>, i: usize, pat: &Vec<char>) -> (r: bool)
    ensures
        r == ci_match_at(s@, i as int, pat@),
{
    if i > s.len() || pat.len() > s.len() - i {
        return false;
    }
    let mut k: usize = 0;
    while k < pat.len()
        invariant
            s@.len() <= usize::MAX,
            i + pat@.len() <= s@.len(),
            k <= pat@.len(),
            forall|m: int| 0 <= m < k ==> ci_eq(#[trigger] s@[i + m], pat@[m]),
        decreases pat.len() - k,
    {
        if !ci_char_eq(s[i + k], pat[k]) {
            return false;
        }
        k = k + 1;
    }
    true
}

// ---------------------------------------------------------------------------
// Building strings
// ---------------------------------------------------------------------------

/// Calls `String::push`. Claimed: `c` is appended to `s`.
#[verifier::external_body]
pub(crate) fn push_char(s: &mut String, c: char)
    ensures
        final(s)@ == old(s)@.push(c),
{
    s.push(c)
}

/// The character of the decimal digit `d`.
pub open spec fn digit_char(d: nat) -> char {
    ((d + 0x30) as u8) as char
}

/// The decimal numeral of `n`, without leading zeros.
pub open spec fn decimal(n: nat) -> Seq<char>
    decreases n,
{
    if n < 10 {
        seq![digit_char(n)]
    } else {
        decimal(n / 10).push(digit_char(n % 10))
    }
}

/// The decimal numeral of `n`, with a minus sign when `n` is negative.
pub open spec fn signed_decimal(n: int) -> Seq<char> {
    if n < 0 {
        seq!['-'] + decimal((-n) as nat)
    } else {
        decimal(n as nat)
    }
}

/// Appends the decimal numeral of `n` to `out`.
pub fn push_decimal(out: &mut String, n: u64)
    ensures
        final(out)@ == old(out)@ + decimal(n as nat),
    decreases n,
{
    if n >= 10 {
        push_decimal(out, n / 10);
    }
    let d = (n % 10) as u8;
    push_char(out, (d + 0x30u8) as char);
    assert(out@ =~= old(out)@ + decimal(n as nat));
}

/// Appends the decimal numeral of `n` to `out`, with a minus sign when `n` is
/// negative.
pub fn push_signed_decimal(out: &mut String, n: i64)
    ensures
        final(out)@ == old(out)@ + signed_decimal(n as int),
{
    if n < 0 {
        push_char(out, '-');
        let magnitude: u64 = if n == i64::MIN {
            9223372036854775808u64
        } else {
            (-n) as u64
        };
        push_decimal(out, magnitude);
        assert(out@ =~= old(out)@ + signed_decimal(n as int));
    } else {
        push_decimal(out, n as u64);
    }
}

} // verus!
