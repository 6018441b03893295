//! The on-disk configuration text: a fixed TOML shape,
//!
//! ```text
//! bookmarks = [
//!   { alias = "home", path = "/home/u" },
//! ]
//! ```
//!
//! one entry per line, with a serializer, a parser, and a proof that the
//! two invert each other. The format has no escape sequences, so a field
//! can hold any character except a quote, a backslash or a line break.

use vstd::prelude::*;
use vstd::string::StrSliceExecFns;
use vstd::string::StringExecFns;
use crate::bookmarks::Bookmark;
use crate::bookmarks::BookmarkCollection;

verus! {

// ---------------------------------------------------------------------------
// The grammar's fixed pieces.
// ---------------------------------------------------------------------------

/// The opening line: `bookmarks = [` with its newline.
pub open spec fn header() -> Seq<char> {
    seq!['b', 'o', 'o', 'k', 'm', 'a', 'r', 'k', 's', ' ', '=', ' ', '[', '\n']
}

/// What precedes an entry's alias: indentation, the inline table opener
/// and the `alias` key.
pub open spec fn entry_open() -> Seq<char> {
    seq![' ', ' ', '{', ' ', 'a', 'l', 'i', 'a', 's', ' ', '=', ' ', '"']
}

/// What stands between an entry's alias and its path: the alias's closing
/// quote and the `path` key.
pub open spec fn entry_mid() -> Seq<char> {
    seq!['"', ',', ' ', 'p', 'a', 't', 'h', ' ', '=', ' ', '"']
}

/// What follows an entry's path: its closing quote and the inline table's
/// closing brace, with the separating comma and newline.
pub open spec fn entry_close() -> Seq<char> {
    seq!['"', ' ', '}', ',', '\n']
}

/// The closing line: `]` with its newline.
pub open spec fn footer() -> Seq<char> {
    seq![']', '\n']
}

// ---------------------------------------------------------------------------
// What a field can hold.
// ---------------------------------------------------------------------------

/// A character a quoted field carries verbatim: anything but the closing
/// quote, the (unsupported) escape character and line breaks.
pub open spec fn plain_char(c: char) -> bool {
    c != '"' && c != '\\' && c != '\n' && c != '\r'
}

/// A field the format can hold: non-empty, all characters verbatim.
pub open spec fn plain_text(t: Seq<char>) -> bool {
    t.len() > 0 && forall|k: int| 0 <= k < t.len() ==> plain_char(t[k])
}

/// Every field of every entry can stand in the format.
pub open spec fn serializable(bs: Seq<(Seq<char>, Seq<char>)>) -> bool {
    forall|i: int| 0 <= i < bs.len() ==> plain_text(bs[i].0) && plain_text(bs[i].1)
}

// ---------------------------------------------------------------------------
// Serialization, as a mathematical function.
// ---------------------------------------------------------------------------

/// The text of one entry.
pub open spec fn entry_text(a: Seq<char>, p: Seq<char>) -> Seq<char> {
    entry_open() + a + entry_mid() + p + entry_close()
}

/// The concatenated entry lines, in order.
pub open spec fn entries_text(bs: Seq<(Seq<char>, Seq<char>)>) -> Seq<char>
    decreases bs.len(),
{
    if bs.len() == 0 {
        Seq::<char>::empty()
    } else {
        entries_text(bs.drop_last()) + entry_text(bs.last().0, bs.last().1)
    }
}

/// The whole configuration text for a collection.
pub open spec fn spec_serialize(bs: Seq<(Seq<char>, Seq<char>)>) -> Seq<char> {
    header() + entries_text(bs) + footer()
}

// ---------------------------------------------------------------------------
// Parsing, as a mathematical function.
// ---------------------------------------------------------------------------

/// Whether `pat` occurs in `s` at position `i`.
pub open spec fn match_at(s: Seq<char>, i: int, pat: Seq<char>) -> bool {
    0 <= i && i + pat.len() <= s.len() && s.subrange(i, i + pat.len()) == pat
}

/// The position of the first quote at or after `i`, if any.
pub open spec fn find_quote(s: Seq<char>, i: int) -> Option<int>
    decreases s.len() - i,
{
    if i < 0 || i >= s.len() {
        None
    } else if s[i] == '"' {
        Some(i)
    } else {
        find_quote(s, i + 1)
    }
}

/// Parses the entry lines and the closing line from position `i` to the
/// end of `s`. The `fuel` argument only bounds the recursion; any value
/// above the remaining length gives the parse's answer.
pub open spec fn parse_entries_at(s: Seq<char>, i: int, fuel: nat) -> Option<
    Seq<(Seq<char>, Seq<char>)>,
>
    decreases fuel,
{
    if fuel == 0 {
        None
    } else if match_at(s, i, footer()) && i + footer().len() == s.len() {
        Some(Seq::<(Seq<char>, Seq<char>)>::empty())
    } else if match_at(s, i, entry_open()) {
        match find_quote(s, i + entry_open().len()) {
            Some(q1) => {
                let a = s.subrange(i + entry_open().len(), q1);
                if match_at(s, q1, entry_mid()) {
                    match find_quote(s, q1 + entry_mid().len()) {
                        Some(q2) => {
                            let p = s.subrange(q1 + entry_mid().len(), q2);
                            if match_at(s, q2, entry_close()) && plain_text(a) && plain_text(p) {
                                match parse_entries_at(
                                    s,
                                    q2 + entry_close().len(),
                                    (fuel - 1) as nat,
                                ) {
                                    Some(rest) => Some(seq![(a, p)] + rest),
                                    None => None,
                                }
                            } else {
                                None
                            }
                        },
                        None => None,
                    }
                } else {
                    None
                }
            },
            None => None,
        }
    } else {
        None
    }
}

/// Parses a whole configuration text: the opening line, then the entries.
/// `None` means the text is malformed.
pub open spec fn spec_parse(s: Seq<char>) -> Option<Seq<(Seq<char>, Seq<char>)>> {
    if match_at(s, 0, header()) {
        parse_entries_at(s, header().len() as int, s.len() + 1)
    } else {
        None
    }
}

// ---------------------------------------------------------------------------
// The executable serializer.
// ---------------------------------------------------------------------------

/// The literals the executable code emits and matches are the grammar's
/// fixed pieces.
proof fn lemma_literals()
    ensures
        ("bookmarks = [\n")@ == header(),
        ("  { alias = \"")@ == entry_open(),
        ("\", path = \"")@ == entry_mid(),
        ("\" },\n")@ == entry_close(),
        ("]\n")@ == footer(),
{
    reveal_strlit("bookmarks = [\n");
    reveal_strlit("  { alias = \"");
    reveal_strlit("\", path = \"");
    reveal_strlit("\" },\n");
    reveal_strlit("]\n");
    assert(("bookmarks = [\n")@ =~= header());
    assert(("  { alias = \"")@ =~= entry_open());
    assert(("\", path = \"")@ =~= entry_mid());
    assert(("\" },\n")@ =~= entry_close());
    assert(("]\n")@ =~= footer());
}

/// Whether the format can hold this text as a field.
pub fn is_plain_text(s: &str) -> (r: bool)
    ensures
        r == plain_text(s@),
{
    let n: usize = s.unicode_len();
    if n == 0 {
        return false;
    }
    let mut j: usize = 0;
    while j < n
        invariant
            n == s@.len(),
            j <= n,
            forall|k: int| 0 <= k < j ==> plain_char(s@[k]),
        decreases n - j,
    {
        let c = s.get_char(j);
        if c == '"' || c == '\\' || c == '\n' || c == '\r' {
            return false;
        }
        j += 1;
    }
    true
}

/// Renders a collection as configuration text; `None` when some field is
/// empty or carries a character the format cannot hold.
pub fn to_config_text(c: &BookmarkCollection) -> (r: Option<String>)
    ensures
        r matches Some(out) ==> serializable(c@) && out@ == spec_serialize(c@),
        r is None ==> !serializable(c@),
{
    let n: usize = c.bookmarks.len();
    let mut j: usize = 0;
    while j < n
        invariant
            n == c.bookmarks@.len(),
            j <= n,
            forall|i: int| 0 <= i < j ==> plain_text(c@[i].0) && plain_text(c@[i].1),
        decreases n - j,
    {
        if !is_plain_text(c.bookmarks[j].alias.as_str()) {
            proof {
                assert(!plain_text(c@[j as int].0));
            }
            return None;
        }
        if !is_plain_text(c.bookmarks[j].path.as_str()) {
            proof {
                assert(!plain_text(c@[j as int].1));
            }
            return None;
        }
        j += 1;
    }
    let mut out = String::new();
    out.append("bookmarks = [\n");
    proof {
        lemma_literals();
        assert(c@.take(0) =~= Seq::<(Seq<char>, Seq<char>)>::empty());
        assert(out@ =~= header() + entries_text(c@.take(0)));
    }
    let mut k: usize = 0;
    while k < n
        invariant
            n == c.bookmarks@.len(),
            k <= n,
            out@ == header() + entries_text(c@.take(k as int)),
        decreases n - k,
    {
        out.append("  { alias = \"");
        out.append(c.bookmarks[k].alias.as_str());
        out.append("\", path = \"");
        out.append(c.bookmarks[k].path.as_str());
        out.append("\" },\n");
        proof {
            lemma_literals();
            let bs = c@.take((k + 1) as int);
            assert(bs.drop_last() =~= c@.take(k as int));
            assert(bs.last() == c@[k as int]);
            assert(out@ =~= header() + entries_text(bs));
        }
        k += 1;
    }
    out.append("]\n");
    proof {
        lemma_literals();
        assert(c@.take(n as int) =~= c@);
        assert(out@ =~= spec_serialize(c@));
    }
    Some(out)
}

// ---------------------------------------------------------------------------
// The executable parser.
// ---------------------------------------------------------------------------

/// The views of a run of bookmarks.
spec fn views_of(items: Seq<Bookmark>) -> Seq<(Seq<char>, Seq<char>)> {
    items.map_values(|b: Bookmark| b@)
}

/// The answer of the whole parse, given the entries already read in `acc`
/// and the position `i` the parse has reached.
spec fn parse_from(
    s: Seq<char>,
    i: int,
    fuel: nat,
    acc: Seq<(Seq<char>, Seq<char>)>,
) -> Option<Seq<(Seq<char>, Seq<char>)>> {
    match parse_entries_at(s, i, fuel) {
        Some(rest) => Some(acc + rest),
        None => None,
    }
}

/// Whether `lit` occurs in `s` at position `i`.
fn match_lit(s: &str, i: usize, lit: &str) -> (r: bool)
    ensures
        r == match_at(s@, i as int, lit@),
{
    let n: usize = s.unicode_len();
    let m: usize = lit.unicode_len();
    if i > n || m > n - i {
        return false;
    }
    let mut k: usize = 0;
    while k < m
        invariant
            n == s@.len(),
            m == lit@.len(),
            i + m <= n,
            k <= m,
            forall|t: int| 0 <= t < k ==> s@[i + t] == lit@[t],
        decreases m - k,
    {
        if s.get_char(i + k) != lit.get_char(k) {
            proof {
                assert(s@.subrange(i as int, i + m as int)[k as int] != lit@[k as int]);
            }
            return false;
        }
        k += 1;
    }
    proof {
        assert(s@.subrange(i as int, i + m as int) =~= lit@);
    }
    true
}

/// The position of the first quote at or after `start`, executably.
fn scan_to_quote(s: &str, start: usize) -> (r: Option<usize>)
    ensures
        r matches Some(q) ==> find_quote(s@, start as int) == Some(q as int) && start <= q
            < s@.len(),
        r is None ==> find_quote(s@, start as int) is None,
{
    let n: usize = s.unicode_len();
    let mut j: usize = start;
    while j < n
        invariant
            n == s@.len(),
            start <= j,
            find_quote(s@, start as int) == find_quote(s@, j as int),
        decreases n - j,
    {
        if s.get_char(j) == '"' {
            return Some(j);
        }
        j += 1;
    }
    None
}

/// Whether the characters of `s` strictly between `start` and `end` form
/// a field the format can hold.
fn check_plain_range(s: &str, start: usize, end: usize) -> (r: bool)
    requires
        start <= end <= s@.len(),
    ensures
        r == plain_text(s@.subrange(start as int, end as int)),
{
    if end == start {
        return false;
    }
    let mut j: usize = start;
    while j < end
        invariant
            start <= j <= end <= s@.len(),
            forall|k: int| start <= k < j ==> plain_char(s@[k]),
        decreases end - j,
    {
        let c = s.get_char(j);
        if c == '"' || c == '\\' || c == '\n' || c == '\r' {
            proof {
                assert(s@.subrange(start as int, end as int)[j - start] == s@[j as int]);
            }
            return false;
        }
        j += 1;
    }
    proof {
        let t = s@.subrange(start as int, end as int);
        assert forall|k: int| 0 <= k < t.len() implies plain_char(t[k]) by {
            assert(t[k] == s@[start + k]);
        }
    }
    true
}

/// Parses configuration text into a collection; `None` means the text is
/// malformed. A parsed collection always satisfies the serializer's
/// side conditions, fields non-empty among them.
pub fn from_config_text(s: &str) -> (r: Option<BookmarkCollection>)
    ensures
        r matches Some(c) ==> spec_parse(s@) == Some(c@) && serializable(c@),
        r is None ==> spec_parse(s@) is None,
{
    if !match_lit(s, 0, "bookmarks = [\n") {
        proof {
            lemma_literals();
        }
        return None;
    }
    let n: usize = s.unicode_len();
    let mut items: Vec<Bookmark> = Vec::new();
    let mut i: usize = 14;
    let ghost mut fuel: nat = s@.len() + 1;
    proof {
        lemma_literals();
        assert(match_at(s@, 0, header()));
        assert(views_of(items@) =~= Seq::<(Seq<char>, Seq<char>)>::empty());
        match parse_entries_at(s@, 14, fuel) {
            Some(rest) => {
                assert(views_of(items@) + rest =~= rest);
            },
            None => {},
        }
    }
    loop
        invariant
            n == s@.len(),
            14 <= i <= n,
            fuel > n - i,
            spec_parse(s@) == parse_from(s@, i as int, fuel, views_of(items@)),
            serializable(views_of(items@)),
        decreases n - i,
    {
        if match_lit(s, i, "]\n") {
            proof {
                lemma_literals();
            }
            if n - i == 2 {
                proof {
                    lemma_literals();
                    assert(parse_entries_at(s@, i as int, fuel) == Some(
                        Seq::<(Seq<char>, Seq<char>)>::empty(),
                    ));
                    assert(views_of(items@) + Seq::<(Seq<char>, Seq<char>)>::empty() =~= views_of(
                        items@,
                    ));
                }
                let c = BookmarkCollection { bookmarks: items };
                return Some(c);
            } else {
                proof {
                    lemma_literals();
                    assert(s@[i as int] == s@.subrange(i as int, i + 2)[0]);
                    if match_at(s@, i as int, entry_open()) {
                        assert(s@[i as int] == s@.subrange(i as int, i + 13)[0]);
                    }
                    assert(parse_entries_at(s@, i as int, fuel) is None);
                }
                return None;
            }
        }
        if !match_lit(s, i, "  { alias = \"") {
            proof {
                lemma_literals();
                assert(parse_entries_at(s@, i as int, fuel) is None);
            }
            return None;
        }
        proof {
            lemma_literals();
        }
        let a_start: usize = i + 13;
        let q1: usize = match scan_to_quote(s, a_start) {
            Some(q) => q,
            None => {
                proof {
                    lemma_literals();
                    assert(parse_entries_at(s@, i as int, fuel) is None);
                }
                return None;
            },
        };
        if !check_plain_range(s, a_start, q1) {
            proof {
                lemma_literals();
                assert(parse_entries_at(s@, i as int, fuel) is None);
            }
            return None;
        }
        if !match_lit(s, q1, "\", path = \"") {
            proof {
                lemma_literals();
                assert(parse_entries_at(s@, i as int, fuel) is None);
            }
            return None;
        }
        proof {
            lemma_literals();
        }
        let p_start: usize = q1 + 11;
        let q2: usize = match scan_to_quote(s, p_start) {
            Some(q) => q,
            None => {
                proof {
                    lemma_literals();
                    assert(parse_entries_at(s@, i as int, fuel) is None);
                }
                return None;
            },
        };
        if !check_plain_range(s, p_start, q2) {
            proof {
                lemma_literals();
                assert(parse_entries_at(s@, i as int, fuel) is None);
            }
            return None;
        }
        if !match_lit(s, q2, "\" },\n") {
            proof {
                lemma_literals();
                assert(parse_entries_at(s@, i as int, fuel) is None);
            }
            return None;
        }
        let alias = s.substring_char(a_start, q1).to_owned();
        let path = s.substring_char(p_start, q2).to_owned();
        let ghost prior = items@;
        items.push(Bookmark { alias, path });
        proof {
            lemma_literals();
            let a = s@.subrange(a_start as int, q1 as int);
            let p = s@.subrange(p_start as int, q2 as int);
            assert(views_of(items@) =~= views_of(prior) + seq![(a, p)]);
            let next = (q2 + 5) as int;
            match parse_entries_at(s@, next, (fuel - 1) as nat) {
                Some(rest) => {
                    assert(parse_entries_at(s@, i as int, fuel) == Some(seq![(a, p)] + rest));
                    assert(views_of(prior) + (seq![(a, p)] + rest) =~= views_of(items@) + rest);
                },
                None => {
                    assert(parse_entries_at(s@, i as int, fuel) is None);
                },
            }
            fuel = (fuel - 1) as nat;
        }
        i = q2 + 5;
    }
}

// ---------------------------------------------------------------------------
// The round-trip law: parsing inverts serialization.
// ---------------------------------------------------------------------------

/// `q` is indeed the first quote at or after `start`.
proof fn lemma_find_quote_exact(s: Seq<char>, start: int, q: int)
    requires
        0 <= start <= q < s.len(),
        s[q] == '"',
        forall|j: int| start <= j < q ==> s[j] != '"',
    ensures
        find_quote(s, start) == Some(q),
    decreases q - start,
{
    if start < q {
        lemma_find_quote_exact(s, start + 1, q);
    }
}

/// The entry lines can also be unfolded from the front.
proof fn lemma_entries_first(bs: Seq<(Seq<char>, Seq<char>)>)
    requires
        bs.len() > 0,
    ensures
        entries_text(bs) == entry_text(bs[0].0, bs[0].1) + entries_text(bs.drop_first()),
    decreases bs.len(),
{
    if bs.len() == 1 {
        assert(bs.drop_last() =~= Seq::<(Seq<char>, Seq<char>)>::empty());
        assert(bs.drop_first() =~= Seq::<(Seq<char>, Seq<char>)>::empty());
        assert(entries_text(bs) =~= entry_text(bs[0].0, bs[0].1) + entries_text(bs.drop_first()));
    } else {
        let head = bs.drop_last();
        lemma_entries_first(head);
        assert(head[0] == bs[0]);
        assert(bs.drop_first().drop_last() =~= head.drop_first());
        assert(bs.drop_first().last() == bs.last());
        assert(entries_text(bs.drop_first()) == entries_text(head.drop_first()) + entry_text(
            bs.last().0,
            bs.last().1,
        ));
        assert(entries_text(bs) =~= entry_text(bs[0].0, bs[0].1) + entries_text(bs.drop_first()));
    }
}

/// From position `i`, a serialized run of entries followed by the closing
/// line parses back to exactly those entries.
proof fn lemma_parse_entries(s: Seq<char>, i: int, bs: Seq<(Seq<char>, Seq<char>)>, fuel: nat)
    requires
        serializable(bs),
        0 <= i <= s.len(),
        s.subrange(i, s.len() as int) == entries_text(bs) + footer(),
        fuel > s.len() - i,
    ensures
        parse_entries_at(s, i, fuel) == Some(bs),
    decreases bs.len(),
{
    let suf = s.subrange(i, s.len() as int);
    assert(suf.len() == s.len() - i);
    if bs.len() == 0 {
        assert(entries_text(bs) == Seq::<char>::empty());
        assert(suf =~= footer());
        assert(s.subrange(i, i + 2) == suf);
        assert(match_at(s, i, footer()));
        assert(Some(Seq::<(Seq<char>, Seq<char>)>::empty()) == Some(bs)) by {
            assert(bs =~= Seq::<(Seq<char>, Seq<char>)>::empty());
        }
    } else {
        let a = bs[0].0;
        let p = bs[0].1;
        assert(plain_text(a) && plain_text(p));
        lemma_entries_first(bs);
        let rest_text = entries_text(bs.drop_first());
        let e = entry_text(a, p);
        assert(suf == (e + rest_text) + footer());
        let alen = a.len() as int;
        let plen = p.len() as int;
        let q1 = i + 13 + alen;
        let q2 = q1 + 11 + plen;
        let next = q2 + 5;
        let w1 = entry_open() + a;
        let w2 = w1 + entry_mid();
        let w3 = w2 + p;
        let w4 = w3 + entry_close();
        assert(e == w4);
        assert(e.len() == 29 + alen + plen);
        assert(suf.len() == e.len() + rest_text.len() + 2);
        assert forall|k: int| 0 <= k < e.len() implies suf[k] == e[k] by {
            assert(suf[k] == ((e + rest_text) + footer())[k]);
            assert(((e + rest_text) + footer())[k] == (e + rest_text)[k]);
            assert((e + rest_text)[k] == e[k]);
        }
        // the five regions of the entry's text
        assert forall|k: int| 0 <= k < 13 implies e[k] == entry_open()[k] by {
            assert(e[k] == w3[k]);
            assert(w3[k] == w2[k]);
            assert(w2[k] == w1[k]);
            assert(w1[k] == entry_open()[k]);
        }
        assert forall|k: int| 0 <= k < alen implies e[13 + k] == a[k] by {
            assert(e[13 + k] == w3[13 + k]);
            assert(w3[13 + k] == w2[13 + k]);
            assert(w2[13 + k] == w1[13 + k]);
            assert(w1[13 + k] == a[k]);
        }
        assert forall|k: int| 0 <= k < 11 implies e[13 + alen + k] == entry_mid()[k] by {
            assert(e[13 + alen + k] == w3[13 + alen + k]);
            assert(w3[13 + alen + k] == w2[13 + alen + k]);
            assert(w2[13 + alen + k] == entry_mid()[k]);
        }
        assert forall|k: int| 0 <= k < plen implies e[24 + alen + k] == p[k] by {
            assert(e[24 + alen + k] == w3[24 + alen + k]);
            assert(w3[24 + alen + k] == p[k]);
        }
        assert forall|k: int| 0 <= k < 5 implies e[24 + alen + plen + k] == entry_close()[k] by {
            assert(e[24 + alen + plen + k] == entry_close()[k]);
        }
        // the opening of the entry stands at i
        assert forall|k: int| 0 <= k < 13 implies s.subrange(i, i + 13)[k] == entry_open()[k] by {
            assert(s.subrange(i, i + 13)[k] == s[i + k]);
            assert(s[i + k] == suf[k]);
        }
        assert(s.subrange(i, i + 13) =~= entry_open());
        assert(match_at(s, i, entry_open()));
        // ... but not the closing line (the suffix is longer than it)
        assert(!(match_at(s, i, footer()) && i + footer().len() == s.len()));
        // the alias's closing quote is the first quote after the opening
        assert(s[q1] == suf[13 + alen]);
        assert(s[q1] == '"');
        assert forall|j: int| i + 13 <= j < q1 implies s[j] != '"' by {
            assert(s[j] == suf[j - i]);
            assert(suf[j - i] == e[j - i]);
            assert(e[j - i] == a[j - i - 13]);
            assert(plain_char(a[j - i - 13]));
        }
        lemma_find_quote_exact(s, i + 13, q1);
        // and the text between the quotes is the alias
        assert forall|k: int| 0 <= k < alen implies s.subrange(i + 13, q1)[k] == a[k] by {
            assert(s.subrange(i + 13, q1)[k] == s[i + 13 + k]);
            assert(s[i + 13 + k] == suf[13 + k]);
            assert(suf[13 + k] == e[13 + k]);
        }
        assert(s.subrange(i + 13, q1) =~= a);
        // the path key stands between the fields
        assert forall|k: int| 0 <= k < 11 implies s.subrange(q1, q1 + 11)[k] == entry_mid()[k] by {
            assert(s.subrange(q1, q1 + 11)[k] == s[q1 + k]);
            assert(s[q1 + k] == suf[13 + alen + k]);
            assert(suf[13 + alen + k] == e[13 + alen + k]);
        }
        assert(s.subrange(q1, q1 + 11) =~= entry_mid());
        assert(match_at(s, q1, entry_mid()));
        // the path's closing quote is the first quote after its opening
        assert(s[q2] == suf[24 + alen + plen]);
        assert(s[q2] == '"');
        assert forall|j: int| q1 + 11 <= j < q2 implies s[j] != '"' by {
            assert(s[j] == suf[j - i]);
            assert(suf[j - i] == e[j - i]);
            assert(e[j - i] == p[j - i - 24 - alen]);
            assert(plain_char(p[j - i - 24 - alen]));
        }
        lemma_find_quote_exact(s, q1 + 11, q2);
        // and the text between the quotes is the path
        assert forall|k: int| 0 <= k < plen implies s.subrange(q1 + 11, q2)[k] == p[k] by {
            assert(s.subrange(q1 + 11, q2)[k] == s[q1 + 11 + k]);
            assert(s[q1 + 11 + k] == suf[24 + alen + k]);
            assert(suf[24 + alen + k] == e[24 + alen + k]);
        }
        assert(s.subrange(q1 + 11, q2) =~= p);
        // the entry's closing text stands after the path
        assert forall|k: int| 0 <= k < 5 implies s.subrange(q2, q2 + 5)[k] == entry_close()[k] by {
            assert(s.subrange(q2, q2 + 5)[k] == s[q2 + k]);
            assert(s[q2 + k] == suf[24 + alen + plen + k]);
            assert(suf[24 + alen + plen + k] == e[24 + alen + plen + k]);
        }
        assert(s.subrange(q2, q2 + 5) =~= entry_close());
        assert(match_at(s, q2, entry_close()));
        // the rest of the text serializes the rest of the entries
        assert forall|k: int| 0 <= k < s.len() - next implies s.subrange(next, s.len() as int)[k]
            == (rest_text + footer())[k] by {
            assert(s.subrange(next, s.len() as int)[k] == s[next + k]);
            assert(s[next + k] == suf[e.len() + k]);
            assert(suf[e.len() + k] == ((e + rest_text) + footer())[e.len() + k]);
            if k < rest_text.len() {
                assert(((e + rest_text) + footer())[e.len() + k] == (e + rest_text)[e.len() + k]);
                assert((e + rest_text)[e.len() + k] == rest_text[k]);
            } else {
                assert(((e + rest_text) + footer())[e.len() + k] == footer()[k - rest_text.len()]);
            }
        }
        assert(s.subrange(next, s.len() as int) =~= rest_text + footer());
        assert(serializable(bs.drop_first())) by {
            assert forall|t: int|
                0 <= t < bs.drop_first().len() implies plain_text(bs.drop_first()[t].0)
                && plain_text(bs.drop_first()[t].1) by {
                assert(bs.drop_first()[t] == bs[t + 1]);
            }
        }
        lemma_parse_entries(s, next, bs.drop_first(), (fuel - 1) as nat);
        assert(parse_entries_at(s, i, fuel) == Some(seq![(a, p)] + bs.drop_first()));
        assert(seq![(a, p)] + bs.drop_first() =~= bs);
    }
}

/// The round-trip law: a collection the format can hold is reproduced
/// exactly — same aliases, same paths, same order — by parsing its own
/// serialized text.
pub proof fn lemma_round_trip(bs: Seq<(Seq<char>, Seq<char>)>)
    requires
        serializable(bs),
    ensures
        spec_parse(spec_serialize(bs)) == Some(bs),
{
    let s = spec_serialize(bs);
    let body = entries_text(bs);
    assert(s == (header() + body) + footer());
    assert(s.len() == 16 + body.len());
    assert forall|k: int| 0 <= k < 14 implies s.subrange(0, 14)[k] == header()[k] by {
        assert(s.subrange(0, 14)[k] == s[k]);
        assert(s[k] == ((header() + body) + footer())[k]);
        assert(((header() + body) + footer())[k] == (header() + body)[k]);
        assert((header() + body)[k] == header()[k]);
    }
    assert(s.subrange(0, 14) =~= header());
    assert(match_at(s, 0, header()));
    assert forall|k: int| 0 <= k < s.len() - 14 implies s.subrange(14, s.len() as int)[k] == (body
        + footer())[k] by {
        assert(s.subrange(14, s.len() as int)[k] == s[14 + k]);
        assert(s[14 + k] == ((header() + body) + footer())[14 + k]);
        if k < body.len() {
            assert(((header() + body) + footer())[14 + k] == (header() + body)[14 + k]);
            assert((header() + body)[14 + k] == body[k]);
        } else {
            assert(((header() + body) + footer())[14 + k] == footer()[k - body.len()]);
        }
    }
    assert(s.subrange(14, s.len() as int) =~= body + footer());
    lemma_parse_entries(s, 14, bs, s.len() + 1);
    assert(header().len() == 14);
}

} // verus!
