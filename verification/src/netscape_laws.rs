//! What reading a written Netscape bookmark file gives back.
use vstd::prelude::*;

use crate::html::{escape, lemma_escape_chars, lemma_unescape_escape};
use crate::int_text::{i64_text, lemma_i64_text_chars, lemma_parse_i64_text};
use crate::netscape::{
    build_tree, date_attr, entries_text, entry_text, insert_at, mark_line, netscape_header,
    netscape_run, netscape_step, netscape_text, parse_netscape_spec, parse_start,
    spec_extract_anchor, spec_extract_attr, spec_extract_tag_text, spec_parse_anchor_line,
    EntryModel, ParseState,
};
use crate::text::{
    ascii_lower, ends_with, find, find_char, lemma_contains_concat, lemma_find_after_prefix,
    lemma_find_at_front, lemma_find_char_basic, lemma_find_char_concat, lemma_find_from_at,
    lemma_find_from_none, lemma_lines_cons, lemma_lower_concat, lemma_trim_leading,
    lemma_trim_noop, lines, lower, matches_at, starts_with,
};
use crate::BookmarkView;

verus! {

// ---------------------------------------------------------------------
// Searching
// ---------------------------------------------------------------------

/// A needle of three or more characters whose first three occur together
/// nowhere is not found.
proof fn lemma_no_match3(h: Seq<char>, n: Seq<char>)
    requires
        n.len() >= 3,
        forall|j: int|
            0 <= j && j + 2 < h.len() ==> !(#[trigger] h[j] == n[0] && h[j + 1] == n[1] && h[j
                + 2] == n[2]),
    ensures
        find(h, n) is None,
{
    assert forall|j: int| 0 <= j implies !#[trigger] matches_at(h, n, j) by {
        if matches_at(h, n, j) {
            let w = h.subrange(j, j + n.len());
            assert(w[0] == n[0] && w[1] == n[1] && w[2] == n[2]);
            assert(h[j] == w[0] && h[j + 1] == w[1] && h[j + 2] == w[2]);
        }
    }
    lemma_find_from_none(h, n, 0);
}

/// Case folding keeps every character that is not an ASCII capital.
pub proof fn lemma_ascii_lower(c: char)
    ensures
        !('A' <= c && c <= 'Z') ==> ascii_lower(c) == c,
        'A' <= c && c <= 'Z' ==> 'a' <= ascii_lower(c) && ascii_lower(c) <= 'z',
{
}

/// Case-folded text holds a non-letter exactly when the text does.
pub proof fn lemma_lower_contains(s: Seq<char>, c: char)
    requires
        !('A' <= c && c <= 'Z'),
        !('a' <= c && c <= 'z'),
    ensures
        lower(s).contains(c) <==> s.contains(c),
{
    if lower(s).contains(c) {
        let i = choose|i: int| 0 <= i < lower(s).len() && lower(s)[i] == c;
        lemma_ascii_lower(s[i]);
    }
    if s.contains(c) {
        let i = choose|i: int| 0 <= i < s.len() && s[i] == c;
        lemma_ascii_lower(s[i]);
        assert(lower(s)[i] == c);
    }
}

// ---------------------------------------------------------------------
// Lines
// ---------------------------------------------------------------------

/// Text made of spaces only.
pub open spec fn all_spaces(s: Seq<char>) -> bool {
    forall|i: int| 0 <= i < s.len() ==> s[i] == ' '
}

/// An indented line of text followed by `\n` is read as that text.
proof fn lemma_run_line(ind: Seq<char>, l: Seq<char>, rest: Seq<char>, st: ParseState)
    requires
        all_spaces(ind),
        l.len() > 0,
        !l.contains('\n'),
        l[0] == '<',
        l.last() == '>',
    ensures
        netscape_run(lines(ind + l + seq!['\n'] + rest), st) == netscape_run(
            lines(rest),
            netscape_step(st, l),
        ),
{
    let line = ind + l;
    lemma_contains_concat(ind, l);
    assert(!ind.contains('\n')) by {
        if ind.contains('\n') {
            let i = choose|i: int| 0 <= i < ind.len() && ind[i] == '\n';
        }
    }
    assert(line.last() == '>');
    lemma_lines_cons(line, rest);
    let ls = lines(line + seq!['\n'] + rest);
    assert(ls[0] == line);
    assert(ls.drop_first() =~= lines(rest));
    lemma_trim_leading(ind, l);
    lemma_trim_noop(l);
}

// ---------------------------------------------------------------------
// Lines that change nothing
// ---------------------------------------------------------------------

/// No `<h3` and no `<a ` (either case) in a line.
pub open spec fn no_heading_no_anchor(l: Seq<char>) -> bool {
    &&& forall|j: int|
        0 <= j && j + 2 < l.len() ==> !(#[trigger] l[j] == '<' && ascii_lower(l[j + 1]) == 'h'
            && l[j + 2] == '3')
    &&& forall|j: int|
        0 <= j && j + 2 < l.len() ==> !(#[trigger] l[j] == '<' && ascii_lower(l[j + 1]) == 'a'
            && l[j + 2] == ' ')
}

proof fn lemma_h3_needle()
    ensures
        seq!['<'] + lower("H3"@) == seq!['<', 'h', '3'],
{
    reveal_strlit("H3");
    assert(seq!['<'] + lower("H3"@) =~= seq!['<', 'h', '3']);
}

/// A line without a heading or an anchor reads as no heading and no
/// bookmark.
pub proof fn lemma_no_heading_no_anchor(l: Seq<char>, stack: Seq<Seq<char>>)
    requires
        no_heading_no_anchor(l),
    ensures
        spec_extract_tag_text(l, "H3"@) is None,
        spec_parse_anchor_line(l, stack) is None,
{
    let lw = lower(l);
    assert forall|j: int| 0 <= j && j + 2 < lw.len() implies !(#[trigger] lw[j] == seq![
        '<',
        'h',
        '3',
    ][0] && lw[j + 1] == seq!['<', 'h', '3'][1] && lw[j + 2] == seq!['<', 'h', '3'][2]) by {
        lemma_ascii_lower(l[j]);
        lemma_ascii_lower(l[j + 2]);
    }
    lemma_no_match3(lw, seq!['<', 'h', '3']);
    assert forall|j: int| 0 <= j && j + 2 < lw.len() implies !(#[trigger] lw[j] == seq![
        '<',
        'a',
        ' ',
    ][0] && lw[j + 1] == seq!['<', 'a', ' '][1] && lw[j + 2] == seq!['<', 'a', ' '][2]) by {
        lemma_ascii_lower(l[j]);
        lemma_ascii_lower(l[j + 2]);
    }
    lemma_no_match3(lw, seq!['<', 'a', ' ']);
    lemma_h3_needle();
}

/// A line without a heading, an anchor or a list tag changes nothing.
proof fn lemma_step_inert(st: ParseState, l: Seq<char>)
    requires
        no_heading_no_anchor(l),
        !starts_with(l, "<DL"@),
        !starts_with(l, "</DL"@),
    ensures
        netscape_step(st, l) == st,
{
    lemma_no_heading_no_anchor(l, st.stack);
}

/// The list lines and their line feeds.
pub proof fn lemma_dl_lines()
    ensures
        "<DL><p>\n"@ == "<DL><p>"@ + seq!['\n'],
        "</DL><p>\n"@ == "</DL><p>"@ + seq!['\n'],
        no_heading_no_anchor("<DL><p>"@),
        no_heading_no_anchor("</DL><p>"@),
        starts_with("<DL><p>"@, "<DL"@),
        !starts_with("</DL><p>"@, "<DL"@),
        starts_with("</DL><p>"@, "</DL"@),
        "<DL><p>"@.len() > 0 && !"<DL><p>"@.contains('\n') && "<DL><p>"@[0] == '<'
            && "<DL><p>"@.last() == '>',
        "</DL><p>"@.len() > 0 && !"</DL><p>"@.contains('\n') && "</DL><p>"@[0] == '<'
            && "</DL><p>"@.last() == '>',
{
    reveal_strlit("<DL><p>\n");
    reveal_strlit("</DL><p>\n");
    reveal_strlit("<DL><p>");
    reveal_strlit("</DL><p>");
    reveal_strlit("<DL");
    reveal_strlit("</DL");
    assert("<DL><p>\n"@ =~= "<DL><p>"@ + seq!['\n']);
    assert("</DL><p>\n"@ =~= "</DL><p>"@ + seq!['\n']);
    assert("<DL><p>"@.take(3) =~= "<DL"@);
    assert("</DL><p>"@.take(4) =~= "</DL"@);
    assert("</DL><p>"@.take(3) != "<DL"@) by {
        assert("</DL><p>"@.take(3)[1] != "<DL"@[1]);
    }
    assert(!"<DL><p>"@.contains('\n')) by {
        if "<DL><p>"@.contains('\n') {
            let i = choose|i: int| 0 <= i < "<DL><p>"@.len() && "<DL><p>"@[i] == '\n';
        }
    }
    assert(!"</DL><p>"@.contains('\n')) by {
        if "</DL><p>"@.contains('\n') {
            let i = choose|i: int| 0 <= i < "</DL><p>"@.len() && "</DL><p>"@[i] == '\n';
        }
    }
}

/// A line followed by `\n` that changes nothing is passed over.
proof fn lemma_run_inert_line(l: Seq<char>, rest: Seq<char>, st: ParseState)
    requires
        l.len() > 0,
        !l.contains('\n'),
        l[0] == '<',
        l.last() == '>',
        no_heading_no_anchor(l),
        !starts_with(l, "<DL"@),
        !starts_with(l, "</DL"@),
    ensures
        netscape_run(lines(l + seq!['\n'] + rest), st) == netscape_run(lines(rest), st),
{
    let e = Seq::<char>::empty();
    assert(e + l =~= l);
    lemma_run_line(e, l, rest, st);
    lemma_step_inert(st, l);
}

/// The fixed lines before the bookmarks, up to `<DL><p>`.
pub open spec fn header_line(k: int) -> Seq<char> {
    if k == 0 {
        "<!DOCTYPE NETSCAPE-Bookmark-file-1>"@
    } else if k == 1 {
        "<META HTTP-EQUIV=\"Content-Type\" CONTENT=\"text/html; charset=UTF-8\">"@
    } else if k == 2 {
        "<TITLE>Bookmarks</TITLE>"@
    } else {
        "<H1>Bookmarks</H1>"@
    }
}

proof fn lemma_header_lines()
    ensures
        netscape_header() == header_line(0) + seq!['\n'] + header_line(1) + seq!['\n']
            + header_line(2) + seq!['\n'] + header_line(3) + seq!['\n'] + "<DL><p>\n"@,
        forall|k: int|
            0 <= k < 4 ==> (#[trigger] header_line(k)).len() > 0 && !header_line(k).contains(
                '\n',
            ) && header_line(k)[0] == '<' && header_line(k).last() == '>' && no_heading_no_anchor(
                header_line(k),
            ) && !starts_with(header_line(k), "<DL"@) && !starts_with(header_line(k), "</DL"@),
{
    reveal_strlit("<!DOCTYPE NETSCAPE-Bookmark-file-1>\n");
    reveal_strlit("<META HTTP-EQUIV=\"Content-Type\" CONTENT=\"text/html; charset=UTF-8\">\n");
    reveal_strlit("<TITLE>Bookmarks</TITLE>\n");
    reveal_strlit("<H1>Bookmarks</H1>\n");
    reveal_strlit("<!DOCTYPE NETSCAPE-Bookmark-file-1>");
    reveal_strlit("<META HTTP-EQUIV=\"Content-Type\" CONTENT=\"text/html; charset=UTF-8\">");
    reveal_strlit("<TITLE>Bookmarks</TITLE>");
    reveal_strlit("<H1>Bookmarks</H1>");
    reveal_strlit("<DL");
    reveal_strlit("</DL");
    assert(netscape_header() =~= header_line(0) + seq!['\n'] + header_line(1) + seq!['\n']
        + header_line(2) + seq!['\n'] + header_line(3) + seq!['\n'] + "<DL><p>\n"@);
    assert forall|k: int| 0 <= k < 4 implies (#[trigger] header_line(k)).len() > 0
        && !header_line(k).contains('\n') && header_line(k)[0] == '<' && header_line(k).last()
        == '>' && no_heading_no_anchor(header_line(k)) && !starts_with(header_line(k), "<DL"@)
        && !starts_with(header_line(k), "</DL"@) by {
        let h = header_line(k);
        assert(!h.contains('\n')) by {
            if h.contains('\n') {
                let i = choose|i: int| 0 <= i < h.len() && h[i] == '\n';
            }
        }
        assert(h.take(3) != "<DL"@) by {
            assert(h.take(3)[1] != "<DL"@[1]);
        }
        assert(h.take(4) != "</DL"@) by {
            assert(h.take(4)[1] != "</DL"@[1]);
        }
        assert forall|j: int| 0 <= j && j + 2 < h.len() implies !(#[trigger] h[j] == '<'
            && ascii_lower(h[j + 1]) == 'h' && h[j + 2] == '3') by {}
        assert forall|j: int| 0 <= j && j + 2 < h.len() implies !(#[trigger] h[j] == '<'
            && ascii_lower(h[j + 1]) == 'a' && h[j + 2] == ' ') by {}
    }
}

/// Reading the fixed lines before the bookmarks changes nothing.
proof fn lemma_header_run(rest: Seq<char>)
    ensures
        netscape_run(lines(netscape_header() + rest), parse_start()) == netscape_run(
            lines(rest),
            parse_start(),
        ),
{
    lemma_header_lines();
    lemma_dl_lines();
    let st = parse_start();
    let r4 = "<DL><p>"@ + seq!['\n'] + rest;
    let r3 = header_line(3) + seq!['\n'] + r4;
    let r2 = header_line(2) + seq!['\n'] + r3;
    let r1 = header_line(1) + seq!['\n'] + r2;
    let r0 = header_line(0) + seq!['\n'] + r1;
    assert(netscape_header() + rest =~= r0);
    assert(header_line(0).len() > 0);
    assert(header_line(1).len() > 0);
    assert(header_line(2).len() > 0);
    assert(header_line(3).len() > 0);
    lemma_run_inert_line(header_line(0), r1, st);
    lemma_run_inert_line(header_line(1), r2, st);
    lemma_run_inert_line(header_line(2), r3, st);
    lemma_run_inert_line(header_line(3), r4, st);
    let e = Seq::<char>::empty();
    assert(e + "<DL><p>"@ =~= "<DL><p>"@);
    lemma_run_line(e, "<DL><p>"@, rest, st);
    lemma_no_heading_no_anchor("<DL><p>"@, st.stack);
}

// ---------------------------------------------------------------------
// Bookmark lines
// ---------------------------------------------------------------------

/// A url that reads back as written: it holds no line feed and no
/// character that is escaped on writing (the url is not unescaped on
/// reading).
pub open spec fn url_ok(u: Seq<char>) -> bool {
    &&& !u.contains('\n')
    &&& !u.contains('&')
    &&& !u.contains('<')
    &&& !u.contains('>')
    &&& !u.contains('"')
}

/// The date of a bookmark reads back as written: a dated bookmark's url
/// does not end in `add_date=`, which reading would take for the start of
/// the date attribute.
pub open spec fn date_ok(b: BookmarkView) -> bool {
    b.added is Some ==> !ends_with(lower(b.url), "add_date="@)
}

/// A title or folder name that reads back as written: one without a line
/// feed.
pub open spec fn text_ok(t: Seq<char>) -> bool {
    !t.contains('\n')
}

/// A bookmark that a Netscape file can carry unchanged.
pub open spec fn writable(b: BookmarkView) -> bool {
    &&& text_ok(b.title)
    &&& url_ok(b.url)
    &&& date_ok(b)
    &&& forall|i: int| 0 <= i < b.folder.len() ==> text_ok(#[trigger] b.folder[i])
}

/// Text without `&`, `<`, `>` and `"` is written as it is.
proof fn lemma_escape_noop(s: Seq<char>)
    requires
        !s.contains('&'),
        !s.contains('<'),
        !s.contains('>'),
        !s.contains('"'),
    ensures
        escape(s) == s,
    decreases s.len(),
{
    if s.len() > 0 {
        crate::text::lemma_contains_first(s);
        lemma_escape_noop(s.drop_first());
        assert(seq![s[0]] + s.drop_first() =~= s);
    }
}

/// The opening tag of a bookmark's anchor.
pub open spec fn anchor_tag(b: BookmarkView) -> Seq<char> {
    "<A HREF=\""@ + escape(b.url) + "\""@ + date_attr(b.added) + ">"@
}

/// A bookmark's line without its indentation and line feed.
pub open spec fn mark_body(b: BookmarkView) -> Seq<char> {
    "<DT>"@ + anchor_tag(b) + escape(b.title) + "</A>"@
}

/// The fixed pieces of a bookmark line, character by character.
pub proof fn lemma_mark_literals()
    ensures
        "<DT><A HREF=\""@ == "<DT>"@ + "<A HREF=\""@,
        "</A>\n"@ == "</A>"@ + seq!['\n'],
        "<DT>"@ == seq!['<', 'D', 'T', '>'],
        "<A HREF=\""@ == seq!['<', 'A', ' ', 'H', 'R', 'E', 'F', '=', '"'],
        "\""@ == seq!['"'],
        ">"@ == seq!['>'],
        "</A>"@ == seq!['<', '/', 'A', '>'],
        " ADD_DATE=\""@ == seq![' ', 'A', 'D', 'D', '_', 'D', 'A', 'T', 'E', '=', '"'],
        "href"@ == seq!['h', 'r', 'e', 'f'],
        "add_date"@ == seq!['a', 'd', 'd', '_', 'd', 'a', 't', 'e'],
        "add_date="@ == seq!['a', 'd', 'd', '_', 'd', 'a', 't', 'e', '='],
        "<DL"@ == seq!['<', 'D', 'L'],
        "</DL"@ == seq!['<', '/', 'D', 'L'],
{
    reveal_strlit("<DT><A HREF=\"");
    reveal_strlit("</A>\n");
    reveal_strlit("<DT>");
    reveal_strlit("<A HREF=\"");
    reveal_strlit("\"");
    reveal_strlit(">");
    reveal_strlit("</A>");
    reveal_strlit(" ADD_DATE=\"");
    reveal_strlit("href");
    reveal_strlit("add_date");
    reveal_strlit("add_date=");
    reveal_strlit("<DL");
    reveal_strlit("</DL");
    assert("<DT><A HREF=\""@ =~= "<DT>"@ + "<A HREF=\""@);
    assert("</A>\n"@ =~= "</A>"@ + seq!['\n']);
    assert("<DT>"@ =~= seq!['<', 'D', 'T', '>']);
    assert("<A HREF=\""@ =~= seq!['<', 'A', ' ', 'H', 'R', 'E', 'F', '=', '"']);
    assert("\""@ =~= seq!['"']);
    assert(">"@ =~= seq!['>']);
    assert("</A>"@ =~= seq!['<', '/', 'A', '>']);
    assert(" ADD_DATE=\""@ =~= seq![' ', 'A', 'D', 'D', '_', 'D', 'A', 'T', 'E', '=', '"']);
    assert("href"@ =~= seq!['h', 'r', 'e', 'f']);
    assert("add_date"@ =~= seq!['a', 'd', 'd', '_', 'd', 'a', 't', 'e']);
    assert("add_date="@ =~= seq!['a', 'd', 'd', '_', 'd', 'a', 't', 'e', '=']);
    assert("<DL"@ =~= seq!['<', 'D', 'L']);
    assert("</DL"@ =~= seq!['<', '/', 'D', 'L']);
}

/// A bookmark's line is its indentation, its body and a line feed.
pub proof fn lemma_mark_line_shape(b: BookmarkView, ind: Seq<char>)
    ensures
        mark_line(b, ind) == ind + mark_body(b) + seq!['\n'],
{
    lemma_mark_literals();
    assert(mark_line(b, ind) =~= ind + mark_body(b) + seq!['\n']);
}

/// The characters of the date attribute: no `<`, `>` or line feed; its
/// only quotes open and close the value.
pub proof fn lemma_date_attr_chars(a: Option<i64>)
    ensures
        !date_attr(a).contains('<'),
        !date_attr(a).contains('>'),
        !date_attr(a).contains('\n'),
        lower(date_attr(a)) == date_attr(a).map_values(|c: char| ascii_lower(c)),
{
    lemma_mark_literals();
    match a {
        Some(ts) => {
            lemma_i64_text_chars(ts);
            let d = date_attr(a);
            assert forall|i: int| 0 <= i < d.len() implies d[i] != '<' && d[i] != '>' && d[i]
                != '\n' by {
                if 11 <= i < d.len() - 1 {
                    assert(d[i] == i64_text(ts)[i - 11]);
                }
            }
        },
        None => {},
    }
}

/// Digits and `-` are left alone by case folding.
proof fn lemma_lower_i64_text(ts: i64)
    ensures
        lower(i64_text(ts)) == i64_text(ts),
        !i64_text(ts).contains('"'),
{
    lemma_i64_text_chars(ts);
    assert(lower(i64_text(ts)) =~= i64_text(ts));
}

/// The anchor tag, case-folded.
proof fn lemma_lower_anchor_tag(b: BookmarkView)
    requires
        url_ok(b.url),
    ensures
        escape(b.url) == b.url,
        lower(anchor_tag(b)) == seq!['<', 'a', ' ', 'h', 'r', 'e', 'f', '=', '"'] + lower(b.url)
            + seq!['"'] + lower(date_attr(b.added)) + seq!['>'],
        b.added is None ==> lower(date_attr(b.added)) == Seq::<char>::empty(),
        b.added matches Some(ts) ==> lower(date_attr(b.added)) == seq![
            ' ',
            'a',
            'd',
            'd',
            '_',
            'd',
            'a',
            't',
            'e',
            '=',
            '"',
        ] + i64_text(ts) + seq!['"'],
{
    lemma_mark_literals();
    lemma_escape_noop(b.url);
    let t = anchor_tag(b);
    let p = seq!['<', 'A', ' ', 'H', 'R', 'E', 'F', '=', '"'];
    let d = date_attr(b.added);
    assert(t == p + b.url + seq!['"'] + d + seq!['>']);
    lemma_lower_concat(p + b.url + seq!['"'] + d, seq!['>']);
    lemma_lower_concat(p + b.url + seq!['"'], d);
    lemma_lower_concat(p + b.url, seq!['"']);
    lemma_lower_concat(p, b.url);
    assert(lower(p) =~= seq!['<', 'a', ' ', 'h', 'r', 'e', 'f', '=', '"']);
    assert(lower(seq!['"']) =~= seq!['"']);
    assert(lower(seq!['>']) =~= seq!['>']);
    match b.added {
        Some(ts) => {
            let q = seq![' ', 'A', 'D', 'D', '_', 'D', 'A', 'T', 'E', '=', '"'];
            assert(d == q + i64_text(ts) + seq!['"']);
            lemma_lower_concat(q + i64_text(ts), seq!['"']);
            lemma_lower_concat(q, i64_text(ts));
            lemma_lower_i64_text(ts);
            assert(lower(q) =~= seq![' ', 'a', 'd', 'd', '_', 'd', 'a', 't', 'e', '=', '"']);
        },
        None => {
            assert(lower(d) =~= Seq::<char>::empty());
        },
    }
}

/// The url is read back from the anchor tag.
proof fn lemma_href(b: BookmarkView)
    requires
        url_ok(b.url),
    ensures
        spec_extract_attr(anchor_tag(b), "href"@) == Some(b.url),
{
    lemma_mark_literals();
    lemma_lower_anchor_tag(b);
    let t = anchor_tag(b);
    let h = lower(t);
    let needle = lower("href"@) + seq!['=', '"'];
    assert(needle =~= seq!['h', 'r', 'e', 'f', '=', '"']);
    let after = lower(b.url) + seq!['"'] + lower(date_attr(b.added)) + seq!['>'];
    assert(h =~= seq!['<', 'a', ' '] + (needle + after));
    assert(!seq!['<', 'a', ' '].contains('h')) by {
        if seq!['<', 'a', ' '].contains('h') {
            let i = choose|i: int| 0 <= i < 3 && seq!['<', 'a', ' '][i] == 'h';
        }
    }
    lemma_find_after_prefix(seq!['<', 'a', ' '], needle + after, needle);
    lemma_find_at_front(needle, after);
    assert(find(h, needle) == Some(3int));
    assert(h.skip(9) =~= lower(b.url) + (seq!['"'] + lower(date_attr(b.added)) + seq!['>']));
    lemma_lower_contains(b.url, '"');
    lemma_find_char_concat(
        lower(b.url),
        seq!['"'] + lower(date_attr(b.added)) + seq!['>'],
        '"',
    );
    lemma_find_char_basic(seq!['"'] + lower(date_attr(b.added)) + seq!['>'], '"');
    assert(t.subrange(9, 9 + b.url.len() as int) =~= b.url);
}

/// The date is read back from the anchor tag.
proof fn lemma_add_date(b: BookmarkView)
    requires
        url_ok(b.url),
        date_ok(b),
    ensures
        (match spec_extract_attr(anchor_tag(b), "add_date"@) {
            Some(s) => crate::int_text::parse_i64(s),
            None => None,
        }) == b.added,
{
    lemma_mark_literals();
    lemma_lower_anchor_tag(b);
    let t = anchor_tag(b);
    let h = lower(t);
    let n = b.url.len() as int;
    let lu = lower(b.url);
    let needle = lower("add_date"@) + seq!['=', '"'];
    let w = seq!['a', 'd', 'd', '_', 'd', 'a', 't', 'e', '='];
    assert(needle =~= w + seq!['"']);
    lemma_lower_contains(b.url, '"');
    assert(forall|k: int| 0 <= k < lu.len() ==> lu[k] != '"');
    // where the quotes of the tag are
    let r = 11 + n;
    assert forall|k: int| 0 <= k < h.len() && h[k] == '"' && k < r + 9 implies k == 8 || k == 9
        + n by {
        if 9 <= k < 9 + n {
            assert(h[k] == lu[k - 9]);
        }
    }
    // before the attribute itself, a match can only end on the url's
    // closing quote, after a url ending in `add_date=`
    assert forall|j: int| 0 <= j < r && #[trigger] matches_at(h, needle, j) implies j == n
        && ends_with(lu, "add_date="@) by {
        let m = h.subrange(j, j + 10);
        assert(m[9] == '"');
        assert(h[j + 9] == '"');
        assert(j == n);
        if n >= 9 {
            assert(h.subrange(n, n + 9) =~= lu.skip(n - 9)) by {
                assert forall|q: int| 0 <= q < 9 implies #[trigger] h.subrange(n, n + 9)[q]
                    == lu.skip(n - 9)[q] by {
                    assert(h[n + q] == lu[n - 9 + q]);
                }
            }
            assert(m.take(9) =~= w);
            assert(h.subrange(n, n + 9) =~= m.take(9));
            assert(ends_with(lu, "add_date="@));
        } else {
            assert(m[8 - n] == h[8]);
            assert(w[8 - n] != '"');
        }
    }
    match b.added {
        None => {
            assert(h.len() == 11 + n);
            if matches_at(h, needle, n) {
                // the url ends in `add_date=`: the value found is not closed
                assert forall|j: int| 0 <= j < n implies !#[trigger] matches_at(h, needle, j) by {}
                lemma_find_from_at(h, needle, 0, n);
                assert(h.skip(n + 10) =~= seq!['>']);
                assert(find_char(seq!['>'], '"') is None) by {
                    assert forall|j: int| 0 <= j implies !#[trigger] matches_at(
                        seq!['>'],
                        seq!['"'],
                        j,
                    ) by {
                        if matches_at(seq!['>'], seq!['"'], j) {
                            assert(seq!['>'].subrange(j, j + 1)[0] == seq!['"'][0]);
                        }
                    }
                    lemma_find_from_none(seq!['>'], seq!['"'], 0);
                }
            } else {
                assert forall|j: int| 0 <= j implies !#[trigger] matches_at(h, needle, j) by {}
                lemma_find_from_none(h, needle, 0);
            }
        },
        Some(ts) => {
            assert forall|j: int| 0 <= j < r implies !#[trigger] matches_at(h, needle, j) by {}
            let digits = i64_text(ts);
            lemma_lower_i64_text(ts);
            assert(h.subrange(r, r + 10) =~= needle);
            lemma_find_from_at(h, needle, 0, r);
            let start = r + 10;
            assert(h.skip(start) =~= digits + seq!['"', '>']);
            lemma_find_char_concat(digits, seq!['"', '>'], '"');
            lemma_find_char_basic(seq!['"', '>'], '"');
            assert(t.subrange(start, start + digits.len()) =~= digits);
            lemma_parse_i64_text(ts);
        },
    }
}

/// The case-folded bookmark line, in pieces.
proof fn lemma_lower_mark_body(b: BookmarkView)
    requires
        writable(b),
    ensures
        lower(mark_body(b)) == seq!['<', 'd', 't', '>'] + lower(anchor_tag(b)) + lower(
            escape(b.title),
        ) + seq!['<', '/', 'a', '>'],
        !lower(escape(b.title)).contains('<'),
{
    lemma_mark_literals();
    let x = mark_body(b);
    let a = seq!['<', 'D', 'T', '>'];
    let c = seq!['<', '/', 'A', '>'];
    assert(x == a + anchor_tag(b) + escape(b.title) + c);
    lemma_lower_concat(a + anchor_tag(b) + escape(b.title), c);
    lemma_lower_concat(a + anchor_tag(b), escape(b.title));
    lemma_lower_concat(a, anchor_tag(b));
    assert(lower(a) =~= seq!['<', 'd', 't', '>']);
    assert(lower(c) =~= seq!['<', '/', 'a', '>']);
    lemma_escape_chars(b.title);
    lemma_lower_contains(escape(b.title), '<');
}

/// The anchor of a bookmark line is its tag and escaped title.
proof fn lemma_mark_anchor(b: BookmarkView)
    requires
        writable(b),
    ensures
        spec_extract_anchor(mark_body(b)) == Some((anchor_tag(b), escape(b.title))),
{
    lemma_mark_literals();
    lemma_lower_mark_body(b);
    lemma_lower_anchor_tag(b);
    lemma_date_attr_chars(b.added);
    let x = mark_body(b);
    let lw = lower(x);
    let t = anchor_tag(b);
    let et = escape(b.title);
    let n = seq!['<', 'a', ' '];
    // the anchor's opening tag starts at 4
    assert(lw.subrange(4, 7) =~= n);
    assert forall|j: int| 0 <= j < 4 implies !#[trigger] matches_at(lw, n, j) by {
        if matches_at(lw, n, j) {
            let m = lw.subrange(j, j + 3);
            assert(m[0] == '<' && m[1] == 'a');
            assert(lw[j] == '<' && lw[j + 1] == 'a');
        }
    }
    lemma_find_from_at(lw, n, 0, 4);
    // it ends at the first `>`
    let t0 = seq!['<', 'A', ' ', 'H', 'R', 'E', 'F', '=', '"'] + b.url + seq!['"'] + date_attr(
        b.added,
    );
    assert(t == t0 + seq!['>']);
    assert(!t0.contains('>')) by {
        if t0.contains('>') {
            let i = choose|i: int| 0 <= i < t0.len() && t0[i] == '>';
            if 9 <= i < 9 + b.url.len() {
                assert(b.url[i - 9] == '>');
            } else if 10 + b.url.len() <= i {
                assert(date_attr(b.added)[i - 10 - b.url.len()] == '>');
            }
        }
    }
    let after = seq!['>'] + et + seq!['<', '/', 'A', '>'];
    assert(x.skip(4) =~= t0 + after);
    lemma_find_char_concat(t0, after, '>');
    lemma_find_char_basic(after, '>');
    let te: int = 4 + t0.len() as int;
    assert(x.subrange(4, te + 1) =~= t);
    // the text runs to the closing tag
    let ts: int = te + 1;
    let close = seq!['<', '/', 'a', '>'];
    assert(lw.skip(ts) =~= lower(et) + close);
    lemma_find_after_prefix(lower(et), close, close);
    assert(close =~= close + Seq::<char>::empty());
    lemma_find_at_front(close, Seq::<char>::empty());
    assert(x.subrange(ts, ts + et.len() as int) =~= et);
}

/// A bookmark line has no folder heading.
proof fn lemma_mark_no_heading(b: BookmarkView)
    requires
        writable(b),
    ensures
        spec_extract_tag_text(mark_body(b), "H3"@) is None,
{
    lemma_mark_literals();
    lemma_lower_mark_body(b);
    lemma_lower_anchor_tag(b);
    lemma_date_attr_chars(b.added);
    lemma_lower_contains(b.url, '<');
    lemma_lower_contains(date_attr(b.added), '<');
    let lw = lower(mark_body(b));
    let lu = lower(b.url);
    let ld = lower(date_attr(b.added));
    let le = lower(escape(b.title));
    let mid = seq!['a', ' ', 'h', 'r', 'e', 'f', '=', '"'] + lu + seq!['"'] + ld + seq!['>'] + le;
    assert(!mid.contains('<')) by {
        if mid.contains('<') {
            let i = choose|i: int| 0 <= i < mid.len() && mid[i] == '<';
            if 8 <= i < 8 + lu.len() {
                assert(lu[i - 8] == '<');
            } else if 9 + lu.len() <= i < 9 + lu.len() + ld.len() {
                assert(ld[i - 9 - lu.len()] == '<');
            } else if 10 + lu.len() + ld.len() <= i {
                assert(le[i - 10 - lu.len() - ld.len()] == '<');
            }
        }
    }
    assert(lw =~= seq!['<', 'd', 't', '>', '<'] + mid + seq!['<', '/', 'a', '>']);
    let needle = seq!['<', 'h', '3'];
    assert forall|j: int| 0 <= j && j + 2 < lw.len() implies !(#[trigger] lw[j] == needle[0]
        && lw[j + 1] == needle[1] && lw[j + 2] == needle[2]) by {
        if 5 <= j < 5 + mid.len() {
            assert(lw[j] == mid[j - 5]);
        }
    }
    lemma_no_match3(lw, needle);
    lemma_h3_needle();
}

/// Reading a bookmark line in the folder it was written in gives the
/// bookmark back.
proof fn lemma_mark_step(st: ParseState, b: BookmarkView)
    requires
        writable(b),
        st.stack == b.folder,
    ensures
        netscape_step(st, mark_body(b)) == (ParseState { bookmarks: st.bookmarks.push(b), ..st }),
{
    lemma_mark_literals();
    lemma_mark_no_heading(b);
    lemma_mark_anchor(b);
    lemma_href(b);
    lemma_add_date(b);
    lemma_unescape_escape(b.title);
    let x = mark_body(b);
    assert(x[1] == 'D' && x[2] == 'T');
    assert(x.take(3) != "<DL"@) by {
        assert(x.take(3)[2] != "<DL"@[2]);
    }
    assert(x.take(4) != "</DL"@) by {
        assert(x.take(4)[1] != "</DL"@[1]);
    }
}

// ---------------------------------------------------------------------
// Folder lines
// ---------------------------------------------------------------------

/// A folder's heading line without indentation and line feed.
pub open spec fn heading_body(name: Seq<char>) -> Seq<char> {
    "<DT><H3>"@ + escape(name) + "</H3>"@
}

/// The fixed pieces of a folder heading, character by character.
pub proof fn lemma_folder_literals()
    ensures
        "<DT><H3>"@ == seq!['<', 'D', 'T', '>', '<', 'H', '3', '>'],
        "</H3>"@ == seq!['<', '/', 'H', '3', '>'],
        "</H3>\n"@ == "</H3>"@ + seq!['\n'],
        "    "@ == seq![' ', ' ', ' ', ' '],
        seq!['<', '/'] + lower("H3"@) + seq!['>'] == seq!['<', '/', 'h', '3', '>'],
{
    reveal_strlit("<DT><H3>");
    reveal_strlit("</H3>");
    reveal_strlit("</H3>\n");
    reveal_strlit("    ");
    reveal_strlit("H3");
    assert("<DT><H3>"@ =~= seq!['<', 'D', 'T', '>', '<', 'H', '3', '>']);
    assert("</H3>"@ =~= seq!['<', '/', 'H', '3', '>']);
    assert("</H3>\n"@ =~= "</H3>"@ + seq!['\n']);
    assert("    "@ =~= seq![' ', ' ', ' ', ' ']);
    assert(seq!['<', '/'] + lower("H3"@) + seq!['>'] =~= seq!['<', '/', 'h', '3', '>']);
}

/// Reading a folder's heading line makes its name the pending folder.
proof fn lemma_heading_step(st: ParseState, name: Seq<char>)
    ensures
        netscape_step(st, heading_body(name)) == (ParseState { pending: Some(name), ..st }),
{
    lemma_folder_literals();
    lemma_h3_needle();
    let x = heading_body(name);
    let e = escape(name);
    let c = seq!['<', '/', 'H', '3', '>'];
    assert(x == seq!['<', 'D', 'T', '>', '<', 'H', '3', '>'] + e + c);
    let lw = lower(x);
    lemma_lower_concat(seq!['<', 'D', 'T', '>', '<', 'H', '3', '>'] + e, c);
    lemma_lower_concat(seq!['<', 'D', 'T', '>', '<', 'H', '3', '>'], e);
    assert(lower(seq!['<', 'D', 'T', '>', '<', 'H', '3', '>']) =~= seq![
        '<',
        'd',
        't',
        '>',
        '<',
        'h',
        '3',
        '>',
    ]);
    assert(lower(c) =~= seq!['<', '/', 'h', '3', '>']);
    let n = seq!['<', 'h', '3'];
    assert(lw.subrange(4, 7) =~= n);
    assert forall|j: int| 0 <= j < 4 implies !#[trigger] matches_at(lw, n, j) by {
        if matches_at(lw, n, j) {
            let m = lw.subrange(j, j + 3);
            assert(m[0] == '<' && m[1] == 'h');
            assert(lw[j] == '<' && lw[j + 1] == 'h');
        }
    }
    lemma_find_from_at(lw, n, 0, 4);
    assert(x.skip(4) =~= seq!['<', 'H', '3'] + (seq!['>'] + e + c));
    assert(!seq!['<', 'H', '3'].contains('>')) by {
        if seq!['<', 'H', '3'].contains('>') {
            let i = choose|i: int| 0 <= i < 3 && seq!['<', 'H', '3'][i] == '>';
        }
    }
    lemma_find_char_concat(seq!['<', 'H', '3'], seq!['>'] + e + c, '>');
    lemma_find_char_basic(seq!['>'] + e + c, '>');
    let close = seq!['<', '/', 'h', '3', '>'];
    lemma_escape_chars(name);
    lemma_lower_contains(e, '<');
    assert(lw.skip(8) =~= lower(e) + close);
    lemma_find_after_prefix(lower(e), close, close);
    assert(close =~= close + Seq::<char>::empty());
    lemma_find_at_front(close, Seq::<char>::empty());
    assert(x.subrange(8, 8 + e.len() as int) =~= e);
    lemma_unescape_escape(name);
}

// ---------------------------------------------------------------------
// The folder tree
// ---------------------------------------------------------------------

/// The bookmarks of a level of the tree, in the order they are written.
pub open spec fn flat(es: Seq<EntryModel>) -> Seq<int>
    decreases es,
{
    if es.len() == 0 {
        Seq::empty()
    } else {
        flat_entry(es[0]) + flat(es.drop_first())
    }
}

pub open spec fn flat_entry(e: EntryModel) -> Seq<int>
    decreases e,
{
    match e {
        EntryModel::Mark(i) => seq![i],
        EntryModel::Folder(_, cs) => flat(cs),
    }
}

/// Every bookmark of a level is filed under `path` and can be written, and
/// every folder's name can be written and its contents are filed under it.
pub open spec fn filed(es: Seq<EntryModel>, bs: Seq<BookmarkView>, path: Seq<Seq<char>>) -> bool
    decreases es,
{
    forall|k: int| 0 <= k < es.len() ==> entry_filed(#[trigger] es[k], bs, path)
}

pub open spec fn entry_filed(e: EntryModel, bs: Seq<BookmarkView>, path: Seq<Seq<char>>) -> bool
    decreases e,
{
    match e {
        EntryModel::Mark(i) => 0 <= i < bs.len() && bs[i].folder == path && writable(bs[i]),
        EntryModel::Folder(name, cs) => text_ok(name) && filed(cs, bs, path.push(name)),
    }
}

/// The body of the line of a bookmark whose title and url hold no line
/// feed is one line, from `<` to `>`.
pub proof fn lemma_mark_body_shape(b: BookmarkView)
    requires
        text_ok(b.title),
        text_ok(b.url),
    ensures
        mark_body(b).len() > 0,
        !mark_body(b).contains('\n'),
        mark_body(b)[0] == '<',
        mark_body(b).last() == '>',
{
    lemma_mark_literals();
    lemma_date_attr_chars(b.added);
    lemma_escape_chars(b.title);
    lemma_escape_chars(b.url);
    let x = mark_body(b);
    let u = escape(b.url);
    let d = date_attr(b.added);
    let et = escape(b.title);
    assert(x == seq!['<', 'D', 'T', '>', '<', 'A', ' ', 'H', 'R', 'E', 'F', '=', '"'] + u
        + seq!['"'] + d + seq!['>'] + et + seq!['<', '/', 'A', '>']);
    assert(!x.contains('\n')) by {
        if x.contains('\n') {
            let i = choose|i: int| 0 <= i < x.len() && x[i] == '\n';
            let a = 13 + u.len();
            let c = a + 1 + d.len() + 1;
            if 13 <= i < a {
                assert(u[i - 13] == '\n');
                assert(u.contains('\n'));
            } else if a + 1 <= i < a + 1 + d.len() {
                assert(d[i - a - 1] == '\n');
            } else if c <= i < c + et.len() {
                assert(et[i - c] == '\n');
                assert(et.contains('\n'));
            }
        }
    }
}

proof fn lemma_escape_noop_url(b: BookmarkView)
    requires
        url_ok(b.url),
    ensures
        escape(b.url) == b.url,
{
    lemma_escape_noop(b.url);
}

/// The body of a heading line is one line, from `<` to `>`.
pub proof fn lemma_heading_shape(name: Seq<char>)
    requires
        text_ok(name),
    ensures
        heading_body(name).len() > 0,
        !heading_body(name).contains('\n'),
        heading_body(name)[0] == '<',
        heading_body(name).last() == '>',
{
    lemma_folder_literals();
    lemma_escape_chars(name);
    let x = heading_body(name);
    let e = escape(name);
    assert(x == seq!['<', 'D', 'T', '>', '<', 'H', '3', '>'] + e + seq!['<', '/', 'H', '3', '>']);
    assert(!x.contains('\n')) by {
        if x.contains('\n') {
            let i = choose|i: int| 0 <= i < x.len() && x[i] == '\n';
            if 8 <= i < 8 + e.len() {
                assert(e[i - 8] == '\n');
                assert(e.contains('\n'));
            }
        }
    }
}

proof fn lemma_folder_text(name: Seq<char>, cs: Seq<EntryModel>, bs: Seq<BookmarkView>, ind: Seq<char>)
    ensures
        entry_text(EntryModel::Folder(name, cs), bs, ind) == ind + heading_body(name) + seq!['\n']
            + ind + "<DL><p>"@ + seq!['\n'] + entries_text(cs, bs, ind + "    "@) + ind
            + "</DL><p>"@ + seq!['\n'],
{
    lemma_folder_literals();
    lemma_dl_lines();
    assert(entry_text(EntryModel::Folder(name, cs), bs, ind) =~= ind + heading_body(name) + seq![
        '\n',
    ] + ind + "<DL><p>"@ + seq!['\n'] + entries_text(cs, bs, ind + "    "@) + ind + "</DL><p>"@
        + seq!['\n']);
}

/// Reading the lines of a level of the tree, written with any indentation,
/// in the folder that level stands for, gives its bookmarks in order and
/// leaves the open folders as they were.
proof fn lemma_entries_run(
    es: Seq<EntryModel>,
    bs: Seq<BookmarkView>,
    ind: Seq<char>,
    rest: Seq<char>,
    st: ParseState,
)
    requires
        all_spaces(ind),
        filed(es, bs, st.stack),
        st.pending is None,
    ensures
        netscape_run(lines(entries_text(es, bs, ind) + rest), st) == netscape_run(
            lines(rest),
            ParseState { bookmarks: st.bookmarks + flat(es).map_values(|i: int| bs[i]), ..st },
        ),
    decreases es,
{
    if es.len() == 0 {
        assert(entries_text(es, bs, ind) + rest =~= rest);
        assert(st.bookmarks + flat(es).map_values(|i: int| bs[i]) =~= st.bookmarks);
    } else {
        let e = es[0];
        let tail = es.drop_first();
        assert(entry_filed(es[0], bs, st.stack));
        assert(filed(tail, bs, st.stack)) by {
            assert forall|k: int| 0 <= k < tail.len() implies entry_filed(
                #[trigger] tail[k],
                bs,
                st.stack,
            ) by {
                assert(tail[k] == es[k + 1]);
            }
        }
        let r1 = entries_text(tail, bs, ind) + rest;
        assert(entries_text(es, bs, ind) + rest =~= entry_text(e, bs, ind) + r1);
        lemma_entry_run(e, bs, ind, r1, st);
        let st1 = ParseState {
            bookmarks: st.bookmarks + flat_entry(e).map_values(|i: int| bs[i]),
            ..st
        };
        lemma_entries_run(tail, bs, ind, rest, st1);
        assert(st1.bookmarks + flat(tail).map_values(|i: int| bs[i]) =~= st.bookmarks + flat(
            es,
        ).map_values(|i: int| bs[i]));
    }
}

proof fn lemma_entry_run(
    e: EntryModel,
    bs: Seq<BookmarkView>,
    ind: Seq<char>,
    rest: Seq<char>,
    st: ParseState,
)
    requires
        all_spaces(ind),
        entry_filed(e, bs, st.stack),
        st.pending is None,
    ensures
        netscape_run(lines(entry_text(e, bs, ind) + rest), st) == netscape_run(
            lines(rest),
            ParseState { bookmarks: st.bookmarks + flat_entry(e).map_values(|i: int| bs[i]), ..st },
        ),
    decreases e,
{
    match e {
        EntryModel::Mark(i) => {
            let b = bs[i];
            lemma_mark_line_shape(b, ind);
            lemma_mark_body_shape(b);
            assert(entry_text(e, bs, ind) + rest =~= ind + mark_body(b) + seq!['\n'] + rest);
            lemma_run_line(ind, mark_body(b), rest, st);
            lemma_mark_step(st, b);
            assert(st.bookmarks.push(b) =~= st.bookmarks + flat_entry(e).map_values(
                |i: int| bs[i],
            ));
        },
        EntryModel::Folder(name, cs) => {
            lemma_folder_text(name, cs, bs, ind);
            lemma_heading_shape(name);
            lemma_dl_lines();
            lemma_folder_literals();
            let deeper = ind + "    "@;
            assert(all_spaces(deeper));
            let r3 = ind + "</DL><p>"@ + seq!['\n'] + rest;
            let r2 = entries_text(cs, bs, deeper) + r3;
            let r1 = ind + "<DL><p>"@ + seq!['\n'] + r2;
            assert(entry_text(e, bs, ind) + rest =~= ind + heading_body(name) + seq!['\n'] + r1);
            // the heading
            lemma_run_line(ind, heading_body(name), r1, st);
            lemma_heading_step(st, name);
            let st_a = ParseState { pending: Some(name), ..st };
            // the opening of its list
            lemma_run_line(ind, "<DL><p>"@, r2, st_a);
            lemma_no_heading_no_anchor("<DL><p>"@, st_a.stack);
            let st_b = ParseState { stack: st.stack.push(name), pending: None, ..st };
            assert(netscape_step(st_a, "<DL><p>"@) == st_b);
            // its contents
            lemma_entries_run(cs, bs, deeper, r3, st_b);
            let st_c = ParseState {
                bookmarks: st.bookmarks + flat(cs).map_values(|i: int| bs[i]),
                ..st_b
            };
            // the closing of its list
            lemma_run_line(ind, "</DL><p>"@, rest, st_c);
            lemma_no_heading_no_anchor("</DL><p>"@, st_c.stack);
            assert(st_c.stack.drop_last() =~= st.stack);
        },
    }
}

/// Filing a bookmark keeps the tree filed.
proof fn lemma_insert_filed(
    es: Seq<EntryModel>,
    path: Seq<Seq<char>>,
    idx: int,
    bs: Seq<BookmarkView>,
    prefix: Seq<Seq<char>>,
)
    requires
        filed(es, bs, prefix),
        0 <= idx < bs.len(),
        bs[idx].folder == prefix + path,
        writable(bs[idx]),
    ensures
        filed(insert_at(es, path, idx), bs, prefix),
    decreases path.len(),
{
    let res = insert_at(es, path, idx);
    if path.len() == 0 {
        assert(prefix + path =~= prefix);
        assert forall|k: int| 0 <= k < res.len() implies entry_filed(#[trigger] res[k], bs, prefix) by {
            if k < es.len() {
                assert(res[k] == es[k]);
            }
        }
    } else {
        let name = path[0];
        assert(bs[idx].folder[prefix.len() as int] == name);
        assert(text_ok(name));
        let deeper = prefix.push(name);
        assert(bs[idx].folder =~= deeper + path.drop_first());
        crate::netscape::lemma_folder_position(es, name);
        match crate::netscape::folder_position(es, name) {
            Some(k) => {
                assert(entry_filed(es[k], bs, prefix));
                let cs = crate::netscape::children(es[k]);
                lemma_insert_filed(cs, path.drop_first(), idx, bs, deeper);
                assert forall|q: int| 0 <= q < res.len() implies entry_filed(
                    #[trigger] res[q],
                    bs,
                    prefix,
                ) by {
                    if q != k {
                        assert(res[q] == es[q]);
                    }
                }
            },
            None => {
                let empty = Seq::<EntryModel>::empty();
                assert(filed(empty, bs, deeper));
                lemma_insert_filed(empty, path.drop_first(), idx, bs, deeper);
                assert forall|q: int| 0 <= q < res.len() implies entry_filed(
                    #[trigger] res[q],
                    bs,
                    prefix,
                ) by {
                    if q < es.len() {
                        assert(res[q] == es[q]);
                    }
                }
            },
        }
    }
}

/// Every bookmark of the first `n`, written in the tree, stands at the level
/// of its folder path, and every folder's name can be written.
pub proof fn lemma_build_filed(bs: Seq<BookmarkView>, n: int)
    requires
        0 <= n <= bs.len(),
        forall|i: int| 0 <= i < bs.len() ==> writable(#[trigger] bs[i]),
    ensures
        filed(crate::netscape::build_tree_prefix(bs, n), bs, Seq::empty()),
    decreases n,
{
    if n > 0 {
        lemma_build_filed(bs, n - 1);
        assert(Seq::<Seq<char>>::empty() + bs[n - 1].folder =~= bs[n - 1].folder);
        lemma_insert_filed(
            crate::netscape::build_tree_prefix(bs, n - 1),
            bs[n - 1].folder,
            n - 1,
            bs,
            Seq::empty(),
        );
    }
}

/// The bookmarks in the order a written file lists them: grouped into the
/// folder tree, each folder where its first bookmark appeared.
pub open spec fn tree_order(bs: Seq<BookmarkView>) -> Seq<BookmarkView> {
    flat(build_tree(bs)).map_values(|i: int| bs[i])
}

/// Reading back a written Netscape file gives every bookmark back with its
/// title, url, folder path and date, in the file's folder-grouped order:
/// `parse_netscape(&write_netscape(bs))` is `tree_order(bs)`, for bookmarks
/// whose texts hold no line feed and whose urls hold nothing that is
/// escaped on writing and, for a dated bookmark, do not end in `add_date=`.
pub proof fn lemma_netscape_round_trip(bs: Seq<BookmarkView>)
    requires
        forall|i: int| 0 <= i < bs.len() ==> writable(#[trigger] bs[i]),
    ensures
        parse_netscape_spec(netscape_text(bs)) == tree_order(bs),
{
    let tree = build_tree(bs);
    let ind = "    "@;
    lemma_folder_literals();
    lemma_dl_lines();
    let tail = "</DL><p>"@ + seq!['\n'];
    let body = entries_text(tree, bs, ind) + tail;
    assert(netscape_text(bs) =~= netscape_header() + body);
    lemma_header_run(body);
    lemma_build_filed(bs, bs.len() as int);
    let st0 = parse_start();
    lemma_entries_run(tree, bs, ind, tail, st0);
    let st1 = ParseState {
        bookmarks: st0.bookmarks + flat(tree).map_values(|i: int| bs[i]),
        ..st0
    };
    let e = Seq::<char>::empty();
    assert(e + "</DL><p>"@ + seq!['\n'] + e =~= tail);
    assert(all_spaces(e));
    lemma_run_line(e, "</DL><p>"@, e, st1);
    lemma_no_heading_no_anchor("</DL><p>"@, st1.stack);
    assert(lines(e) =~= Seq::<Seq<char>>::empty());
    assert(st0.bookmarks + flat(tree).map_values(|i: int| bs[i]) =~= tree_order(bs));
}

// ---------------------------------------------------------------------
// Every bookmark is written once
// ---------------------------------------------------------------------

proof fn lemma_flat_concat(a: Seq<EntryModel>, b: Seq<EntryModel>)
    ensures
        flat(a + b) == flat(a) + flat(b),
    decreases a.len(),
{
    if a.len() == 0 {
        assert(a + b =~= b);
        assert(flat(a) + flat(b) =~= flat(b));
    } else {
        assert((a + b).drop_first() =~= a.drop_first() + b);
        assert((a + b)[0] == a[0]);
        lemma_flat_concat(a.drop_first(), b);
        assert(flat_entry(a[0]) + (flat(a.drop_first()) + flat(b)) =~= flat(a) + flat(b));
    }
}

/// The bookmarks of a level: those before entry `k`, those of `k`, those
/// after it.
pub proof fn lemma_flat_around(es: Seq<EntryModel>, k: int)
    requires
        0 <= k < es.len(),
    ensures
        flat(es) == flat(es.take(k)) + flat_entry(es[k]) + flat(es.skip(k + 1)),
{
    let rest = es.skip(k);
    assert(es =~= es.take(k) + rest);
    lemma_flat_concat(es.take(k), rest);
    assert(rest[0] == es[k]);
    assert(rest.drop_first() =~= es.skip(k + 1));
    assert(flat(es.take(k)) + (flat_entry(es[k]) + flat(es.skip(k + 1))) =~= flat(es.take(k))
        + flat_entry(es[k]) + flat(es.skip(k + 1)));
}

/// Filing a bookmark adds its index, and nothing else, to those written.
proof fn lemma_insert_flat(es: Seq<EntryModel>, path: Seq<Seq<char>>, idx: int)
    ensures
        flat(insert_at(es, path, idx)).to_multiset() == flat(es).to_multiset().insert(idx),
    decreases path.len(),
{
    broadcast use vstd::seq_lib::group_to_multiset_ensures;
    broadcast use vstd::multiset::group_multiset_axioms;

    let res = insert_at(es, path, idx);
    if path.len() == 0 {
        lemma_flat_concat(es, seq![EntryModel::Mark(idx)]);
        assert(es.push(EntryModel::Mark(idx)) =~= es + seq![EntryModel::Mark(idx)]);
        let one = seq![EntryModel::Mark(idx)];
        assert(one.drop_first() =~= Seq::<EntryModel>::empty());
        assert(flat(one.drop_first()) =~= Seq::<int>::empty());
        assert(flat_entry(one[0]) =~= seq![idx]);
        assert(flat(one) =~= seq![idx]);
        assert(flat(es) + seq![idx] =~= flat(es).push(idx));
    } else {
        let name = path[0];
        crate::netscape::lemma_folder_position(es, name);
        match crate::netscape::folder_position(es, name) {
            Some(k) => {
                let cs = crate::netscape::children(es[k]);
                let e2 = EntryModel::Folder(name, insert_at(cs, path.drop_first(), idx));
                lemma_insert_flat(cs, path.drop_first(), idx);
                lemma_flat_around(es, k);
                lemma_flat_around(res, k);
                assert(res.take(k) =~= es.take(k));
                assert(res.skip(k + 1) =~= es.skip(k + 1));
                let a = flat(es.take(k));
                let b = flat(es.skip(k + 1));
                vstd::seq_lib::lemma_multiset_commutative(a + flat(cs), b);
                vstd::seq_lib::lemma_multiset_commutative(a, flat(cs));
                vstd::seq_lib::lemma_multiset_commutative(a + flat_entry(e2), b);
                vstd::seq_lib::lemma_multiset_commutative(a, flat_entry(e2));
                assert(flat(res).to_multiset() =~= flat(es).to_multiset().insert(idx));
            },
            None => {
                let e2 = EntryModel::Folder(
                    name,
                    insert_at(Seq::empty(), path.drop_first(), idx),
                );
                lemma_insert_flat(Seq::empty(), path.drop_first(), idx);
                assert(flat(Seq::<EntryModel>::empty()) =~= Seq::<int>::empty());
                assert(res =~= es + seq![e2]);
                lemma_flat_concat(es, seq![e2]);
                assert(seq![e2].drop_first() =~= Seq::<EntryModel>::empty());
                assert(flat(seq![e2]) =~= flat_entry(e2) + Seq::<int>::empty());
                vstd::seq_lib::lemma_multiset_commutative(flat(es), flat_entry(e2));
                assert(flat(res).to_multiset() =~= flat(es).to_multiset().insert(idx));
            },
        }
    }
}

/// The tree of the first `n` bookmarks lists each of `0..n` once.
pub proof fn lemma_build_flat(bs: Seq<BookmarkView>, n: int)
    requires
        0 <= n <= bs.len(),
    ensures
        flat(crate::netscape::build_tree_prefix(bs, n)).to_multiset() == Seq::new(
            n as nat,
            |i: int| i,
        ).to_multiset(),
    decreases n,
{
    broadcast use vstd::seq_lib::group_to_multiset_ensures;

    if n == 0 {
        assert(flat(Seq::<EntryModel>::empty()) =~= Seq::<int>::empty());
        assert(Seq::new(0, |i: int| i) =~= Seq::<int>::empty());
    } else {
        lemma_build_flat(bs, n - 1);
        lemma_insert_flat(
            crate::netscape::build_tree_prefix(bs, n - 1),
            bs[n - 1].folder,
            n - 1,
        );
        assert(Seq::new(n as nat, |i: int| i) =~= Seq::new((n - 1) as nat, |i: int| i).push(
            n - 1,
        ));
    }
}

/// A written file lists every bookmark exactly once: the order in which
/// the folder tree holds the bookmarks is a rearrangement of `0..n`.
pub proof fn lemma_tree_order_permutes(bs: Seq<BookmarkView>)
    ensures
        flat(build_tree(bs)).to_multiset() == Seq::new(bs.len(), |i: int| i).to_multiset(),
{
    lemma_build_flat(bs, bs.len() as int);
}

// ---------------------------------------------------------------------
// One folder per path
// ---------------------------------------------------------------------

/// The name of a folder entry.
pub open spec fn folder_name(e: EntryModel) -> Option<Seq<char>> {
    match e {
        EntryModel::Folder(name, _) => Some(name),
        EntryModel::Mark(_) => None,
    }
}

/// No level of the tree holds two folders of the same name.
pub open spec fn distinct_folders(es: Seq<EntryModel>) -> bool
    decreases es,
{
    &&& forall|a: int, b: int|
        0 <= a < es.len() && 0 <= b < es.len() && #[trigger] folder_name(es[a]) is Some
            && #[trigger] folder_name(es[b]) == folder_name(es[a]) ==> a == b
    &&& forall|k: int| 0 <= k < es.len() ==> entry_distinct(#[trigger] es[k])
}

pub open spec fn entry_distinct(e: EntryModel) -> bool
    decreases e,
{
    match e {
        EntryModel::Mark(_) => true,
        EntryModel::Folder(_, cs) => distinct_folders(cs),
    }
}

pub proof fn lemma_folder_position_none(es: Seq<EntryModel>, name: Seq<char>, k: int)
    requires
        0 <= k,
        crate::netscape::folder_position_from(es, name, k) is None,
    ensures
        forall|q: int| k <= q < es.len() ==> folder_name(#[trigger] es[q]) != Some(name),
    decreases es.len() - k,
{
    if k < es.len() {
        lemma_folder_position_none(es, name, k + 1);
    }
}

/// Filing a bookmark never makes a second folder of a name.
proof fn lemma_insert_distinct(es: Seq<EntryModel>, path: Seq<Seq<char>>, idx: int)
    requires
        distinct_folders(es),
    ensures
        distinct_folders(insert_at(es, path, idx)),
    decreases path.len(),
{
    let res = insert_at(es, path, idx);
    if path.len() == 0 {
        assert forall|a: int, b: int|
            0 <= a < res.len() && 0 <= b < res.len() && #[trigger] folder_name(res[a]) is Some
                && #[trigger] folder_name(res[b]) == folder_name(res[a]) implies a == b by {
            if a < es.len() && b < es.len() {
                assert(res[a] == es[a] && res[b] == es[b]);
            }
        }
        assert forall|k: int| 0 <= k < res.len() implies entry_distinct(#[trigger] res[k]) by {
            if k < es.len() {
                assert(res[k] == es[k]);
            }
        }
    } else {
        let name = path[0];
        crate::netscape::lemma_folder_position(es, name);
        match crate::netscape::folder_position(es, name) {
            Some(k) => {
                let cs = crate::netscape::children(es[k]);
                assert(entry_distinct(es[k]));
                lemma_insert_distinct(cs, path.drop_first(), idx);
                assert forall|a: int, b: int|
                    0 <= a < res.len() && 0 <= b < res.len() && #[trigger] folder_name(res[a])
                        is Some && #[trigger] folder_name(res[b]) == folder_name(res[a]) implies a
                    == b by {
                    assert(folder_name(res[a]) == folder_name(es[a]));
                    assert(folder_name(res[b]) == folder_name(es[b]));
                }
                assert forall|q: int| 0 <= q < res.len() implies entry_distinct(#[trigger] res[q]) by {
                    if q != k {
                        assert(res[q] == es[q]);
                    }
                }
            },
            None => {
                lemma_folder_position_none(es, name, 0);
                let empty = Seq::<EntryModel>::empty();
                lemma_insert_distinct(empty, path.drop_first(), idx);
                assert forall|a: int, b: int|
                    0 <= a < res.len() && 0 <= b < res.len() && #[trigger] folder_name(res[a])
                        is Some && #[trigger] folder_name(res[b]) == folder_name(res[a]) implies a
                    == b by {
                    if a < es.len() {
                        assert(res[a] == es[a]);
                    }
                    if b < es.len() {
                        assert(res[b] == es[b]);
                    }
                }
                assert forall|q: int| 0 <= q < res.len() implies entry_distinct(#[trigger] res[q]) by {
                    if q < es.len() {
                        assert(res[q] == es[q]);
                    }
                }
            },
        }
    }
}

/// No level of the tree of the first `n` bookmarks holds two folders of one
/// name.
pub proof fn lemma_build_distinct(bs: Seq<BookmarkView>, n: int)
    requires
        0 <= n <= bs.len(),
    ensures
        distinct_folders(crate::netscape::build_tree_prefix(bs, n)),
    decreases n,
{
    if n > 0 {
        lemma_build_distinct(bs, n - 1);
        lemma_insert_distinct(crate::netscape::build_tree_prefix(bs, n - 1), bs[n - 1].folder, n - 1);
    }
}

/// Bookmarks of the same folder path end up in one folder: no level of the
/// written tree holds two folders of the same name.
pub proof fn lemma_one_folder_per_path(bs: Seq<BookmarkView>)
    ensures
        distinct_folders(build_tree(bs)),
{
    lemma_build_distinct(bs, bs.len() as int);
}

// ---------------------------------------------------------------------
// Order within a folder is kept
// ---------------------------------------------------------------------

/// Every bookmark of a level is in range and filed under `path`, and every
/// folder's contents are filed under it.
pub open spec fn placed(es: Seq<EntryModel>, bs: Seq<BookmarkView>, path: Seq<Seq<char>>) -> bool
    decreases es,
{
    forall|k: int| 0 <= k < es.len() ==> entry_placed(#[trigger] es[k], bs, path)
}

pub open spec fn entry_placed(e: EntryModel, bs: Seq<BookmarkView>, path: Seq<Seq<char>>) -> bool
    decreases e,
{
    match e {
        EntryModel::Mark(i) => 0 <= i < bs.len() && bs[i].folder == path,
        EntryModel::Folder(name, cs) => placed(cs, bs, path.push(name)),
    }
}

proof fn lemma_insert_placed(
    es: Seq<EntryModel>,
    path: Seq<Seq<char>>,
    idx: int,
    bs: Seq<BookmarkView>,
    prefix: Seq<Seq<char>>,
)
    requires
        placed(es, bs, prefix),
        0 <= idx < bs.len(),
        bs[idx].folder == prefix + path,
    ensures
        placed(insert_at(es, path, idx), bs, prefix),
    decreases path.len(),
{
    let res = insert_at(es, path, idx);
    if path.len() == 0 {
        assert(prefix + path =~= prefix);
        assert forall|k: int| 0 <= k < res.len() implies entry_placed(#[trigger] res[k], bs, prefix) by {
            if k < es.len() {
                assert(res[k] == es[k]);
            }
        }
    } else {
        let name = path[0];
        let deeper = prefix.push(name);
        assert(bs[idx].folder =~= deeper + path.drop_first());
        crate::netscape::lemma_folder_position(es, name);
        match crate::netscape::folder_position(es, name) {
            Some(k) => {
                assert(entry_placed(es[k], bs, prefix));
                lemma_insert_placed(
                    crate::netscape::children(es[k]),
                    path.drop_first(),
                    idx,
                    bs,
                    deeper,
                );
                assert forall|q: int| 0 <= q < res.len() implies entry_placed(
                    #[trigger] res[q],
                    bs,
                    prefix,
                ) by {
                    if q != k {
                        assert(res[q] == es[q]);
                    }
                }
            },
            None => {
                let empty = Seq::<EntryModel>::empty();
                assert(placed(empty, bs, deeper));
                lemma_insert_placed(empty, path.drop_first(), idx, bs, deeper);
                assert forall|q: int| 0 <= q < res.len() implies entry_placed(
                    #[trigger] res[q],
                    bs,
                    prefix,
                ) by {
                    if q < es.len() {
                        assert(res[q] == es[q]);
                    }
                }
            },
        }
    }
}

/// The tree of the first `n` bookmarks holds each of them at the level of
/// its folder path.
pub proof fn lemma_build_placed(bs: Seq<BookmarkView>, n: int)
    requires
        0 <= n <= bs.len(),
    ensures
        placed(crate::netscape::build_tree_prefix(bs, n), bs, Seq::empty()),
    decreases n,
{
    if n > 0 {
        lemma_build_placed(bs, n - 1);
        assert(Seq::<Seq<char>>::empty() + bs[n - 1].folder =~= bs[n - 1].folder);
        lemma_insert_placed(
            crate::netscape::build_tree_prefix(bs, n - 1),
            bs[n - 1].folder,
            n - 1,
            bs,
            Seq::empty(),
        );
    }
}

/// `p` is a prefix of `s`.
pub open spec fn is_prefix(p: Seq<Seq<char>>, s: Seq<Seq<char>>) -> bool {
    p.len() <= s.len() && s.take(p.len() as int) == p
}

/// The bookmarks under a level are filed under paths that extend its own.
proof fn lemma_flat_prefix(es: Seq<EntryModel>, bs: Seq<BookmarkView>, p: Seq<Seq<char>>)
    requires
        placed(es, bs, p),
    ensures
        forall|q: int|
            0 <= q < flat(es).len() ==> 0 <= #[trigger] flat(es)[q] < bs.len() && is_prefix(
                p,
                bs[flat(es)[q]].folder,
            ),
    decreases es,
{
    if es.len() > 0 {
        assert(entry_placed(es[0], bs, p));
        let tail = es.drop_first();
        assert(placed(tail, bs, p)) by {
            assert forall|k: int| 0 <= k < tail.len() implies entry_placed(#[trigger] tail[k], bs, p) by {
                assert(tail[k] == es[k + 1]);
            }
        }
        lemma_flat_entry_prefix(es[0], bs, p);
        lemma_flat_prefix(tail, bs, p);
        let a = flat_entry(es[0]);
        assert forall|q: int| 0 <= q < flat(es).len() implies 0 <= #[trigger] flat(es)[q] < bs.len()
            && is_prefix(p, bs[flat(es)[q]].folder) by {
            if q < a.len() {
                assert(flat(es)[q] == a[q]);
            } else {
                assert(flat(es)[q] == flat(tail)[q - a.len()]);
            }
        }
    }
}

/// The bookmarks of an entry at level `p` are filed under paths extending
/// `p`, and those of a folder under paths extending the folder's own.
pub proof fn lemma_flat_entry_prefix(e: EntryModel, bs: Seq<BookmarkView>, p: Seq<Seq<char>>)
    requires
        entry_placed(e, bs, p),
    ensures
        forall|q: int|
            0 <= q < flat_entry(e).len() ==> 0 <= #[trigger] flat_entry(e)[q] < bs.len()
                && is_prefix(p, bs[flat_entry(e)[q]].folder),
        e matches EntryModel::Folder(m, cs) ==> forall|q: int|
            0 <= q < flat_entry(e).len() ==> is_prefix(
                p.push(m),
                bs[#[trigger] flat_entry(e)[q]].folder,
            ),
    decreases e,
{
    match e {
        EntryModel::Mark(i) => {
            assert(bs[i].folder.take(p.len() as int) =~= p);
        },
        EntryModel::Folder(m, cs) => {
            lemma_flat_prefix(cs, bs, p.push(m));
            assert forall|q: int| 0 <= q < flat_entry(e).len() implies is_prefix(
                p,
                bs[#[trigger] flat_entry(e)[q]].folder,
            ) by {
                let f = bs[flat_entry(e)[q]].folder;
                assert(is_prefix(p.push(m), f));
                assert(f.take(p.len() as int) =~= f.take(p.len() as int + 1).take(p.len() as int));
                assert(p.push(m).take(p.len() as int) =~= p);
            }
        },
    }
}

/// No bookmark of a level is filed under `f`, if `f` is not the level's
/// own path and extends no subfolder's path.
proof fn lemma_none_filed_under(
    es: Seq<EntryModel>,
    bs: Seq<BookmarkView>,
    p: Seq<Seq<char>>,
    f: Seq<Seq<char>>,
)
    requires
        placed(es, bs, p),
        f != p,
        forall|k: int|
            0 <= k < es.len() && #[trigger] folder_name(es[k]) is Some ==> !is_prefix(
                p.push(folder_name(es[k])->0),
                f,
            ),
    ensures
        forall|q: int| 0 <= q < flat(es).len() ==> bs[#[trigger] flat(es)[q]].folder != f,
    decreases es.len(),
{
    if es.len() > 0 {
        let tail = es.drop_first();
        assert(entry_placed(es[0], bs, p));
        assert(placed(tail, bs, p)) by {
            assert forall|k: int| 0 <= k < tail.len() implies entry_placed(#[trigger] tail[k], bs, p) by {
                assert(tail[k] == es[k + 1]);
            }
        }
        assert forall|k: int|
            0 <= k < tail.len() && #[trigger] folder_name(tail[k]) is Some implies !is_prefix(
            p.push(folder_name(tail[k])->0),
            f,
        ) by {
            assert(tail[k] == es[k + 1]);
        }
        lemma_none_filed_under(tail, bs, p, f);
        lemma_flat_entry_prefix(es[0], bs, p);
        let a = flat_entry(es[0]);
        assert(folder_name(es[0]) is Some ==> !is_prefix(p.push(folder_name(es[0])->0), f));
        assert forall|q: int| 0 <= q < flat(es).len() implies bs[#[trigger] flat(es)[q]].folder
            != f by {
            if q < a.len() {
                assert(flat(es)[q] == a[q]);
                match es[0] {
                    EntryModel::Mark(i) => {},
                    EntryModel::Folder(m, cs) => {
                        assert(is_prefix(p.push(m), bs[a[q]].folder));
                    },
                }
            } else {
                assert(flat(es)[q] == flat(tail)[q - a.len()]);
            }
        }
    }
}

/// Where filing a bookmark puts its index among those written.
pub open spec fn insert_pos(es: Seq<EntryModel>, path: Seq<Seq<char>>) -> int
    decreases path.len(),
{
    if path.len() == 0 {
        flat(es).len() as int
    } else {
        match crate::netscape::folder_position(es, path[0]) {
            Some(k) => flat(es.take(k)).len() + insert_pos(
                crate::netscape::children(es[k]),
                path.drop_first(),
            ),
            None => flat(es).len() as int,
        }
    }
}

/// Filing a bookmark inserts its index at `insert_pos`, after every
/// bookmark already filed under the same path.
pub proof fn lemma_insert_at_pos(
    es: Seq<EntryModel>,
    path: Seq<Seq<char>>,
    idx: int,
    bs: Seq<BookmarkView>,
    prefix: Seq<Seq<char>>,
)
    requires
        placed(es, bs, prefix),
        distinct_folders(es),
    ensures
        0 <= insert_pos(es, path) <= flat(es).len(),
        flat(insert_at(es, path, idx)) == flat(es).insert(insert_pos(es, path), idx),
        forall|q: int|
            0 <= q < flat(es).len() && bs[#[trigger] flat(es)[q]].folder == prefix + path ==> q
                < insert_pos(es, path),
    decreases path.len(),
{
    let res = insert_at(es, path, idx);
    if path.len() == 0 {
        lemma_flat_concat(es, seq![EntryModel::Mark(idx)]);
        assert(es.push(EntryModel::Mark(idx)) =~= es + seq![EntryModel::Mark(idx)]);
        let one = seq![EntryModel::Mark(idx)];
        assert(one.drop_first() =~= Seq::<EntryModel>::empty());
        assert(flat(one.drop_first()) =~= Seq::<int>::empty());
        assert(flat_entry(one[0]) =~= seq![idx]);
        assert(flat(one) =~= seq![idx]);
        assert(flat(es) + seq![idx] =~= flat(es).insert(flat(es).len() as int, idx));
    } else {
        let name = path[0];
        crate::netscape::lemma_folder_position(es, name);
        match crate::netscape::folder_position(es, name) {
            Some(k) => {
                let cs = crate::netscape::children(es[k]);
                assert(entry_placed(es[k], bs, prefix));
                assert(entry_distinct(es[k]));
                let deeper = prefix.push(name);
                lemma_insert_at_pos(cs, path.drop_first(), idx, bs, deeper);
                lemma_flat_around(es, k);
                lemma_flat_around(res, k);
                assert(res.take(k) =~= es.take(k));
                assert(res.skip(k + 1) =~= es.skip(k + 1));
                let a = flat(es.take(k));
                let b = flat(es.skip(k + 1));
                let pc = insert_pos(cs, path.drop_first());
                assert(flat(res) =~= flat(es).insert(a.len() + pc, idx));
                // the bookmarks filed under the same path are all in folder `k`
                let f = prefix + path;
                assert(f =~= deeper + path.drop_first());
                let left = es.take(k);
                let right = es.skip(k + 1);
                assert(placed(left, bs, prefix)) by {
                    assert forall|t: int| 0 <= t < left.len() implies entry_placed(
                        #[trigger] left[t],
                        bs,
                        prefix,
                    ) by {
                        assert(left[t] == es[t]);
                    }
                }
                assert(placed(right, bs, prefix)) by {
                    assert forall|t: int| 0 <= t < right.len() implies entry_placed(
                        #[trigger] right[t],
                        bs,
                        prefix,
                    ) by {
                        assert(right[t] == es[t + k + 1]);
                    }
                }
                assert(f != prefix) by {
                    assert(f.len() != prefix.len());
                }
                assert forall|t: int|
                    0 <= t < left.len() && #[trigger] folder_name(left[t]) is Some implies !is_prefix(
                    prefix.push(folder_name(left[t])->0),
                    f,
                ) by {
                    assert(left[t] == es[t]);
                    assert(folder_name(es[k]) == Some(name));
                    if is_prefix(prefix.push(folder_name(left[t])->0), f) {
                        assert(f[prefix.len() as int] == name);
                        assert(f.take(prefix.len() as int + 1)[prefix.len() as int] == folder_name(
                            left[t],
                        )->0);
                    }
                }
                assert forall|t: int|
                    0 <= t < right.len() && #[trigger] folder_name(right[t]) is Some implies !is_prefix(
                    prefix.push(folder_name(right[t])->0),
                    f,
                ) by {
                    assert(right[t] == es[t + k + 1]);
                    assert(folder_name(es[k]) == Some(name));
                    if is_prefix(prefix.push(folder_name(right[t])->0), f) {
                        assert(f[prefix.len() as int] == name);
                        assert(f.take(prefix.len() as int + 1)[prefix.len() as int] == folder_name(
                            right[t],
                        )->0);
                    }
                }
                lemma_none_filed_under(left, bs, prefix, f);
                lemma_none_filed_under(right, bs, prefix, f);
                assert(flat_entry(es[k]) == flat(cs));
                assert forall|q: int|
                    0 <= q < flat(es).len() && bs[#[trigger] flat(es)[q]].folder == prefix + path implies q
                    < insert_pos(es, path) by {
                    if q < a.len() {
                        assert(flat(es)[q] == a[q]);
                    } else if q < a.len() + flat(cs).len() {
                        assert(flat(es)[q] == flat(cs)[q - a.len()]);
                    } else {
                        assert(flat(es)[q] == b[q - a.len() - flat(cs).len()]);
                    }
                }
            },
            None => {
                let empty = Seq::<EntryModel>::empty();
                assert(placed(empty, bs, prefix.push(name)));
                assert(distinct_folders(empty));
                lemma_insert_at_pos(empty, path.drop_first(), idx, bs, prefix.push(name));
                assert(flat(empty) =~= Seq::<int>::empty());
                let e2 = EntryModel::Folder(name, insert_at(empty, path.drop_first(), idx));
                assert(flat_entry(e2) =~= seq![idx]);
                assert(res =~= es + seq![e2]);
                lemma_flat_concat(es, seq![e2]);
                assert(seq![e2].drop_first() =~= Seq::<EntryModel>::empty());
                assert(flat(seq![e2]) =~= seq![idx]);
                assert(flat(es) + seq![idx] =~= flat(es).insert(flat(es).len() as int, idx));
            },
        }
    }
}

/// `i` is listed before `j` in `s`.
pub open spec fn before(s: Seq<int>, i: int, j: int) -> bool {
    exists|p: int, q: int| 0 <= p < q < s.len() && #[trigger] s[p] == i && #[trigger] s[q] == j
}

proof fn lemma_insert_index(s: Seq<int>, pos: int, x: int)
    requires
        0 <= pos <= s.len(),
    ensures
        s.insert(pos, x).len() == s.len() + 1,
        s.insert(pos, x)[pos] == x,
        forall|k: int| 0 <= k < pos ==> #[trigger] s.insert(pos, x)[k] == s[k],
        forall|k: int| pos <= k < s.len() ==> #[trigger] s.insert(pos, x)[k + 1] == s[k],
{
}

proof fn lemma_order_prefix(bs: Seq<BookmarkView>, n: int)
    requires
        0 <= n <= bs.len(),
    ensures
        forall|i: int, j: int|
            0 <= i < j < n && #[trigger] bs[i].folder == #[trigger] bs[j].folder ==> before(
                flat(crate::netscape::build_tree_prefix(bs, n)),
                i,
                j,
            ),
    decreases n,
{
    broadcast use vstd::seq_lib::group_to_multiset_ensures;

    if n > 0 {
        let m = n - 1;
        lemma_order_prefix(bs, m);
        let old_tree = crate::netscape::build_tree_prefix(bs, m);
        let path = bs[m].folder;
        lemma_build_placed(bs, m);
        lemma_build_distinct(bs, m);
        lemma_insert_at_pos(old_tree, path, m, bs, Seq::empty());
        assert(Seq::<Seq<char>>::empty() + path =~= path);
        let s = flat(old_tree);
        let pos = insert_pos(old_tree, path);
        let t = flat(crate::netscape::build_tree_prefix(bs, n));
        assert(t == s.insert(pos, m));
        lemma_insert_index(s, pos, m);
        lemma_build_flat(bs, m);
        assert forall|i: int, j: int|
            0 <= i < j < n && #[trigger] bs[i].folder == #[trigger] bs[j].folder implies before(
            t,
            i,
            j,
        ) by {
            if j < m {
                let (p, q) = choose|p: int, q: int|
                    0 <= p < q < s.len() && #[trigger] s[p] == i && #[trigger] s[q] == j;
                let p2 = if p < pos {
                    p
                } else {
                    p + 1
                };
                let q2 = if q < pos {
                    q
                } else {
                    q + 1
                };
                assert(t[p2] == i && t[q2] == j);
            } else {
                // `i` is already listed, before the place where `m` goes
                let ids = Seq::new(m as nat, |k: int| k);
                assert(ids[i] == i);
                assert(ids.contains(i));
                assert(ids.to_multiset().count(i) > 0);
                assert(s.to_multiset().count(i) > 0);
                assert(s.contains(i));
                let q = choose|q: int| 0 <= q < s.len() && s[q] == i;
                assert(bs[s[q]].folder == path);
                assert(q < pos);
                assert(t[q] == i && t[pos] == j);
            }
        }
    }
}

/// Bookmarks of the same folder keep their input order in a written file:
/// if `i < j` share a folder path, `i` is listed before `j`.
pub proof fn lemma_folder_order_kept(bs: Seq<BookmarkView>)
    ensures
        forall|i: int, j: int|
            0 <= i < j < bs.len() && #[trigger] bs[i].folder == #[trigger] bs[j].folder ==> before(
                flat(build_tree(bs)),
                i,
                j,
            ),
{
    lemma_order_prefix(bs, bs.len() as int);
}

} // verus!
