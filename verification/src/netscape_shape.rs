//! How much reading a Netscape file can find, and the shape of the folder
//! tree and of a written file.
use vstd::prelude::*;

use crate::html::escape;
use crate::netscape::{
    build_tree, date_attr, entries_text, entry_text, mark_line, netscape_header, netscape_run,
    netscape_step, netscape_text, parse_netscape_spec, parse_start, spec_parse_anchor_line,
    EntryModel, ParseState,
};
use crate::netscape_laws::{entry_placed, flat, flat_entry, lemma_tree_order_permutes, placed};
use crate::html::unescape;
use crate::netscape::spec_extract_tag_text;
use crate::netscape_laws::{lemma_ascii_lower, lemma_lower_contains};
use crate::text::{
    find, find_char, is_ws, lemma_find_after_prefix, lemma_find_at_front, lemma_find_char_basic,
    lemma_find_char_concat, lemma_find_from_at, lemma_lower_concat, lemma_trim_leading,
    lemma_trim_noop, lines, lower, matches_at, starts_with, trim,
};
use crate::BookmarkView;

verus! {

// ---------------------------------------------------------------------
// What reading finds
// ---------------------------------------------------------------------

/// The lines that, trimmed, open a list.
pub open spec fn list_open_count(ls: Seq<Seq<char>>) -> nat
    decreases ls.len(),
{
    if ls.len() == 0 {
        0
    } else {
        (if starts_with(trim(ls[0]), "<DL"@) {
            1nat
        } else {
            0nat
        }) + list_open_count(ls.drop_first())
    }
}

/// The open folders, and the folder path of every bookmark found, are at
/// most `m` deep.
pub open spec fn depth_within(st: ParseState, m: int) -> bool {
    &&& st.stack.len() <= m
    &&& forall|k: int| 0 <= k < st.bookmarks.len() ==> #[trigger] st.bookmarks[k].folder.len() <= m
}

proof fn lemma_step_bounds(st: ParseState, l: Seq<char>, m: int)
    requires
        depth_within(st, m),
    ensures
        netscape_step(st, trim(l)).bookmarks.len() <= st.bookmarks.len() + 1,
        depth_within(
            netscape_step(st, trim(l)),
            m + if starts_with(trim(l), "<DL"@) {
                1int
            } else {
                0int
            },
        ),
{
    let t = trim(l);
    let r = netscape_step(st, t);
    match spec_parse_anchor_line(t, st.stack) {
        Some(b) => {
            assert(b.folder == st.stack);
        },
        None => {},
    }
    assert forall|k: int| 0 <= k < r.bookmarks.len() implies #[trigger] r.bookmarks[k].folder.len()
        <= m + if starts_with(t, "<DL"@) {
        1int
    } else {
        0int
    } by {
        if k < st.bookmarks.len() {
            assert(r.bookmarks[k] == st.bookmarks[k]);
        }
    }
}

proof fn lemma_run_bounds(ls: Seq<Seq<char>>, st: ParseState, m: int)
    requires
        depth_within(st, m),
    ensures
        netscape_run(ls, st).bookmarks.len() <= st.bookmarks.len() + ls.len(),
        depth_within(netscape_run(ls, st), m + list_open_count(ls)),
    decreases ls.len(),
{
    if ls.len() > 0 {
        lemma_step_bounds(st, ls[0], m);
        let c: int = if starts_with(trim(ls[0]), "<DL"@) {
            1int
        } else {
            0int
        };
        lemma_run_bounds(ls.drop_first(), netscape_step(st, trim(ls[0])), m + c);
    }
}

/// Reading a Netscape file finds at most one bookmark per line, and no
/// bookmark's folder path is deeper than the number of lines that open a
/// list.
pub proof fn lemma_parse_netscape_bounds(input: Seq<char>)
    ensures
        parse_netscape_spec(input).len() <= lines(input).len(),
        forall|k: int|
            0 <= k < parse_netscape_spec(input).len() ==> #[trigger] parse_netscape_spec(
                input,
            )[k].folder.len() <= list_open_count(lines(input)),
{
    lemma_run_bounds(lines(input), parse_start(), 0);
}

// ---------------------------------------------------------------------
// The lines of a written file
// ---------------------------------------------------------------------

/// `n` spaces.
pub open spec fn spaces(n: nat) -> Seq<char> {
    Seq::new(n, |_i: int| ' ')
}

/// `l` stands in `t` between `a` and `c`, at the start of `t` or right
/// after a line feed.
pub open spec fn line_at(t: Seq<char>, a: Seq<char>, l: Seq<char>, c: Seq<char>) -> bool {
    t == a + l + c && (a.len() == 0 || a.last() == '\n')
}

/// `t` has `l` at the start of one of its lines.
pub open spec fn has_line(t: Seq<char>, l: Seq<char>) -> bool {
    exists|a: Seq<char>, c: Seq<char>| #[trigger] line_at(t, a, l, c)
}

/// The text of a bookmark without a date: no `ADD_DATE` attribute is
/// written for it.
pub proof fn lemma_undated_line(b: BookmarkView, indent: Seq<char>)
    requires
        b.added is None,
    ensures
        mark_line(b, indent) == indent + "<DT><A HREF=\""@ + escape(b.url) + "\">"@ + escape(b.title)
            + "</A>\n"@,
{
    reveal_strlit("\"");
    reveal_strlit("\">");
    reveal_strlit(">");
    assert(date_attr(b.added) =~= Seq::<char>::empty());
    assert("\""@ + ">"@ =~= "\">"@);
    assert(mark_line(b, indent) =~= indent + "<DT><A HREF=\""@ + escape(b.url) + "\">"@ + escape(
        b.title,
    ) + "</A>\n"@);
}

proof fn lemma_has_line_wrap(t: Seq<char>, l: Seq<char>, p: Seq<char>, q: Seq<char>)
    requires
        has_line(t, l),
        p.len() == 0 || p.last() == '\n',
    ensures
        has_line(p + t + q, l),
{
    let (a, c) = choose|a: Seq<char>, c: Seq<char>| #[trigger] line_at(t, a, l, c);
    assert(p + t + q =~= (p + a) + l + (c + q));
    if a.len() > 0 {
        assert((p + a).last() == a.last());
    }
    assert(line_at(p + t + q, p + a, l, c + q));
}

proof fn lemma_ends_in_line_feed(x: Seq<char>, tail: Seq<char>)
    requires
        tail.len() > 0,
        tail.last() == '\n',
    ensures
        (x + tail).last() == '\n',
{
}

proof fn lemma_entry_text_ends(e: EntryModel, bs: Seq<BookmarkView>, ind: Seq<char>)
    ensures
        entry_text(e, bs, ind).len() == 0 || entry_text(e, bs, ind).last() == '\n',
{
    reveal_strlit("</A>\n");
    reveal_strlit("</DL><p>\n");
    match e {
        EntryModel::Mark(i) => {
            if 0 <= i < bs.len() {
                let b = bs[i];
                lemma_ends_in_line_feed(
                    ind + "<DT><A HREF=\""@ + escape(b.url) + "\""@ + date_attr(b.added) + ">"@
                        + escape(b.title),
                    "</A>\n"@,
                );
            }
        },
        EntryModel::Folder(name, cs) => {
            lemma_ends_in_line_feed(
                ind + "<DT><H3>"@ + escape(name) + "</H3>\n"@ + ind + "<DL><p>\n"@ + entries_text(
                    cs,
                    bs,
                    ind + "    "@,
                ) + ind,
                "</DL><p>\n"@,
            );
        },
    }
}

proof fn lemma_spaces_more(n: nat)
    ensures
        spaces(n) + "    "@ == spaces(n + 4),
{
    reveal_strlit("    ");
    assert(spaces(n) + "    "@ =~= spaces(n + 4));
}

/// Each bookmark of a level is written on a line of its own, indented by
/// four spaces per folder of its path, plus four.
proof fn lemma_entries_lines(es: Seq<EntryModel>, bs: Seq<BookmarkView>, path: Seq<Seq<char>>)
    requires
        placed(es, bs, path),
    ensures
        forall|t: int|
            0 <= t < flat(es).len() ==> has_line(
                entries_text(es, bs, spaces(4 * (path.len() + 1))),
                mark_line(
                    bs[#[trigger] flat(es)[t]],
                    spaces(4 * (bs[flat(es)[t]].folder.len() + 1)),
                ),
            ),
    decreases es,
{
    if es.len() > 0 {
        let ind = spaces(4 * (path.len() + 1));
        let tail = es.drop_first();
        assert(entry_placed(es[0], bs, path));
        assert(placed(tail, bs, path)) by {
            assert forall|k: int| 0 <= k < tail.len() implies entry_placed(#[trigger] tail[k], bs, path) by {
                assert(tail[k] == es[k + 1]);
            }
        }
        lemma_entries_lines(tail, bs, path);
        let head = entry_text(es[0], bs, ind);
        let rest = entries_text(tail, bs, ind);
        assert(entries_text(es, bs, ind) == head + rest);
        lemma_entry_text_ends(es[0], bs, ind);
        let a = flat_entry(es[0]);
        assert(flat(es) == a + flat(tail));
        // the bookmarks of the first entry
        assert forall|t: int| 0 <= t < a.len() implies has_line(
            head,
            mark_line(bs[#[trigger] a[t]], spaces(4 * (bs[a[t]].folder.len() + 1))),
        ) by {
            match es[0] {
                EntryModel::Mark(i) => {
                    assert(a[t] == i);
                    let l = mark_line(bs[i], ind);
                    assert(head =~= Seq::<char>::empty() + l + Seq::<char>::empty());
                    assert(line_at(head, Seq::<char>::empty(), l, Seq::<char>::empty()));
                },
                EntryModel::Folder(name, cs) => {
                    let deeper = path.push(name);
                    lemma_spaces_more(4 * (path.len() + 1));
                    assert(4 * (deeper.len() + 1) == 4 * (path.len() + 1) + 4);
                    lemma_entries_lines(cs, bs, deeper);
                    let pre = ind + "<DT><H3>"@ + escape(name) + "</H3>\n"@ + ind + "<DL><p>\n"@;
                    let post = ind + "</DL><p>\n"@;
                    assert(head =~= pre + entries_text(cs, bs, ind + "    "@) + post);
                    reveal_strlit("<DL><p>\n");
                    lemma_ends_in_line_feed(
                        ind + "<DT><H3>"@ + escape(name) + "</H3>\n"@ + ind,
                        "<DL><p>\n"@,
                    );
                    assert(a[t] == flat(cs)[t]);
                    lemma_has_line_wrap(
                        entries_text(cs, bs, ind + "    "@),
                        mark_line(bs[a[t]], spaces(4 * (bs[a[t]].folder.len() + 1))),
                        pre,
                        post,
                    );
                },
            }
        }
        assert forall|t: int| 0 <= t < flat(es).len() implies has_line(
            entries_text(es, bs, ind),
            mark_line(bs[#[trigger] flat(es)[t]], spaces(4 * (bs[flat(es)[t]].folder.len() + 1))),
        ) by {
            let x = flat(es)[t];
            let l = mark_line(bs[x], spaces(4 * (bs[x].folder.len() + 1)));
            if t < a.len() {
                assert(x == a[t]);
                lemma_has_line_wrap(head, l, Seq::<char>::empty(), rest);
                assert(Seq::<char>::empty() + head + rest =~= head + rest);
            } else {
                assert(x == flat(tail)[t - a.len()]);
                lemma_has_line_wrap(rest, l, head, Seq::<char>::empty());
                assert(head + rest + Seq::<char>::empty() =~= head + rest);
            }
        }
    }
}

/// A written file has each bookmark's line, indented by four spaces per
/// folder of its path plus four: `<DT><A HREF="url"` with ` ADD_DATE="t"`
/// only for a bookmark that has a date, then `>title</A>`.
pub proof fn lemma_bookmark_lines(bs: Seq<BookmarkView>)
    ensures
        forall|i: int|
            0 <= i < bs.len() ==> has_line(
                netscape_text(bs),
                mark_line(#[trigger] bs[i], spaces(4 * (bs[i].folder.len() + 1))),
            ),
{
    broadcast use vstd::seq_lib::group_to_multiset_ensures;

    let tree = build_tree(bs);
    let s = flat(tree);
    let e = Seq::<Seq<char>>::empty();
    crate::netscape_laws::lemma_build_placed(bs, bs.len() as int);
    lemma_entries_lines(tree, bs, e);
    lemma_tree_order_permutes(bs);
    reveal_strlit("    ");
    assert(spaces(4) =~= "    "@);
    let h = netscape_header();
    reveal_strlit("<DL><p>\n");
    assert(h == "<!DOCTYPE NETSCAPE-Bookmark-file-1>\n"@
        + "<META HTTP-EQUIV=\"Content-Type\" CONTENT=\"text/html; charset=UTF-8\">\n"@
        + "<TITLE>Bookmarks</TITLE>\n"@ + "<H1>Bookmarks</H1>\n"@ + "<DL><p>\n"@);
    lemma_ends_in_line_feed(
        "<!DOCTYPE NETSCAPE-Bookmark-file-1>\n"@
            + "<META HTTP-EQUIV=\"Content-Type\" CONTENT=\"text/html; charset=UTF-8\">\n"@
            + "<TITLE>Bookmarks</TITLE>\n"@ + "<H1>Bookmarks</H1>\n"@,
        "<DL><p>\n"@,
    );
    assert forall|i: int| 0 <= i < bs.len() implies has_line(
        netscape_text(bs),
        mark_line(#[trigger] bs[i], spaces(4 * (bs[i].folder.len() + 1))),
    ) by {
        let ids = Seq::new(bs.len(), |k: int| k);
        assert(ids[i] == i);
        assert(ids.contains(i));
        assert(ids.to_multiset().count(i) > 0);
        assert(s.to_multiset().count(i) > 0);
        assert(s.contains(i));
        let t = choose|t: int| 0 <= t < s.len() && s[t] == i;
        assert(s[t] == i);
        lemma_has_line_wrap(
            entries_text(tree, bs, "    "@),
            mark_line(bs[i], spaces(4 * (bs[i].folder.len() + 1))),
            h,
            "</DL><p>\n"@,
        );
    }
}

// ---------------------------------------------------------------------
// Folder headings with attributes
// ---------------------------------------------------------------------

/// A folder heading whose opening tag carries attributes, as browsers
/// export them (`<DT><H3 ADD_DATE="..." LAST_MODIFIED="...">name</H3>`), is
/// read as its name alone: the text starts just after the first `>` after
/// `<H3`, whatever attributes stand before it, and is unescaped.
pub proof fn lemma_heading_with_attributes(a: Seq<char>, n: Seq<char>)
    requires
        !a.contains('>'),
        !n.contains('<'),
    ensures
        spec_extract_tag_text("<DT><H3"@ + a + ">"@ + n + "</H3>"@, "H3"@) == Some(unescape(n)),
{
    reveal_strlit("<DT><H3");
    reveal_strlit(">");
    reveal_strlit("</H3>");
    reveal_strlit("H3");
    let line = "<DT><H3"@ + a + ">"@ + n + "</H3>"@;
    let p = seq!['<', 'D', 'T', '>', '<', 'H', '3'];
    let close = seq!['<', '/', 'H', '3', '>'];
    assert("<DT><H3"@ =~= p);
    assert(">"@ =~= seq!['>']);
    assert("</H3>"@ =~= close);
    assert(line =~= p + a + seq!['>'] + n + close);
    let la = lower(a);
    let ln = lower(n);
    lemma_lower_concat(p + a + seq!['>'] + n, close);
    lemma_lower_concat(p + a + seq!['>'], n);
    lemma_lower_concat(p + a, seq!['>']);
    lemma_lower_concat(p, a);
    let lp = seq!['<', 'd', 't', '>', '<', 'h', '3'];
    let lc = seq!['<', '/', 'h', '3', '>'];
    assert(lower(p) =~= lp);
    assert(lower(close) =~= lc);
    assert(lower(seq!['>']) =~= seq!['>']);
    let lw = lower(line);
    assert(lw =~= lp + la + seq!['>'] + ln + lc);
    // the opening tag is found at 4
    let n1 = seq!['<'] + lower("H3"@);
    assert(lower("H3"@) =~= seq!['h', '3']);
    assert(n1 =~= seq!['<', 'h', '3']);
    assert(lw.subrange(4, 7) =~= n1);
    assert forall|j: int| 0 <= j < 4 implies !#[trigger] matches_at(lw, n1, j) by {
        if matches_at(lw, n1, j) {
            assert(lw.subrange(j, j + 3)[0] == lw[j]);
            assert(lw.subrange(j, j + 3)[1] == lw[j + 1]);
        }
    }
    lemma_find_from_at(lw, n1, 0, 4);
    assert(find(lw, n1) == Some(4int));
    // its `>` follows the attributes
    let q = seq!['<', 'H', '3'] + a;
    assert(line.skip(4) =~= q + (seq!['>'] + n + close));
    assert(!q.contains('>')) by {
        if q.contains('>') {
            let i = choose|i: int| 0 <= i < q.len() && q[i] == '>';
            if i >= 3 {
                assert(a[i - 3] == '>');
            }
        }
    }
    lemma_find_char_concat(q, seq!['>'] + n + close, '>');
    lemma_find_char_basic(seq!['>'] + n + close, '>');
    let ts: int = 8 + a.len() as int;
    assert(find_char(line.skip(4), '>') == Some(3 + a.len() as int));
    // the text runs to the closing tag
    let n2 = seq!['<', '/'] + lower("H3"@) + seq!['>'];
    assert(n2 =~= lc);
    assert(lw.skip(ts) =~= ln + lc);
    lemma_lower_contains(n, '<');
    lemma_find_after_prefix(ln, lc, lc);
    assert(lc =~= lc + Seq::<char>::empty());
    lemma_find_at_front(lc, Seq::<char>::empty());
    assert(find(lw.skip(ts), n2) == Some(ln.len() as int));
    assert(line.subrange(ts, ts + ln.len() as int) =~= n);
}

/// A heading line with attributes, indented by any whitespace, makes its
/// name the folder waiting for its list.
pub proof fn lemma_heading_with_attributes_step(
    st: ParseState,
    ind: Seq<char>,
    a: Seq<char>,
    n: Seq<char>,
)
    requires
        forall|i: int| 0 <= i < ind.len() ==> is_ws(#[trigger] ind[i]),
        !a.contains('>'),
        !n.contains('<'),
    ensures
        netscape_step(st, trim(ind + ("<DT><H3"@ + a + ">"@ + n + "</H3>"@))) == (ParseState {
            pending: Some(unescape(n)),
            ..st
        }),
{
    reveal_strlit("<DT><H3");
    reveal_strlit("</H3>");
    let line = "<DT><H3"@ + a + ">"@ + n + "</H3>"@;
    lemma_heading_with_attributes(a, n);
    lemma_trim_leading(ind, line);
    assert(line[0] == '<');
    assert(line.last() == '>');
    lemma_trim_noop(line);
}

/// A line opening a list, indented by any whitespace, tabs as well as
/// spaces, opens the folder whose heading came before it.
pub proof fn lemma_indented_list_opens_folder(st: ParseState, ind: Seq<char>, name: Seq<char>)
    requires
        forall|i: int| 0 <= i < ind.len() ==> crate::text::unicode_white_space(#[trigger] ind[i]),
        st.pending == Some(name),
    ensures
        netscape_step(st, trim(ind + "<DL><p>"@)) == (ParseState {
            stack: st.stack.push(name),
            pending: None,
            ..st
        }),
{
    crate::netscape_laws::lemma_dl_lines();
    assert forall|i: int| 0 <= i < ind.len() implies is_ws(#[trigger] ind[i]) by {
        assert(crate::text::unicode_white_space(ind[i]));
    }
    lemma_trim_leading(ind, "<DL><p>"@);
    lemma_trim_noop("<DL><p>"@);
    crate::netscape_laws::lemma_no_heading_no_anchor("<DL><p>"@, st.stack);
}

} // verus!
