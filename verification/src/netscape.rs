//! The Netscape Bookmark HTML format: reading it line by line, and writing
//! it with folders grouped into a tree.
use vstd::prelude::*;

use crate::html::{escape, escape_html, unescape, unescape_chars};
use crate::int_text::{i64_text, parse_i64, parse_i64_exec, push_i64_text};
use crate::text::{
    after_first_line, chars_eq, chars_of, find, find_char, find_exec, find_from_exec, first_line,
    lemma_find_skip, lemma_find_found, lines, lower, lower_exec, next_line, opt_int, push_chars,
    push_str, starts_with, starts_with_exec, string_of, strings_of, sub_chars, trim,
    trim_exec,
};
use crate::json::chars_view;
use crate::{bookmarks_view, Bookmark, BookmarkView};

verus! {

// ---------------------------------------------------------------------
// Reading
// ---------------------------------------------------------------------

/// The unescaped text of the first `<tag_name>...</tag_name>` in a line:
/// the opening tag is found case-insensitively, the text runs from its `>`
/// to the first case-insensitive closing tag after it.
pub open spec fn spec_extract_tag_text(line: Seq<char>, tag_name: Seq<char>) -> Option<Seq<char>> {
    let lw = lower(line);
    match find(lw, seq!['<'] + lower(tag_name)) {
        None => None,
        Some(ts) => match find_char(line.skip(ts), '>') {
            None => None,
            Some(e) => {
                let text_start = ts + e + 1;
                match find(lw.skip(text_start), seq!['<', '/'] + lower(tag_name) + seq!['>']) {
                    None => None,
                    Some(c) => Some(unescape(line.subrange(text_start, text_start + c))),
                }
            },
        },
    }
}

/// The first `<A ...>text</A>` in a line: its opening tag (for attribute
/// extraction) and its raw inner text.
pub open spec fn spec_extract_anchor(line: Seq<char>) -> Option<(Seq<char>, Seq<char>)> {
    let lw = lower(line);
    match find(lw, seq!['<', 'a', ' ']) {
        None => None,
        Some(ts) => match find_char(line.skip(ts), '>') {
            None => None,
            Some(e) => {
                let tag_end = ts + e;
                let text_start = tag_end + 1;
                match find(lw.skip(text_start), seq!['<', '/', 'a', '>']) {
                    None => None,
                    Some(c) => Some(
                        (
                            line.subrange(ts, tag_end + 1),
                            line.subrange(text_start, text_start + c),
                        ),
                    ),
                }
            },
        },
    }
}

/// The raw value of the first `attr="..."` in a tag, the name matched
/// case-insensitively.
pub open spec fn spec_extract_attr(tag: Seq<char>, attr: Seq<char>) -> Option<Seq<char>> {
    let lw = lower(tag);
    let needle = lower(attr) + seq!['=', '"'];
    match find(lw, needle) {
        None => None,
        Some(p) => {
            let start = p + needle.len();
            match find_char(lw.skip(start), '"') {
                None => None,
                Some(e) => Some(tag.subrange(start, start + e)),
            }
        },
    }
}

/// A bookmark line read with the folder path it stands in: the title
/// unescaped, the url raw, the date if `ADD_DATE` holds a number.
pub open spec fn spec_parse_anchor_line(line: Seq<char>, folder_stack: Seq<Seq<char>>) -> Option<
    BookmarkView,
> {
    match spec_extract_anchor(line) {
        None => None,
        Some((tag, text)) => match spec_extract_attr(tag, "href"@) {
            None => None,
            Some(url) => Some(
                BookmarkView {
                    title: unescape(text),
                    url,
                    folder: folder_stack,
                    added: match spec_extract_attr(tag, "add_date"@) {
                        Some(s) => parse_i64(s),
                        None => None,
                    },
                },
            ),
        },
    }
}

/// Where reading stands: the bookmarks found, the open folders, and the
/// folder heading waiting for its `<DL>`.
pub struct ParseState {
    pub bookmarks: Seq<BookmarkView>,
    pub stack: Seq<Seq<char>>,
    pub pending: Option<Seq<char>>,
}

pub open spec fn parse_start() -> ParseState {
    ParseState { bookmarks: Seq::empty(), stack: Seq::empty(), pending: None }
}

/// One trimmed line read: a folder heading, the opening or closing of a
/// folder's list, a bookmark, or anything else, which changes nothing.
pub open spec fn netscape_step(st: ParseState, line: Seq<char>) -> ParseState {
    match spec_extract_tag_text(line, "H3"@) {
        Some(title) => ParseState { pending: Some(title), ..st },
        None => if starts_with(line, "<DL"@) {
            match st.pending {
                Some(name) => ParseState { stack: st.stack.push(name), pending: None, ..st },
                None => st,
            }
        } else if starts_with(line, "</DL"@) {
            ParseState {
                stack: if st.stack.len() > 0 {
                    st.stack.drop_last()
                } else {
                    st.stack
                },
                ..st
            }
        } else {
            match spec_parse_anchor_line(line, st.stack) {
                Some(b) => ParseState { bookmarks: st.bookmarks.push(b), ..st },
                None => st,
            }
        },
    }
}

/// The lines read in order, each trimmed.
pub open spec fn netscape_run(ls: Seq<Seq<char>>, st: ParseState) -> ParseState
    decreases ls.len(),
{
    if ls.len() == 0 {
        st
    } else {
        netscape_run(ls.drop_first(), netscape_step(st, trim(ls[0])))
    }
}

/// The bookmarks of a Netscape bookmark file, in file order.
pub open spec fn parse_netscape_spec(input: Seq<char>) -> Seq<BookmarkView> {
    netscape_run(lines(input), parse_start()).bookmarks
}

pub open spec fn opt_view(o: Option<Vec<char>>) -> Option<Seq<char>> {
    match o {
        Some(v) => Some(v@),
        None => None,
    }
}

/// The unescaped text of the first `<tag_name>...</tag_name>` in a line.
pub fn extract_tag_text(line: &[char], tag_name: &[char]) -> (res: Option<Vec<char>>)
    ensures
        match res {
            Some(v) => spec_extract_tag_text(line@, tag_name@) == Some(v@),
            None => spec_extract_tag_text(line@, tag_name@) is None,
        },
{
    let lw = lower_exec(line);
    let lt = lower_exec(tag_name);
    let mut open: Vec<char> = Vec::new();
    open.push('<');
    push_chars(&mut open, &lt);
    let ts = match find_exec(&lw, &open) {
        Some(t) => t,
        None => return None,
    };
    proof {
        lemma_find_found(lw@, open@);
    }
    let gt = ['>'];
    assert(gt@ =~= seq!['>']);
    assert(open@ =~= seq!['<'] + lower(tag_name@));
    let te = match find_from_exec(line, &gt, ts) {
        Some(t) => t,
        None => {
            proof {
                lemma_find_skip(line@, seq!['>'], ts as int);
            }
            return None;
        },
    };
    proof {
        lemma_find_skip(line@, seq!['>'], ts as int);
        crate::text::lemma_find_from_found(line@, seq!['>'], ts as int);
        assert(crate::text::find_from(line@, seq!['>'], ts as int) == Some(te as int));
        assert(crate::text::matches_at(line@, seq!['>'], te as int));
        assert(te + 1 <= line@.len());
    }
    assert(te < line.len());
    let text_start = te + 1;
    let mut close: Vec<char> = Vec::new();
    close.push('<');
    close.push('/');
    push_chars(&mut close, &lt);
    close.push('>');
    assert(close@ =~= seq!['<', '/'] + lower(tag_name@) + seq!['>']);
    let c = match find_from_exec(&lw, &close, text_start) {
        Some(c) => c,
        None => {
            proof {
                lemma_find_skip(lw@, close@, text_start as int);
            }
            return None;
        },
    };
    proof {
        lemma_find_skip(lw@, close@, text_start as int);
        crate::text::lemma_find_from_found(lw@, close@, text_start as int);
    }
    let text = sub_chars(line, text_start, c);
    Some(unescape_chars(&text))
}

/// The first `<A ...>text</A>` in a line: its opening tag and raw text.
pub fn extract_anchor(line: &[char]) -> (res: Option<(Vec<char>, Vec<char>)>)
    ensures
        match res {
            Some(p) => spec_extract_anchor(line@) == Some((p.0@, p.1@)),
            None => spec_extract_anchor(line@) is None,
        },
{
    let lw = lower_exec(line);
    let open = ['<', 'a', ' '];
    assert(open@ =~= seq!['<', 'a', ' ']);
    let ts = match find_exec(&lw, &open) {
        Some(t) => t,
        None => return None,
    };
    proof {
        lemma_find_found(lw@, open@);
    }
    let gt = ['>'];
    assert(gt@ =~= seq!['>']);
    let te = match find_from_exec(line, &gt, ts) {
        Some(t) => t,
        None => {
            proof {
                lemma_find_skip(line@, seq!['>'], ts as int);
            }
            return None;
        },
    };
    proof {
        lemma_find_skip(line@, seq!['>'], ts as int);
        crate::text::lemma_find_from_found(line@, seq!['>'], ts as int);
        assert(crate::text::find_from(line@, seq!['>'], ts as int) == Some(te as int));
        assert(crate::text::matches_at(line@, seq!['>'], te as int));
        assert(te + 1 <= line@.len());
    }
    assert(te < line.len());
    let text_start = te + 1;
    let close = ['<', '/', 'a', '>'];
    assert(close@ =~= seq!['<', '/', 'a', '>']);
    let c = match find_from_exec(&lw, &close, text_start) {
        Some(c) => c,
        None => {
            proof {
                lemma_find_skip(lw@, close@, text_start as int);
            }
            return None;
        },
    };
    proof {
        lemma_find_skip(lw@, close@, text_start as int);
        crate::text::lemma_find_from_found(lw@, close@, text_start as int);
    }
    let tag = sub_chars(line, ts, te + 1);
    let text = sub_chars(line, text_start, c);
    Some((tag, text))
}

/// The raw value of the first `attr="..."` in a tag.
pub fn extract_attr(tag: &[char], attr: &[char]) -> (res: Option<Vec<char>>)
    ensures
        match res {
            Some(v) => spec_extract_attr(tag@, attr@) == Some(v@),
            None => spec_extract_attr(tag@, attr@) is None,
        },
{
    let lw = lower_exec(tag);
    let mut needle = lower_exec(attr);
    needle.push('=');
    needle.push('"');
    assert(needle@ =~= lower(attr@) + seq!['=', '"']);
    let p = match find_exec(&lw, &needle) {
        Some(p) => p,
        None => return None,
    };
    proof {
        lemma_find_found(lw@, needle@);
        assert(find(lw@, needle@) == Some(p as int));
        assert(p + needle@.len() <= lw@.len());
    }
    assert(p + needle.len() <= lw.len());
    let start = p + needle.len();
    let q = ['"'];
    assert(q@ =~= seq!['"']);
    let e = match find_from_exec(&lw, &q, start) {
        Some(e) => e,
        None => {
            proof {
                lemma_find_skip(lw@, seq!['"'], start as int);
            }
            return None;
        },
    };
    proof {
        lemma_find_skip(lw@, seq!['"'], start as int);
        crate::text::lemma_find_from_found(lw@, seq!['"'], start as int);
    }
    Some(sub_chars(tag, start, e))
}

/// A bookmark line read with the folder path it stands in.
pub fn parse_anchor_line(line: &[char], folder_stack: &[Vec<char>]) -> (res: Option<
    Bookmark,
>)
    ensures
        match res {
            Some(b) => spec_parse_anchor_line(line@, chars_view(folder_stack@)) == Some(b@),
            None => spec_parse_anchor_line(line@, chars_view(folder_stack@)) is None,
        },
{
    let (tag, text) = match extract_anchor(line) {
        Some(p) => p,
        None => return None,
    };
    let href = chars_of("href");
    let url = match extract_attr(&tag, &href) {
        Some(u) => u,
        None => return None,
    };
    let add_date = chars_of("add_date");
    let added = match extract_attr(&tag, &add_date) {
        Some(s) => parse_i64_exec(&s),
        None => None,
    };
    let title = unescape_chars(&text);
    let folder = strings_of(folder_stack);
    Some(Bookmark { title: string_of(&title), url: string_of(&url), folder, added })
}

/// Reads a Netscape bookmark file line by line: `<H3>` headings name the
/// folder that the next `<DL>` opens, `</DL>` closes the innermost folder,
/// and each `<A ...>` line is a bookmark in the open folders.
pub fn parse_netscape(input: &str) -> (res: Vec<Bookmark>)
    ensures
        bookmarks_view(res@) == parse_netscape_spec(input@),
{
    let s = chars_of(input);
    let h3 = chars_of("H3");
    let dl_open = chars_of("<DL");
    let dl_close = chars_of("</DL");
    let mut bookmarks: Vec<Bookmark> = Vec::new();
    let mut folder_stack: Vec<Vec<char>> = Vec::new();
    let mut pending: Option<Vec<char>> = None;
    let mut pos: usize = 0;
    assert(s@.skip(0) =~= s@);
    assert(bookmarks_view(bookmarks@) =~= Seq::<BookmarkView>::empty());
    assert(chars_view(folder_stack@) =~= Seq::<Seq<char>>::empty());
    while pos < s.len()
        invariant
            pos <= s.len(),
            s@ == input@,
            h3@ == "H3"@,
            dl_open@ == "<DL"@,
            dl_close@ == "</DL"@,
            netscape_run(lines(input@), parse_start()) == netscape_run(
                lines(s@.skip(pos as int)),
                ParseState {
                    bookmarks: bookmarks_view(bookmarks@),
                    stack: chars_view(folder_stack@),
                    pending: opt_view(pending),
                },
            ),
        decreases s.len() - pos,
    {
        let ghost rest = s@.skip(pos as int);
        let (end, next) = next_line(&s, pos);
        let raw = sub_chars(&s, pos, end);
        let ghost ls = lines(rest);
        assert(ls == seq![first_line(rest)] + lines(after_first_line(rest)));
        assert(ls[0] == raw@);
        assert(ls.drop_first() =~= lines(s@.skip(next as int)));
        let line = trim_exec(&raw);
        let ghost st = ParseState {
            bookmarks: bookmarks_view(bookmarks@),
            stack: chars_view(folder_stack@),
            pending: opt_view(pending),
        };
        let ghost next_st = netscape_step(st, line@);
        match extract_tag_text(&line, &h3) {
            Some(title) => {
                pending = Some(title);
            },
            None => {
                if starts_with_exec(&line, &dl_open) {
                    let taken = pending;
                    pending = None;
                    match taken {
                        Some(name) => {
                            folder_stack.push(name);
                            assert(chars_view(folder_stack@) =~= next_st.stack);
                        },
                        None => {},
                    }
                } else if starts_with_exec(&line, &dl_close) {
                    folder_stack.pop();
                    assert(chars_view(folder_stack@) =~= next_st.stack);
                } else {
                    match parse_anchor_line(&line, &folder_stack) {
                        Some(b) => {
                            bookmarks.push(b);
                            assert(bookmarks_view(bookmarks@) =~= next_st.bookmarks);
                        },
                        None => {},
                    }
                }
            },
        }
        pos = next;
    }
    assert(s@.skip(pos as int) =~= Seq::<char>::empty());
    bookmarks
}

// ---------------------------------------------------------------------
// Writing
// ---------------------------------------------------------------------

/// One level of the folder tree: bookmarks (by their index in the input)
/// and subfolders in a single ordered list, so that a folder is written
/// where its first bookmark first appears.
pub enum EntryModel {
    Mark(int),
    Folder(Seq<char>, Seq<EntryModel>),
}

/// The first subfolder named `name` at or after index `k`.
pub open spec fn folder_position_from(es: Seq<EntryModel>, name: Seq<char>, k: int) -> Option<
    int,
>
    decreases es.len() - k,
{
    if k < 0 || k >= es.len() {
        None
    } else if es[k] matches EntryModel::Folder(n, _) && n == name {
        Some(k)
    } else {
        folder_position_from(es, name, k + 1)
    }
}

pub open spec fn folder_position(es: Seq<EntryModel>, name: Seq<char>) -> Option<int> {
    folder_position_from(es, name, 0)
}

/// The children of a folder entry.
pub open spec fn children(e: EntryModel) -> Seq<EntryModel> {
    match e {
        EntryModel::Folder(_, cs) => cs,
        EntryModel::Mark(_) => Seq::empty(),
    }
}

/// Files bookmark `idx` under `path`: into the first subfolder of each
/// name, creating it at the end of its level when there is none.
pub open spec fn insert_at(es: Seq<EntryModel>, path: Seq<Seq<char>>, idx: int) -> Seq<
    EntryModel,
>
    decreases path.len(),
{
    if path.len() == 0 {
        es.push(EntryModel::Mark(idx))
    } else {
        match folder_position(es, path[0]) {
            Some(k) => es.update(
                k,
                EntryModel::Folder(path[0], insert_at(children(es[k]), path.drop_first(), idx)),
            ),
            None => es.push(
                EntryModel::Folder(path[0], insert_at(Seq::empty(), path.drop_first(), idx)),
            ),
        }
    }
}

/// The tree of the first `n` bookmarks.
pub open spec fn build_tree_prefix(bs: Seq<BookmarkView>, n: int) -> Seq<EntryModel>
    decreases n,
{
    if n <= 0 {
        Seq::empty()
    } else {
        insert_at(build_tree_prefix(bs, n - 1), bs[n - 1].folder, n - 1)
    }
}

/// The folder tree of a list of bookmarks, each filed under its path in
/// input order.
pub open spec fn build_tree(bs: Seq<BookmarkView>) -> Seq<EntryModel> {
    build_tree_prefix(bs, bs.len() as int)
}

pub open spec fn date_attr(added: Option<i64>) -> Seq<char> {
    match added {
        Some(ts) => " ADD_DATE=\""@ + i64_text(ts) + "\""@,
        None => Seq::empty(),
    }
}

/// The line of one bookmark.
pub open spec fn mark_line(b: BookmarkView, indent: Seq<char>) -> Seq<char> {
    indent + "<DT><A HREF=\""@ + escape(b.url) + "\""@ + date_attr(b.added) + ">"@ + escape(
        b.title,
    ) + "</A>\n"@
}

/// The lines of a level of the tree, each indented by `indent`, a folder's
/// contents by four more spaces.
pub open spec fn entries_text(es: Seq<EntryModel>, bs: Seq<BookmarkView>, indent: Seq<char>) -> Seq<
    char,
>
    decreases es,
{
    if es.len() == 0 {
        Seq::empty()
    } else {
        entry_text(es[0], bs, indent) + entries_text(es.drop_first(), bs, indent)
    }
}

pub open spec fn entry_text(e: EntryModel, bs: Seq<BookmarkView>, indent: Seq<char>) -> Seq<char>
    decreases e,
{
    match e {
        EntryModel::Mark(i) => if 0 <= i < bs.len() {
            mark_line(bs[i], indent)
        } else {
            Seq::empty()
        },
        EntryModel::Folder(name, cs) => indent + "<DT><H3>"@ + escape(name) + "</H3>\n"@ + indent
            + "<DL><p>\n"@ + entries_text(cs, bs, indent + "    "@) + indent + "</DL><p>\n"@,
    }
}

/// The fixed lines a bookmark file starts with, up to the opening of the
/// top-level list.
pub open spec fn netscape_header() -> Seq<char> {
    "<!DOCTYPE NETSCAPE-Bookmark-file-1>\n"@
        + "<META HTTP-EQUIV=\"Content-Type\" CONTENT=\"text/html; charset=UTF-8\">\n"@
        + "<TITLE>Bookmarks</TITLE>\n"@ + "<H1>Bookmarks</H1>\n"@ + "<DL><p>\n"@
}

/// A Netscape bookmark file holding `bs`, grouped by folder.
pub open spec fn netscape_text(bs: Seq<BookmarkView>) -> Seq<char> {
    netscape_header() + entries_text(build_tree(bs), bs, "    "@) + "</DL><p>\n"@
}

/// An entry of the folder tree: a bookmark by its index in the input, or
/// a folder with its name and contents.
pub enum NodeEntry {
    Bookmark(usize),
    Folder(Vec<char>, FolderNode),
}

/// One level of the folder tree.
pub struct FolderNode {
    pub entries: Vec<NodeEntry>,
}

pub open spec fn entries_model(es: Seq<NodeEntry>) -> Seq<EntryModel>
    decreases es,
{
    if es.len() == 0 {
        Seq::empty()
    } else {
        seq![entry_model(es[0])] + entries_model(es.drop_first())
    }
}

pub open spec fn entry_model(e: NodeEntry) -> EntryModel
    decreases e,
{
    match e {
        NodeEntry::Bookmark(i) => EntryModel::Mark(i as int),
        NodeEntry::Folder(name, node) => EntryModel::Folder(name@, entries_model(node.entries@)),
    }
}

pub proof fn lemma_entries_model(es: Seq<NodeEntry>)
    ensures
        entries_model(es).len() == es.len(),
        forall|i: int| 0 <= i < es.len() ==> #[trigger] entries_model(es)[i] == entry_model(es[i]),
    decreases es.len(),
{
    if es.len() > 0 {
        lemma_entries_model(es.drop_first());
        assert forall|i: int| 0 <= i < es.len() implies #[trigger] entries_model(es)[i]
            == entry_model(es[i]) by {
            if i > 0 {
                assert(entries_model(es)[i] == entries_model(es.drop_first())[i - 1]);
            }
        }
    }
}

pub proof fn lemma_entries_model_ext(a: Seq<NodeEntry>, m: Seq<EntryModel>)
    requires
        a.len() == m.len(),
        forall|i: int| 0 <= i < a.len() ==> entry_model(#[trigger] a[i]) == m[i],
    ensures
        entries_model(a) == m,
{
    lemma_entries_model(a);
    assert(entries_model(a) =~= m);
}

fn folder_position_exec(entries: &Vec<NodeEntry>, name: &[char]) -> (res: Option<usize>)
    ensures
        opt_int(res) == folder_position(entries_model(entries@), name@),
        res matches Some(k) ==> k < entries.len() && entries@[k as int] is Folder,
{
    let ghost m = entries_model(entries@);
    proof {
        lemma_entries_model(entries@);
    }
    let mut k: usize = 0;
    while k < entries.len()
        invariant
            k <= entries.len(),
            m == entries_model(entries@),
            m.len() == entries.len(),
            forall|i: int| 0 <= i < entries.len() ==> #[trigger] m[i] == entry_model(entries@[i]),
            folder_position(m, name@) == folder_position_from(m, name@, k as int),
        decreases entries.len() - k,
    {
        match &entries[k] {
            NodeEntry::Folder(n, _) => {
                if chars_eq(n, name) {
                    return Some(k);
                }
            },
            NodeEntry::Bookmark(_) => {},
        }
        k += 1;
    }
    None
}

/// Files bookmark `idx` under the folders `path[level..]` of `entries`.
fn insert_bookmark(entries: &mut Vec<NodeEntry>, path: &[Vec<char>], level: usize, idx: usize)
    requires
        level <= path.len(),
    ensures
        entries_model(final(entries)@) == insert_at(
            entries_model(old(entries)@),
            chars_view(path@).skip(level as int),
            idx as int,
        ),
    decreases path.len() - level,
{
    let ghost p = chars_view(path@).skip(level as int);
    let ghost m0 = entries_model(entries@);
    proof {
        lemma_entries_model(entries@);
    }
    if level == path.len() {
        entries.push(NodeEntry::Bookmark(idx));
        proof {
            lemma_entries_model(entries@);
            assert(p =~= Seq::<Seq<char>>::empty());
            lemma_entries_model_ext(entries@, m0.push(EntryModel::Mark(idx as int)));
        }
        return;
    }
    assert(p[0] == path@[level as int]@);
    assert(p.drop_first() =~= chars_view(path@).skip(level + 1));
    let name = &path[level];
    let k = match folder_position_exec(entries, name) {
        Some(k) => k,
        None => {
            let mut n: Vec<char> = Vec::new();
            push_chars(&mut n, name);
            assert(n@ =~= name@);
            entries.push(NodeEntry::Folder(n, FolderNode { entries: Vec::new() }));
            entries.len() - 1
        },
    };
    let ghost m1 = entries_model(entries@);
    proof {
        lemma_entries_model(entries@);
    }
    let ghost e1 = entries@;
    let mut taken = NodeEntry::Bookmark(0);
    entries.set_and_swap(k, &mut taken);
    match taken {
        NodeEntry::Folder(n, mut child) => {
            let ghost child0 = child.entries@;
            insert_bookmark(&mut child.entries, path, level + 1, idx);
            entries.set(k, NodeEntry::Folder(n, child));
            proof {
                assert(entries@ == e1.update(k as int, NodeEntry::Folder(n, child)));
                assert(entries_model(Seq::<NodeEntry>::empty()) =~= Seq::<EntryModel>::empty());
                let fresh = folder_position(m0, p[0]) is None;
                if fresh {
                    assert(m1 =~= m0.push(EntryModel::Folder(name@, Seq::empty())));
                    assert(n@ == name@);
                } else {
                    assert(m1 == m0);
                    lemma_folder_position(m0, p[0]);
                    assert(n@ == p[0]);
                }
                assert(children(m1[k as int]) == entries_model(child0));
                let new_entry = EntryModel::Folder(
                    p[0],
                    insert_at(children(m1[k as int]), p.drop_first(), idx as int),
                );
                assert(entry_model(entries@[k as int]) == new_entry);
                assert forall|j: int| 0 <= j < entries@.len() implies entry_model(
                    #[trigger] entries@[j],
                ) == m1.update(k as int, new_entry)[j] by {
                    if j != k {
                        assert(entries@[j] == e1[j]);
                    }
                }
                lemma_entries_model_ext(entries@, m1.update(k as int, new_entry));
                if fresh {
                    assert(m1.update(k as int, new_entry) =~= m0.push(
                        EntryModel::Folder(p[0], insert_at(Seq::empty(), p.drop_first(), idx as int)),
                    ));
                }
            }
        },
        NodeEntry::Bookmark(_) => {
            assert(false);
        },
    }
}

/// A found folder position holds a folder of that name.
pub proof fn lemma_folder_position(es: Seq<EntryModel>, name: Seq<char>)
    ensures
        folder_position(es, name) matches Some(k) ==> 0 <= k < es.len() && (
        es[k] matches EntryModel::Folder(n, _) && n == name),
{
    lemma_folder_position_from(es, name, 0);
}

proof fn lemma_folder_position_from(es: Seq<EntryModel>, name: Seq<char>, k: int)
    ensures
        folder_position_from(es, name, k) matches Some(j) ==> k <= j < es.len() && (
        es[j] matches EntryModel::Folder(n, _) && n == name),
    decreases es.len() - k,
{
    if k >= 0 && k < es.len() {
        lemma_folder_position_from(es, name, k + 1);
    }
}

/// Builds the folder tree: each bookmark in input order is filed under
/// its folder path.
pub fn build_folder_tree(bookmarks: &[Bookmark]) -> (res: FolderNode)
    ensures
        entries_model(res.entries@) == build_tree(bookmarks_view(bookmarks@)),
{
    let ghost bs = bookmarks_view(bookmarks@);
    let mut root = FolderNode { entries: Vec::new() };
    let mut i: usize = 0;
    assert(entries_model(root.entries@) =~= Seq::<EntryModel>::empty());
    while i < bookmarks.len()
        invariant
            i <= bookmarks.len(),
            bs == bookmarks_view(bookmarks@),
            entries_model(root.entries@) == build_tree_prefix(bs, i as int),
        decreases bookmarks.len() - i,
    {
        let mut path: Vec<Vec<char>> = Vec::new();
        let folder = &bookmarks[i].folder;
        for j in 0..folder.len()
            invariant
                path.len() == j,
                forall|t: int| 0 <= t < j ==> (#[trigger] path@[t])@ == folder@[t]@,
        {
            path.push(chars_of(folder[j].as_str()));
        }
        assert(chars_view(path@) =~= bs[i as int].folder);
        assert(chars_view(path@).skip(0) =~= chars_view(path@));
        insert_bookmark(&mut root.entries, &path, 0, i);
        i += 1;
    }
    root
}

/// Appends the line of one bookmark.
fn write_mark_line(out: &mut Vec<char>, bookmark: &Bookmark, indent: &[char])
    ensures
        final(out)@ == old(out)@ + mark_line(bookmark@, indent@),
{
    let ghost start = out@;
    push_chars(out, indent);
    push_str(out, "<DT><A HREF=\"");
    let url = chars_of(bookmark.url.as_str());
    escape_html(out, &url);
    push_str(out, "\"");
    match bookmark.added {
        Some(ts) => {
            push_str(out, " ADD_DATE=\"");
            push_i64_text(out, ts);
            push_str(out, "\"");
        },
        None => {},
    }
    push_str(out, ">");
    let title = chars_of(bookmark.title.as_str());
    escape_html(out, &title);
    push_str(out, "</A>\n");
    assert(out@ =~= start + mark_line(bookmark@, indent@));
}

/// Appends the lines of one level of the tree, indented by `indent`.
pub fn write_folder_entries(
    out: &mut Vec<char>,
    entries: &Vec<NodeEntry>,
    bookmarks: &[Bookmark],
    indent: &[char],
)
    ensures
        final(out)@ == old(out)@ + entries_text(
            entries_model(entries@),
            bookmarks_view(bookmarks@),
            indent@,
        ),
    decreases entries@,
{
    let ghost start = out@;
    let ghost bs = bookmarks_view(bookmarks@);
    let ghost m = entries_model(entries@);
    proof {
        lemma_entries_model(entries@);
    }
    let mut i: usize = 0;
    assert(m.skip(0) =~= m);
    assert(start + entries_text(m, bs, indent@) =~= out@ + entries_text(m, bs, indent@));
    while i < entries.len()
        invariant
            i <= entries.len(),
            bs == bookmarks_view(bookmarks@),
            m == entries_model(entries@),
            m.len() == entries.len(),
            forall|j: int| 0 <= j < entries.len() ==> #[trigger] m[j] == entry_model(entries@[j]),
            start + entries_text(m, bs, indent@) == out@ + entries_text(
                m.skip(i as int),
                bs,
                indent@,
            ),
        decreases entries.len() - i,
    {
        let ghost before = out@;
        let ghost rest = m.skip(i as int);
        assert(rest[0] == m[i as int]);
        assert(rest.drop_first() =~= m.skip(i + 1));
        assert(entries_text(rest, bs, indent@) == entry_text(m[i as int], bs, indent@)
            + entries_text(m.skip(i + 1), bs, indent@));
        match &entries[i] {
            NodeEntry::Bookmark(b) => {
                if *b < bookmarks.len() {
                    write_mark_line(out, &bookmarks[*b], indent);
                    assert(bookmarks@[*b as int]@ == bs[*b as int]);
                } else {
                    assert(out@ =~= before + entry_text(m[i as int], bs, indent@));
                }
            },
            NodeEntry::Folder(name, child) => {
                assert(decreases_to!(entries@ => entries@[i as int]));
                push_chars(out, indent);
                push_str(out, "<DT><H3>");
                escape_html(out, name);
                push_str(out, "</H3>\n");
                push_chars(out, indent);
                push_str(out, "<DL><p>\n");
                let mut deeper: Vec<char> = Vec::new();
                push_chars(&mut deeper, indent);
                push_str(&mut deeper, "    ");
                write_folder_entries(out, &child.entries, bookmarks, &deeper);
                push_chars(out, indent);
                push_str(out, "</DL><p>\n");
                assert(out@ =~= before + entry_text(m[i as int], bs, indent@));
            },
        }
        assert(before + entries_text(rest, bs, indent@) =~= out@ + entries_text(
            m.skip(i + 1),
            bs,
            indent@,
        ));
        i += 1;
    }
    assert(m.skip(i as int) =~= Seq::<EntryModel>::empty());
    assert(out@ + Seq::<char>::empty() =~= out@);
}

/// Writes a Netscape bookmark file: the fixed header, then the bookmarks
/// grouped into their folder tree.
pub fn write_netscape(bookmarks: &[Bookmark]) -> (res: String)
    ensures
        res@ == netscape_text(bookmarks_view(bookmarks@)),
{
    let mut out: Vec<char> = Vec::new();
    push_str(&mut out, "<!DOCTYPE NETSCAPE-Bookmark-file-1>\n");
    push_str(
        &mut out,
        "<META HTTP-EQUIV=\"Content-Type\" CONTENT=\"text/html; charset=UTF-8\">\n",
    );
    push_str(&mut out, "<TITLE>Bookmarks</TITLE>\n");
    push_str(&mut out, "<H1>Bookmarks</H1>\n");
    push_str(&mut out, "<DL><p>\n");
    let root = build_folder_tree(bookmarks);
    let indent = chars_of("    ");
    write_folder_entries(&mut out, &root.entries, bookmarks, &indent);
    push_str(&mut out, "</DL><p>\n");
    assert(out@ =~= netscape_text(bookmarks_view(bookmarks@)));
    string_of(&out)
}

} // verus!
