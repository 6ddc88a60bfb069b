//! The lines of a written Netscape file: how many of each kind there are,
//! and how they are indented.
use vstd::prelude::*;

use crate::html::escape;
use crate::netscape::{
    build_tree, entries_text, entry_text, insert_at, netscape_header, netscape_text, EntryModel,
};
use crate::netscape_laws::{
    text_ok, flat, flat_entry, heading_body, lemma_dl_lines,
    lemma_folder_literals, lemma_heading_shape, lemma_mark_body_shape, lemma_mark_line_shape,
    lemma_mark_literals, lemma_tree_order_permutes, mark_body,
};
use crate::text::{
    is_ws, lemma_contains_concat, lemma_lines_cons, lemma_trim_leading, lemma_trim_noop, lines,
    matches_at, starts_with, trim,
};
use crate::BookmarkView;

verus! {

// ---------------------------------------------------------------------
// A level of the tree, line by line
// ---------------------------------------------------------------------

/// Lines, each followed by a line feed.
pub open spec fn unlines(ls: Seq<Seq<char>>) -> Seq<char>
    decreases ls.len(),
{
    if ls.len() == 0 {
        Seq::empty()
    } else {
        ls[0] + seq!['\n'] + unlines(ls.drop_first())
    }
}

/// The lines a level of the tree is written as, without their line feeds.
pub open spec fn entries_lines(es: Seq<EntryModel>, bs: Seq<BookmarkView>, ind: Seq<char>) -> Seq<
    Seq<char>,
>
    decreases es,
{
    if es.len() == 0 {
        Seq::empty()
    } else {
        entry_lines(es[0], bs, ind) + entries_lines(es.drop_first(), bs, ind)
    }
}

pub open spec fn entry_lines(e: EntryModel, bs: Seq<BookmarkView>, ind: Seq<char>) -> Seq<Seq<char>>
    decreases e,
{
    match e {
        EntryModel::Mark(i) => if 0 <= i < bs.len() {
            seq![ind + mark_body(bs[i])]
        } else {
            Seq::empty()
        },
        EntryModel::Folder(name, cs) => seq![ind + heading_body(name), ind + "<DL><p>"@]
            + entries_lines(cs, bs, ind + "    "@) + seq![ind + "</DL><p>"@],
    }
}

/// The folders of a level and of the levels below it.
pub open spec fn folder_count(es: Seq<EntryModel>) -> nat
    decreases es,
{
    if es.len() == 0 {
        0
    } else {
        entry_folder_count(es[0]) + folder_count(es.drop_first())
    }
}

pub open spec fn entry_folder_count(e: EntryModel) -> nat
    decreases e,
{
    match e {
        EntryModel::Mark(_) => 0,
        EntryModel::Folder(_, cs) => 1 + folder_count(cs),
    }
}

/// The kinds of line a written file is made of.
pub enum LineKind {
    Heading,
    Anchor,
    ListOpen,
    ListClose,
}

/// A trimmed line of kind `k`: a folder heading, a bookmark, or the opening
/// or closing of a list.
pub open spec fn has_kind(t: Seq<char>, k: LineKind) -> bool {
    match k {
        LineKind::Heading => starts_with(t, "<DT><H3>"@),
        LineKind::Anchor => starts_with(t, "<DT><A HREF="@),
        LineKind::ListOpen => t == "<DL><p>"@,
        LineKind::ListClose => t == "</DL><p>"@,
    }
}

/// The lines of `ls` that, trimmed, are of kind `k`.
pub open spec fn kind_count(ls: Seq<Seq<char>>, k: LineKind) -> nat
    decreases ls.len(),
{
    if ls.len() == 0 {
        0
    } else {
        (if has_kind(trim(ls[0]), k) {
            1nat
        } else {
            0nat
        }) + kind_count(ls.drop_first(), k)
    }
}

proof fn lemma_unlines_concat(a: Seq<Seq<char>>, b: Seq<Seq<char>>)
    ensures
        unlines(a + b) == unlines(a) + unlines(b),
    decreases a.len(),
{
    if a.len() == 0 {
        assert(a + b =~= b);
    } else {
        assert((a + b).drop_first() =~= a.drop_first() + b);
        assert((a + b)[0] == a[0]);
        lemma_unlines_concat(a.drop_first(), b);
    }
}

proof fn lemma_kind_count_concat(a: Seq<Seq<char>>, b: Seq<Seq<char>>, k: LineKind)
    ensures
        kind_count(a + b, k) == kind_count(a, k) + kind_count(b, k),
    decreases a.len(),
{
    if a.len() == 0 {
        assert(a + b =~= b);
    } else {
        assert((a + b).drop_first() =~= a.drop_first() + b);
        assert((a + b)[0] == a[0]);
        lemma_kind_count_concat(a.drop_first(), b, k);
    }
}

proof fn lemma_unlines_one(l: Seq<char>)
    ensures
        unlines(seq![l]) == l + seq!['\n'],
{
    let one = seq![l];
    assert(one.drop_first() =~= Seq::<Seq<char>>::empty());
    assert(one[0] == l);
    assert(unlines(one.drop_first()) == Seq::<char>::empty());
    assert(l + seq!['\n'] + Seq::<char>::empty() =~= l + seq!['\n']);
}

/// The text of a level is its lines, each followed by a line feed.
proof fn lemma_entries_unlines(es: Seq<EntryModel>, bs: Seq<BookmarkView>, ind: Seq<char>)
    ensures
        entries_text(es, bs, ind) == unlines(entries_lines(es, bs, ind)),
    decreases es,
{
    if es.len() > 0 {
        lemma_entry_unlines(es[0], bs, ind);
        lemma_entries_unlines(es.drop_first(), bs, ind);
        lemma_unlines_concat(entry_lines(es[0], bs, ind), entries_lines(es.drop_first(), bs, ind));
    }
}

proof fn lemma_entry_unlines(e: EntryModel, bs: Seq<BookmarkView>, ind: Seq<char>)
    ensures
        entry_text(e, bs, ind) == unlines(entry_lines(e, bs, ind)),
    decreases e,
{
    match e {
        EntryModel::Mark(i) => {
            if 0 <= i < bs.len() {
                lemma_mark_line_shape(bs[i], ind);
                lemma_unlines_one(ind + mark_body(bs[i]));
            } else {
                assert(entry_lines(e, bs, ind) =~= Seq::<Seq<char>>::empty());
            }
        },
        EntryModel::Folder(name, cs) => {
            let deeper = ind + "    "@;
            lemma_entries_unlines(cs, bs, deeper);
            lemma_folder_literals();
            lemma_dl_lines();
            let inner = entries_lines(cs, bs, deeper);
            let two = seq![ind + heading_body(name), ind + "<DL><p>"@];
            let last = seq![ind + "</DL><p>"@];
            lemma_unlines_concat(two + inner, last);
            lemma_unlines_concat(two, inner);
            lemma_unlines_one(ind + "</DL><p>"@);
            assert(two.drop_first() =~= seq![ind + "<DL><p>"@]);
            lemma_unlines_one(ind + "<DL><p>"@);
            assert(unlines(two) =~= (ind + heading_body(name)) + seq!['\n'] + (ind + "<DL><p>"@
                + seq!['\n']));
            assert(entry_text(e, bs, ind) =~= unlines(two) + unlines(inner) + unlines(last));
        },
    }
}

// ---------------------------------------------------------------------
// What kind each line is
// ---------------------------------------------------------------------

proof fn lemma_kind_literals()
    ensures
        "<DT><H3>"@ == seq!['<', 'D', 'T', '>', '<', 'H', '3', '>'],
        "<DT><A HREF="@ == seq!['<', 'D', 'T', '>', '<', 'A', ' ', 'H', 'R', 'E', 'F', '='],
        "<DL><p>"@ == seq!['<', 'D', 'L', '>', '<', 'p', '>'],
        "</DL><p>"@ == seq!['<', '/', 'D', 'L', '>', '<', 'p', '>'],
{
    reveal_strlit("<DT><H3>");
    reveal_strlit("<DT><A HREF=");
    reveal_strlit("<DL><p>");
    reveal_strlit("</DL><p>");
    assert("<DT><H3>"@ =~= seq!['<', 'D', 'T', '>', '<', 'H', '3', '>']);
    assert("<DT><A HREF="@ =~= seq!['<', 'D', 'T', '>', '<', 'A', ' ', 'H', 'R', 'E', 'F', '=']);
    assert("<DL><p>"@ =~= seq!['<', 'D', 'L', '>', '<', 'p', '>']);
    assert("</DL><p>"@ =~= seq!['<', '/', 'D', 'L', '>', '<', 'p', '>']);
}

/// What kind a trimmed line is, from its first six characters.
proof fn lemma_kinds_by_start(t: Seq<char>)
    requires
        t.len() >= 6,
    ensures
        has_kind(t, LineKind::Heading) ==> t[1] == 'D' && t[2] == 'T' && t[5] == 'H',
        has_kind(t, LineKind::Anchor) ==> t[1] == 'D' && t[2] == 'T' && t[5] == 'A',
        has_kind(t, LineKind::ListOpen) ==> t[1] == 'D' && t[2] == 'L',
        has_kind(t, LineKind::ListClose) ==> t[1] == '/',
{
    lemma_kind_literals();
    if has_kind(t, LineKind::Heading) {
        assert(t.take(8)[5] == t[5]);
    }
    if has_kind(t, LineKind::Anchor) {
        assert(t.take(12)[5] == t[5]);
    }
}

proof fn lemma_mark_body_kind(b: BookmarkView)
    ensures
        mark_body(b).len() >= 13,
        mark_body(b)[0] == '<',
        mark_body(b).last() == '>',
        has_kind(mark_body(b), LineKind::Anchor),
        !has_kind(mark_body(b), LineKind::Heading),
        !has_kind(mark_body(b), LineKind::ListOpen),
        !has_kind(mark_body(b), LineKind::ListClose),
{
    lemma_mark_literals();
    lemma_kind_literals();
    let m = mark_body(b);
    let rest = escape(b.url) + "\""@ + crate::netscape::date_attr(b.added) + ">"@ + escape(b.title);
    assert(m =~= seq!['<', 'D', 'T', '>'] + seq!['<', 'A', ' ', 'H', 'R', 'E', 'F', '=', '"'] + rest
        + seq!['<', '/', 'A', '>']);
    assert(m.take(12) =~= "<DT><A HREF="@);
    lemma_kinds_by_start(m);
}

proof fn lemma_heading_body_kind(name: Seq<char>)
    ensures
        heading_body(name).len() >= 13,
        heading_body(name)[0] == '<',
        heading_body(name).last() == '>',
        has_kind(heading_body(name), LineKind::Heading),
        !has_kind(heading_body(name), LineKind::Anchor),
        !has_kind(heading_body(name), LineKind::ListOpen),
        !has_kind(heading_body(name), LineKind::ListClose),
{
    lemma_folder_literals();
    lemma_kind_literals();
    let h = heading_body(name);
    assert(h =~= seq!['<', 'D', 'T', '>', '<', 'H', '3', '>'] + escape(name) + seq![
        '<',
        '/',
        'H',
        '3',
        '>',
    ]);
    assert(h.take(8) =~= "<DT><H3>"@);
    lemma_kinds_by_start(h);
}

proof fn lemma_list_line_kinds()
    ensures
        has_kind("<DL><p>"@, LineKind::ListOpen),
        !has_kind("<DL><p>"@, LineKind::ListClose),
        !has_kind("<DL><p>"@, LineKind::Heading),
        !has_kind("<DL><p>"@, LineKind::Anchor),
        has_kind("</DL><p>"@, LineKind::ListClose),
        !has_kind("</DL><p>"@, LineKind::ListOpen),
        !has_kind("</DL><p>"@, LineKind::Heading),
        !has_kind("</DL><p>"@, LineKind::Anchor),
{
    lemma_kind_literals();
    lemma_kinds_by_start("<DL><p>"@);
    lemma_kinds_by_start("</DL><p>"@);
}

/// An indented body: trimmed, it is the body.
proof fn lemma_trim_indented(ind: Seq<char>, body: Seq<char>)
    requires
        forall|i: int| 0 <= i < ind.len() ==> #[trigger] ind[i] == ' ',
        body.len() > 0,
        body[0] == '<',
        body.last() == '>',
    ensures
        trim(ind + body) == body,
{
    assert forall|i: int| 0 <= i < ind.len() implies is_ws(#[trigger] ind[i]) by {}
    lemma_trim_leading(ind, body);
    lemma_trim_noop(body);
}

/// The lines of a level indented by spaces: each starts with the
/// indentation; there is one bookmark line per bookmark, one heading line
/// per folder, and as many lines opening a list as closing one, one each
/// per folder.
pub proof fn lemma_entries_line_kinds(es: Seq<EntryModel>, bs: Seq<BookmarkView>, ind: Seq<char>)
    requires
        forall|i: int| 0 <= i < ind.len() ==> #[trigger] ind[i] == ' ',
        forall|t: int| 0 <= t < flat(es).len() ==> 0 <= #[trigger] flat(es)[t] < bs.len(),
    ensures
        forall|k: int|
            0 <= k < entries_lines(es, bs, ind).len() ==> starts_with(
                #[trigger] entries_lines(es, bs, ind)[k],
                ind,
            ),
        kind_count(entries_lines(es, bs, ind), LineKind::Anchor) == flat(es).len(),
        kind_count(entries_lines(es, bs, ind), LineKind::Heading) == folder_count(es),
        kind_count(entries_lines(es, bs, ind), LineKind::ListOpen) == folder_count(es),
        kind_count(entries_lines(es, bs, ind), LineKind::ListClose) == folder_count(es),
    decreases es,
{
    if es.len() > 0 {
        let tail = es.drop_first();
        let a = flat_entry(es[0]);
        assert(flat(es) == a + flat(tail));
        assert forall|t: int| 0 <= t < flat(tail).len() implies 0 <= #[trigger] flat(tail)[t]
            < bs.len() by {
            assert(flat(es)[a.len() + t] == flat(tail)[t]);
        }
        assert forall|t: int| 0 <= t < a.len() implies 0 <= #[trigger] a[t] < bs.len() by {
            assert(flat(es)[t] == a[t]);
        }
        lemma_entries_line_kinds(tail, bs, ind);
        lemma_entry_line_kinds(es[0], bs, ind);
        let x = entry_lines(es[0], bs, ind);
        let y = entries_lines(tail, bs, ind);
        lemma_kind_count_concat(x, y, LineKind::Anchor);
        lemma_kind_count_concat(x, y, LineKind::Heading);
        lemma_kind_count_concat(x, y, LineKind::ListOpen);
        lemma_kind_count_concat(x, y, LineKind::ListClose);
        assert forall|k: int| 0 <= k < (x + y).len() implies starts_with(#[trigger] (x + y)[k], ind) by {
            if k < x.len() {
                assert((x + y)[k] == x[k]);
            } else {
                assert((x + y)[k] == y[k - x.len()]);
            }
        }
    }
}

proof fn lemma_entry_line_kinds(e: EntryModel, bs: Seq<BookmarkView>, ind: Seq<char>)
    requires
        forall|i: int| 0 <= i < ind.len() ==> #[trigger] ind[i] == ' ',
        forall|t: int| 0 <= t < flat_entry(e).len() ==> 0 <= #[trigger] flat_entry(e)[t] < bs.len(),
    ensures
        forall|k: int|
            0 <= k < entry_lines(e, bs, ind).len() ==> starts_with(
                #[trigger] entry_lines(e, bs, ind)[k],
                ind,
            ),
        kind_count(entry_lines(e, bs, ind), LineKind::Anchor) == flat_entry(e).len(),
        kind_count(entry_lines(e, bs, ind), LineKind::Heading) == entry_folder_count(e),
        kind_count(entry_lines(e, bs, ind), LineKind::ListOpen) == entry_folder_count(e),
        kind_count(entry_lines(e, bs, ind), LineKind::ListClose) == entry_folder_count(e),
    decreases e,
{
    match e {
        EntryModel::Mark(i) => {
            assert(flat_entry(e)[0] == i);
            let l = ind + mark_body(bs[i]);
            lemma_mark_body_kind(bs[i]);
            lemma_trim_indented(ind, mark_body(bs[i]));
            assert(entry_lines(e, bs, ind) == seq![l]);
            let one = seq![l];
            assert(one.drop_first() =~= Seq::<Seq<char>>::empty());
            assert(one[0] == l);
            assert(trim(one[0]) == mark_body(bs[i]));
            assert(kind_count(one.drop_first(), LineKind::Anchor) == 0);
            assert(kind_count(one.drop_first(), LineKind::Heading) == 0);
            assert(kind_count(one.drop_first(), LineKind::ListOpen) == 0);
            assert(kind_count(one.drop_first(), LineKind::ListClose) == 0);
            assert(kind_count(one, LineKind::Anchor) == 1);
            assert(flat_entry(e) =~= seq![i]);
            assert(l.take(ind.len() as int) =~= ind);
        },
        EntryModel::Folder(name, cs) => {
            let deeper = ind + "    "@;
            lemma_folder_literals();
            assert forall|i: int| 0 <= i < deeper.len() implies #[trigger] deeper[i] == ' ' by {
                if i >= ind.len() {
                    assert(deeper[i] == "    "@[i - ind.len()]);
                }
            }
            assert(flat_entry(e) == flat(cs));
            lemma_entries_line_kinds(cs, bs, deeper);
            let h = ind + heading_body(name);
            let o = ind + "<DL><p>"@;
            let c = ind + "</DL><p>"@;
            lemma_heading_body_kind(name);
            lemma_list_line_kinds();
            lemma_dl_lines();
            lemma_trim_indented(ind, heading_body(name));
            lemma_trim_indented(ind, "<DL><p>"@);
            lemma_trim_indented(ind, "</DL><p>"@);
            let two = seq![h, o];
            let inner = entries_lines(cs, bs, deeper);
            let last = seq![c];
            assert(two.drop_first() =~= seq![o]);
            assert(seq![o].drop_first() =~= Seq::<Seq<char>>::empty());
            assert(last.drop_first() =~= Seq::<Seq<char>>::empty());
            lemma_kind_count_concat(two + inner, last, LineKind::Anchor);
            lemma_kind_count_concat(two, inner, LineKind::Anchor);
            lemma_kind_count_concat(two + inner, last, LineKind::Heading);
            lemma_kind_count_concat(two, inner, LineKind::Heading);
            lemma_kind_count_concat(two + inner, last, LineKind::ListOpen);
            lemma_kind_count_concat(two, inner, LineKind::ListOpen);
            lemma_kind_count_concat(two + inner, last, LineKind::ListClose);
            lemma_kind_count_concat(two, inner, LineKind::ListClose);
            let one_o = seq![o];
            assert(two[0] == h && one_o[0] == o && last[0] == c);
            assert(two.drop_first() == one_o);
            assert(trim(h) == heading_body(name));
            assert(trim(o) == "<DL><p>"@);
            assert(trim(c) == "</DL><p>"@);
            assert(kind_count(one_o.drop_first(), LineKind::Anchor) == 0);
            assert(kind_count(one_o.drop_first(), LineKind::Heading) == 0);
            assert(kind_count(one_o.drop_first(), LineKind::ListOpen) == 0);
            assert(kind_count(one_o.drop_first(), LineKind::ListClose) == 0);
            assert(kind_count(last.drop_first(), LineKind::Anchor) == 0);
            assert(kind_count(last.drop_first(), LineKind::Heading) == 0);
            assert(kind_count(last.drop_first(), LineKind::ListOpen) == 0);
            assert(kind_count(last.drop_first(), LineKind::ListClose) == 0);
            assert(kind_count(one_o, LineKind::Anchor) == 0);
            assert(kind_count(one_o, LineKind::Heading) == 0);
            assert(kind_count(one_o, LineKind::ListOpen) == 1);
            assert(kind_count(one_o, LineKind::ListClose) == 0);
            assert(kind_count(two, LineKind::Anchor) == 0);
            assert(kind_count(two, LineKind::Heading) == 1);
            assert(kind_count(two, LineKind::ListOpen) == 1);
            assert(kind_count(two, LineKind::ListClose) == 0);
            assert(kind_count(last, LineKind::Anchor) == 0);
            assert(kind_count(last, LineKind::Heading) == 0);
            assert(kind_count(last, LineKind::ListOpen) == 0);
            assert(kind_count(last, LineKind::ListClose) == 1);
            assert(entry_folder_count(e) == 1 + folder_count(cs));
            let all = two + inner + last;
            assert(entry_lines(e, bs, ind) == all);
            assert(h.take(ind.len() as int) =~= ind);
            assert(o.take(ind.len() as int) =~= ind);
            assert(c.take(ind.len() as int) =~= ind);
            assert forall|k: int| 0 <= k < all.len() implies starts_with(#[trigger] all[k], ind) by {
                if k == 0 {
                    assert(all[k] == h);
                } else if k == 1 {
                    assert(all[k] == o);
                } else if k < 2 + inner.len() {
                    assert(all[k] == inner[k - 2]);
                    let w = inner[k - 2];
                    assert(starts_with(w, deeper));
                    assert forall|j: int| 0 <= j < ind.len() implies w[j] == ind[j] by {
                        assert(w.take(deeper.len() as int)[j] == w[j]);
                        assert(deeper[j] == ind[j]);
                    }
                    assert(w.take(ind.len() as int) =~= ind);
                } else {
                    assert(all[k] == c);
                }
            }
        },
    }
}

/// The lists of `ls` nest: no first lines close more lists than they open,
/// and all lines together close as many as they open.
pub open spec fn lists_nest(ls: Seq<Seq<char>>) -> bool {
    &&& forall|k: int|
        0 <= k <= ls.len() ==> kind_count(#[trigger] ls.take(k), LineKind::ListClose) <= kind_count(
            ls.take(k),
            LineKind::ListOpen,
        )
    &&& kind_count(ls, LineKind::ListClose) == kind_count(ls, LineKind::ListOpen)
}

proof fn lemma_nest_concat(a: Seq<Seq<char>>, b: Seq<Seq<char>>)
    requires
        lists_nest(a),
        lists_nest(b),
    ensures
        lists_nest(a + b),
{
    lemma_kind_count_concat(a, b, LineKind::ListOpen);
    lemma_kind_count_concat(a, b, LineKind::ListClose);
    assert forall|k: int| 0 <= k <= (a + b).len() implies kind_count(
        #[trigger] (a + b).take(k),
        LineKind::ListClose,
    ) <= kind_count((a + b).take(k), LineKind::ListOpen) by {
        if k <= a.len() {
            assert((a + b).take(k) =~= a.take(k));
        } else {
            let r = b.take(k - a.len());
            assert((a + b).take(k) =~= a + r);
            assert(b.take(k - a.len()) == r);
            lemma_kind_count_concat(a, r, LineKind::ListOpen);
            lemma_kind_count_concat(a, r, LineKind::ListClose);
        }
    }
}

proof fn lemma_nest_plain(ls: Seq<Seq<char>>)
    requires
        forall|k: int| 0 <= k < ls.len() ==> !has_kind(trim(#[trigger] ls[k]), LineKind::ListOpen)
            && !has_kind(trim(ls[k]), LineKind::ListClose),
    ensures
        lists_nest(ls),
        kind_count(ls, LineKind::ListOpen) == 0,
    decreases ls.len(),
{
    if ls.len() > 0 {
        let t = ls.drop_first();
        assert forall|k: int| 0 <= k < t.len() implies !has_kind(trim(#[trigger] t[k]), LineKind::ListOpen)
            && !has_kind(trim(t[k]), LineKind::ListClose) by {
            assert(t[k] == ls[k + 1]);
        }
        lemma_nest_plain(t);
    }
    assert forall|k: int| 0 <= k <= ls.len() implies kind_count(
        #[trigger] ls.take(k),
        LineKind::ListClose,
    ) <= kind_count(ls.take(k), LineKind::ListOpen) by {
        lemma_no_lists_count(ls.take(k));
    }
    lemma_no_lists_count(ls);
}

proof fn lemma_no_lists_count(ls: Seq<Seq<char>>)
    requires
        forall|k: int| 0 <= k < ls.len() ==> !has_kind(trim(#[trigger] ls[k]), LineKind::ListClose),
    ensures
        kind_count(ls, LineKind::ListClose) == 0,
    decreases ls.len(),
{
    if ls.len() > 0 {
        let t = ls.drop_first();
        assert forall|k: int| 0 <= k < t.len() implies !has_kind(trim(#[trigger] t[k]), LineKind::ListClose) by {
            assert(t[k] == ls[k + 1]);
        }
        lemma_no_lists_count(t);
    }
}

/// A list's opening line, nested lines, and its closing line nest.
proof fn lemma_nest_wrapped(o: Seq<char>, inner: Seq<Seq<char>>, c: Seq<char>)
    requires
        trim(o) == "<DL><p>"@,
        trim(c) == "</DL><p>"@,
        lists_nest(inner),
    ensures
        lists_nest(seq![o] + inner + seq![c]),
{
    lemma_list_line_kinds();
    let os = seq![o];
    let last = seq![c];
    assert(os[0] == o && last[0] == c);
    assert(os.drop_first() =~= Seq::<Seq<char>>::empty());
    assert(last.drop_first() =~= Seq::<Seq<char>>::empty());
    let mid = os + inner + last;
    assert(kind_count(os.drop_first(), LineKind::ListOpen) == 0);
    assert(kind_count(os.drop_first(), LineKind::ListClose) == 0);
    assert(kind_count(last.drop_first(), LineKind::ListOpen) == 0);
    assert(kind_count(last.drop_first(), LineKind::ListClose) == 0);
    assert(kind_count(os, LineKind::ListOpen) == 1);
    assert(kind_count(os, LineKind::ListClose) == 0);
    assert(kind_count(last, LineKind::ListOpen) == 0);
    assert(kind_count(last, LineKind::ListClose) == 1);
    lemma_kind_count_concat(os + inner, last, LineKind::ListOpen);
    lemma_kind_count_concat(os + inner, last, LineKind::ListClose);
    lemma_kind_count_concat(os, inner, LineKind::ListOpen);
    lemma_kind_count_concat(os, inner, LineKind::ListClose);
    assert forall|k: int| 0 <= k <= mid.len() implies kind_count(
        #[trigger] mid.take(k),
        LineKind::ListClose,
    ) <= kind_count(mid.take(k), LineKind::ListOpen) by {
        if k == 0 {
            assert(mid.take(k) =~= Seq::<Seq<char>>::empty());
        } else if k <= 1 + inner.len() {
            let r = inner.take(k - 1);
            assert(mid.take(k) =~= os + r);
            assert(inner.take(k - 1) == r);
            lemma_kind_count_concat(os, r, LineKind::ListOpen);
            lemma_kind_count_concat(os, r, LineKind::ListClose);
        } else {
            assert(mid.take(k) =~= mid);
        }
    }
}

/// The lists of a level's lines nest.
proof fn lemma_entries_nest(es: Seq<EntryModel>, bs: Seq<BookmarkView>, ind: Seq<char>)
    requires
        forall|i: int| 0 <= i < ind.len() ==> #[trigger] ind[i] == ' ',
    ensures
        lists_nest(entries_lines(es, bs, ind)),
    decreases es,
{
    if es.len() == 0 {
        lemma_nest_plain(entries_lines(es, bs, ind));
    } else {
        lemma_entry_nest(es[0], bs, ind);
        lemma_entries_nest(es.drop_first(), bs, ind);
        lemma_nest_concat(entry_lines(es[0], bs, ind), entries_lines(es.drop_first(), bs, ind));
    }
}

proof fn lemma_entry_nest(e: EntryModel, bs: Seq<BookmarkView>, ind: Seq<char>)
    requires
        forall|i: int| 0 <= i < ind.len() ==> #[trigger] ind[i] == ' ',
    ensures
        lists_nest(entry_lines(e, bs, ind)),
    decreases e,
{
    match e {
        EntryModel::Mark(i) => {
            let ls = entry_lines(e, bs, ind);
            if 0 <= i < bs.len() {
                lemma_mark_body_kind(bs[i]);
                lemma_trim_indented(ind, mark_body(bs[i]));
                assert(ls[0] == ind + mark_body(bs[i]));
            }
            lemma_nest_plain(ls);
        },
        EntryModel::Folder(name, cs) => {
            let deeper = ind + "    "@;
            lemma_folder_literals();
            assert forall|i: int| 0 <= i < deeper.len() implies #[trigger] deeper[i] == ' ' by {
                if i >= ind.len() {
                    assert(deeper[i] == "    "@[i - ind.len()]);
                }
            }
            lemma_entries_nest(cs, bs, deeper);
            let h = ind + heading_body(name);
            let o = ind + "<DL><p>"@;
            let c = ind + "</DL><p>"@;
            lemma_heading_body_kind(name);
            lemma_list_line_kinds();
            lemma_dl_lines();
            lemma_trim_indented(ind, heading_body(name));
            lemma_trim_indented(ind, "<DL><p>"@);
            lemma_trim_indented(ind, "</DL><p>"@);
            let inner = entries_lines(cs, bs, deeper);
            let hs = seq![h];
            assert(hs[0] == h);
            lemma_nest_plain(hs);
            lemma_nest_wrapped(o, inner, c);
            let mid = seq![o] + inner + seq![c];
            lemma_nest_concat(hs, mid);
            assert(entry_lines(e, bs, ind) =~= hs + mid);
        },
    }
}

/// `write_folder_entries` appends, to what was there, the lines of one
/// level of the tree, each indented by at least `indent` and followed by a
/// line feed: one per bookmark, one heading per folder, and as many lines
/// opening a list as closing one, nested. The text is empty exactly when the
/// level is, and otherwise ends with a line feed.
pub proof fn lemma_folder_entries_lines(
    es: Seq<EntryModel>,
    bs: Seq<BookmarkView>,
    indent: Seq<char>,
)
    requires
        forall|i: int| 0 <= i < indent.len() ==> #[trigger] indent[i] == ' ',
        forall|t: int| 0 <= t < flat(es).len() ==> 0 <= #[trigger] flat(es)[t] < bs.len(),
    ensures
        entries_text(es, bs, indent) == unlines(entries_lines(es, bs, indent)),
        forall|k: int|
            0 <= k < entries_lines(es, bs, indent).len() ==> starts_with(
                #[trigger] entries_lines(es, bs, indent)[k],
                indent,
            ),
        kind_count(entries_lines(es, bs, indent), LineKind::Anchor) == flat(es).len(),
        kind_count(entries_lines(es, bs, indent), LineKind::Heading) == folder_count(es),
        kind_count(entries_lines(es, bs, indent), LineKind::ListOpen) == folder_count(es),
        kind_count(entries_lines(es, bs, indent), LineKind::ListClose) == folder_count(es),
        lists_nest(entries_lines(es, bs, indent)),
        entries_text(es, bs, indent).len() == 0 <==> es.len() == 0,
        es.len() > 0 ==> entries_text(es, bs, indent).last() == '\n',
{
    lemma_entries_nest(es, bs, indent);
    lemma_entries_unlines(es, bs, indent);
    lemma_entries_line_kinds(es, bs, indent);
    let ls = entries_lines(es, bs, indent);
    if es.len() > 0 {
        assert(flat(es) == flat_entry(es[0]) + flat(es.drop_first()));
        assert(folder_count(es) == entry_folder_count(es[0]) + folder_count(es.drop_first()));
        match es[0] {
            EntryModel::Mark(_) => {},
            EntryModel::Folder(_, _) => {},
        }
        assert(kind_count(ls, LineKind::Anchor) + kind_count(ls, LineKind::Heading) > 0);
        assert(ls.len() > 0);
        lemma_unlines_ends(ls);
    } else {
        assert(ls =~= Seq::<Seq<char>>::empty());
    }
}

proof fn lemma_unlines_ends(ls: Seq<Seq<char>>)
    requires
        ls.len() > 0,
    ensures
        unlines(ls).len() > 0,
        unlines(ls).last() == '\n',
    decreases ls.len(),
{
    let r = ls.drop_first();
    let a = ls[0] + seq!['\n'];
    assert(unlines(ls) == a + unlines(r));
    if r.len() > 0 {
        lemma_unlines_ends(r);
        assert(unlines(ls).last() == unlines(r).last());
    } else {
        assert(unlines(r) =~= Seq::<char>::empty());
        assert(unlines(ls) =~= a);
    }
}

// ---------------------------------------------------------------------
// The lines of a whole file
// ---------------------------------------------------------------------

/// The fixed lines a written file starts with.
pub open spec fn header_lines() -> Seq<Seq<char>> {
    seq![
        "<!DOCTYPE NETSCAPE-Bookmark-file-1>"@,
        "<META HTTP-EQUIV=\"Content-Type\" CONTENT=\"text/html; charset=UTF-8\">"@,
        "<TITLE>Bookmarks</TITLE>"@,
        "<H1>Bookmarks</H1>"@,
        "<DL><p>"@,
    ]
}

/// A line that `str::lines` gives back as it is: no line feed inside, and
/// not ending in a carriage return.
pub open spec fn plain_line(l: Seq<char>) -> bool {
    !l.contains('\n') && l.len() > 0 && l.last() != '\r'
}

proof fn lemma_lines_unlines(ls: Seq<Seq<char>>)
    requires
        forall|k: int| 0 <= k < ls.len() ==> plain_line(#[trigger] ls[k]),
    ensures
        lines(unlines(ls)) == ls,
    decreases ls.len(),
{
    if ls.len() > 0 {
        let t = ls.drop_first();
        assert forall|k: int| 0 <= k < t.len() implies plain_line(#[trigger] t[k]) by {
            assert(t[k] == ls[k + 1]);
        }
        lemma_lines_unlines(t);
        assert(plain_line(ls[0]));
        lemma_lines_cons(ls[0], unlines(t));
        assert(seq![ls[0]] + t =~= ls);
    }
}

proof fn lemma_indented_plain(ind: Seq<char>, body: Seq<char>)
    requires
        forall|i: int| 0 <= i < ind.len() ==> #[trigger] ind[i] == ' ',
        body.len() > 0,
        !body.contains('\n'),
        body.last() == '>',
    ensures
        plain_line(ind + body),
{
    lemma_contains_concat(ind, body);
    assert(!ind.contains('\n')) by {
        if ind.contains('\n') {
            let i = choose|i: int| 0 <= i < ind.len() && ind[i] == '\n';
        }
    }
}

/// `l` holds `n` somewhere.
pub open spec fn holds(l: Seq<char>, n: Seq<char>) -> bool {
    exists|j: int| #[trigger] matches_at(l, n, j)
}

/// The lines of `ls` that hold `n`.
pub open spec fn holding_count(ls: Seq<Seq<char>>, n: Seq<char>) -> nat
    decreases ls.len(),
{
    if ls.len() == 0 {
        0
    } else {
        (if holds(ls[0], n) {
            1nat
        } else {
            0nat
        }) + holding_count(ls.drop_first(), n)
    }
}

/// A line holds a heading tag exactly when, trimmed, it starts with one,
/// and likewise for a bookmark's anchor.
pub open spec fn kinds_by_text(l: Seq<char>) -> bool {
    &&& holds(l, "<DT><H3>"@) <==> has_kind(trim(l), LineKind::Heading)
    &&& holds(l, "<DT><A HREF="@) <==> has_kind(trim(l), LineKind::Anchor)
}

/// A line of a written file: one that `str::lines` gives back as it is,
/// and whose kind shows in what it holds.
pub open spec fn sound_line(l: Seq<char>) -> bool {
    plain_line(l) && kinds_by_text(l)
}

/// `<DT` starts at index `j` of `l`.
pub open spec fn dt_at(l: Seq<char>, j: int) -> bool {
    0 <= j && j + 2 < l.len() && l[j] == '<' && l[j + 1] == 'D' && l[j + 2] == 'T'
}

/// A needle starting with `<DT` is held where `l` has `<DT`, and only there.
proof fn lemma_holds_at_dt(l: Seq<char>, n: Seq<char>, p: int)
    requires
        n.len() >= 3,
        n[0] == '<' && n[1] == 'D' && n[2] == 'T',
        forall|j: int| #[trigger] dt_at(l, j) ==> j == p,
    ensures
        holds(l, n) <==> matches_at(l, n, p),
{
    if holds(l, n) {
        let j = choose|j: int| #[trigger] matches_at(l, n, j);
        let w = l.subrange(j, j + n.len());
        assert(w[0] == l[j] && w[1] == l[j + 1] && w[2] == l[j + 2]);
        assert(dt_at(l, j));
    }
}

proof fn lemma_needles()
    ensures
        "<DT><H3>"@.len() == 8,
        "<DT><A HREF="@.len() == 12,
        "<DT><H3>"@[0] == '<' && "<DT><H3>"@[1] == 'D' && "<DT><H3>"@[2] == 'T',
        "<DT><H3>"@[5] == 'H',
        "<DT><A HREF="@[0] == '<' && "<DT><A HREF="@[1] == 'D' && "<DT><A HREF="@[2] == 'T',
        "<DT><A HREF="@[5] == 'A',
{
    lemma_kind_literals();
}

/// A line without `<DT` holds neither a heading tag nor an anchor, and,
/// trimmed, starts with neither.
proof fn lemma_no_dt_line(l: Seq<char>)
    requires
        forall|j: int| !#[trigger] dt_at(l, j),
        !has_kind(trim(l), LineKind::Heading),
        !has_kind(trim(l), LineKind::Anchor),
    ensures
        kinds_by_text(l),
{
    lemma_needles();
    lemma_holds_at_dt(l, "<DT><H3>"@, -1);
    lemma_holds_at_dt(l, "<DT><A HREF="@, -1);
}

/// A line whose only `<DT` starts its body.
proof fn lemma_dt_once_line(ind: Seq<char>, body: Seq<char>)
    requires
        forall|j: int| #[trigger] dt_at(ind + body, j) ==> j == ind.len(),
        body.len() >= 12,
        body[0] == '<',
        body.last() == '>',
        forall|i: int| 0 <= i < ind.len() ==> #[trigger] ind[i] == ' ',
        has_kind(body, LineKind::Heading) <==> body[5] == 'H',
        has_kind(body, LineKind::Anchor) <==> body[5] == 'A',
        has_kind(body, LineKind::Heading) ==> body.take(8) == "<DT><H3>"@,
        has_kind(body, LineKind::Anchor) ==> body.take(12) == "<DT><A HREF="@,
    ensures
        kinds_by_text(ind + body),
{
    let l = ind + body;
    let p = ind.len() as int;
    lemma_needles();
    lemma_trim_indented(ind, body);
    lemma_holds_at_dt(l, "<DT><H3>"@, p);
    lemma_holds_at_dt(l, "<DT><A HREF="@, p);
    if matches_at(l, "<DT><H3>"@, p) {
        assert(l.subrange(p, p + 8)[5] == l[p + 5]);
        assert(l[p + 5] == body[5]);
    }
    if matches_at(l, "<DT><A HREF="@, p) {
        assert(l.subrange(p, p + 12)[5] == l[p + 5]);
        assert(l[p + 5] == body[5]);
    }
    if has_kind(body, LineKind::Heading) {
        assert(l.subrange(p, p + 8) =~= body.take(8));
    }
    if has_kind(body, LineKind::Anchor) {
        assert(l.subrange(p, p + 12) =~= body.take(12));
    }
}

proof fn lemma_mark_line_text(ind: Seq<char>, b: BookmarkView)
    requires
        forall|i: int| 0 <= i < ind.len() ==> #[trigger] ind[i] == ' ',
    ensures
        kinds_by_text(ind + mark_body(b)),
{
    lemma_mark_literals();
    lemma_kind_literals();
    lemma_mark_body_kind(b);
    crate::netscape_laws::lemma_date_attr_chars(b.added);
    crate::html::lemma_escape_chars(b.title);
    crate::html::lemma_escape_chars(b.url);
    let m = mark_body(b);
    let u = escape(b.url);
    let d = crate::netscape::date_attr(b.added);
    let et = escape(b.title);
    let head = seq!['<', 'D', 'T', '>', '<', 'A', ' ', 'H', 'R', 'E', 'F', '=', '"'];
    let tail = seq!['<', '/', 'A', '>'];
    assert(m =~= head + u + seq!['"'] + d + seq!['>'] + et + tail);
    let l = ind + m;
    let p = ind.len() as int;
    let a = p + 13 + u.len();
    let c = a + 1 + d.len() + 1;
    let z = c + et.len();
    assert forall|j: int| #[trigger] dt_at(l, j) implies j == p by {
        if j < p {
            assert(l[j] == ind[j]);
        } else if j < p + 13 {
            assert(l[j] == head[j - p]);
            assert(l[j + 1] == m[j + 1 - p]);
        } else if j < a {
            assert(l[j] == u[j - p - 13]);
            assert(u.contains('<'));
        } else if j == a {
        } else if j < a + 1 + d.len() {
            assert(l[j] == d[j - a - 1]);
            assert(d.contains('<'));
        } else if j == a + 1 + d.len() {
        } else if j < z {
            assert(l[j] == et[j - c]);
            assert(et.contains('<'));
        } else {
            assert(l[j] == tail[j - z]);
            assert(l[j + 1] == tail[j + 1 - z]);
        }
    }
    assert(m.take(12) =~= "<DT><A HREF="@);
    lemma_dt_once_line(ind, m);
}

proof fn lemma_heading_line_text(ind: Seq<char>, name: Seq<char>)
    requires
        forall|i: int| 0 <= i < ind.len() ==> #[trigger] ind[i] == ' ',
    ensures
        kinds_by_text(ind + heading_body(name)),
{
    lemma_folder_literals();
    lemma_kind_literals();
    lemma_heading_body_kind(name);
    crate::html::lemma_escape_chars(name);
    let h = heading_body(name);
    let en = escape(name);
    let head = seq!['<', 'D', 'T', '>', '<', 'H', '3', '>'];
    let tail = seq!['<', '/', 'H', '3', '>'];
    assert(h =~= head + en + tail);
    let l = ind + h;
    let p = ind.len() as int;
    let z = p + 8 + en.len();
    assert forall|j: int| #[trigger] dt_at(l, j) implies j == p by {
        if j < p {
            assert(l[j] == ind[j]);
        } else if j < p + 8 {
            assert(l[j] == head[j - p]);
            assert(l[j + 1] == h[j + 1 - p]);
        } else if j < z {
            assert(l[j] == en[j - p - 8]);
            assert(en.contains('<'));
        } else {
            assert(l[j] == tail[j - z]);
            assert(l[j + 1] == tail[j + 1 - z]);
        }
    }
    assert(h.take(8) =~= "<DT><H3>"@);
    lemma_dt_once_line(ind, h);
}

proof fn lemma_list_line_text(ind: Seq<char>)
    requires
        forall|i: int| 0 <= i < ind.len() ==> #[trigger] ind[i] == ' ',
    ensures
        kinds_by_text(ind + "<DL><p>"@),
        kinds_by_text(ind + "</DL><p>"@),
{
    lemma_kind_literals();
    lemma_list_line_kinds();
    lemma_dl_lines();
    lemma_trim_indented(ind, "<DL><p>"@);
    lemma_trim_indented(ind, "</DL><p>"@);
    let o = "<DL><p>"@;
    let c = "</DL><p>"@;
    let p = ind.len() as int;
    assert forall|j: int| !#[trigger] dt_at(ind + o, j) by {
        if dt_at(ind + o, j) {
            if j < p {
                assert((ind + o)[j] == ind[j]);
            } else {
                assert((ind + o)[j] == o[j - p]);
                assert((ind + o)[j + 2] == o[j + 2 - p]);
            }
        }
    }
    assert forall|j: int| !#[trigger] dt_at(ind + c, j) by {
        if dt_at(ind + c, j) {
            if j < p {
                assert((ind + c)[j] == ind[j]);
            } else {
                assert((ind + c)[j] == c[j - p]);
                assert((ind + c)[j + 1] == c[j + 1 - p]);
            }
        }
    }
    lemma_no_dt_line(ind + o);
    lemma_no_dt_line(ind + c);
}

proof fn lemma_counts_by_text(ls: Seq<Seq<char>>)
    requires
        forall|k: int| 0 <= k < ls.len() ==> kinds_by_text(#[trigger] ls[k]),
    ensures
        holding_count(ls, "<DT><H3>"@) == kind_count(ls, LineKind::Heading),
        holding_count(ls, "<DT><A HREF="@) == kind_count(ls, LineKind::Anchor),
    decreases ls.len(),
{
    if ls.len() > 0 {
        let t = ls.drop_first();
        assert forall|k: int| 0 <= k < t.len() implies kinds_by_text(#[trigger] t[k]) by {
            assert(t[k] == ls[k + 1]);
        }
        lemma_counts_by_text(t);
        assert(kinds_by_text(ls[0]));
    }
}

/// A bookmark whose title, url and folder names hold no line feed.
pub open spec fn line_free(b: BookmarkView) -> bool {
    &&& text_ok(b.title)
    &&& text_ok(b.url)
    &&& forall|i: int| 0 <= i < b.folder.len() ==> text_ok(#[trigger] b.folder[i])
}

/// Every bookmark of a level is in range and holds no line feed, and no
/// folder name of the level or below holds one.
pub open spec fn lined(es: Seq<EntryModel>, bs: Seq<BookmarkView>) -> bool
    decreases es,
{
    forall|k: int| 0 <= k < es.len() ==> entry_lined(#[trigger] es[k], bs)
}

pub open spec fn entry_lined(e: EntryModel, bs: Seq<BookmarkView>) -> bool
    decreases e,
{
    match e {
        EntryModel::Mark(i) => 0 <= i < bs.len() && line_free(bs[i]),
        EntryModel::Folder(name, cs) => text_ok(name) && lined(cs, bs),
    }
}

proof fn lemma_insert_lined(
    es: Seq<EntryModel>,
    path: Seq<Seq<char>>,
    idx: int,
    bs: Seq<BookmarkView>,
    prefix: Seq<Seq<char>>,
)
    requires
        lined(es, bs),
        0 <= idx < bs.len(),
        bs[idx].folder == prefix + path,
        line_free(bs[idx]),
    ensures
        lined(insert_at(es, path, idx), bs),
    decreases path.len(),
{
    let res = insert_at(es, path, idx);
    if path.len() == 0 {
        assert forall|k: int| 0 <= k < res.len() implies entry_lined(#[trigger] res[k], bs) by {
            if k < es.len() {
                assert(res[k] == es[k]);
            }
        }
    } else {
        let name = path[0];
        assert(bs[idx].folder[prefix.len() as int] == name);
        assert(text_ok(name));
        let deeper = prefix.push(name);
        assert(bs[idx].folder =~= deeper + path.drop_first());
        crate::netscape::lemma_folder_position(es, name);
        match crate::netscape::folder_position(es, name) {
            Some(k) => {
                assert(entry_lined(es[k], bs));
                let cs = crate::netscape::children(es[k]);
                lemma_insert_lined(cs, path.drop_first(), idx, bs, deeper);
                assert forall|q: int| 0 <= q < res.len() implies entry_lined(#[trigger] res[q], bs) by {
                    if q != k {
                        assert(res[q] == es[q]);
                    }
                }
            },
            None => {
                let empty = Seq::<EntryModel>::empty();
                assert(lined(empty, bs));
                lemma_insert_lined(empty, path.drop_first(), idx, bs, deeper);
                assert forall|q: int| 0 <= q < res.len() implies entry_lined(#[trigger] res[q], bs) by {
                    if q < es.len() {
                        assert(res[q] == es[q]);
                    }
                }
            },
        }
    }
}

proof fn lemma_build_lined(bs: Seq<BookmarkView>, n: int)
    requires
        0 <= n <= bs.len(),
        forall|i: int| 0 <= i < bs.len() ==> line_free(#[trigger] bs[i]),
    ensures
        lined(crate::netscape::build_tree_prefix(bs, n), bs),
    decreases n,
{
    if n > 0 {
        lemma_build_lined(bs, n - 1);
        assert(Seq::<Seq<char>>::empty() + bs[n - 1].folder =~= bs[n - 1].folder);
        lemma_insert_lined(
            crate::netscape::build_tree_prefix(bs, n - 1),
            bs[n - 1].folder,
            n - 1,
            bs,
            Seq::empty(),
        );
    }
}

/// The lines of a level of bookmarks without line feeds hold no line feed,
/// and each holds a heading tag or an anchor exactly when it is of that kind.
proof fn lemma_entries_plain(es: Seq<EntryModel>, bs: Seq<BookmarkView>, ind: Seq<char>)
    requires
        lined(es, bs),
        forall|i: int| 0 <= i < ind.len() ==> #[trigger] ind[i] == ' ',
    ensures
        forall|k: int|
            0 <= k < entries_lines(es, bs, ind).len() ==> sound_line(
                #[trigger] entries_lines(es, bs, ind)[k],
            ),
    decreases es,
{
    if es.len() > 0 {
        let tail = es.drop_first();
        assert(entry_lined(es[0], bs));
        assert(lined(tail, bs)) by {
            assert forall|k: int| 0 <= k < tail.len() implies entry_lined(#[trigger] tail[k], bs) by {
                assert(tail[k] == es[k + 1]);
            }
        }
        lemma_entries_plain(tail, bs, ind);
        lemma_entry_plain(es[0], bs, ind);
        let x = entry_lines(es[0], bs, ind);
        let y = entries_lines(tail, bs, ind);
        assert forall|k: int| 0 <= k < (x + y).len() implies sound_line(#[trigger] (x + y)[k]) by {
            if k < x.len() {
                assert((x + y)[k] == x[k]);
            } else {
                assert((x + y)[k] == y[k - x.len()]);
            }
        }
    }
}

proof fn lemma_entry_plain(e: EntryModel, bs: Seq<BookmarkView>, ind: Seq<char>)
    requires
        entry_lined(e, bs),
        forall|i: int| 0 <= i < ind.len() ==> #[trigger] ind[i] == ' ',
    ensures
        forall|k: int|
            0 <= k < entry_lines(e, bs, ind).len() ==> sound_line(#[trigger] entry_lines(e, bs, ind)[k]),
    decreases e,
{
    match e {
        EntryModel::Mark(i) => {
            lemma_mark_body_shape(bs[i]);
            lemma_indented_plain(ind, mark_body(bs[i]));
            lemma_mark_line_text(ind, bs[i]);
            assert(entry_lines(e, bs, ind) == seq![ind + mark_body(bs[i])]);
        },
        EntryModel::Folder(name, cs) => {
            let deeper = ind + "    "@;
            lemma_folder_literals();
            lemma_dl_lines();
            assert forall|i: int| 0 <= i < deeper.len() implies #[trigger] deeper[i] == ' ' by {
                if i >= ind.len() {
                    assert(deeper[i] == "    "@[i - ind.len()]);
                }
            }
            lemma_entries_plain(cs, bs, deeper);
            lemma_heading_shape(name);
            lemma_indented_plain(ind, heading_body(name));
            lemma_indented_plain(ind, "<DL><p>"@);
            lemma_indented_plain(ind, "</DL><p>"@);
            lemma_heading_line_text(ind, name);
            lemma_list_line_text(ind);
            let inner = entries_lines(cs, bs, deeper);
            let all = seq![ind + heading_body(name), ind + "<DL><p>"@] + inner + seq![
                ind + "</DL><p>"@,
            ];
            assert(entry_lines(e, bs, ind) == all);
            assert forall|k: int| 0 <= k < all.len() implies sound_line(#[trigger] all[k]) by {
                if 2 <= k < 2 + inner.len() {
                    assert(all[k] == inner[k - 2]);
                }
            }
        },
    }
}

proof fn lemma_header_lines_shape()
    ensures
        netscape_header() == unlines(header_lines()),
        forall|k: int| 0 <= k < header_lines().len() ==> plain_line(#[trigger] header_lines()[k]),
        kind_count(header_lines(), LineKind::Anchor) == 0,
        kind_count(header_lines(), LineKind::Heading) == 0,
        kind_count(header_lines(), LineKind::ListOpen) == 1,
        kind_count(header_lines(), LineKind::ListClose) == 0,
        forall|k: int|
            0 <= k < 4 ==> !has_kind(trim(#[trigger] header_lines()[k]), LineKind::ListOpen)
                && !has_kind(trim(header_lines()[k]), LineKind::ListClose),
        header_lines() == header_lines().take(4).push("<DL><p>"@),
        forall|k: int| 0 <= k < header_lines().len() ==> kinds_by_text(#[trigger] header_lines()[k]),
{
    let l0 = "<!DOCTYPE NETSCAPE-Bookmark-file-1>"@;
    let l1 = "<META HTTP-EQUIV=\"Content-Type\" CONTENT=\"text/html; charset=UTF-8\">"@;
    let l2 = "<TITLE>Bookmarks</TITLE>"@;
    let l3 = "<H1>Bookmarks</H1>"@;
    let l4 = "<DL><p>"@;
    reveal_strlit("<!DOCTYPE NETSCAPE-Bookmark-file-1>");
    reveal_strlit("<META HTTP-EQUIV=\"Content-Type\" CONTENT=\"text/html; charset=UTF-8\">");
    reveal_strlit("<TITLE>Bookmarks</TITLE>");
    reveal_strlit("<H1>Bookmarks</H1>");
    reveal_strlit("<!DOCTYPE NETSCAPE-Bookmark-file-1>\n");
    reveal_strlit("<META HTTP-EQUIV=\"Content-Type\" CONTENT=\"text/html; charset=UTF-8\">\n");
    reveal_strlit("<TITLE>Bookmarks</TITLE>\n");
    reveal_strlit("<H1>Bookmarks</H1>\n");
    lemma_dl_lines();
    lemma_list_line_kinds();
    let hs = header_lines();
    reveal_with_fuel(unlines, 6);
    assert(hs.drop_first() =~= seq![l1, l2, l3, l4]);
    assert(seq![l1, l2, l3, l4].drop_first() =~= seq![l2, l3, l4]);
    assert(seq![l2, l3, l4].drop_first() =~= seq![l3, l4]);
    assert(seq![l3, l4].drop_first() =~= seq![l4]);
    assert(seq![l4].drop_first() =~= Seq::<Seq<char>>::empty());
    assert(netscape_header() =~= unlines(hs));
    assert forall|k: int| 0 <= k < hs.len() implies plain_line(#[trigger] hs[k]) by {
        let l = hs[k];
        if l.contains('\n') {
            let i = choose|i: int| 0 <= i < l.len() && l[i] == '\n';
        }
    }
    assert forall|k: int| 0 <= k < 4 implies trim(#[trigger] hs[k]) == hs[k] && hs[k].len() >= 6
        && hs[k][1] != 'D' && hs[k][1] != '/' by {
        lemma_trim_noop(hs[k]);
    }
    lemma_trim_noop(l4);
    lemma_kinds_by_start(l0);
    lemma_kinds_by_start(l1);
    lemma_kinds_by_start(l2);
    lemma_kinds_by_start(l3);
    reveal_with_fuel(kind_count, 6);
    assert forall|k: int| 0 <= k < 4 implies !has_kind(trim(#[trigger] hs[k]), LineKind::ListOpen)
        && !has_kind(trim(hs[k]), LineKind::ListClose) by {
        lemma_trim_noop(hs[k]);
        lemma_kinds_by_start(hs[k]);
    }
    assert(hs =~= hs.take(4).push(l4));
    lemma_kind_literals();
    assert forall|k: int| 0 <= k < hs.len() implies kinds_by_text(#[trigger] hs[k]) by {
        if k < 4 {
            let h = hs[k];
            assert forall|j: int| !#[trigger] dt_at(h, j) by {}
            lemma_trim_noop(hs[k]);
            lemma_kinds_by_start(hs[k]);
            lemma_no_dt_line(hs[k]);
        } else {
            lemma_list_line_text(Seq::empty());
            assert(Seq::<char>::empty() + l4 =~= l4);
        }
    }
}

/// The lines of a written file of bookmarks whose titles, urls and folder
/// names hold no line feed: the header, the
/// tree's lines, and the closing of the top-level list. There is one
/// bookmark line per bookmark, one heading line per folder of the tree, and
/// one line opening and one closing a list per folder, plus the top-level
/// list's, and the lists nest; the folders are as many as the non-empty
/// prefixes of the bookmarks' folder paths. Counted by what the lines hold,
/// there are as many lines holding `<DT><H3>` as such prefixes, and as many
/// holding `<DT><A HREF=` as bookmarks.
pub proof fn lemma_written_line_counts(bs: Seq<BookmarkView>)
    requires
        forall|i: int| 0 <= i < bs.len() ==> line_free(#[trigger] bs[i]),
    ensures
        lines(netscape_text(bs)) == header_lines() + entries_lines(build_tree(bs), bs, "    "@)
            + seq!["</DL><p>"@],
        kind_count(lines(netscape_text(bs)), LineKind::Anchor) == bs.len(),
        kind_count(lines(netscape_text(bs)), LineKind::Heading) == folder_count(build_tree(bs)),
        kind_count(lines(netscape_text(bs)), LineKind::ListOpen) == folder_count(build_tree(bs)) + 1,
        kind_count(lines(netscape_text(bs)), LineKind::ListClose) == folder_count(build_tree(bs)) + 1,
        folder_count(build_tree(bs)) == crate::netscape_tree::path_prefixes(bs).len(),
        lists_nest(lines(netscape_text(bs))),
        holding_count(lines(netscape_text(bs)), "<DT><H3>"@) == crate::netscape_tree::path_prefixes(
            bs,
        ).len(),
        holding_count(lines(netscape_text(bs)), "<DT><A HREF="@) == bs.len(),
{
    crate::netscape_tree::lemma_folder_count_is_prefixes(bs);
    broadcast use vstd::seq_lib::group_to_multiset_ensures;

    let tree = build_tree(bs);
    let ind = "    "@;
    let body = entries_lines(tree, bs, ind);
    let last = seq!["</DL><p>"@];
    let all = header_lines() + body + last;
    lemma_folder_literals();
    assert forall|i: int| 0 <= i < ind.len() implies #[trigger] ind[i] == ' ' by {}
    lemma_header_lines_shape();
    lemma_entries_unlines(tree, bs, ind);
    lemma_build_lined(bs, bs.len() as int);
    lemma_entries_plain(tree, bs, ind);
    crate::netscape_tree::lemma_build_below(bs, bs.len() as int);
    lemma_entries_line_kinds(tree, bs, ind);
    lemma_tree_order_permutes(bs);
    assert(flat(tree).len() == bs.len()) by {
        assert(flat(tree).to_multiset().len() == flat(tree).len());
        assert(Seq::new(bs.len(), |i: int| i).to_multiset().len() == bs.len());
    }
    lemma_dl_lines();
    lemma_list_line_kinds();
    lemma_unlines_one("</DL><p>"@);
    lemma_unlines_concat(header_lines() + body, last);
    lemma_unlines_concat(header_lines(), body);
    assert(netscape_text(bs) =~= unlines(all));
    assert forall|k: int| 0 <= k < all.len() implies sound_line(#[trigger] all[k]) by {
        if k < header_lines().len() {
            assert(all[k] == header_lines()[k]);
        } else if k < header_lines().len() + body.len() {
            assert(all[k] == body[k - header_lines().len()]);
        } else {
            assert(all[k] == "</DL><p>"@);
            lemma_indented_plain(Seq::empty(), "</DL><p>"@);
            lemma_list_line_text(Seq::empty());
            assert(Seq::<char>::empty() + "</DL><p>"@ =~= "</DL><p>"@);
        }
    }
    lemma_counts_by_text(all);
    lemma_lines_unlines(all);
    lemma_trim_noop("</DL><p>"@);
    assert(last[0] == "</DL><p>"@);
    assert(last.drop_first() =~= Seq::<Seq<char>>::empty());
    lemma_kind_count_concat(header_lines() + body, last, LineKind::Anchor);
    lemma_kind_count_concat(header_lines(), body, LineKind::Anchor);
    lemma_kind_count_concat(header_lines() + body, last, LineKind::Heading);
    lemma_kind_count_concat(header_lines(), body, LineKind::Heading);
    lemma_kind_count_concat(header_lines() + body, last, LineKind::ListOpen);
    lemma_kind_count_concat(header_lines(), body, LineKind::ListOpen);
    lemma_kind_count_concat(header_lines() + body, last, LineKind::ListClose);
    lemma_kind_count_concat(header_lines(), body, LineKind::ListClose);
    assert(trim(last[0]) == "</DL><p>"@);
    assert(kind_count(last.drop_first(), LineKind::Anchor) == 0);
    assert(kind_count(last.drop_first(), LineKind::Heading) == 0);
    assert(kind_count(last.drop_first(), LineKind::ListOpen) == 0);
    assert(kind_count(last.drop_first(), LineKind::ListClose) == 0);
    assert(kind_count(last, LineKind::Anchor) == 0);
    assert(kind_count(last, LineKind::Heading) == 0);
    assert(kind_count(last, LineKind::ListOpen) == 0);
    assert(kind_count(last, LineKind::ListClose) == 1);
    let first = header_lines().take(4);
    assert forall|k: int| 0 <= k < first.len() implies !has_kind(
        trim(#[trigger] first[k]),
        LineKind::ListOpen,
    ) && !has_kind(trim(first[k]), LineKind::ListClose) by {
        assert(first[k] == header_lines()[k]);
    }
    lemma_nest_plain(first);
    lemma_entries_nest(tree, bs, ind);
    lemma_trim_noop("<DL><p>"@);
    lemma_nest_wrapped("<DL><p>"@, body, "</DL><p>"@);
    lemma_nest_concat(first, seq!["<DL><p>"@] + body + last);
    assert(all =~= first + (seq!["<DL><p>"@] + body + last));
}

} // verus!
