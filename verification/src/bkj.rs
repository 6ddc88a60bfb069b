//! `bkj`: one JSON object per line, four fields, always present:
//! `{"title":...,"url":...,"folder":[...],"added":...}`.
use vstd::prelude::*;

use crate::int_text::{
    i64_text, lemma_i64_text_chars, lemma_parse_i64_text, parse_i64, parse_i64_exec,
    push_i64_text,
};
use crate::json::{
    chars_view, fields_view, spec_json_string, spec_json_string_array, json_string_array,
    json_string, spec_parse_json_string, spec_parse_json_string_array, parse_json_string_array,
    parse_json_string, spec_split_json_fields, split_json_fields, split_run, split_start,
    spec_split_unquoted, field_of, fields_of, SplitState,
};
use crate::json_laws::{
    cut, lemma_field_of, lemma_json_array_shape, lemma_json_string_shape,
    lemma_parse_json_string, lemma_parse_json_string_array, lemma_run_json_array,
    lemma_run_json_string, lemma_run_one, lemma_run_plain, lemma_run_quoted_plain, lemma_run_sep,
    lemma_split_run_concat, with_current,
};
use crate::text::{
    after_first_line, chars_eq, chars_of, first_line, is_ws, lemma_contains_concat,
    lemma_lines_cons, lemma_trim_noop, lines, next_line, push_str, string_of, strings_of,
    sub_chars, trim, trim_exec,
};
use crate::{bookmarks_view, Bookmark, BookmarkView};

verus! {

// ---------------------------------------------------------------------
// Writing
// ---------------------------------------------------------------------

/// The `added` field's value: the timestamp, or `null`.
pub open spec fn added_text(a: Option<i64>) -> Seq<char> {
    match a {
        Some(ts) => i64_text(ts),
        None => "null"@,
    }
}

/// The JSON object of one bookmark, fields in a fixed order.
pub open spec fn bookmark_json(b: BookmarkView) -> Seq<char> {
    "{\"title\":"@ + spec_json_string(b.title) + ",\"url\":"@ + spec_json_string(b.url)
        + ",\"folder\":"@ + spec_json_string_array(b.folder) + ",\"added\":"@ + added_text(
        b.added,
    ) + "}"@
}

/// A `bkj` document: each bookmark's object on a line of its own.
pub open spec fn bkj_text(bs: Seq<BookmarkView>) -> Seq<char>
    decreases bs.len(),
{
    if bs.len() == 0 {
        Seq::empty()
    } else {
        bookmark_json(bs[0]) + seq!['\n'] + bkj_text(bs.drop_first())
    }
}

/// Appends the JSON object of `bookmark` to `out`.
pub fn bookmark_to_json(out: &mut Vec<char>, bookmark: &Bookmark)
    ensures
        final(out)@ == old(out)@ + bookmark_json(bookmark@),
{
    let ghost start = out@;
    push_str(out, "{\"title\":");
    let title = chars_of(bookmark.title.as_str());
    json_string(out, &title);
    push_str(out, ",\"url\":");
    let url = chars_of(bookmark.url.as_str());
    json_string(out, &url);
    push_str(out, ",\"folder\":");
    json_string_array(out, &bookmark.folder);
    assert(bookmark.folder@.map_values(|x: String| x@) =~= bookmark.folder.deep_view());
    push_str(out, ",\"added\":");
    match bookmark.added {
        Some(ts) => push_i64_text(out, ts),
        None => push_str(out, "null"),
    }
    push_str(out, "}");
    assert(out@ =~= start + bookmark_json(bookmark@));
}

/// Writes each bookmark as a JSON object on a line of its own.
pub fn write_bkj(bookmarks: &[Bookmark]) -> (res: String)
    ensures
        res@ == bkj_text(bookmarks_view(bookmarks@)),
{
    let ghost bs = bookmarks_view(bookmarks@);
    let mut out: Vec<char> = Vec::new();
    let mut i: usize = 0;
    assert(bs.skip(0) =~= bs);
    assert(out@ + bkj_text(bs) =~= bkj_text(bs));
    while i < bookmarks.len()
        invariant
            i <= bookmarks.len(),
            bs == bookmarks_view(bookmarks@),
            out@ + bkj_text(bs.skip(i as int)) == bkj_text(bs),
        decreases bookmarks.len() - i,
    {
        let ghost before = out@;
        let ghost rest = bs.skip(i as int);
        assert(rest[0] == bookmarks@[i as int]@);
        assert(rest.drop_first() =~= bs.skip(i + 1));
        bookmark_to_json(&mut out, &bookmarks[i]);
        out.push('\n');
        assert(before + bkj_text(rest) =~= out@ + bkj_text(bs.skip(i + 1)));
        i += 1;
    }
    assert(bs.skip(i as int) =~= Seq::<BookmarkView>::empty());
    assert(out@ + Seq::<char>::empty() =~= out@);
    string_of(&out)
}

// ---------------------------------------------------------------------
// Reading
// ---------------------------------------------------------------------

/// What the fields of an object have set so far.
pub struct FieldsState {
    pub title: Option<Seq<char>>,
    pub url: Option<Seq<char>>,
    pub folder: Seq<Seq<char>>,
    pub added: Option<i64>,
}

pub open spec fn fields_start() -> FieldsState {
    FieldsState { title: None, url: None, folder: Seq::empty(), added: None }
}

/// One field read into the state: a later field of the same key wins,
/// unknown keys are ignored, a malformed folder array reads as empty and a
/// malformed or `null` timestamp as absent.
pub open spec fn apply_field(st: FieldsState, f: (Seq<char>, Seq<char>)) -> FieldsState {
    if f.0 == "title"@ {
        FieldsState { title: spec_parse_json_string(f.1), ..st }
    } else if f.0 == "url"@ {
        FieldsState { url: spec_parse_json_string(f.1), ..st }
    } else if f.0 == "folder"@ {
        FieldsState {
            folder: match spec_parse_json_string_array(f.1) {
                Some(v) => v,
                None => Seq::empty(),
            },
            ..st
        }
    } else if f.0 == "added"@ {
        FieldsState {
            added: if f.1 == "null"@ {
                None
            } else {
                parse_i64(f.1)
            },
            ..st
        }
    } else {
        st
    }
}

pub open spec fn apply_fields(fs: Seq<(Seq<char>, Seq<char>)>, st: FieldsState) -> FieldsState
    decreases fs.len(),
{
    if fs.len() == 0 {
        st
    } else {
        apply_fields(fs.drop_first(), apply_field(st, fs[0]))
    }
}

/// One `{...}` line read as a bookmark; a title and a url are required.
pub open spec fn spec_parse_bookmark_json(line: Seq<char>) -> Option<BookmarkView> {
    if line.len() >= 2 && line[0] == '{' && line.last() == '}' {
        let st = apply_fields(
            spec_split_json_fields(line.subrange(1, line.len() - 1)),
            fields_start(),
        );
        match (st.title, st.url) {
            (Some(title), Some(url)) => Some(
                BookmarkView { title, url, folder: st.folder, added: st.added },
            ),
            _ => None,
        }
    } else {
        None
    }
}

/// The bookmark read from one line, if any: blank lines and lines that are
/// not a bookmark object give none.
pub open spec fn bkj_line(line: Seq<char>) -> Seq<BookmarkView> {
    let t = trim(line);
    if t.len() == 0 {
        Seq::empty()
    } else {
        match spec_parse_bookmark_json(t) {
            Some(b) => seq![b],
            None => Seq::empty(),
        }
    }
}

pub open spec fn bkj_records(ls: Seq<Seq<char>>) -> Seq<BookmarkView>
    decreases ls.len(),
{
    if ls.len() == 0 {
        Seq::empty()
    } else {
        bkj_line(ls[0]) + bkj_records(ls.drop_first())
    }
}

/// The bookmarks of a `bkj` document, line by line.
pub open spec fn parse_bkj_spec(input: Seq<char>) -> Seq<BookmarkView> {
    bkj_records(lines(input))
}

fn key_is(key: &[char], name: &str) -> (res: bool)
    ensures
        res == (key@ == name@),
{
    let n = chars_of(name);
    chars_eq(key, &n)
}

fn is_null(value: &[char]) -> (res: bool)
    ensures
        res == (value@ == "null"@),
{
    key_is(value, "null")
}

/// Reads one `{...}` line as a bookmark.
pub fn parse_bookmark_json(line: &[char]) -> (res: Option<Bookmark>)
    ensures
        match res {
            Some(b) => spec_parse_bookmark_json(line@) == Some(b@),
            None => spec_parse_bookmark_json(line@) is None,
        },
{
    let n = line.len();
    if !(n >= 2 && line[0] == '{' && line[n - 1] == '}') {
        return None;
    }
    let inner = sub_chars(line, 1, n - 1);
    let fields = split_json_fields(&inner);
    let ghost fv = fields_view(fields@);
    let mut title: Option<Vec<char>> = None;
    let mut url: Option<Vec<char>> = None;
    let mut folder: Vec<Vec<char>> = Vec::new();
    let mut added: Option<i64> = None;
    let mut i: usize = 0;
    assert(fv.skip(0) =~= fv);
    assert(chars_view(folder@) =~= Seq::<Seq<char>>::empty());
    while i < fields.len()
        invariant
            i <= fields.len(),
            fv == fields_view(fields@),
            apply_fields(fv, fields_start()) == apply_fields(
                fv.skip(i as int),
                FieldsState {
                    title: match title {
                        Some(t) => Some(t@),
                        None => None,
                    },
                    url: match url {
                        Some(u) => Some(u@),
                        None => None,
                    },
                    folder: chars_view(folder@),
                    added,
                },
            ),
        decreases fields.len() - i,
    {
        let ghost rest = fv.skip(i as int);
        assert(rest[0] == (fields@[i as int].0@, fields@[i as int].1@));
        assert(rest.drop_first() =~= fv.skip(i + 1));
        let key = &fields[i].0;
        let value = &fields[i].1;
        if key_is(key, "title") {
            title = parse_json_string(value);
        } else if key_is(key, "url") {
            url = parse_json_string(value);
        } else if key_is(key, "folder") {
            folder = match parse_json_string_array(value) {
                Some(v) => v,
                None => {
                    let e: Vec<Vec<char>> = Vec::new();
                    assert(chars_view(e@) =~= Seq::<Seq<char>>::empty());
                    e
                },
            };
        } else if key_is(key, "added") {
            added = if is_null(value) {
                None
            } else {
                parse_i64_exec(value)
            };
        }
        i += 1;
    }
    assert(fv.skip(i as int) =~= Seq::<(Seq<char>, Seq<char>)>::empty());
    match (title, url) {
        (Some(t), Some(u)) => {
            let b = Bookmark {
                title: string_of(&t),
                url: string_of(&u),
                folder: strings_of(&folder),
                added,
            };
            Some(b)
        },
        _ => None,
    }
}

/// Reads every line holding a bookmark object; blank lines and other lines
/// are skipped.
pub fn parse_bkj(input: &str) -> (res: Vec<Bookmark>)
    ensures
        bookmarks_view(res@) == parse_bkj_spec(input@),
{
    let s = chars_of(input);
    let mut res: Vec<Bookmark> = Vec::new();
    let mut pos: usize = 0;
    assert(s@.skip(0) =~= s@);
    assert(bookmarks_view(res@) =~= Seq::<BookmarkView>::empty());
    while pos < s.len()
        invariant
            pos <= s.len(),
            s@ == input@,
            parse_bkj_spec(input@) == bookmarks_view(res@) + bkj_records(
                lines(s@.skip(pos as int)),
            ),
        decreases s.len() - pos,
    {
        let ghost rest = s@.skip(pos as int);
        let ghost before = bookmarks_view(res@);
        let (end, next) = next_line(&s, pos);
        let line = sub_chars(&s, pos, end);
        let ghost ls = lines(rest);
        assert(ls == seq![first_line(rest)] + lines(after_first_line(rest)));
        assert(ls[0] == line@);
        assert(ls.drop_first() =~= lines(s@.skip(next as int)));
        let t = trim_exec(&line);
        if t.len() > 0 {
            match parse_bookmark_json(&t) {
                Some(b) => {
                    res.push(b);
                    assert(bookmarks_view(res@) =~= before.push(b@));
                    assert(before + bkj_records(ls) =~= bookmarks_view(res@) + bkj_records(
                        ls.drop_first(),
                    ));
                },
                None => {
                    assert(before + bkj_records(ls) =~= before + bkj_records(ls.drop_first()));
                },
            }
        } else {
            assert(before + bkj_records(ls) =~= before + bkj_records(ls.drop_first()));
        }
        pos = next;
    }
    assert(s@.skip(pos as int) =~= Seq::<char>::empty());
    assert(bookmarks_view(res@) + Seq::<BookmarkView>::empty() =~= bookmarks_view(res@));
    res
}

// ---------------------------------------------------------------------
// Reading back what was written
// ---------------------------------------------------------------------

/// A key between quotes.
pub open spec fn quoted(k: Seq<char>) -> Seq<char> {
    seq!['"'] + k + seq!['"']
}

/// A `"key":value` part of an object.
pub open spec fn field_text(k: Seq<char>, v: Seq<char>) -> Seq<char> {
    quoted(k) + seq![':'] + v
}

/// Scanning `s` from `st` only appends it to the part being read.
pub open spec fn appends(s: Seq<char>, st: SplitState) -> bool {
    split_run(s, st, ',') == with_current(st, s)
}

proof fn lemma_appends_concat(a: Seq<char>, b: Seq<char>, st: SplitState)
    requires
        appends(a, st),
        appends(b, with_current(st, a)),
    ensures
        appends(a + b, st),
{
    lemma_split_run_concat(a, b, st, ',');
    assert(st.current + a + b =~= st.current + (a + b));
}

/// The keys of a bookmark object: plain text, no quotes, backslashes or
/// whitespace.
pub open spec fn plain_key(k: Seq<char>) -> bool {
    forall|i: int| 0 <= i < k.len() ==> k[i] != '"' && k[i] != '\\' && !is_ws(k[i])
}

proof fn lemma_appends_key(k: Seq<char>, st: SplitState)
    requires
        plain_key(k),
        !st.in_string,
        !st.escaped,
    ensures
        appends(quoted(k) + seq![':'], st),
{
    lemma_run_quoted_plain(k, st, ',');
    lemma_run_one(':', with_current(st, quoted(k)), ',');
    lemma_appends_concat(quoted(k), seq![':'], st);
}

/// The value text of the `added` field is plain: no quotes, brackets,
/// commas or whitespace.
proof fn lemma_added_text_plain(a: Option<i64>)
    ensures
        added_text(a).len() > 0,
        forall|i: int|
            0 <= i < added_text(a).len() ==> #[trigger] added_text(a)[i] != '"' && added_text(
                a,
            )[i] != '[' && added_text(a)[i] != ']' && added_text(a)[i] != ',' && !is_ws(
                added_text(a)[i],
            ) && added_text(a)[i] != '\n' && added_text(a)[i] != '\r',
        a is Some ==> added_text(a) != "null"@,
{
    reveal_strlit("null");
    match a {
        Some(ts) => {
            lemma_i64_text_chars(ts);
            assert(added_text(a)[0] != 'n');
        },
        None => {},
    }
}

/// Where the bookmark object's fields begin and end.
proof fn lemma_bookmark_json_parts(b: BookmarkView)
    ensures
        bookmark_json(b) == seq!['{'] + field_text("title"@, spec_json_string(b.title)) + seq![',']
            + field_text("url"@, spec_json_string(b.url)) + seq![','] + field_text(
            "folder"@,
            spec_json_string_array(b.folder),
        ) + seq![','] + field_text("added"@, added_text(b.added)) + seq!['}'],
        plain_key("title"@),
        plain_key("url"@),
        plain_key("folder"@),
        plain_key("added"@),
{
    reveal_strlit("{\"title\":");
    reveal_strlit(",\"url\":");
    reveal_strlit(",\"folder\":");
    reveal_strlit(",\"added\":");
    reveal_strlit("}");
    reveal_strlit("title");
    reveal_strlit("url");
    reveal_strlit("folder");
    reveal_strlit("added");
    assert("{\"title\":"@ =~= seq!['{'] + quoted("title"@) + seq![':']);
    assert(",\"url\":"@ =~= seq![','] + quoted("url"@) + seq![':']);
    assert(",\"folder\":"@ =~= seq![','] + quoted("folder"@) + seq![':']);
    assert(",\"added\":"@ =~= seq![','] + quoted("added"@) + seq![':']);
    assert(bookmark_json(b) =~= seq!['{'] + field_text("title"@, spec_json_string(b.title)) + seq![
        ',',
    ] + field_text("url"@, spec_json_string(b.url)) + seq![','] + field_text(
        "folder"@,
        spec_json_string_array(b.folder),
    ) + seq![','] + field_text("added"@, added_text(b.added)) + seq!['}']);
}

/// A bookmark object is one line: it starts with `{`, ends with `}` and
/// holds no line feed or carriage return.
pub proof fn lemma_bookmark_json_shape(b: BookmarkView)
    ensures
        bookmark_json(b).len() >= 2,
        bookmark_json(b)[0] == '{',
        bookmark_json(b).last() == '}',
        !bookmark_json(b).contains('\n'),
        !bookmark_json(b).contains('\r'),
{
    lemma_bookmark_json_parts(b);
    lemma_json_string_shape(b.title);
    lemma_json_string_shape(b.url);
    lemma_json_array_shape(b.folder);
    lemma_added_text_plain(b.added);
    reveal_strlit("title");
    reveal_strlit("url");
    reveal_strlit("folder");
    reveal_strlit("added");
    let l = bookmark_json(b);
    let f1 = field_text("title"@, spec_json_string(b.title));
    let f2 = field_text("url"@, spec_json_string(b.url));
    let f3 = field_text("folder"@, spec_json_string_array(b.folder));
    let f4 = field_text("added"@, added_text(b.added));
    assert forall|k: Seq<char>, v: Seq<char>, d: char|
        #![trigger field_text(k, v).contains(d)]
        (d == '\n' || d == '\r') && (forall|i: int| 0 <= i < v.len() ==> v[i] != d) && plain_key(k)
            implies !field_text(k, v).contains(d) by {
        let f = field_text(k, v);
        if f.contains(d) {
            let i = choose|i: int| 0 <= i < f.len() && f[i] == d;
            if i == 0 {
            } else if i < k.len() + 1 {
                assert(f[i] == k[i - 1]);
            } else if i < k.len() + 3 {
            } else {
                assert(f[i] == v[i - k.len() - 3]);
            }
        }
    }
    assert(!f1.contains('\n') && !f1.contains('\r'));
    assert(!f2.contains('\n') && !f2.contains('\r'));
    assert(!f3.contains('\n') && !f3.contains('\r'));
    assert(!f4.contains('\n') && !f4.contains('\r'));
    lemma_contains_concat(seq!['{'], f1);
    lemma_contains_concat(seq!['{'] + f1, seq![',']);
    lemma_contains_concat(seq!['{'] + f1 + seq![','], f2);
    lemma_contains_concat(seq!['{'] + f1 + seq![','] + f2, seq![',']);
    lemma_contains_concat(seq!['{'] + f1 + seq![','] + f2 + seq![','], f3);
    lemma_contains_concat(seq!['{'] + f1 + seq![','] + f2 + seq![','] + f3, seq![',']);
    lemma_contains_concat(seq!['{'] + f1 + seq![','] + f2 + seq![','] + f3 + seq![','], f4);
    lemma_contains_concat(
        seq!['{'] + f1 + seq![','] + f2 + seq![','] + f3 + seq![','] + f4,
        seq!['}'],
    );
    assert(!seq!['{'].contains('\n') && !seq!['{'].contains('\r')) by {
        if seq!['{'].contains('\n') {
            let i = choose|i: int| 0 <= i < 1 && seq!['{'][i] == '\n';
        }
        if seq!['{'].contains('\r') {
            let i = choose|i: int| 0 <= i < 1 && seq!['{'][i] == '\r';
        }
    }
    assert(!seq![','].contains('\n') && !seq![','].contains('\r')) by {
        if seq![','].contains('\n') {
            let i = choose|i: int| 0 <= i < 1 && seq![','][i] == '\n';
        }
        if seq![','].contains('\r') {
            let i = choose|i: int| 0 <= i < 1 && seq![','][i] == '\r';
        }
    }
    assert(!seq!['}'].contains('\n') && !seq!['}'].contains('\r')) by {
        if seq!['}'].contains('\n') {
            let i = choose|i: int| 0 <= i < 1 && seq!['}'][i] == '\n';
        }
        if seq!['}'].contains('\r') {
            let i = choose|i: int| 0 <= i < 1 && seq!['}'][i] == '\r';
        }
    }
}

/// Splitting the inside of a written bookmark object gives its four fields.
proof fn lemma_split_bookmark_fields(b: BookmarkView)
    ensures
        spec_split_unquoted(bookmark_json(b).subrange(1, bookmark_json(b).len() - 1), ',') == seq![
            field_text("title"@, spec_json_string(b.title)),
            field_text("url"@, spec_json_string(b.url)),
            field_text("folder"@, spec_json_string_array(b.folder)),
            field_text("added"@, added_text(b.added)),
        ],
{
    lemma_bookmark_json_parts(b);
    let f1 = field_text("title"@, spec_json_string(b.title));
    let f2 = field_text("url"@, spec_json_string(b.url));
    let f3 = field_text("folder"@, spec_json_string_array(b.folder));
    let f4 = field_text("added"@, added_text(b.added));
    let l = bookmark_json(b);
    let inner = l.subrange(1, l.len() - 1);
    assert(inner =~= f1 + seq![','] + f2 + seq![','] + f3 + seq![','] + f4);
    let st0 = split_start();
    // first field
    lemma_appends_key("title"@, st0);
    lemma_run_json_string(b.title, with_current(st0, quoted("title"@) + seq![':']), ',');
    lemma_appends_concat(quoted("title"@) + seq![':'], spec_json_string(b.title), st0);
    let st1 = with_current(st0, f1);
    lemma_run_sep(st1, ',');
    let c1 = cut(st1);
    // second field
    lemma_appends_key("url"@, c1);
    lemma_run_json_string(b.url, with_current(c1, quoted("url"@) + seq![':']), ',');
    lemma_appends_concat(quoted("url"@) + seq![':'], spec_json_string(b.url), c1);
    let st2 = with_current(c1, f2);
    lemma_run_sep(st2, ',');
    let c2 = cut(st2);
    // third field
    lemma_appends_key("folder"@, c2);
    lemma_run_json_array(b.folder, with_current(c2, quoted("folder"@) + seq![':']), ',');
    lemma_appends_concat(quoted("folder"@) + seq![':'], spec_json_string_array(b.folder), c2);
    let st3 = with_current(c2, f3);
    lemma_run_sep(st3, ',');
    let c3 = cut(st3);
    // fourth field
    lemma_appends_key("added"@, c3);
    lemma_added_text_plain(b.added);
    lemma_run_plain(added_text(b.added), with_current(c3, quoted("added"@) + seq![':']), ',');
    lemma_appends_concat(quoted("added"@) + seq![':'], added_text(b.added), c3);
    let st4 = with_current(c3, f4);
    // the whole
    lemma_split_run_concat(f1, seq![','], st0, ',');
    lemma_split_run_concat(f1 + seq![','], f2, st0, ',');
    lemma_split_run_concat(f1 + seq![','] + f2, seq![','], st0, ',');
    lemma_split_run_concat(f1 + seq![','] + f2 + seq![','], f3, st0, ',');
    lemma_split_run_concat(f1 + seq![','] + f2 + seq![','] + f3, seq![','], st0, ',');
    lemma_split_run_concat(f1 + seq![','] + f2 + seq![','] + f3 + seq![','], f4, st0, ',');
    assert(c1.current =~= Seq::<char>::empty());
    assert(c2.current =~= Seq::<char>::empty());
    assert(c3.current =~= Seq::<char>::empty());
    assert(st1.current =~= f1);
    assert(st2.current =~= f2);
    assert(st3.current =~= f3);
    assert(st4.current =~= f4);
    assert(split_run(inner, st0, ',') == st4);
    assert(st4.parts =~= seq![f1, f2, f3]);
    assert(f4.len() > 0);
}

/// The fields that a written bookmark object holds, as read.
pub open spec fn written_fields(b: BookmarkView) -> Seq<(Seq<char>, Seq<char>)> {
    seq![
        ("title"@, spec_json_string(b.title)),
        ("url"@, spec_json_string(b.url)),
        ("folder"@, spec_json_string_array(b.folder)),
        ("added"@, added_text(b.added)),
    ]
}

proof fn lemma_fields_of_four(p: Seq<Seq<char>>)
    requires
        p.len() == 4,
        field_of(p[0]) is Some,
        field_of(p[1]) is Some,
        field_of(p[2]) is Some,
        field_of(p[3]) is Some,
    ensures
        fields_of(p) == seq![
            field_of(p[0])->0,
            field_of(p[1])->0,
            field_of(p[2])->0,
            field_of(p[3])->0,
        ],
{
    let p1 = p.drop_first();
    let p2 = p1.drop_first();
    let p3 = p2.drop_first();
    assert(p3.drop_first() =~= Seq::<Seq<char>>::empty());
    assert(p3[0] == p[3] && p2[0] == p[2] && p1[0] == p[1]);
    assert(fields_of(p3.drop_first()) =~= Seq::<(Seq<char>, Seq<char>)>::empty());
    assert(fields_of(p3) =~= seq![field_of(p[3])->0]);
    assert(fields_of(p2) =~= seq![field_of(p[2])->0, field_of(p[3])->0]);
    assert(fields_of(p1) =~= seq![field_of(p[1])->0, field_of(p[2])->0, field_of(p[3])->0]);
    assert(fields_of(p) =~= seq![
        field_of(p[0])->0,
        field_of(p[1])->0,
        field_of(p[2])->0,
        field_of(p[3])->0,
    ]);
}

proof fn lemma_field_written(k: Seq<char>, v: Seq<char>)
    requires
        plain_key(k),
        v.len() > 0,
        !is_ws(v[0]),
        !is_ws(v.last()),
    ensures
        field_of(field_text(k, v)) == Some((k, v)),
{
    lemma_trim_noop(v);
    lemma_field_of(k, v);
}

proof fn lemma_fields_of_bookmark(b: BookmarkView)
    ensures
        spec_split_json_fields(bookmark_json(b).subrange(1, bookmark_json(b).len() - 1))
            == written_fields(b),
{
    lemma_bookmark_json_parts(b);
    lemma_split_bookmark_fields(b);
    lemma_json_string_shape(b.title);
    lemma_json_string_shape(b.url);
    lemma_json_array_shape(b.folder);
    lemma_added_text_plain(b.added);
    lemma_field_written("title"@, spec_json_string(b.title));
    lemma_field_written("url"@, spec_json_string(b.url));
    lemma_field_written("folder"@, spec_json_string_array(b.folder));
    lemma_field_written("added"@, added_text(b.added));
    let l = bookmark_json(b);
    let parts = spec_split_unquoted(l.subrange(1, l.len() - 1), ',');
    lemma_fields_of_four(parts);
}

proof fn lemma_apply_written_fields(b: BookmarkView)
    ensures
        apply_fields(written_fields(b), fields_start()) == (FieldsState {
            title: Some(b.title),
            url: Some(b.url),
            folder: b.folder,
            added: b.added,
        }),
{
    let fs = written_fields(b);
    reveal_strlit("title");
    reveal_strlit("url");
    reveal_strlit("folder");
    reveal_strlit("added");
    lemma_added_text_plain(b.added);
    lemma_parse_json_string(b.title);
    lemma_parse_json_string(b.url);
    lemma_parse_json_string_array(b.folder);
    match b.added {
        Some(ts) => lemma_parse_i64_text(ts),
        None => {},
    }
    let s1 = apply_field(fields_start(), fs[0]);
    let s2 = apply_field(s1, fs[1]);
    let s3 = apply_field(s2, fs[2]);
    let s4 = apply_field(s3, fs[3]);
    assert("url"@.len() == 3 && "title"@.len() == 5 && "folder"@.len() == 6);
    assert("added"@[0] == 'a' && "title"@[0] == 't');
    assert("url"@ != "title"@);
    assert("folder"@ != "title"@ && "folder"@ != "url"@);
    assert("added"@ != "title"@ && "added"@ != "url"@ && "added"@ != "folder"@);
    assert(s1.title == Some(b.title));
    assert(s2.url == Some(b.url) && s2.title == Some(b.title));
    assert(s3.folder == b.folder);
    assert(s4.added == b.added);
    let f1 = fs.drop_first();
    let f2 = f1.drop_first();
    let f3 = f2.drop_first();
    assert(f3.drop_first() =~= Seq::<(Seq<char>, Seq<char>)>::empty());
    assert(f3[0] == fs[3] && f2[0] == fs[2] && f1[0] == fs[1]);
    assert(apply_fields(f3.drop_first(), s4) == s4);
    assert(apply_fields(f3, s3) == s4);
    assert(apply_fields(f2, s2) == s4);
    assert(apply_fields(f1, s1) == s4);
}

/// Reading a written bookmark object gives the bookmark back.
pub proof fn lemma_parse_bookmark_json(b: BookmarkView)
    ensures
        spec_parse_bookmark_json(bookmark_json(b)) == Some(b),
{
    lemma_bookmark_json_shape(b);
    lemma_fields_of_bookmark(b);
    lemma_apply_written_fields(b);
}

proof fn lemma_lines_of_bkj_text(bs: Seq<BookmarkView>)
    ensures
        lines(bkj_text(bs)) == bs.map_values(|b: BookmarkView| bookmark_json(b)),
    decreases bs.len(),
{
    if bs.len() == 0 {
        assert(lines(bkj_text(bs)) =~= Seq::<Seq<char>>::empty());
        assert(bs.map_values(|b: BookmarkView| bookmark_json(b)) =~= Seq::<Seq<char>>::empty());
    } else {
        lemma_bookmark_json_shape(bs[0]);
        lemma_lines_cons(bookmark_json(bs[0]), bkj_text(bs.drop_first()));
        lemma_lines_of_bkj_text(bs.drop_first());
        assert(seq![bookmark_json(bs[0])] + bs.drop_first().map_values(
            |b: BookmarkView| bookmark_json(b),
        ) =~= bs.map_values(|b: BookmarkView| bookmark_json(b)));
    }
}

proof fn lemma_records_of_written(bs: Seq<BookmarkView>)
    ensures
        bkj_records(bs.map_values(|b: BookmarkView| bookmark_json(b))) == bs,
    decreases bs.len(),
{
    let m = bs.map_values(|b: BookmarkView| bookmark_json(b));
    if bs.len() == 0 {
        assert(m =~= Seq::<Seq<char>>::empty());
    } else {
        lemma_bookmark_json_shape(bs[0]);
        lemma_trim_noop(bookmark_json(bs[0]));
        lemma_parse_bookmark_json(bs[0]);
        assert(m.drop_first() =~= bs.drop_first().map_values(|b: BookmarkView| bookmark_json(b)));
        lemma_records_of_written(bs.drop_first());
        assert(seq![bs[0]] + bs.drop_first() =~= bs);
    }
}

/// Reading back a written `bkj` document gives every bookmark back, in
/// order, with all four fields: `parse_bkj(&write_bkj(bs))` equals `bs`.
pub proof fn lemma_bkj_round_trip(bs: Seq<BookmarkView>)
    ensures
        parse_bkj_spec(bkj_text(bs)) == bs,
{
    lemma_lines_of_bkj_text(bs);
    lemma_records_of_written(bs);
}

// ---------------------------------------------------------------------
// Concatenating documents
// ---------------------------------------------------------------------

/// Writing two lists one after the other writes their concatenation.
pub proof fn lemma_bkj_text_concat(xs: Seq<BookmarkView>, ys: Seq<BookmarkView>)
    ensures
        bkj_text(xs + ys) == bkj_text(xs) + bkj_text(ys),
    decreases xs.len(),
{
    if xs.len() == 0 {
        assert(xs + ys =~= ys);
        assert(bkj_text(xs) + bkj_text(ys) =~= bkj_text(ys));
    } else {
        assert((xs + ys).drop_first() =~= xs.drop_first() + ys);
        assert((xs + ys)[0] == xs[0]);
        lemma_bkj_text_concat(xs.drop_first(), ys);
        assert(bookmark_json(xs[0]) + seq!['\n'] + (bkj_text(xs.drop_first()) + bkj_text(ys))
            =~= bkj_text(xs) + bkj_text(ys));
    }
}

/// Text that is empty or ends with a line feed is made of whole lines.
pub open spec fn whole_lines(a: Seq<char>) -> bool {
    a.len() == 0 || a.last() == '\n'
}

proof fn lemma_lines_concat(a: Seq<char>, b: Seq<char>)
    requires
        whole_lines(a),
    ensures
        lines(a + b) == lines(a) + lines(b),
    decreases a.len(),
{
    if a.len() == 0 {
        assert(a + b =~= b);
        assert(lines(a) + lines(b) =~= lines(b));
    } else {
        let s = a + b;
        crate::text::lemma_find_char_concat(a, b, '\n');
        crate::text::lemma_find_found(a, seq!['\n']);
        assert(a.subrange(a.len() - 1, a.len() as int) =~= seq!['\n']);
        assert(crate::text::matches_at(a, seq!['\n'], a.len() - 1));
        if crate::text::find_char(a, '\n') is None {
            crate::text::lemma_find_from_none_no_match(a, seq!['\n'], 0);
        }
        let i = crate::text::find_char(a, '\n')->0;
        assert(s.take(i) =~= a.take(i));
        assert(s.skip(i + 1) =~= a.skip(i + 1) + b);
        let a2 = a.skip(i + 1);
        assert(whole_lines(a2)) by {
            if a2.len() > 0 {
                assert(a2.last() == a.last());
            }
        }
        crate::text::lemma_after_first_line_shorter(a);
        lemma_lines_concat(a2, b);
        crate::text::lemma_lines_unfold(a);
        crate::text::lemma_lines_unfold(s);
        assert(lines(s) =~= lines(a) + lines(b));
    }
}

proof fn lemma_records_concat(x: Seq<Seq<char>>, y: Seq<Seq<char>>)
    ensures
        bkj_records(x + y) == bkj_records(x) + bkj_records(y),
    decreases x.len(),
{
    if x.len() == 0 {
        assert(x + y =~= y);
        assert(bkj_records(x) + bkj_records(y) =~= bkj_records(y));
    } else {
        assert((x + y).drop_first() =~= x.drop_first() + y);
        assert((x + y)[0] == x[0]);
        lemma_records_concat(x.drop_first(), y);
        assert(bkj_line(x[0]) + (bkj_records(x.drop_first()) + bkj_records(y)) =~= bkj_records(x)
            + bkj_records(y));
    }
}

/// `bkj` files can be concatenated: reading a document made of whole lines
/// followed by another reads the first's bookmarks, then the second's.
pub proof fn lemma_parse_bkj_concat(a: Seq<char>, b: Seq<char>)
    requires
        whole_lines(a),
    ensures
        parse_bkj_spec(a + b) == parse_bkj_spec(a) + parse_bkj_spec(b),
{
    lemma_lines_concat(a, b);
    lemma_records_concat(lines(a), lines(b));
}

// ---------------------------------------------------------------------
// The shape of a document
// ---------------------------------------------------------------------

/// A written `bkj` document has one line per bookmark, in order, each line
/// that bookmark's object; it holds no carriage return and, unless empty,
/// ends with a line feed.
pub proof fn lemma_bkj_text_shape(bs: Seq<BookmarkView>)
    ensures
        lines(bkj_text(bs)) == bs.map_values(|b: BookmarkView| bookmark_json(b)),
        !bkj_text(bs).contains('\r'),
        bkj_text(bs).len() == 0 <==> bs.len() == 0,
        bs.len() > 0 ==> bkj_text(bs).last() == '\n',
    decreases bs.len(),
{
    lemma_lines_of_bkj_text(bs);
    if bs.len() > 0 {
        lemma_bookmark_json_shape(bs[0]);
        lemma_bkj_text_shape(bs.drop_first());
        let h = bookmark_json(bs[0]) + seq!['\n'];
        let r = bkj_text(bs.drop_first());
        assert(bkj_text(bs) == h + r);
        lemma_contains_concat(bookmark_json(bs[0]), seq!['\n']);
        lemma_contains_concat(h, r);
        assert(!seq!['\n'].contains('\r')) by {
            if seq!['\n'].contains('\r') {
                let i = choose|i: int| 0 <= i < 1 && seq!['\n'][i] == '\r';
            }
        }
        if r.len() == 0 {
            assert(bkj_text(bs).last() == h.last());
        } else {
            assert(bkj_text(bs).last() == r.last());
        }
    }
}

/// The lines of a text that are not blank.
pub open spec fn nonblank_count(ls: Seq<Seq<char>>) -> nat
    decreases ls.len(),
{
    if ls.len() == 0 {
        0
    } else {
        (if trim(ls[0]).len() > 0 {
            1nat
        } else {
            0nat
        }) + nonblank_count(ls.drop_first())
    }
}

proof fn lemma_records_count(ls: Seq<Seq<char>>)
    ensures
        bkj_records(ls).len() <= nonblank_count(ls),
    decreases ls.len(),
{
    if ls.len() > 0 {
        lemma_records_count(ls.drop_first());
    }
}

/// Reading a `bkj` document gives at most one bookmark per line that is
/// not blank.
pub proof fn lemma_parse_bkj_bound(input: Seq<char>)
    ensures
        parse_bkj_spec(input).len() <= nonblank_count(lines(input)),
{
    lemma_records_count(lines(input));
}

/// In a bookmark's object the folder array is `[]` exactly when the
/// bookmark has no folder, and the date is `null` exactly when it has none.
pub proof fn lemma_bookmark_json_empty_fields(b: BookmarkView)
    ensures
        (spec_json_string_array(b.folder) == "[]"@) <==> b.folder.len() == 0,
        (added_text(b.added) == "null"@) <==> b.added is None,
{
    reveal_strlit("[]");
    reveal_strlit("null");
    lemma_added_text_plain(b.added);
    if b.folder.len() == 0 {
        assert(spec_json_string_array(b.folder) =~= "[]"@);
    } else {
        lemma_json_string_shape(b.folder[0]);
        assert(spec_json_string_array(b.folder).len() >= 4);
    }
}

/// How many times `c` occurs in `s`.
pub open spec fn count_char(s: Seq<char>, c: char) -> nat
    decreases s.len(),
{
    if s.len() == 0 {
        0
    } else {
        (if s[0] == c {
            1nat
        } else {
            0nat
        }) + count_char(s.drop_first(), c)
    }
}

proof fn lemma_count_char_concat(a: Seq<char>, b: Seq<char>, c: char)
    ensures
        count_char(a + b, c) == count_char(a, c) + count_char(b, c),
    decreases a.len(),
{
    if a.len() == 0 {
        assert(a + b =~= b);
    } else {
        assert((a + b).drop_first() =~= a.drop_first() + b);
        assert((a + b)[0] == a[0]);
        lemma_count_char_concat(a.drop_first(), b, c);
    }
}

proof fn lemma_count_char_absent(s: Seq<char>, c: char)
    requires
        !s.contains(c),
    ensures
        count_char(s, c) == 0,
    decreases s.len(),
{
    if s.len() > 0 {
        assert(s[0] != c);
        assert(!s.drop_first().contains(c)) by {
            if s.drop_first().contains(c) {
                let i = choose|i: int| 0 <= i < s.drop_first().len() && s.drop_first()[i] == c;
                assert(s[i + 1] == c);
            }
        }
        lemma_count_char_absent(s.drop_first(), c);
    }
}

proof fn lemma_bookmark_json_no_lf(b: BookmarkView)
    ensures
        count_char(bookmark_json(b), '\n') == 0,
{
    lemma_bookmark_json_shape(b);
    lemma_count_char_absent(bookmark_json(b), '\n');
}

/// A written `bkj` document holds exactly one line feed per bookmark.
#[verifier::spinoff_prover]
pub proof fn lemma_bkj_line_feed_count(bs: Seq<BookmarkView>)
    ensures
        count_char(bkj_text(bs), '\n') == bs.len(),
    decreases bs.len(),
{
    if bs.len() > 0 {
        lemma_bkj_line_feed_count(bs.drop_first());
        let j = bookmark_json(bs[0]);
        let lf = seq!['\n'];
        let r = bkj_text(bs.drop_first());
        lemma_bookmark_json_no_lf(bs[0]);
        assert(bkj_text(bs) == j + lf + r);
        lemma_count_char_concat(j + lf, r, '\n');
        lemma_count_char_concat(j, lf, '\n');
        assert(lf[0] == '\n');
        assert(lf.drop_first() =~= Seq::<char>::empty());
        assert(count_char(lf.drop_first(), '\n') == 0);
        assert(count_char(lf, '\n') == 1);
    }
}

/// A date is written as the canonical decimal text of the timestamp, with
/// no leading zero: as the `added` value of a bookmark's object, and inside
/// the `ADD_DATE` attribute of a Netscape file.
pub proof fn lemma_dates_written_canonically(ts: i64)
    ensures
        added_text(Some(ts)) == i64_text(ts),
        crate::netscape::date_attr(Some(ts)) == " ADD_DATE=\""@ + i64_text(ts) + "\""@,
        (i64_text(ts)[0] == '-') <==> ts < 0,
        ts >= 0 && i64_text(ts).len() > 1 ==> i64_text(ts)[0] != '0',
        ts < 0 && i64_text(ts).len() > 2 ==> i64_text(ts)[1] != '0',
{
    crate::int_text::lemma_i64_text_canonical(ts);
    if ts < 0 {
        let d = i64_text(ts).drop_first();
        if i64_text(ts).len() > 2 {
            assert(d[0] == i64_text(ts)[1]);
        }
    }
}

} // verus!
