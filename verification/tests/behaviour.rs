use bookmark_bridge::html::unescape_html;
use bookmark_bridge::{parse_bkj, parse_netscape, write_bkj, write_netscape, Bookmark};

fn bm(title: &str, url: &str, folder: &[&str], added: Option<i64>) -> Bookmark {
    Bookmark {
        title: title.to_string(),
        url: url.to_string(),
        folder: folder.iter().map(|s| s.to_string()).collect(),
        added,
    }
}

#[test]
fn write_netscape_exact_output() {
    let html = write_netscape(&[bm("A<b", "https://x", &["F"], Some(5))]);
    let expected = "<!DOCTYPE NETSCAPE-Bookmark-file-1>\n\
<META HTTP-EQUIV=\"Content-Type\" CONTENT=\"text/html; charset=UTF-8\">\n\
<TITLE>Bookmarks</TITLE>\n\
<H1>Bookmarks</H1>\n\
<DL><p>\n\
\x20   <DT><H3>F</H3>\n\
\x20   <DL><p>\n\
\x20       <DT><A HREF=\"https://x\" ADD_DATE=\"5\">A&lt;b</A>\n\
\x20   </DL><p>\n\
</DL><p>\n";
    assert_eq!(html, expected);
}

#[test]
fn write_netscape_empty_list() {
    let html = write_netscape(&[]);
    assert!(html.ends_with("<DL><p>\n</DL><p>\n"));
    assert_eq!(parse_netscape(&html), Vec::<Bookmark>::new());
}

#[test]
fn netscape_groups_scattered_folder() {
    let a = bm("A", "https://a", &["X"], None);
    let b = bm("B", "https://b", &[], Some(1));
    let c = bm("C", "https://c", &["X"], Some(2));
    let html = write_netscape(&[a.clone(), b.clone(), c.clone()]);
    assert_eq!(parse_netscape(&html), vec![a, c, b]);
}

#[test]
fn netscape_keeps_order_inside_a_folder() {
    let list = vec![
        bm("1", "https://1", &["P", "Q"], None),
        bm("2", "https://2", &["P"], None),
        bm("3", "https://3", &["P", "Q"], None),
        bm("4", "https://4", &["P"], None),
    ];
    let back = parse_netscape(&write_netscape(&list));
    let titles: Vec<&str> = back.iter().map(|b| b.title.as_str()).collect();
    assert_eq!(titles, vec!["1", "3", "2", "4"]);
}

#[test]
fn netscape_round_trip_extreme_dates_and_entities() {
    let list = vec![
        bm("<&>\"'", "https://e", &["a&b", "<c>"], Some(i64::MIN)),
        bm("", "", &[], Some(i64::MAX)),
    ];
    assert_eq!(parse_netscape(&write_netscape(&list)), list);
}

#[test]
fn netscape_url_with_ampersand_comes_back_escaped() {
    let list = vec![bm("T", "https://a?x=1&y=2", &[], None)];
    let back = parse_netscape(&write_netscape(&list));
    assert_eq!(back[0].url, "https://a?x=1&amp;y=2");
}

#[test]
fn netscape_url_ending_in_add_date_loses_date() {
    let list = vec![bm("T", "https://a?ADD_DATE=", &[], Some(7))];
    let back = parse_netscape(&write_netscape(&list));
    assert_eq!(back[0].url, "https://a?ADD_DATE=");
    assert_eq!(back[0].added, None);
}

#[test]
fn netscape_parse_is_case_insensitive_and_lenient() {
    let html = "<dl><p>\n\
                <dt><h3>Caf&eacute; &amp; Co</h3>\n\
                <DL><p>\n\
                <dt><a href=\"https://x\" add_date=\"abc\">  spaced  </a>\n\
                <DT><A ADD_DATE=\"3\">no href</A>\n\
                <DT><A HREF=\"https://y\" ADD_DATE=\"-12\">neg</A>\n\
                </DL><p>\n\
                </DL><p>\n\
                </DL><p>\n\
                <DT><A HREF=\"https://z\">top</A>\n";
    let bookmarks = parse_netscape(html);
    assert_eq!(
        bookmarks,
        vec![
            bm("  spaced  ", "https://x", &["Caf&eacute; & Co"], None),
            bm("neg", "https://y", &["Caf&eacute; & Co"], Some(-12)),
            bm("top", "https://z", &[], None),
        ]
    );
}

#[test]
fn netscape_heading_without_list_is_replaced() {
    let html = "<DT><H3>First</H3>\n<DT><H3>Second</H3>\n<DL><p>\n<DT><A HREF=\"u\">t</A>\n";
    let bookmarks = parse_netscape(html);
    assert_eq!(bookmarks, vec![bm("t", "u", &["Second"], None)]);
}

#[test]
fn write_bkj_exact_output() {
    let out = write_bkj(&[
        bm("T\"\\\n\u{1}", "u", &["a", "b"], None),
        bm("x", "y", &[], Some(-3)),
    ]);
    let expected = "{\"title\":\"T\\\"\\\\\\n\\u0001\",\"url\":\"u\",\"folder\":[\"a\",\"b\"],\"added\":null}\n\
{\"title\":\"x\",\"url\":\"y\",\"folder\":[],\"added\":-3}\n";
    assert_eq!(out, expected);
}

#[test]
fn bkj_round_trip_control_characters_and_extremes() {
    let list = vec![
        bm("\t\r\n\u{0}\u{1f}\u{7f}é😀", "\\", &["", ",", "[x]", "\"q\""], Some(i64::MIN)),
        bm("", "", &[], Some(i64::MAX)),
    ];
    assert_eq!(parse_bkj(&write_bkj(&list)), list);
}

#[test]
fn bkj_documents_concatenate() {
    let first = vec![bm("a", "1", &["f"], Some(1))];
    let second = vec![bm("b", "2", &[], None), bm("c", "3", &["g", "h"], Some(0))];
    let joined = format!("{}{}", write_bkj(&first), write_bkj(&second));
    let mut all = first.clone();
    all.extend(second.clone());
    assert_eq!(parse_bkj(&joined), all);
}

#[test]
fn parse_bkj_readme_example_with_spaces() {
    let input = "{\"title\": \"Rust Book\", \"url\": \"https://doc.rust-lang.org/book/\", \"folder\": [\"Dev\"], \"added\": 1700000000}\n\
                 {\"title\":\"Example\",\"url\":\"https://example.com\",\"folder\":[],\"added\":null}\n";
    assert_eq!(
        parse_bkj(input),
        vec![
            bm("Rust Book", "https://doc.rust-lang.org/book/", &["Dev"], Some(1700000000)),
            bm("Example", "https://example.com", &[], None),
        ]
    );
}

#[test]
fn parse_bkj_skips_blank_and_incomplete_lines() {
    let input = "\n   \r\n\
                 {\"title\":\"no url\",\"folder\":[],\"added\":null}\n\
                 not json\n\
                 {\"title\":\"ok\",\"url\":\"u\"}\r\n\
                 {\"url\":\"first\",\"title\":\"t\",\"url\":\"second\",\"extra\":[1,2],\"folder\":\"bad\",\"added\":\"x\"}\n";
    assert_eq!(
        parse_bkj(input),
        vec![bm("ok", "u", &[], None), bm("t", "second", &[], None)]
    );
}

#[test]
fn parse_bkj_unicode_escapes() {
    let input = "{\"title\":\"\\u0041\\u00e9\\u+041\",\"url\":\"\\u41\",\"folder\":[\"\\q\"],\"added\":+7}\n\
                 {\"title\":\"\\ud800\",\"url\":\"u\",\"folder\":[],\"added\":null}\n\
                 {\"title\":\"\\\",\"url\":\"u\",\"folder\":[],\"added\":null}\n";
    assert_eq!(parse_bkj(input), vec![bm("AéA", "A", &["q"], Some(7))]);
}

#[test]
fn parse_bkj_number_out_of_range() {
    let input = "{\"title\":\"t\",\"url\":\"u\",\"folder\":[],\"added\":9223372036854775808}\n\
                 {\"title\":\"t\",\"url\":\"u\",\"folder\":[],\"added\":-9223372036854775808}\n";
    assert_eq!(
        parse_bkj(input),
        vec![bm("t", "u", &[], None), bm("t", "u", &[], Some(i64::MIN))]
    );
}

#[test]
fn unescape_other_entities() {
    assert_eq!(unescape_html("&#39;&apos;&quot;&foo; & &amp;lt;"), "''\"&foo; & &lt;");
    assert_eq!(unescape_html("&"), "&");
    assert_eq!(unescape_html(""), "");
}
