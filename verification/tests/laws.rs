use bookmark_bridge::json::{find_unquoted_colon, json_string, split_unquoted};
use bookmark_bridge::{parse_bkj, parse_netscape, write_bkj, write_netscape, Bookmark};

fn bm(title: &str, url: &str, folder: &[&str], added: Option<i64>) -> Bookmark {
    Bookmark {
        title: title.to_string(),
        url: url.to_string(),
        folder: folder.iter().map(|s| s.to_string()).collect(),
        added,
    }
}

fn chars(s: &str) -> Vec<char> {
    s.chars().collect()
}

#[test]
fn grouped_input_comes_back_in_input_order() {
    let list = vec![
        bm("A", "https://a", &[], Some(1)),
        bm("B", "https://b", &["F"], None),
        bm("C", "https://c", &["F", "G"], Some(3)),
        bm("D", "https://d", &["F"], None),
        bm("E", "https://e", &[], None),
    ];
    assert_eq!(parse_netscape(&write_netscape(&list)), list);
}

#[test]
fn levels_follow_first_use_and_folders_stand_together() {
    let list = vec![
        bm("1", "https://1", &["X", "Y"], None),
        bm("2", "https://2", &[], None),
        bm("3", "https://3", &["Z"], None),
        bm("4", "https://4", &["X"], None),
        bm("5", "https://5", &["X", "Y"], None),
    ];
    let back = parse_netscape(&write_netscape(&list));
    let titles: Vec<&str> = back.iter().map(|b| b.title.as_str()).collect();
    assert_eq!(titles, vec!["1", "5", "4", "2", "3"]);
}

#[test]
fn written_lines_are_indented_by_depth_and_undated_has_no_date() {
    let html = write_netscape(&[bm("T", "https://t", &["A", "B"], None)]);
    let line = "            <DT><A HREF=\"https://t\">T</A>";
    assert!(html.lines().any(|l| l == line));
    assert!(!html.contains("ADD_DATE"));
    assert_eq!(html.lines().filter(|l| l.contains("<DT><H3>")).count(), 2);
    assert_eq!(html.lines().filter(|l| l.trim() == "<DL><p>").count(), 3);
    assert_eq!(html.lines().filter(|l| l.trim() == "</DL><p>").count(), 3);
}

#[test]
fn parse_netscape_depth_bounded_by_list_openings() {
    let html = "<DT><H3>A</H3>\n<DT><H3>B</H3>\n<DL><p>\n<DT><A HREF=\"u\">t</A>\n";
    let got = parse_netscape(html);
    assert_eq!(got.len(), 1);
    assert_eq!(got[0].folder, vec!["B".to_string()]);
    assert!(got.len() <= html.lines().count());
}

#[test]
fn write_bkj_one_line_per_bookmark_without_carriage_return() {
    let list = vec![
        bm("a\r\nb", "https://a", &["x"], None),
        bm("q\"", "https://b", &[], Some(-4)),
    ];
    let text = write_bkj(&list);
    assert_eq!(text.matches('\n').count(), 2);
    assert!(!text.contains('\r'));
    assert!(text.ends_with('\n'));
    assert_eq!(
        text.lines().nth(1).unwrap(),
        "{\"title\":\"q\\\"\",\"url\":\"https://b\",\"folder\":[],\"added\":-4}"
    );
}

#[test]
fn parse_bkj_at_most_one_bookmark_per_nonblank_line() {
    let text = "\n   \n{\"title\":\"t\",\"url\":\"u\",\"folder\":[],\"added\":null}\nnot json\n";
    let got = parse_bkj(text);
    assert_eq!(got.len(), 1);
    assert!(got.len() <= text.lines().filter(|l| !l.trim().is_empty()).count());
}

#[test]
fn json_string_escapes_quotes_and_controls() {
    let mut out = Vec::new();
    json_string(&mut out, &chars("a\"b\\c\u{1}"));
    let s: String = out.iter().collect();
    assert_eq!(s, "\"a\\\"b\\\\c\\u0001\"");
    assert!(out.iter().all(|c| *c >= ' '));
}

#[test]
fn find_unquoted_colon_skips_strings() {
    assert_eq!(find_unquoted_colon(&chars("\"a:\\\"b\":1")), Some(7));
    assert_eq!(find_unquoted_colon(&chars("\"no colon:\"")), None);
    assert_eq!(find_unquoted_colon(&chars("x:y:z")), Some(1));
}

#[test]
fn split_unquoted_parts_join_back() {
    let text = "\"a,b\":[1,2],c,";
    let parts = split_unquoted(&chars(text), ',');
    let parts: Vec<String> = parts.iter().map(|p| p.iter().collect()).collect();
    assert_eq!(parts, vec!["\"a,b\":[1,2]".to_string(), "c".to_string()]);
    assert_eq!(format!("{},", parts.join(",")), text);
}

#[test]
fn undated_url_ending_in_add_date_reads_back_unchanged() {
    let list = vec![bm("T", "https://x?add_date=", &["F"], None)];
    assert_eq!(parse_netscape(&write_netscape(&list)), list);
}

#[test]
fn json_string_quote_after_backslash_has_odd_run() {
    let mut out = Vec::new();
    json_string(&mut out, &chars("\\\""));
    let s: String = out.iter().collect();
    assert_eq!(s, "\"\\\\\\\"\"");
    let inner: Vec<char> = out[1..out.len() - 1].to_vec();
    let q = inner.iter().position(|c| *c == '"').unwrap();
    let run = inner[..q].iter().rev().take_while(|c| **c == '\\').count();
    assert_eq!(run % 2, 1);
}

#[test]
fn split_unquoted_keeps_final_separator_inside_brackets() {
    let text = "a,[b,]";
    let parts: Vec<String> = split_unquoted(&chars(text), ',')
        .iter()
        .map(|p| p.iter().collect())
        .collect();
    assert_eq!(parts.join(","), text);
}
