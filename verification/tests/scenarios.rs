use bookmark_bridge::html::unescape_html;
use bookmark_bridge::{parse_bkj, parse_netscape, write_bkj, write_netscape, Bookmark};

#[test]
fn parses_flat_netscape_bookmark() {
    let html = "<!DOCTYPE NETSCAPE-Bookmark-file-1>\n\
                 <DL><p>\n\
                 \x20   <DT><A HREF=\"https://example.com\" ADD_DATE=\"1700000000\">Example</A>\n\
                 </DL><p>\n";
    let bookmarks = parse_netscape(html);
    assert_eq!(bookmarks.len(), 1);
    assert_eq!(bookmarks[0].title, "Example");
    assert_eq!(bookmarks[0].url, "https://example.com");
    assert_eq!(bookmarks[0].added, Some(1700000000));
    assert_eq!(bookmarks[0].folder, Vec::<String>::new());
}

#[test]
fn parses_bookmark_inside_folder() {
    let html = "<DL><p>\n\
                 \x20   <DT><H3>Work</H3>\n\
                 \x20   <DL><p>\n\
                 \x20       <DT><A HREF=\"https://example.com\">Example</A>\n\
                 \x20   </DL><p>\n\
                 </DL><p>\n";
    let bookmarks = parse_netscape(html);
    assert_eq!(bookmarks.len(), 1);
    assert_eq!(bookmarks[0].folder, vec!["Work".to_string()]);
}

#[test]
fn parses_bookmark_inside_nested_folders() {
    let html = "<DL><p>\n\
                 \x20   <DT><H3>Work</H3>\n\
                 \x20   <DL><p>\n\
                 \x20       <DT><H3>Reading</H3>\n\
                 \x20       <DL><p>\n\
                 \x20           <DT><A HREF=\"https://example.com\">Example</A>\n\
                 \x20       </DL><p>\n\
                 \x20   </DL><p>\n\
                 </DL><p>\n";
    let bookmarks = parse_netscape(html);
    assert_eq!(bookmarks.len(), 1);
    assert_eq!(
        bookmarks[0].folder,
        vec!["Work".to_string(), "Reading".to_string()]
    );
}

#[test]
fn netscape_round_trip_preserves_fields() {
    let original = vec![Bookmark {
        title: "Rust & Friends".to_string(),
        url: "https://rust-lang.org".to_string(),
        folder: vec!["Dev".to_string()],
        added: Some(1600000000),
    }];
    let html = write_netscape(&original);
    assert_eq!(parse_netscape(&html), original);
}

#[test]
fn netscape_round_trip_preserves_nested_folders() {
    let original = vec![
        Bookmark {
            title: "No folder".to_string(),
            url: "https://a.example".to_string(),
            folder: Vec::new(),
            added: None,
        },
        Bookmark {
            title: "Article".to_string(),
            url: "https://b.example".to_string(),
            folder: vec!["Work".to_string(), "Reading".to_string()],
            added: Some(42),
        },
        Bookmark {
            title: "Another article".to_string(),
            url: "https://c.example".to_string(),
            folder: vec!["Work".to_string(), "Reading".to_string()],
            added: None,
        },
    ];
    let html = write_netscape(&original);
    assert_eq!(parse_netscape(&html), original);
}

#[test]
fn bkj_round_trip_preserves_fields() {
    let original = vec![
        Bookmark {
            title: "No folder".to_string(),
            url: "https://a.example".to_string(),
            folder: Vec::new(),
            added: None,
        },
        Bookmark {
            title: "Quoted \"title\"".to_string(),
            url: "https://b.example".to_string(),
            folder: vec!["Nested".to_string(), "Path".to_string()],
            added: Some(42),
        },
    ];
    let json = write_bkj(&original);
    assert_eq!(parse_bkj(&json), original);
}

#[test]
fn unescape_handles_entities() {
    assert_eq!(unescape_html("Tom &amp; Jerry"), "Tom & Jerry");
    assert_eq!(unescape_html("&lt;tag&gt;"), "<tag>");
    assert_eq!(unescape_html("plain text"), "plain text");
}
