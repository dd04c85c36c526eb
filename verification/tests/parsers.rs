use hn_reader::comments::parse_comments;
use hn_reader::listing::comment_count_from_text;
use hn_reader::listing::parse_stories;
use hn_reader::listing::score_from_label;

fn listing_page() -> String {
    let mut h = String::new();
    h.push_str("<html><body><table>");
    h.push_str("<tr class=\"athing\" id=\"1\"><td class=\"title\">");
    h.push_str("<span class=\"titleline\"><a href=\"https://example.com/a\">First story</a>");
    h.push_str(" <span class=\"sitebit\">(<span class=\"sitestr\">example.com</span>)</span>");
    h.push_str("</span></td></tr>");
    h.push_str("<tr><td class=\"subtext\"><span class=\"score\">100 points</span> by ");
    h.push_str("<a class=\"hnuser\">alice</a> ");
    h.push_str("<span class=\"age\"><a href=\"item?id=1\">3&nbsp;hours ago</a></span> | ");
    h.push_str("<a href=\"item?id=1\">12 comments</a></td></tr>");
    h.push_str("<tr class=\"athing\" id=\"2\"><td class=\"title\">");
    h.push_str("<span class=\"titleline\"><a href=\"item?id=2\">Second story</a></span>");
    h.push_str("</td></tr>");
    h.push_str("<tr><td class=\"subtext\"><span class=\"score\">5 points</span> by ");
    h.push_str("<a class=\"hnuser\">bob</a> ");
    h.push_str("<span class=\"age\"><a href=\"item?id=2\">5 minutes ago</a></span> | ");
    h.push_str("<a href=\"item?id=2\">discuss</a></td></tr>");
    h.push_str("</table></body></html>");
    h
}

#[test]
fn listing_two_rows_exact_fields() {
    let items = parse_stories(&listing_page()).unwrap();
    assert_eq!(items.len(), 2);
    assert_eq!(items[0].id, "1");
    assert_eq!(items[0].title, "First story");
    assert_eq!(items[0].url, "https://example.com/a");
    assert_eq!(items[0].domain, "example.com");
    assert_eq!(items[0].by, "alice");
    assert_eq!(items[0].score, 100);
    assert_eq!(items[0].time_ago, "3\u{a0}hours ago");
    assert_eq!(items[0].comments_count, 12);
    assert_eq!(items[0].original_index, 0);
    assert_eq!(items[1].id, "2");
    assert_eq!(items[1].score, 5);
    assert_eq!(items[1].comments_count, 0);
    assert_eq!(items[1].original_index, 1);
    assert_eq!(items[1].domain, "");
}

#[test]
fn listing_row_without_metadata_defaults() {
    let h = "<html><body><table><tr class=\"athing\" id=\"7\"><td class=\"title\">\
             <span class=\"titleline\"><a href=\"x\">T</a></span></td></tr></table></body></html>";
    let items = parse_stories(h).unwrap();
    assert_eq!(items.len(), 1);
    assert_eq!(items[0].score, 0);
    assert_eq!(items[0].comments_count, 0);
    assert_eq!(items[0].by, "");
    assert_eq!(items[0].time_ago, "");
}

#[test]
fn listing_empty_markup_yields_no_items() {
    let items = parse_stories("<html><body></body></html>").unwrap();
    assert_eq!(items.len(), 0);
}

fn count_of(text: &str) -> i32 {
    let cs: Vec<char> = text.chars().collect();
    comment_count_from_text(&cs)
}

#[test]
fn comment_count_nbsp_entity() {
    assert_eq!(count_of("29&nbsp;comments"), 29);
}

#[test]
fn comment_count_literal_space() {
    assert_eq!(count_of("29 comments"), 29);
}

#[test]
fn comment_count_discuss_is_zero() {
    assert_eq!(count_of("discuss"), 0);
}

#[test]
fn comment_count_fallback_first_token() {
    assert_eq!(count_of("17 comment threads"), 17);
    assert_eq!(count_of("comments"), 0);
}

#[test]
fn score_label_parsing() {
    assert_eq!(score_from_label("100 points"), 100);
    assert_eq!(score_from_label("5 points"), 5);
    assert_eq!(score_from_label("points"), 0);
    assert_eq!(score_from_label(""), 0);
}

fn comment_row(id: &str, indent: u32, user: &str, text: &str) -> String {
    let mut h = String::new();
    h.push_str("<tr class=\"comtr\" id=\"");
    h.push_str(id);
    h.push_str("\"><td><table><tr><td class=\"ind\" indent=\"");
    h.push_str(&indent.to_string());
    h.push_str("\"></td><td><a class=\"hnuser\">");
    h.push_str(user);
    h.push_str("</a> <span class=\"age\"><a href=\"#\">2 hours ago</a></span>");
    h.push_str("<div class=\"commtext\">");
    h.push_str(text);
    h.push_str("</div></td></tr></table></td></tr>");
    h
}

fn thread_page(rows: &[String]) -> String {
    let mut h = String::from("<html><body><table>");
    for r in rows {
        h.push_str(r);
    }
    h.push_str("</table></body></html>");
    h
}

#[test]
fn thread_nested_structure() {
    let page = thread_page(&[
        comment_row("a", 0, "u1", "root one"),
        comment_row("b", 1, "u2", "child of a"),
        comment_row("c", 2, "u3", "child of b"),
        comment_row("d", 1, "u4", "second child of a"),
        comment_row("e", 0, "u5", "root two"),
    ]);
    let roots = parse_comments(&page).unwrap();
    assert_eq!(roots.len(), 2);
    assert_eq!(roots[0].id, "a");
    assert_eq!(roots[0].by, "u1");
    assert_eq!(roots[0].text, "root one");
    assert_eq!(roots[0].time_ago, "2 hours ago");
    assert_eq!(roots[0].level, 0);
    assert_eq!(roots[0].children.len(), 2);
    assert_eq!(roots[0].children[0].id, "b");
    assert_eq!(roots[0].children[0].level, 1);
    assert_eq!(roots[0].children[0].children.len(), 1);
    assert_eq!(roots[0].children[0].children[0].id, "c");
    assert_eq!(roots[0].children[0].children[0].level, 2);
    assert_eq!(roots[0].children[1].id, "d");
    assert_eq!(roots[0].children[1].children.len(), 0);
    assert_eq!(roots[1].id, "e");
    assert_eq!(roots[1].children.len(), 0);
}

#[test]
fn thread_duplicate_id_first_occurrence_wins() {
    let page = thread_page(&[
        comment_row("a", 0, "first_author", "first body"),
        comment_row("b", 1, "other", "reply"),
        comment_row("a", 0, "second_author", "second body"),
    ]);
    let roots = parse_comments(&page).unwrap();
    assert_eq!(roots.len(), 1);
    assert_eq!(roots[0].id, "a");
    assert_eq!(roots[0].by, "first_author");
    assert_eq!(roots[0].text, "first body");
    assert_eq!(roots[0].children.len(), 1);
    assert_eq!(roots[0].children[0].id, "b");
}

#[test]
fn thread_missing_indent_defaults_to_root() {
    let mut row = String::new();
    row.push_str("<tr class=\"comtr\" id=\"z\"><td><a class=\"hnuser\">u</a>");
    row.push_str("<div class=\"commtext\">body</div></td></tr>");
    let page = thread_page(&[row]);
    let roots = parse_comments(&page).unwrap();
    assert_eq!(roots.len(), 1);
    assert_eq!(roots[0].level, 0);
    assert_eq!(roots[0].time_ago, "");
}

#[test]
fn thread_empty_markup_yields_no_roots() {
    let roots = parse_comments("<html><body></body></html>").unwrap();
    assert_eq!(roots.len(), 0);
}
