use hn_reader::pagination::extract_more_link_params;
use hn_reader::pagination::item_url;
use hn_reader::pagination::latest_comments_url;
use hn_reader::pagination::listing_url;
use hn_reader::pagination::should_cache_listing;
use hn_reader::pagination::u64_to_dec;
use hn_reader::text::find_sub;
use hn_reader::text::first_token;
use hn_reader::text::parse_i32;
use hn_reader::text::rfind_sub;
use hn_reader::text::str_eq;
use hn_reader::text::to_chars;

fn chars(s: &str) -> Vec<char> {
    s.chars().collect()
}

#[test]
fn parse_i32_accepts_plain_and_signed() {
    assert_eq!(parse_i32(&chars("0")), Some(0));
    assert_eq!(parse_i32(&chars("29")), Some(29));
    assert_eq!(parse_i32(&chars("+7")), Some(7));
    assert_eq!(parse_i32(&chars("-12")), Some(-12));
    assert_eq!(parse_i32(&chars("007")), Some(7));
}

#[test]
fn parse_i32_bounds() {
    assert_eq!(parse_i32(&chars("2147483647")), Some(2147483647));
    assert_eq!(parse_i32(&chars("2147483648")), None);
    assert_eq!(parse_i32(&chars("-2147483648")), Some(-2147483648));
    assert_eq!(parse_i32(&chars("-2147483649")), None);
    assert_eq!(parse_i32(&chars("99999999999999999999")), None);
}

#[test]
fn parse_i32_rejects_malformed() {
    assert_eq!(parse_i32(&chars("")), None);
    assert_eq!(parse_i32(&chars("-")), None);
    assert_eq!(parse_i32(&chars("+")), None);
    assert_eq!(parse_i32(&chars("12a")), None);
    assert_eq!(parse_i32(&chars(" 12")), None);
    assert_eq!(parse_i32(&chars("1 2")), None);
}

#[test]
fn first_token_splits_on_whitespace() {
    assert_eq!(first_token(&chars("100 points")), chars("100"));
    assert_eq!(first_token(&chars("  lead")), chars("lead"));
    assert_eq!(first_token(&chars("solo")), chars("solo"));
    assert_eq!(first_token(&chars("   ")), Vec::<char>::new());
    assert_eq!(first_token(&chars("")), Vec::<char>::new());
}

#[test]
fn substring_search() {
    assert_eq!(find_sub(&chars("hello world"), &chars("world")), Some(6));
    assert_eq!(find_sub(&chars("hello"), &chars("xyz")), None);
    assert_eq!(find_sub(&chars("aaa"), &chars("aa")), Some(0));
    assert_eq!(rfind_sub(&chars("ababab"), &chars("ab"), 6), Some(4));
    assert_eq!(rfind_sub(&chars("ababab"), &chars("ab"), 5), Some(2));
    assert_eq!(rfind_sub(&chars("abc"), &chars("z"), 3), None);
}

#[test]
fn str_eq_and_to_chars() {
    assert!(str_eq("abc", "abc"));
    assert!(!str_eq("abc", "abd"));
    assert_eq!(to_chars("hi"), vec!['h', 'i']);
}

#[test]
fn decimal_notation() {
    assert_eq!(u64_to_dec(0), "0");
    assert_eq!(u64_to_dec(7), "7");
    assert_eq!(u64_to_dec(31), "31");
    assert_eq!(u64_to_dec(12345), "12345");
    assert_eq!(u64_to_dec(18446744073709551615), "18446744073709551615");
}

#[test]
fn more_link_params_extracted() {
    let html = "<html><body><a href=\"newest?next=41848338&n=31\" class=\"morelink\" \
                rel=\"next\">More</a></body></html>";
    let got = extract_more_link_params(html).unwrap();
    assert_eq!(got.0, "41848338");
    assert_eq!(got.1, "31");
}

#[test]
fn more_link_params_take_nearest_preceding_href() {
    let html = "<a href=\"other?x=1\">x</a><a href=\"newest?next=99&n=61\" \
                class=\"morelink\">More</a>";
    let got = extract_more_link_params(html).unwrap();
    assert_eq!(got.0, "99");
    assert_eq!(got.1, "61");
}

#[test]
fn more_link_params_absent() {
    assert!(extract_more_link_params("<html><body>no more link</body></html>").is_none());
    let no_n = "<a href=\"newest?next=55\" class=\"morelink\">More</a>";
    assert!(extract_more_link_params(no_n).is_none());
    let no_next = "<a href=\"newest?n=31\" class=\"morelink\">More</a>";
    assert!(extract_more_link_params(no_next).is_none());
}

#[test]
fn listing_urls_by_tab_and_page() {
    assert_eq!(listing_url("hot", 1, None), "https://news.ycombinator.com/");
    assert_eq!(listing_url("hot", 3, None), "https://news.ycombinator.com/?p=3");
    assert_eq!(listing_url("best", 2, None), "https://news.ycombinator.com/best?p=2");
    assert_eq!(listing_url("ask", 1, None), "https://news.ycombinator.com/ask");
    assert_eq!(listing_url("show", 1, None), "https://news.ycombinator.com/show");
    assert_eq!(listing_url("jobs", 1, None), "https://news.ycombinator.com/jobs");
    assert_eq!(listing_url("unknown", 1, None), "https://news.ycombinator.com/");
}

#[test]
fn listing_urls_for_cursor_tab() {
    assert_eq!(listing_url("new", 1, None), "https://news.ycombinator.com/newest");
    assert_eq!(listing_url("new", 2, None), "https://news.ycombinator.com/newest?n=31");
    let params = ("41848338".to_string(), "61".to_string());
    assert_eq!(
        listing_url("new", 3, Some(&params)),
        "https://news.ycombinator.com/newest?next=41848338&n=61"
    );
    assert_eq!(listing_url("new", 3, None), "https://news.ycombinator.com/newest?n=61");
    assert_eq!(listing_url("new", 4, None), "https://news.ycombinator.com/newest?n=91");
}

#[test]
fn item_urls() {
    assert_eq!(item_url("123"), "https://news.ycombinator.com/item?id=123");
    assert_eq!(latest_comments_url("123"), "https://news.ycombinator.com/latest?id=123");
}

#[test]
fn cache_policy_is_hot_first_page_only() {
    assert!(should_cache_listing("hot", 1));
    assert!(!should_cache_listing("hot", 2));
    assert!(!should_cache_listing("new", 1));
    assert!(!should_cache_listing("best", 1));
}
