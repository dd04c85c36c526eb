//! Pagination and endpoints: extraction of the cursor-pagination token
//! from a "more" link, the per-tab listing URLs, the per-item detail URLs,
//! and the rule for which listing request may use the cache.

use vstd::prelude::*;

verus! {

use vstd::string::StrSliceExecFns;
use vstd::string::StringExecFns;
use vstd::slice::slice_subrange;
use crate::text::find_from;
use crate::text::rfind_before;
use crate::text::contains_sub;
use crate::text::to_chars;
use crate::text::find_sub;
use crate::text::find_sub_from;
use crate::text::rfind_sub;
use crate::text::str_eq;

/// The continuation parameters of the "more" link, when the chronological
/// tab's markup carries them: the nearest link target before the "more"
/// marker is taken, and its `next` and `n` query parameters are cut out;
/// if either is missing, there is nothing to extract.
pub open spec fn more_link_params(h: Seq<char>) -> Option<(Seq<char>, Seq<char>)> {
    match find_from(h, "class=\"morelink\""@, 0) {
        None => None,
        Some(mp) => match rfind_before(h, "href=\""@, mp) {
            None => None,
            Some(hs) => match find_from(h, "\""@, hs + 6) {
                None => None,
                Some(he) => {
                    let href = h.subrange(hs + 6, he);
                    if contains_sub(href, "newest?next="@) && contains_sub(href, "&n="@) {
                        match find_from(href, "next="@, 0) {
                            None => None,
                            Some(ns) => match find_from(href, "&"@, ns + 5) {
                                None => None,
                                Some(ne) => match find_from(href, "&n="@, 0) {
                                    None => None,
                                    Some(n0) => Some(
                                        (
                                            href.subrange(ns + 5, ne),
                                            href.subrange(n0 + 3, href.len() as int),
                                        ),
                                    ),
                                },
                            },
                        }
                    } else {
                        None
                    }
                },
            },
        },
    }
}

/// Extracts the continuation token pair (`next`, `n`) for the
/// chronological tab out of listing markup, by scanning back from the
/// "more" link marker to its link target and cutting the two query
/// parameters out of it. Either parameter missing means none, not an
/// error.
pub fn extract_more_link_params(html: &str) -> (r: Option<(String, String)>)
    ensures
        match r {
            Some(p) => more_link_params(html@) == Some((p.0@, p.1@)),
            None => more_link_params(html@) is None,
        },
{
    let hc = to_chars(html);
    proof {
        reveal_strlit("class=\"morelink\"");
        reveal_strlit("href=\"");
        reveal_strlit("\"");
        reveal_strlit("newest?next=");
        reveal_strlit("next=");
        reveal_strlit("&n=");
        reveal_strlit("&");
    }
    let marker = to_chars("class=\"morelink\"");
    let mp = match find_sub(hc.as_slice(), marker.as_slice()) {
        Some(p) => p,
        None => {
            return None;
        },
    };
    let hrefq = to_chars("href=\"");
    let hs = match rfind_sub(hc.as_slice(), hrefq.as_slice(), mp) {
        Some(p) => p,
        None => {
            return None;
        },
    };
    let quote = to_chars("\"");
    let he = match find_sub_from(hc.as_slice(), quote.as_slice(), hs + 6) {
        Some(p) => p,
        None => {
            return None;
        },
    };
    let href_s = slice_subrange(hc.as_slice(), hs + 6, he);
    let newq = to_chars("newest?next=");
    let nq = to_chars("&n=");
    if find_sub(href_s, newq.as_slice()).is_none() {
        return None;
    }
    if find_sub(href_s, nq.as_slice()).is_none() {
        return None;
    }
    let nextq = to_chars("next=");
    let ns = match find_sub(href_s, nextq.as_slice()) {
        Some(p) => p,
        None => {
            return None;
        },
    };
    let amp = to_chars("&");
    let ne = match find_sub_from(href_s, amp.as_slice(), ns + 5) {
        Some(p) => p,
        None => {
            return None;
        },
    };
    let n0 = match find_sub(href_s, nq.as_slice()) {
        Some(p) => p,
        None => {
            return None;
        },
    };
    let next_param = html.substring_char(hs + 6 + ns + 5, hs + 6 + ne).to_owned();
    let n_param = html.substring_char(hs + 6 + n0 + 3, he).to_owned();
    proof {
        assert(html@.subrange(hs + 6 + ns + 5, hs + 6 + ne) =~= href_s@.subrange(
            ns + 5,
            ne as int,
        ));
        assert(html@.subrange(hs + 6 + n0 + 3, he as int) =~= href_s@.subrange(
            n0 + 3,
            href_s@.len() as int,
        ));
    }
    Some((next_param, n_param))
}

/// The character of a decimal digit value.
pub open spec fn digit_char(d: int) -> char {
    if d == 0 {
        '0'
    } else if d == 1 {
        '1'
    } else if d == 2 {
        '2'
    } else if d == 3 {
        '3'
    } else if d == 4 {
        '4'
    } else if d == 5 {
        '5'
    } else if d == 6 {
        '6'
    } else if d == 7 {
        '7'
    } else if d == 8 {
        '8'
    } else {
        '9'
    }
}

/// The decimal notation of `n`, most significant digit first, without
/// leading zeros (a single zero for zero).
pub open spec fn dec_spec(n: nat) -> Seq<char>
    decreases n,
{
    if n < 10 {
        seq![digit_char(n as int)]
    } else {
        dec_spec(n / 10).push(digit_char((n % 10) as int))
    }
}

/// Appends the character of one decimal digit.
fn append_digit(out: &mut String, d: u8)
    requires
        d < 10,
    ensures
        final(out)@ == old(out)@.push(digit_char(d as int)),
{
    let digits = "0123456789";
    proof {
        reveal_strlit("0123456789");
    }
    let piece = digits.substring_char(d as usize, d as usize + 1);
    proof {
        assert(piece@ =~= seq![digit_char(d as int)]);
    }
    out.append(piece);
    proof {
        assert(out@ =~= old(out)@.push(digit_char(d as int)));
    }
}

/// Writes `n` in decimal notation.
pub fn u64_to_dec(n: u64) -> (s: String)
    ensures
        s@ == dec_spec(n as nat),
{
    let mut m: u64 = n;
    let mut rev: Vec<u8> = Vec::new();
    let ghost mut tail: Seq<char> = Seq::empty();
    loop
        invariant_except_break
            dec_spec(m as nat) + tail =~= dec_spec(n as nat),
            tail.len() == rev@.len(),
            forall|k: int|
                0 <= k < rev@.len() ==> (#[trigger] rev@[k]) < 10 && tail[tail.len() - 1 - k]
                    == digit_char(rev@[k] as int),
        ensures
            tail =~= dec_spec(n as nat),
            tail.len() == rev@.len(),
            rev@.len() > 0,
            forall|k: int|
                0 <= k < rev@.len() ==> (#[trigger] rev@[k]) < 10 && tail[tail.len() - 1 - k]
                    == digit_char(rev@[k] as int),
        decreases m,
    {
        let d = (m % 10) as u8;
        rev.push(d);
        proof {
            tail = seq![digit_char(d as int)] + tail;
        }
        m = m / 10;
        if m == 0 {
            proof {
                assert(tail =~= dec_spec(n as nat));
            }
            break ;
        }
    }
    let mut out = String::new();
    let len = rev.len();
    let mut j: usize = 0;
    while j < len
        invariant
            len == rev@.len(),
            len == tail.len(),
            j <= len,
            out@ =~= tail.subrange(0, j as int),
            tail =~= dec_spec(n as nat),
            forall|k: int|
                0 <= k < rev@.len() ==> (#[trigger] rev@[k]) < 10 && tail[tail.len() - 1 - k]
                    == digit_char(rev@[k] as int),
        decreases len - j,
    {
        let d = rev[len - 1 - j];
        append_digit(&mut out, d);
        proof {
            assert(tail[j as int] == digit_char(rev@[len - 1 - j] as int));
            assert(out@ =~= tail.subrange(0, j + 1));
        }
        j = j + 1;
    }
    proof {
        assert(tail.subrange(0, tail.len() as int) =~= tail);
    }
    out
}

/// The listing URL of one tab and page. The first page is the tab's bare
/// endpoint; later pages of most tabs carry a page-number parameter. The
/// chronological tab paginates by cursor instead: its second page asks for
/// the fixed offset, and deeper pages forward the stored continuation
/// pair, falling back to an offset computed from the page number when none
/// is stored. An unknown tab name falls back to the front page's endpoint.
pub open spec fn listing_url_spec(tab: Seq<char>, page: int, np: Option<(Seq<char>, Seq<char>)>)
    -> Seq<char> {
    let base = if tab == "hot"@ {
        "https://news.ycombinator.com/"@
    } else if tab == "new"@ {
        "https://news.ycombinator.com/newest"@
    } else if tab == "show"@ {
        "https://news.ycombinator.com/show"@
    } else if tab == "ask"@ {
        "https://news.ycombinator.com/ask"@
    } else if tab == "jobs"@ {
        "https://news.ycombinator.com/jobs"@
    } else if tab == "best"@ {
        "https://news.ycombinator.com/best"@
    } else {
        "https://news.ycombinator.com/"@
    };
    if page > 1 {
        if tab == "new"@ {
            if page == 2 {
                base + "?n=31"@
            } else {
                match np {
                    Some(p) => base + "?next="@ + p.0 + "&n="@ + p.1,
                    None => base + "?n="@ + dec_spec((1 + (page - 1) * 30) as nat),
                }
            }
        } else {
            base + "?p="@ + dec_spec(page as nat)
        }
    } else {
        base
    }
}

/// Builds the listing URL for a tab and page, forwarding the stored
/// continuation pair for deep pages of the chronological tab.
pub fn listing_url(tab: &str, page: usize, np: Option<&(String, String)>) -> (u: String)
    requires
        30 * page <= u64::MAX,
    ensures
        u@ == listing_url_spec(
            tab@,
            page as int,
            match np {
                Some(p) => Some((p.0@, p.1@)),
                None => None,
            },
        ),
{
    let mut u = String::new();
    let is_new = str_eq(tab, "new");
    if str_eq(tab, "hot") {
        u.append("https://news.ycombinator.com/");
    } else if is_new {
        u.append("https://news.ycombinator.com/newest");
    } else if str_eq(tab, "show") {
        u.append("https://news.ycombinator.com/show");
    } else if str_eq(tab, "ask") {
        u.append("https://news.ycombinator.com/ask");
    } else if str_eq(tab, "jobs") {
        u.append("https://news.ycombinator.com/jobs");
    } else if str_eq(tab, "best") {
        u.append("https://news.ycombinator.com/best");
    } else {
        u.append("https://news.ycombinator.com/");
    }
    if page > 1 {
        if is_new {
            if page == 2 {
                u.append("?n=31");
            } else {
                match np {
                    Some(p) => {
                        u.append("?next=");
                        u.append(p.0.as_str());
                        u.append("&n=");
                        u.append(p.1.as_str());
                    },
                    None => {
                        u.append("?n=");
                        let off = (page as u64 - 1) * 30 + 1;
                        let ds = u64_to_dec(off);
                        u.append(ds.as_str());
                    },
                }
            }
        } else {
            u.append("?p=");
            let ds = u64_to_dec(page as u64);
            u.append(ds.as_str());
        }
    }
    u
}

/// The detail-page URL of one item.
pub fn item_url(item_id: &str) -> (u: String)
    ensures
        u@ == "https://news.ycombinator.com/item?id="@ + item_id@,
{
    let mut u = String::from_str("https://news.ycombinator.com/item?id=");
    u.append(item_id);
    u
}

/// The "latest comments first" URL of one item.
pub fn latest_comments_url(item_id: &str) -> (u: String)
    ensures
        u@ == "https://news.ycombinator.com/latest?id="@ + item_id@,
{
    let mut u = String::from_str("https://news.ycombinator.com/latest?id=");
    u.append(item_id);
    u
}

/// Whether a listing request may consult and populate the cache: only the
/// hot tab's first page is cached.
pub fn should_cache_listing(tab: &str, page: usize) -> (r: bool)
    ensures
        r == (tab@ == "hot"@ && page == 1),
{
    str_eq(tab, "hot") && page == 1
}

} // verus!
