//! The listing parser: turns listing markup into ordered `HackerNewsItem`
//! records, one per item row, degrading each missing or malformed field to
//! its documented default rather than dropping the row.

use vstd::prelude::*;

verus! {

use crate::models::HackerNewsItem;
use crate::text::is_digit;
use crate::text::digits_val;
use crate::text::parse_i32_spec;
use crate::text::first_token_spec;
use crate::text::contains_sub;
use crate::text::match_at;
use crate::text::digit_run_end;
use crate::text::space_run_end;
use crate::text::to_chars;
use crate::text::first_token;
use crate::text::parse_i32;
use crate::text::find_sub;
use crate::text::match_window;
use crate::text::digit_run_end_at;
use crate::text::space_run_end_at;
use crate::dom::ParseError;
use crate::dom::selector_ok;
use crate::dom::compile_selector;
use crate::dom::parse_document;
use crate::dom::select_all;
use crate::dom::select_first_in;
use crate::dom::select_all_in;
use crate::dom::attr_of;
use crate::dom::inner_html_of;
use crate::dom::decode_entities;

/// The score named by a score label: the value of its first
/// white-space-delimited token, or zero when that token is missing or is
/// no `i32`.
pub open spec fn score_of_label(s: Seq<char>) -> int {
    match parse_i32_spec(first_token_spec(s)) {
        Some(v) => v,
        None => 0,
    }
}

/// Parses a score label such as "100 points".
pub fn score_from_label(label: &str) -> (r: i32)
    ensures
        r as int == score_of_label(label@),
{
    let cs = to_chars(label);
    let tok = first_token(cs.as_slice());
    match parse_i32(tok.as_slice()) {
        Some(v) => v,
        None => 0,
    }
}

/// The count pattern's tail fits at `j`: either the non-breaking-space
/// entity followed by the word "comments", or at least one white-space
/// character followed by it.
pub open spec fn count_tail_at(t: Seq<char>, j: int) -> bool {
    match_at(t, "&nbsp;comments"@, j) || (space_run_end(t, j) > j && match_at(
        t,
        "comments"@,
        space_run_end(t, j),
    ))
}

/// The bounds of the leftmost maximal digit run whose end carries the
/// count pattern's tail, scanning from `i`.
pub open spec fn count_run_from(t: Seq<char>, i: int) -> Option<(int, int)>
    decreases t.len() + 1 - i,
{
    if i < 0 || i >= t.len() {
        None
    } else if is_digit(t[i]) && (i == 0 || !is_digit(t[i - 1])) {
        if count_tail_at(t, digit_run_end(t, i)) {
            Some((i, digit_run_end(t, i)))
        } else {
            count_run_from(t, i + 1)
        }
    } else {
        count_run_from(t, i + 1)
    }
}

/// The comment count named by one link text that signals a count:
/// a "discuss"-style label counts zero; otherwise the digits before
/// "comments" count, when they fit an `i32`; failing that, the first
/// white-space-delimited token parsed as an `i32`; failing that, zero.
pub open spec fn count_of_text(t: Seq<char>) -> int {
    if contains_sub(t, "discuss"@) {
        0
    } else {
        let fallback = match parse_i32_spec(first_token_spec(t)) {
            Some(v) => v,
            None => 0,
        };
        match count_run_from(t, 0) {
            Some(run) => {
                let v = digits_val(t.subrange(run.0, run.1));
                if v <= 0x7fff_ffff {
                    v
                } else {
                    fallback
                }
            },
            None => fallback,
        }
    }
}

/// A link text that speaks of a comment count at all.
pub open spec fn count_signal(t: Seq<char>) -> bool {
    contains_sub(t, "comment"@) || contains_sub(t, "discuss"@)
}

/// The comment count named by a metadata row's link texts: the first text
/// that signals a count decides it; with none, the count is zero.
pub open spec fn count_of_links(ts: Seq<Seq<char>>, i: int) -> int
    decreases ts.len() + 1 - i,
{
    if i < 0 || i >= ts.len() {
        0
    } else if count_signal(ts[i]) {
        count_of_text(ts[i])
    } else {
        count_of_links(ts, i + 1)
    }
}

/// The views of a vector of strings.
pub open spec fn strs_view(v: Seq<String>) -> Seq<Seq<char>> {
    Seq::new(v.len(), |i: int| v[i]@)
}

/// Parses the comment count out of one link text that signals a count.
#[verifier::loop_isolation(false)]
pub fn comment_count_from_text(t: &[char]) -> (r: i32)
    ensures
        r as int == count_of_text(t@),
{
    let discuss = to_chars("discuss");
    if find_sub(t, discuss.as_slice()).is_some() {
        return 0;
    }
    let nbsp_tail = to_chars("&nbsp;comments");
    let word = to_chars("comments");
    let n = t.len();
    let mut i: usize = 0;
    while i < n
        invariant
            i <= n,
            count_run_from(t@, 0) == count_run_from(t@, i as int),
        decreases n - i,
    {
        let u = t[i] as u32;
        let starts_run = 48 <= u && u <= 57 && (i == 0 || {
            let p = t[i - 1] as u32;
            p < 48 || p > 57
        });
        if starts_run {
            let j = digit_run_end_at(t, i);
            let mut tail = false;
            if nbsp_tail.len() <= n - j && match_window(t, nbsp_tail.as_slice(), j) {
                tail = true;
            } else {
                let k = space_run_end_at(t, j);
                if k > j && word.len() <= n - k && match_window(t, word.as_slice(), k) {
                    tail = true;
                }
            }
            proof {
                if j + nbsp_tail@.len() > n {
                    assert(!match_at(t@, "&nbsp;comments"@, j as int));
                }
                if space_run_end(t@, j as int) + word@.len() > n {
                    assert(!match_at(t@, "comments"@, space_run_end(t@, j as int)));
                }
                assert(tail == count_tail_at(t@, j as int));
            }
            if tail {
                let mut run: Vec<char> = Vec::new();
                let mut k: usize = i;
                while k < j
                    invariant
                        i <= k <= j,
                        run@ == t@.subrange(i as int, k as int),
                    decreases j - k,
                {
                    run.push(t[k]);
                    proof {
                        assert(run@ =~= t@.subrange(i as int, k + 1));
                    }
                    k = k + 1;
                }
                proof {
                    crate::text::lemma_digit_run_lb(t@, i + 1);
                    assert(j > i);
                    assert(count_run_from(t@, i as int) == Some((i as int, j as int)));
                    assert forall|m: int| 0 <= m < run@.len() implies is_digit(
                        #[trigger] run@[m],
                    ) by {
                        assert(run@[m] == t@[i + m]);
                        assert(digit_run_end(t@, i + m) == digit_run_end(t@, i as int)) by {
                            lemma_digit_run_inside(t@, i as int, i + m);
                        }
                    }
                    assert(run@.len() > 0);
                    assert(run@[0] == t@[i as int]);
                    assert(run@[0] != '+' && run@[0] != '-');
                }
                match parse_i32(run.as_slice()) {
                    Some(v) => {
                        return v;
                    },
                    None => {
                        proof {
                            crate::text::lemma_digits_val_nonneg(run@);
                        }
                        let cs_tok = first_token(t);
                        match parse_i32(cs_tok.as_slice()) {
                            Some(v) => {
                                return v;
                            },
                            None => {
                                return 0;
                            },
                        }
                    },
                }
            }
        }
        i = i + 1;
    }
    let cs_tok = first_token(t);
    match parse_i32(cs_tok.as_slice()) {
        Some(v) => v,
        None => 0,
    }
}

/// Builds one listing record per item row, in row order. Each field of a
/// record degrades to its default (empty string or zero) when its element
/// is missing or malformed; a row is never dropped, and a row with no
/// metadata row at its ordinal position keeps every metadata-derived
/// field at its default. The call fails exactly when one of its fixed
/// selector patterns does not compile.
#[verifier::loop_isolation(false)]
pub fn items_from_rows<'a>(
    rows: &Vec<scraper::ElementRef<'a>>,
    subtexts: &Vec<scraper::ElementRef<'a>>,
) -> (r: Result<Vec<HackerNewsItem>, ParseError>)
    ensures
        r is Ok <==> (selector_ok(".titleline > a"@) && selector_ok(".sitestr"@) && selector_ok(
            ".hnuser"@,
        ) && selector_ok(".score"@) && selector_ok(".age"@) && selector_ok("a"@)),
        r matches Ok(items) ==> items@.len() == rows@.len() && forall|i: int|
            0 <= i < items@.len() ==> (#[trigger] items@[i])@.original_index == i,
        r matches Ok(items) ==> forall|i: int|
            subtexts@.len() <= i < items@.len() ==> (#[trigger] items@[i])@.score == 0
                && items@[i]@.comments_count == 0 && items@[i]@.by == Seq::<char>::empty()
                && items@[i]@.time_ago == Seq::<char>::empty(),
{
    let title_sel = match compile_selector(".titleline > a") {
        Ok(s) => s,
        Err(e) => {
            return Err(e);
        },
    };
    let domain_sel = match compile_selector(".sitestr") {
        Ok(s) => s,
        Err(e) => {
            return Err(e);
        },
    };
    let by_sel = match compile_selector(".hnuser") {
        Ok(s) => s,
        Err(e) => {
            return Err(e);
        },
    };
    let score_sel = match compile_selector(".score") {
        Ok(s) => s,
        Err(e) => {
            return Err(e);
        },
    };
    let age_sel = match compile_selector(".age") {
        Ok(s) => s,
        Err(e) => {
            return Err(e);
        },
    };
    let a_sel = match compile_selector("a") {
        Ok(s) => s,
        Err(e) => {
            return Err(e);
        },
    };
    let n = rows.len();
    let mut items: Vec<HackerNewsItem> = Vec::new();
    let mut i: usize = 0;
    while i < n
        invariant
            i <= n,
            items@.len() == i,
            forall|k: int| 0 <= k < i ==> (#[trigger] items@[k])@.original_index == k,
            forall|k: int|
                subtexts@.len() <= k < i ==> (#[trigger] items@[k])@.score == 0
                    && items@[k]@.comments_count == 0 && items@[k]@.by == Seq::<char>::empty()
                    && items@[k]@.time_ago == Seq::<char>::empty(),
        decreases n - i,
    {
        let row = &rows[i];
        let id = match attr_of(row, "id") {
            Some(s) => s,
            None => String::new(),
        };
        let title_el = select_first_in(row, &title_sel);
        let title = match &title_el {
            Some(e) => inner_html_of(e),
            None => String::new(),
        };
        let url = match &title_el {
            Some(e) => match attr_of(e, "href") {
                Some(u) => u,
                None => String::new(),
            },
            None => String::new(),
        };
        let domain = match select_first_in(row, &domain_sel) {
            Some(e) => inner_html_of(&e),
            None => String::new(),
        };
        let mut by = String::new();
        let mut score: i32 = 0;
        let mut time_ago = String::new();
        let mut comments_count: i32 = 0;
        if i < subtexts.len() {
            let sub = &subtexts[i];
            by = match select_first_in(sub, &by_sel) {
                Some(e) => inner_html_of(&e),
                None => String::new(),
            };
            score = match select_first_in(sub, &score_sel) {
                Some(e) => score_from_label(inner_html_of(&e).as_str()),
                None => 0,
            };
            time_ago = match select_first_in(sub, &age_sel) {
                Some(age_el) => match select_first_in(&age_el, &a_sel) {
                    Some(link) => decode_entities(inner_html_of(&link).as_str()),
                    None => inner_html_of(&age_el),
                },
                None => String::new(),
            };
            let links = select_all_in(sub, &a_sel);
            let mut texts: Vec<String> = Vec::new();
            let mut k: usize = 0;
            while k < links.len()
                invariant
                    k <= links@.len(),
                decreases links@.len() - k,
            {
                texts.push(inner_html_of(&links[k]));
                k = k + 1;
            }
            comments_count = comment_count_from_links(&texts);
        }
        let item = HackerNewsItem {
            id,
            title,
            url,
            domain,
            by,
            score,
            time_ago,
            comments_count,
            original_index: i,
        };
        items.push(item);
        i = i + 1;
    }
    Ok(items)
}

/// Extracts the ordered ranked item records from listing markup: one
/// record per item row, in document order, with `original_index` equal to
/// the row's 0-based rank. The call fails exactly when one of its fixed
/// selector patterns does not compile — a fatal configuration error; a
/// missing element only defaults the field it would have filled.
pub fn parse_stories(html: &str) -> (r: Result<Vec<HackerNewsItem>, ParseError>)
    ensures
        r is Ok <==> (selector_ok(".athing"@) && selector_ok(".subtext"@) && selector_ok(
            ".titleline > a"@,
        ) && selector_ok(".sitestr"@) && selector_ok(".hnuser"@) && selector_ok(".score"@)
            && selector_ok(".age"@) && selector_ok("a"@)),
        r matches Ok(items) ==> forall|i: int|
            0 <= i < items@.len() ==> (#[trigger] items@[i])@.original_index == i,
{
    let doc = parse_document(html);
    let story_sel = match compile_selector(".athing") {
        Ok(s) => s,
        Err(e) => {
            return Err(e);
        },
    };
    let subtext_sel = match compile_selector(".subtext") {
        Ok(s) => s,
        Err(e) => {
            return Err(e);
        },
    };
    let rows = select_all(&doc, &story_sel);
    let subtexts = select_all(&doc, &subtext_sel);
    items_from_rows(&rows, &subtexts)
}

/// Positions inside a digit run share its end.
proof fn lemma_digit_run_inside(t: Seq<char>, i: int, m: int)
    requires
        0 <= i <= m,
        digit_run_end(t, i) > m,
    ensures
        digit_run_end(t, m) == digit_run_end(t, i),
    decreases m - i,
{
    if i < m {
        lemma_digit_run_inside(t, i + 1, m);
    }
}

/// Parses the comment count out of a metadata row's link texts.
#[verifier::loop_isolation(false)]
pub fn comment_count_from_links(texts: &Vec<String>) -> (r: i32)
    ensures
        r as int == count_of_links(strs_view(texts@), 0),
{
    let comment = to_chars("comment");
    let discuss = to_chars("discuss");
    let n = texts.len();
    let mut i: usize = 0;
    while i < n
        invariant
            i <= n,
            count_of_links(strs_view(texts@), 0) == count_of_links(strs_view(texts@), i as int),
        decreases n - i,
    {
        let cs = to_chars(texts[i].as_str());
        let has_comment = find_sub(cs.as_slice(), comment.as_slice()).is_some();
        let has_discuss = find_sub(cs.as_slice(), discuss.as_slice()).is_some();
        if has_comment || has_discuss {
            proof {
                assert(strs_view(texts@)[i as int] == texts@[i as int]@);
                assert(count_signal(strs_view(texts@)[i as int]));
            }
            return comment_count_from_text(cs.as_slice());
        }
        proof {
            assert(strs_view(texts@)[i as int] == texts@[i as int]@);
        }
        i = i + 1;
    }
    0
}

} // verus!
