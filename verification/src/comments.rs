//! The thread parser: turns detail-page markup into a flat, indentation-
//! annotated, deduplicated list of discussion nodes, and from it the
//! nested discussion forest.

use vstd::prelude::*;

verus! {

use crate::models::HackerNewsComment;
use crate::models::NodeV;
use crate::models::nodes_view;
use crate::tree::forest_wf_at;
use crate::tree::build_comments_tree;
use crate::tree::preorder;
use crate::tree::flat_fields;
use crate::tree::roots_emit;
use crate::tree::emit_ids_distinct;
use crate::tree::emit_has_id;
use crate::tree::lemma_emit_is_subsequence;
use crate::tree::lemma_subseq_ids;
use crate::text::str_eq;
use crate::text::to_chars;
use crate::text::parse_i32;
use crate::dom::ParseError;
use crate::dom::selector_ok;
use crate::dom::compile_selector;
use crate::dom::parse_document;
use crate::dom::select_all;
use crate::dom::select_first_in;
use crate::dom::attr_of;
use crate::dom::inner_html_of;
use crate::dom::decode_entities;

/// Every entry's node carries a distinct id.
pub open spec fn ids_distinct(flat: Seq<(i32, HackerNewsComment)>) -> bool {
    forall|i: int, j: int|
        0 <= i < j < flat.len() ==> (#[trigger] flat[i]).1.id@ != (#[trigger] flat[j]).1.id@
}

/// Law: whatever the level sequence, a tree whose pre-order traversal is
/// the emission of a deduplicated flat list carries each comment id on at
/// most one visited node, and every visited id comes from the list.
pub proof fn lemma_tree_ids_distinct(flat: Seq<(i32, HackerNewsComment)>, roots_v: Seq<NodeV>)
    requires
        ids_distinct(flat),
        preorder(roots_v, 0) == roots_emit(flat, 0),
    ensures
        emit_ids_distinct(preorder(roots_v, 0)),
        forall|i: int|
            0 <= i < preorder(roots_v, 0).len() ==> emit_has_id(
                flat_fields(flat),
                (#[trigger] preorder(roots_v, 0)[i]).1.id,
            ),
{
    assert(emit_ids_distinct(flat_fields(flat))) by {
        assert forall|i: int, j: int|
            0 <= i < j < flat_fields(flat).len() implies (#[trigger] flat_fields(flat)[i]).1.id
            != (#[trigger] flat_fields(flat)[j]).1.id by {
            assert(flat_fields(flat)[i].1.id == flat[i].1.id@);
            assert(flat_fields(flat)[j].1.id == flat[j].1.id@);
            assert(flat[i].1.id@ != flat[j].1.id@);
        }
    }
    lemma_emit_is_subsequence(flat);
    lemma_subseq_ids(roots_emit(flat, 0), flat_fields(flat));
}

/// Whether some entry already carries this id.
fn contains_id(flat: &Vec<(i32, HackerNewsComment)>, id: &str) -> (r: bool)
    ensures
        r == exists|k: int| 0 <= k < flat@.len() && (#[trigger] flat@[k]).1.id@ == id@,
{
    let n = flat.len();
    let mut i: usize = 0;
    while i < n
        invariant
            i <= n,
            n == flat@.len(),
            forall|k: int| 0 <= k < i ==> (#[trigger] flat@[k]).1.id@ != id@,
        decreases n - i,
    {
        if str_eq(flat[i].1.id.as_str(), id) {
            return true;
        }
        i = i + 1;
    }
    false
}

/// The preferred relative-age text of an element: the inner text of its
/// first anchor, HTML-entity-decoded; without an anchor, the element's raw
/// inner markup.
fn age_text_of(el: &scraper::ElementRef<'_>, a_sel: &scraper::Selector) -> String {
    match select_first_in(el, a_sel) {
        Some(link) => decode_entities(inner_html_of(&link).as_str()),
        None => inner_html_of(el),
    }
}

/// Builds the flat (indent level, node) list out of the comment rows, one
/// entry per distinct id: a later row carrying an id already seen is
/// dropped, so the first occurrence wins. Each node stores the level its
/// row declares (zero when the indent attribute is absent or unparsable)
/// and has no children yet. The call fails exactly when one of its fixed
/// selector patterns does not compile.
#[verifier::loop_isolation(false)]
pub fn flat_comments_from_rows<'a>(rows: &Vec<scraper::ElementRef<'a>>) -> (r: Result<
    Vec<(i32, HackerNewsComment)>,
    ParseError,
>)
    ensures
        r is Ok <==> (selector_ok(".ind"@) && selector_ok(".hnuser"@) && selector_ok(".age"@)
            && selector_ok(".commtext"@) && selector_ok("a"@)),
        r matches Ok(flat) ==> ids_distinct(flat@) && forall|i: int|
            0 <= i < flat@.len() ==> (#[trigger] flat@[i]).1.level == flat@[i].0
                && flat@[i].1.children@.len() == 0,
{
    let ind_sel = match compile_selector(".ind") {
        Ok(s) => s,
        Err(e) => {
            return Err(e);
        },
    };
    let by_sel = match compile_selector(".hnuser") {
        Ok(s) => s,
        Err(e) => {
            return Err(e);
        },
    };
    let age_sel = match compile_selector(".age") {
        Ok(s) => s,
        Err(e) => {
            return Err(e);
        },
    };
    let text_sel = match compile_selector(".commtext") {
        Ok(s) => s,
        Err(e) => {
            return Err(e);
        },
    };
    let a_sel = match compile_selector("a") {
        Ok(s) => s,
        Err(e) => {
            return Err(e);
        },
    };
    let n = rows.len();
    let mut flat: Vec<(i32, HackerNewsComment)> = Vec::new();
    let mut i: usize = 0;
    while i < n
        invariant
            i <= n,
            ids_distinct(flat@),
            forall|k: int|
                0 <= k < flat@.len() ==> (#[trigger] flat@[k]).1.level == flat@[k].0
                    && flat@[k].1.children@.len() == 0,
        decreases n - i,
    {
        let row = &rows[i];
        let id = match attr_of(row, "id") {
            Some(s) => s,
            None => String::new(),
        };
        if !contains_id(&flat, id.as_str()) {
            let level: i32 = match select_first_in(row, &ind_sel) {
                Some(e) => match attr_of(&e, "indent") {
                    Some(s) => {
                        let cs = to_chars(s.as_str());
                        match parse_i32(cs.as_slice()) {
                            Some(v) => v,
                            None => 0,
                        }
                    },
                    None => 0,
                },
                None => 0,
            };
            let by = match select_first_in(row, &by_sel) {
                Some(e) => inner_html_of(&e),
                None => String::new(),
            };
            let time_ago = match select_first_in(row, &age_sel) {
                Some(e) => age_text_of(&e, &a_sel),
                None => String::new(),
            };
            let text = match select_first_in(row, &text_sel) {
                Some(e) => inner_html_of(&e),
                None => String::new(),
            };
            let node = HackerNewsComment { id, by, text, time_ago, level, children: Vec::new() };
            flat.push((level, node));
        }
        i = i + 1;
    }
    Ok(flat)
}

/// Extracts the discussion forest from detail-page markup: a flat,
/// deduplicated (first occurrence wins), indentation-annotated node list,
/// rebuilt into nested trees. In the result every root sits at level zero
/// and each direct child's level is its parent's plus one. The call fails
/// exactly when one of its fixed selector patterns does not compile — a
/// fatal configuration error; a missing element only defaults the field
/// it would have filled.
pub fn parse_comments(html: &str) -> (r: Result<Vec<HackerNewsComment>, ParseError>)
    ensures
        r is Ok <==> (selector_ok(".comtr"@) && selector_ok(".ind"@) && selector_ok(".hnuser"@)
            && selector_ok(".age"@) && selector_ok(".commtext"@) && selector_ok("a"@)),
        r matches Ok(tree) ==> forest_wf_at(nodes_view(tree@), 0),
{
    let doc = parse_document(html);
    let row_sel = match compile_selector(".comtr") {
        Ok(s) => s,
        Err(e) => {
            return Err(e);
        },
    };
    let rows = select_all(&doc, &row_sel);
    let flat = match flat_comments_from_rows(&rows) {
        Ok(f) => f,
        Err(e) => {
            return Err(e);
        },
    };
    Ok(build_comments_tree(&flat))
}

} // verus!
