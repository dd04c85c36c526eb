//! The document-tree boundary: declarations of the HTML parsing crate's
//! types and thin trusted wrappers around the calls the parsers make.
//! Everything markup-shaped stays opaque here; the parsers' own logic reads
//! only plain values handed back by these wrappers.

use vstd::prelude::*;

verus! {

#[verifier::external_type_specification]
#[verifier::external_body]
pub struct ExHtml(scraper::Html);

#[verifier::external_type_specification]
#[verifier::external_body]
pub struct ExSelector(scraper::Selector);

#[verifier::external_type_specification]
#[verifier::external_body]
pub struct ExElementRef<'a>(scraper::ElementRef<'a>);

#[verifier::external_type_specification]
#[verifier::external_body]
pub struct ExSelectorErrorKind<'a>(scraper::error::SelectorErrorKind<'a>);

/// A structural failure: the selector pattern itself is malformed. This is
/// a fatal configuration error for the whole parse call, unlike a missing
/// element, which degrades to a per-field default.
#[derive(Clone, Copy, PartialEq, Eq, Structural, Debug)]
pub enum ParseError {
    BadSelector,
}

/// What scraper::Selector::parse accepts: whether the selector text
/// compiles is a function of the text alone.
pub uninterp spec fn selector_ok(s: Seq<char>) -> bool;

/// Relies on scraper::Selector::parse, which compiles a CSS selector group
/// or reports why it is malformed, deciding on the text alone.
#[verifier::external_body]
fn parse_selector<'a>(s: &'a str) -> (r: Result<
    scraper::Selector,
    scraper::error::SelectorErrorKind<'a>,
>)
    ensures
        r is Ok <==> selector_ok(s@),
{
    scraper::Selector::parse(s)
}

/// Compiles a selector pattern, mapping a malformed one to the library's
/// fatal configuration error.
pub fn compile_selector(s: &str) -> (r: Result<scraper::Selector, ParseError>)
    ensures
        r is Ok <==> selector_ok(s@),
{
    match parse_selector(s) {
        Ok(sel) => Ok(sel),
        Err(_) => Err(ParseError::BadSelector),
    }
}

/// Relies on scraper::Html::parse_document, which parses markup into a
/// document tree and does not fail hard on malformed input.
#[verifier::external_body]
pub fn parse_document(html: &str) -> scraper::Html {
    scraper::Html::parse_document(html)
}

/// Relies on scraper::Html::select, which yields the elements matching
/// the selector; collecting them converts the iterator. The crate yields
/// them in document order, though this contract states nothing of it.
#[verifier::external_body]
pub fn select_all<'a>(doc: &'a scraper::Html, sel: &scraper::Selector) -> Vec<
    scraper::ElementRef<'a>,
> {
    doc.select(sel).collect()
}

/// Relies on scraper::ElementRef::select, which yields the descendant
/// elements matching the selector; collecting them converts the iterator.
/// The crate yields them in document order, though this contract states
/// nothing of it.
#[verifier::external_body]
pub fn select_all_in<'a>(el: &scraper::ElementRef<'a>, sel: &scraper::Selector) -> Vec<
    scraper::ElementRef<'a>,
> {
    el.select(sel).collect()
}

/// The first descendant element matching the selector, if any.
pub fn select_first_in<'a>(el: &scraper::ElementRef<'a>, sel: &scraper::Selector) -> Option<
    scraper::ElementRef<'a>,
> {
    let found = select_all_in(el, sel);
    if found.len() > 0 {
        Some(found[0])
    } else {
        None
    }
}

/// Relies on scraper::ElementRef::attr, which returns the value of the
/// named attribute if the element carries it.
#[verifier::external_body]
pub fn attr_of(el: &scraper::ElementRef<'_>, name: &str) -> Option<String> {
    el.attr(name).map(|v| v.to_string())
}

/// Relies on scraper::ElementRef::inner_html, which serializes the markup
/// of the element's children.
#[verifier::external_body]
pub fn inner_html_of(el: &scraper::ElementRef<'_>) -> String {
    el.inner_html()
}

/// What html_escape::decode_html_entities returns: a function of the text
/// alone.
pub uninterp spec fn decoded_entities(s: Seq<char>) -> Seq<char>;

/// Relies on html_escape::decode_html_entities, which replaces HTML
/// entities by the characters they stand for; the result depends on the
/// text alone.
#[verifier::external_body]
pub fn decode_entities(s: &str) -> (r: String)
    ensures
        r@ == decoded_entities(s@),
{
    html_escape::decode_html_entities(s).to_string()
}

} // verus!
