//! Device identity resolution: the layered fallback from structured-query
//! results over page text to a synthesized name, and the page-text
//! extraction it rests on.

use vstd::prelude::*;
use crate::device::{synthesize_name, synthesized_name};
use crate::ip::Ipv4;
use crate::text::opt_text;

verus! {

pub uninterp spec fn page_title_of(body: Seq<char>) -> Option<Seq<char>>;

pub uninterp spec fn page_heading_of(body: Seq<char>) -> Option<Seq<char>>;

pub uninterp spec fn page_meta_description_of(body: Seq<char>) -> Option<Seq<char>>;

/// Relies on scraper::Html::parse_document and scraper::Selector::parse with
/// the fixed selector `title`: parsing is deterministic in the document text
/// alone, and the call yields the joined text of the first title element,
/// if the document has one.
#[verifier::external_body]
fn html_title_text(body: &str) -> (r: Option<String>)
    ensures
        opt_text(r) == page_title_of(body@),
{
    let document = scraper::Html::parse_document(body);
    let selector = scraper::Selector::parse("title").unwrap();
    match document.select(&selector).next() {
        Some(element) => Some(element.text().collect::<Vec<_>>().join(" ")),
        None => None,
    }
}

/// Relies on scraper::Html::parse_document and scraper::Selector::parse with
/// the fixed selector `h1`: the call yields the joined text of the first
/// level-1 heading, if the document has one.
#[verifier::external_body]
fn html_heading_text(body: &str) -> (r: Option<String>)
    ensures
        opt_text(r) == page_heading_of(body@),
{
    let document = scraper::Html::parse_document(body);
    let selector = scraper::Selector::parse("h1").unwrap();
    match document.select(&selector).next() {
        Some(element) => Some(element.text().collect::<Vec<_>>().join(" ")),
        None => None,
    }
}

/// Relies on scraper::Html::parse_document and scraper::Selector::parse with
/// the fixed selector `meta[name='description']`: the call yields the joined
/// text of the first description metadata element, if the document has one.
#[verifier::external_body]
fn html_meta_description_text(body: &str) -> (r: Option<String>)
    ensures
        opt_text(r) == page_meta_description_of(body@),
{
    let document = scraper::Html::parse_document(body);
    let selector = scraper::Selector::parse("meta[name='description']").unwrap();
    match document.select(&selector).next() {
        Some(element) => Some(element.text().collect::<Vec<_>>().join(" ")),
        None => None,
    }
}

/// The page text tried after the title: the first heading, then the
/// description metadata, each taken only when non-empty.
pub open spec fn spec_page_text_after_title(body: Seq<char>) -> Option<Seq<char>> {
    match page_heading_of(body) {
        Some(t) => if t.len() > 0 {
            Some(t)
        } else {
            spec_page_text_meta(body)
        },
        None => spec_page_text_meta(body),
    }
}

/// The page text tried last: the description metadata, taken only when
/// non-empty.
pub open spec fn spec_page_text_meta(body: Seq<char>) -> Option<Seq<char>> {
    match page_meta_description_of(body) {
        Some(t) => if t.len() > 0 {
            Some(t)
        } else {
            None
        },
        None => None,
    }
}

/// The first usable text of a device page: document title, first level-1
/// heading, description metadata, in that order, empty texts skipped.
pub open spec fn spec_page_text(body: Seq<char>) -> Option<Seq<char>> {
    match page_title_of(body) {
        Some(t) => if t.len() > 0 {
            Some(t)
        } else {
            spec_page_text_after_title(body)
        },
        None => spec_page_text_after_title(body),
    }
}

/// Extracts the first usable text of a device web page.
pub fn first_page_text(body: &str) -> (r: Option<String>)
    ensures
        opt_text(r) == spec_page_text(body@),
        match r {
            Some(t) => t@.len() > 0,
            None => true,
        },
{
    if let Some(t) = html_title_text(body) {
        if t.unicode_len() > 0 {
            return Some(t);
        }
    }
    if let Some(t) = html_heading_text(body) {
        if t.unicode_len() > 0 {
            return Some(t);
        }
    }
    if let Some(t) = html_meta_description_text(body) {
        if t.unicode_len() > 0 {
            return Some(t);
        }
    }
    None
}

/// The model the fallback chain settles on: the structured query's model
/// when the query yielded one, else usable page text, else nothing.
pub open spec fn spec_resolved_model(
    snmp_model: Option<Seq<char>>,
    page: Option<Seq<char>>,
) -> Option<Seq<char>> {
    match snmp_model {
        Some(m) => Some(m),
        None => match page {
            Some(p) => if p.len() > 0 {
                Some(p)
            } else {
                None
            },
            None => None,
        },
    }
}

/// The name used when the structured query yielded no usable name: usable
/// page text, else the synthesized placeholder.
pub open spec fn spec_fallback_name(page: Option<Seq<char>>, ip: Ipv4) -> Seq<char> {
    match page {
        Some(p) => if p.len() > 0 {
            p
        } else {
            synthesized_name(ip)
        },
        None => synthesized_name(ip),
    }
}

/// The name the fallback chain settles on: the structured query's non-empty
/// name, else usable page text, else the synthesized placeholder.
pub open spec fn spec_resolved_name(
    snmp_name: Option<Seq<char>>,
    page: Option<Seq<char>>,
    ip: Ipv4,
) -> Seq<char> {
    match snmp_name {
        Some(nm) => if nm.len() > 0 {
            nm
        } else {
            spec_fallback_name(page, ip)
        },
        None => spec_fallback_name(page, ip),
    }
}

/// The fallback name for a host whose structured query yielded no usable
/// name.
fn fallback_name(page: Option<String>, ip: &Ipv4) -> (r: String)
    ensures
        r@ == spec_fallback_name(opt_text(page), *ip),
        r@.len() > 0,
{
    match page {
        Some(p) => {
            if p.unicode_len() > 0 {
                p
            } else {
                synthesize_name(ip)
            }
        },
        None => synthesize_name(ip),
    }
}

/// Whether the page-scrape stage should run at all: only when the
/// structured query yielded no model.
pub fn needs_page_lookup(snmp_model: &Option<String>) -> (r: bool)
    ensures
        r == (snmp_model is None),
{
    snmp_model.is_none()
}

/// Settles a host's identity from what the resolution stages returned: the
/// structured query's name and model win outright; page text fills only
/// what they left open; the synthesized placeholder is the last resort.
/// The returned name is never empty.
pub fn resolve_identity(
    snmp_name: Option<String>,
    snmp_model: Option<String>,
    page_text: Option<String>,
    ip: &Ipv4,
) -> (r: (String, Option<String>))
    ensures
        r.0@ == spec_resolved_name(opt_text(snmp_name), opt_text(page_text), *ip),
        opt_text(r.1) == spec_resolved_model(opt_text(snmp_model), opt_text(page_text)),
        r.0@.len() > 0,
{
    let model = match snmp_model {
        Some(m) => Some(m),
        None => {
            match &page_text {
                Some(p) => {
                    if p.unicode_len() > 0 {
                        Some(p.clone())
                    } else {
                        None
                    }
                },
                None => None,
            }
        },
    };
    let name = match snmp_name {
        Some(nm) => {
            if nm.unicode_len() > 0 {
                nm
            } else {
                fallback_name(page_text, ip)
            }
        },
        None => fallback_name(page_text, ip),
    };
    (name, model)
}

/// Fallback ordering: the structured query's model is never displaced by
/// page text; a usable structured name is returned as it came; page text
/// names the device only when the query named none; and the synthesized
/// placeholder appears only when no stage yielded usable text.
pub proof fn lemma_fallback_ordering(
    nm: Seq<char>,
    m: Seq<char>,
    p: Seq<char>,
    page: Option<Seq<char>>,
    ip: Ipv4,
)
    ensures
        spec_resolved_model(Some(m), page) == Some(m),
        nm.len() > 0 ==> spec_resolved_name(Some(nm), page, ip) == nm,
        p.len() > 0 ==> spec_resolved_name(None, Some(p), ip) == p,
        p.len() > 0 ==> spec_resolved_model(None, Some(p)) == Some(p),
        spec_resolved_name(None, None, ip) == synthesized_name(ip),
        spec_resolved_name(Some(Seq::<char>::empty()), None, ip) == synthesized_name(ip),
        spec_resolved_name(None, Some(Seq::<char>::empty()), ip) == synthesized_name(ip),
        spec_resolved_model(None, None) is None,
        spec_resolved_model(None, Some(Seq::<char>::empty())) is None,
{
}

} // verus!
