//! Reading a fetched page: the links that its text holds and the identifier
//! that its address names.

use crate::patterns::{regex_accepts, regex_all_matches, regex_find, regex_find_iter,
    regex_first_match};
use crate::text::{after_first, before_first, chars_of, has_prefix, replace_all, replaced,
    starts_with, string_of, take_after, take_before, without};
use vstd::prelude::*;

verus! {

/// The pattern of a link marker: the shortest span from `[[` to `]]`.
pub open spec fn link_pattern() -> Seq<char> {
    "\\[\\[(.*?)\\]\\]"@
}

/// The pattern of the query parameter `title` in an address: `title=` behind
/// `?` or `&`, and its value up to the next `&` or `#`.
pub open spec fn title_pattern() -> Seq<char> {
    "[?&]title=([^&#]*)"@
}

/// The identifier that one link marker names: what stands before the first
/// `|`, without the brackets.
pub open spec fn target_of(marker: Seq<char>) -> Seq<char> {
    without(without(before_first(marker, '|'), "[["@), "]]"@)
}

/// Whether `target` names an embedded file and no page.
pub open spec fn is_media(target: Seq<char>) -> bool {
    starts_with(target, "File:"@)
}

/// The identifiers that the markers name, one for each, in their order.
pub open spec fn targets_of(markers: Seq<Seq<char>>) -> Seq<Seq<char>> {
    markers.map_values(|marker: Seq<char>| target_of(marker))
}

/// Those of `targets` that name pages, in their order.
pub open spec fn pages_among(targets: Seq<Seq<char>>) -> Seq<Seq<char>> {
    targets.filter(|target: Seq<char>| !is_media(target))
}

/// The identifier in a `title=...` span: what stands behind the first `=`,
/// with `%20` read as a space.
pub open spec fn title_of(span: Seq<char>) -> Seq<char> {
    replaced(after_first(span, '='), "%20"@, " "@)
}

/// Every link target of `page`, media included, in order of occurrence.
/// There are none where the regex engine rejects the link pattern.
pub open spec fn targets_in(page: Seq<char>) -> Seq<Seq<char>> {
    if regex_accepts(link_pattern()) {
        targets_of(regex_all_matches(link_pattern(), page))
    } else {
        Seq::empty()
    }
}

/// The outbound links of `page`: its link targets that name pages, in order
/// of occurrence, repetitions kept.
pub open spec fn links_in(page: Seq<char>) -> Seq<Seq<char>> {
    pages_among(targets_in(page))
}

/// The identifier that `url` names: the value of its query parameter
/// `title`, wherever that stands, with `%20` read as a space. It is empty
/// where the address has no such parameter, and where the regex engine
/// rejects the title pattern.
pub open spec fn resource_in(url: Seq<char>) -> Seq<char> {
    if regex_accepts(title_pattern()) {
        match regex_first_match(title_pattern(), url) {
            Some(span) => title_of(span),
            None => Seq::empty(),
        }
    } else {
        Seq::empty()
    }
}

/// The identifier that one link marker names.
pub fn link_target(marker: &str) -> (target: String)
    ensures
        target@ == target_of(marker@),
{
    let text = chars_of(marker);
    let open = chars_of("[[");
    let close = chars_of("]]");
    let nothing: Vec<char> = Vec::new();
    let head = take_before(&text, '|');
    let inner = replace_all(&head, &open, &nothing);
    let target = replace_all(&inner, &close, &nothing);
    string_of(&target)
}

/// Whether `target` names an embedded file.
pub fn names_media(target: &str) -> (media: bool)
    ensures
        media == is_media(target@),
{
    let text = chars_of(target);
    let prefix = chars_of("File:");
    has_prefix(&text, &prefix)
}

/// The identifiers that the link markers name, one for each.
pub fn targets_from_matches(markers: &Vec<String>) -> (targets: Vec<String>)
    ensures
        targets.deep_view() == targets_of(markers.deep_view()),
{
    let mut targets: Vec<String> = Vec::new();
    let mut i: usize = 0;
    while i < markers.len()
        invariant
            i <= markers.len(),
            targets.deep_view() == targets_of(markers.deep_view().take(i as int)),
        decreases markers.len() - i,
    {
        let target = link_target(markers[i].as_str());
        let ghost before = targets.deep_view();
        let ghost added = target@;
        targets.push(target);
        proof {
            let seen = markers.deep_view().take(i as int);
            assert(markers.deep_view().take(i + 1) =~= seen.push(markers[i as int]@));
            assert(targets_of(seen.push(markers[i as int]@)) =~= targets_of(seen).push(added));
            assert(targets.deep_view() =~= before.push(added));
        }
        i += 1;
    }
    proof {
        assert(markers.deep_view().take(markers.len() as int) =~= markers.deep_view());
    }
    targets
}

/// Keeps the targets that name pages.
pub fn pages_only(targets: Vec<String>) -> (pages: Vec<String>)
    ensures
        pages.deep_view() == pages_among(targets.deep_view()),
{
    let ghost is_page = |target: Seq<char>| !is_media(target);
    let mut pages: Vec<String> = Vec::new();
    let mut i: usize = 0;
    proof {
        assert(targets.deep_view().take(0) =~= Seq::<Seq<char>>::empty());
        assert(pages.deep_view() =~= Seq::<Seq<char>>::empty());
        Seq::<Seq<char>>::empty().lemma_filter_len(is_page);
    }
    while i < targets.len()
        invariant
            i <= targets.len(),
            is_page == (|target: Seq<char>| !is_media(target)),
            pages.deep_view() == targets.deep_view().take(i as int).filter(is_page),
        decreases targets.len() - i,
    {
        proof {
            let seen = targets.deep_view().take(i as int);
            assert(targets.deep_view().take(i + 1) =~= seen.push(targets[i as int]@));
            seen.lemma_filter_push(targets[i as int]@, is_page);
        }
        if !names_media(targets[i].as_str()) {
            let ghost before = pages.deep_view();
            pages.push(targets[i].clone());
            proof {
                assert(pages.deep_view() =~= before.push(targets[i as int]@));
            }
        }
        i += 1;
    }
    proof {
        assert(targets.deep_view().take(targets.len() as int) =~= targets.deep_view());
    }
    pages
}

/// The outbound links among the link markers of a page.
pub fn links_from_matches(markers: &Vec<String>) -> (links: Vec<String>)
    ensures
        links.deep_view() == pages_among(targets_of(markers.deep_view())),
{
    pages_only(targets_from_matches(markers))
}

/// The identifier in a `title=...` span.
pub fn resource_from_match(span: &str) -> (resource: String)
    ensures
        resource@ == title_of(span@),
{
    let text = chars_of(span);
    let value = take_after(&text, '=');
    let escaped = chars_of("%20");
    let space = chars_of(" ");
    let title = replace_all(&value, &escaped, &space);
    string_of(&title)
}

/// Every link target of the page text `page`, media included.
pub fn link_targets(page: &str) -> (targets: Vec<String>)
    ensures
        targets.deep_view() == targets_in(page@),
{
    match regex_find_iter("\\[\\[(.*?)\\]\\]", page) {
        Ok(markers) => targets_from_matches(&markers),
        Err(_) => Vec::new(),
    }
}

/// The outbound links of the page text `haystack`, in order of occurrence,
/// repetitions kept.
pub fn links_helper(haystack: &str) -> (links: Vec<String>)
    ensures
        links.deep_view() == links_in(haystack@),
{
    pages_only(link_targets(haystack))
}

/// The identifier that the address `haystack` names.
pub fn get_resource_from_link(haystack: &str) -> (resource: String)
    ensures
        resource@ == resource_in(haystack@),
{
    match regex_find("[?&]title=([^&#]*)", haystack) {
        Ok(Some(span)) => resource_from_match(span.as_str()),
        Ok(None) => String::new(),
        Err(_) => String::new(),
    }
}

/// What a fetched page gives: the identifier that its final address names
/// and its outbound links.
pub fn read_page(final_url: &str, body: &str) -> (page: (String, Vec<String>))
    ensures
        page.0@ == resource_in(final_url@),
        page.1.deep_view() == links_in(body@),
{
    (get_resource_from_link(final_url), links_helper(body))
}

} // verus!
