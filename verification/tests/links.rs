use wiki_crawler::crawler::get_url_from_resource;
use wiki_crawler::string_processing;
use wiki_crawler::web_data_processing::{
    get_resource_from_link, link_target, links_from_matches, links_helper, names_media,
    read_page, resource_from_match,
};

fn strings(items: &[&str]) -> Vec<String> {
    items.iter().map(|s| s.to_string()).collect()
}

#[test]
fn web_data_processing_test_get_links_helper() {
    let result = links_helper("[[test]]");
    let expected = Vec::from(["test"]);
    assert!((0..std::cmp::max(result.len(), expected.len())).all(|i| &result[i] == expected[i]));

    // multiple
    let result = links_helper("[[test]] [[ ]]");

    assert_eq!(result, Vec::<String>::from(["test".to_string(), " ".to_string()]));

    // should not take files, and should not take second half of [[first|second]]
    let result = links_helper("[[test]] [[File:something.jpg]] [[ | ]]");

    assert_eq!(result, Vec::<String>::from(["test".to_string(), " ".to_string()]));
}

#[test]
fn string_processing_test_get_links_helper() {
    let result = string_processing::links_helper("[[test]]");
    let expected = Vec::from(["test"]);
    assert!((0..std::cmp::max(result.len(), expected.len())).all(|i| &result[i] == expected[i]));

    // multiple
    let result = string_processing::links_helper("[[test]] [[ ]]");

    assert_eq!(result, Vec::<String>::from(["test".to_string(), " ".to_string()]));

    let result = string_processing::links_helper("[[test]] [[ ]] [[ | ]]");

    assert_eq!(
        result,
        Vec::<String>::from(["test".to_string(), " ".to_string(), " ".to_string()])
    );
}

#[test]
fn links_drop_files_and_display_text() {
    assert_eq!(links_helper("[[A]] [[B|C]] [[File:x.png]]"), strings(&["A", "B"]));
}

#[test]
fn links_are_the_same_on_every_call() {
    let page = "[[A]] [[B|C]] [[File:x.png]] text [[D]]";
    assert_eq!(links_helper(page), links_helper(page));
    assert_eq!(links_helper(page), strings(&["A", "B", "D"]));
}

#[test]
fn links_keep_order_and_repetitions() {
    assert_eq!(links_helper("[[B]] x [[A]] y [[B]]"), strings(&["B", "A", "B"]));
}

#[test]
fn links_of_a_page_without_markers() {
    assert_eq!(links_helper(""), Vec::<String>::new());
    assert_eq!(links_helper("plain [text] ]] [["), Vec::<String>::new());
}

#[test]
fn link_markers_are_the_shortest_spans() {
    assert_eq!(links_helper("[[a]]b]]"), strings(&["a"]));
    assert_eq!(links_helper("[[[[a]]"), strings(&["a"]));
    assert_eq!(links_helper("[[a]][[b]]"), strings(&["a", "b"]));
}

#[test]
fn link_markers_do_not_cross_lines() {
    assert_eq!(links_helper("[[a\nb]] [[c]]"), strings(&["c"]));
}

#[test]
fn string_processing_keeps_media_targets() {
    assert_eq!(
        string_processing::links_helper("[[A]] [[File:x.png]] [[B|C]]"),
        strings(&["A", "File:x.png", "B"])
    );
}

#[test]
fn targets_of_given_markers() {
    assert_eq!(link_target("[[test]]"), "test");
    assert_eq!(link_target("[[first|second]]"), "first");
    assert_eq!(link_target("[[ | ]]"), " ");
    assert_eq!(link_target("[[a|b|c]]"), "a");
    assert_eq!(link_target("[[]]"), "");
    assert_eq!(link_target("[[[x]]]"), "[x]");
    assert_eq!(link_target("no brackets"), "no brackets");
}

#[test]
fn media_targets_begin_with_the_file_prefix() {
    assert!(names_media("File:x.png"));
    assert!(names_media("File:"));
    assert!(!names_media("file:x.png"));
    assert!(!names_media("Fil"));
    assert!(!names_media(" File:x.png"));
    assert!(!names_media(""));
}

#[test]
fn links_from_given_markers() {
    let markers = strings(&["[[A]]", "[[File:x.png]]", "[[B|C]]", "[[A]]"]);
    assert_eq!(links_from_matches(&markers), strings(&["A", "B", "A"]));
    assert_eq!(links_from_matches(&Vec::new()), Vec::<String>::new());
}

#[test]
fn resource_of_an_address() {
    assert_eq!(
        get_resource_from_link(
            "https://en.wikipedia.org/w/index.php?title=Eustace_Ingram&action=raw"
        ),
        "Eustace_Ingram"
    );
    assert_eq!(
        get_resource_from_link("https://en.wikipedia.org/w/index.php?title=Henry%20Willis&action=raw"),
        "Henry Willis"
    );
}

#[test]
fn resource_of_an_address_without_title() {
    assert_eq!(get_resource_from_link("https://en.wikipedia.org/wiki/JSON"), "");
    assert_eq!(get_resource_from_link(""), "");
    assert_eq!(get_resource_from_link("title=no_query"), "");
    assert_eq!(get_resource_from_link("https://host/w/index.php?action=raw"), "");
    assert_eq!(get_resource_from_link("https://host/w/index.php?subtitle=x&a=b"), "");
}

#[test]
fn resource_is_the_title_parameter_wherever_it_stands() {
    assert_eq!(
        get_resource_from_link("https://en.wikipedia.org/w/index.php?action=raw&title=Foo"),
        "Foo"
    );
    assert_eq!(get_resource_from_link("https://host/w/index.php?title=Last"), "Last");
    assert_eq!(get_resource_from_link("https://host/w/index.php?a=1&title=Mid&b=2"), "Mid");
    assert_eq!(get_resource_from_link("https://host/w/index.php?title=&action=raw"), "");
    assert_eq!(get_resource_from_link("https://host/w/index.php?title=A#part"), "A");
    assert_eq!(get_resource_from_link("https://host/w/index.php?title=a=b&c=d"), "a=b");
}

#[test]
fn resource_of_the_address_built_for_it_comes_back() {
    for resource in ["JSON", "Eustace_Ingram", "special:random", "Category:Music in London", ""] {
        assert_eq!(get_resource_from_link(&get_url_from_resource(resource)), resource);
    }
}

#[test]
fn resource_from_given_spans() {
    assert_eq!(resource_from_match("?title=Foo"), "Foo");
    assert_eq!(resource_from_match("&title=a%20b%20c"), "a b c");
    assert_eq!(resource_from_match("?title="), "");
    assert_eq!(resource_from_match("?title=%2"), "%2");
    assert_eq!(resource_from_match("?title=a=b"), "a=b");
    assert_eq!(resource_from_match("no equals sign"), "");
}

#[test]
fn page_is_read_by_its_final_address() {
    let (resource, links) = read_page(
        "https://en.wikipedia.org/w/index.php?title=Foo&action=raw",
        "[[B]] [[B]] [[File:f.jpg]]",
    );
    assert_eq!(resource, "Foo");
    assert_eq!(links, strings(&["B", "B"]));
}
