use wiki_crawler::crawler::{get_filepath_from_resource, get_url_from_resource};

#[test]
fn test_get_url_from_resource() {
    assert_eq!(
        "https://en.wikipedia.org/w/index.php?title=resource&action=raw",
        get_url_from_resource("resource")
    );
}

#[test]
fn test_get_filepath_from_resource() {
    assert_eq!("data/resource", get_filepath_from_resource("data", "resource"));
}
