use wiki_crawler::entry::{entry_text_of, sorted_unique, split_lines};
use wiki_crawler::text::{
    chars_of, has_prefix, matches_at, order_of, replace_all, string_of, take_before, Order,
};

fn strings(items: &[&str]) -> Vec<String> {
    items.iter().map(|s| s.to_string()).collect()
}

fn chars(s: &str) -> Vec<char> {
    s.chars().collect()
}

fn sorted_by_std(items: &[&str]) -> Vec<String> {
    let mut sorted = strings(items);
    sorted.sort();
    sorted.dedup();
    sorted
}

fn lines_by_std(text: &str) -> Vec<String> {
    text.lines().map(|line| line.to_string()).collect()
}

#[test]
fn sorted_unique_sorts_and_drops_repetitions() {
    assert_eq!(sorted_unique(&strings(&["b", "a", "b"])), strings(&["a", "b"]));
    assert_eq!(sorted_unique(&strings(&["B", "B"])), strings(&["B"]));
    assert_eq!(sorted_unique(&Vec::new()), Vec::<String>::new());
    assert_eq!(sorted_unique(&strings(&["x"])), strings(&["x"]));
}

#[test]
fn sorted_unique_orders_by_code_point() {
    assert_eq!(
        sorted_unique(&strings(&["é", "z", "Z", "a", "10", "9", ""])),
        strings(&["", "10", "9", "Z", "a", "z", "é"])
    );
    assert_eq!(sorted_unique(&strings(&["ab", "a", "abc", "b"])), strings(&["a", "ab", "abc", "b"]));
}

#[test]
fn sorted_unique_agrees_with_sort_and_dedup() {
    let samples: [&[&str]; 6] = [
        &["London", "Henry Willis", "George Holdich", "Gray and Davison", "London"],
        &["Category:1839 births", "Category:1924 deaths", "Category:British pipe organ builders"],
        &["b", "B", "a", "A", "ä", "Ä", "𝔘", "z", "~", " "],
        &["same", "same", "same"],
        &["c", "b", "a"],
        &["a b", "a", "a\tb", "a-b", "a_b", "aB", "ab"],
    ];
    for sample in samples {
        assert_eq!(sorted_unique(&strings(sample)), sorted_by_std(sample));
    }
}

#[test]
fn sorted_unique_is_strictly_ascending() {
    let lines = sorted_unique(&strings(&["q", "a", "m", "a", "z", "m", "b"]));
    for pair in lines.windows(2) {
        assert!(pair[0] < pair[1]);
    }
    assert_eq!(lines.len(), 5);
}

#[test]
fn entry_text_ends_each_line() {
    assert_eq!(entry_text_of(&strings(&["B"])), "B\n");
    assert_eq!(entry_text_of(&strings(&["a", "b"])), "a\nb\n");
    assert_eq!(entry_text_of(&Vec::new()), "");
    assert_eq!(entry_text_of(&strings(&[""])), "\n");
}

#[test]
fn split_lines_of_an_entry() {
    assert_eq!(split_lines("B\n"), strings(&["B"]));
    assert_eq!(split_lines("a\nb\n"), strings(&["a", "b"]));
    assert_eq!(split_lines(""), Vec::<String>::new());
}

#[test]
fn split_lines_agrees_with_str_lines() {
    let samples = [
        "",
        "\n",
        "a",
        "a\n",
        "a\nb",
        "a\n\nb\n",
        "a\r\nb",
        "a\r\nb\r\n",
        "a\r",
        "a\rb\r\n",
        "\r\n",
        "\r",
        "\n\n",
        "a\r\r\n",
        "Henry Willis\nLondon\n",
        "é\n𝔘\r\n",
    ];
    for sample in samples {
        assert_eq!(split_lines(sample), lines_by_std(sample), "lines of {:?}", sample);
    }
}

#[test]
fn entry_lines_come_back_as_they_went_in() {
    let lines = sorted_unique(&strings(&["London", "Henry Willis", "London", "Category:Music"]));
    assert_eq!(split_lines(&entry_text_of(&lines)), lines);
}

#[test]
fn line_with_carriage_return_comes_back_without_it() {
    let lines = sorted_unique(&strings(&["a\r", "a"]));
    assert_eq!(lines, strings(&["a", "a\r"]));
    assert_eq!(split_lines(&entry_text_of(&lines)), strings(&["a", "a"]));
}

#[test]
fn characters_and_strings_convert_both_ways() {
    assert_eq!(chars_of("aé𝔘"), vec!['a', 'é', '𝔘']);
    assert_eq!(chars_of(""), Vec::<char>::new());
    assert_eq!(string_of(&vec!['a', 'é', '𝔘']), "aé𝔘");
    assert_eq!(string_of(&Vec::new()), "");
}

#[test]
fn pattern_is_found_where_it_stands() {
    let text = chars("[[ab]]");
    assert!(matches_at(&text, 0, &chars("[[")));
    assert!(matches_at(&text, 4, &chars("]]")));
    assert!(!matches_at(&text, 1, &chars("[[")));
    assert!(!matches_at(&text, 5, &chars("]]")));
    assert!(!matches_at(&text, 7, &chars("]")));
    assert!(matches_at(&text, 6, &chars("")));
    assert!(has_prefix(&text, &chars("[[a")));
    assert!(!has_prefix(&text, &chars("[a")));
}

#[test]
fn text_before_the_first_stop() {
    assert_eq!(take_before(&chars("a|b|c"), '|'), chars("a"));
    assert_eq!(take_before(&chars("abc"), '|'), chars("abc"));
    assert_eq!(take_before(&chars("|abc"), '|'), chars(""));
    assert_eq!(take_before(&chars(""), '|'), chars(""));
}

#[test]
fn replacement_agrees_with_str_replace() {
    let cases = [
        ("a%20b%20c", "%20", " "),
        ("[[[[a]]", "[[", ""),
        ("aaa", "aa", "b"),
        ("abab", "ab", "ba"),
        ("%2%20", "%20", " "),
        ("", "x", "y"),
        ("abc", "abcd", "x"),
        ("xxx", "x", "xx"),
    ];
    for (text, pat, with) in cases {
        assert_eq!(
            string_of(&replace_all(&chars(text), &chars(pat), &chars(with))),
            text.replace(pat, with)
        );
    }
}

#[test]
fn replacement_of_the_empty_pattern_changes_nothing() {
    assert_eq!(replace_all(&chars("abc"), &chars(""), &chars("x")), chars("abc"));
}

#[test]
fn order_of_character_sequences() {
    assert_eq!(order_of(&chars("a"), &chars("b")), Order::Before);
    assert_eq!(order_of(&chars("b"), &chars("a")), Order::After);
    assert_eq!(order_of(&chars("a"), &chars("a")), Order::Same);
    assert_eq!(order_of(&chars(""), &chars("")), Order::Same);
    assert_eq!(order_of(&chars(""), &chars("a")), Order::Before);
    assert_eq!(order_of(&chars("ab"), &chars("a")), Order::After);
    assert_eq!(order_of(&chars("Z"), &chars("a")), Order::Before);
    assert_eq!(order_of(&chars("z"), &chars("é")), Order::Before);
}
