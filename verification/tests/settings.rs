use wiki_crawler::settings::{agrees, parse_wait, read_arguments, Plan};

fn strings(items: &[&str]) -> Vec<String> {
    items.iter().map(|s| s.to_string()).collect()
}

/// The kind of plan, the delay bound and the origin.
fn told(plan: Plan) -> (&'static str, u64, String) {
    match plan {
        Plan::Run { settings } => ("run", settings.wait_ms, settings.origin),
        Plan::Confirm { settings } => ("confirm", settings.wait_ms, settings.origin),
        Plan::Reject => ("reject", 0, String::new()),
    }
}

#[test]
fn numbers_read_as_u64_reads_them() {
    let samples = [
        "0",
        "7",
        "007",
        "5000",
        "+5",
        "+",
        "",
        "-1",
        "-0",
        "++1",
        "1+",
        "12a",
        "a12",
        " 12",
        "12 ",
        "1_000",
        "١٢",
        "18446744073709551615",
        "18446744073709551616",
        "+18446744073709551615",
        "99999999999999999999999",
        "000000000000000000000000001",
        "special:random",
    ];
    for sample in samples {
        assert_eq!(parse_wait(sample), sample.parse::<u64>().ok(), "reading {:?}", sample);
    }
}

#[test]
fn numbers_have_their_value() {
    assert_eq!(parse_wait("10000"), Some(10000));
    assert_eq!(parse_wait("18446744073709551615"), Some(u64::MAX));
    assert_eq!(parse_wait("18446744073709551616"), None);
}

#[test]
fn no_arguments_give_the_defaults() {
    assert_eq!(told(read_arguments(&strings(&[]))), ("run", 10000, "special:random".to_string()));
    assert_eq!(
        told(read_arguments(&strings(&["crawler"]))),
        ("run", 10000, "special:random".to_string())
    );
}

#[test]
fn one_argument_is_the_delay_or_the_origin() {
    assert_eq!(
        told(read_arguments(&strings(&["crawler", "7000"]))),
        ("run", 7000, "special:random".to_string())
    );
    assert_eq!(
        told(read_arguments(&strings(&["crawler", "JSON"]))),
        ("run", 10000, "JSON".to_string())
    );
}

#[test]
fn two_arguments_come_in_either_order() {
    assert_eq!(
        told(read_arguments(&strings(&["crawler", "7000", "JSON"]))),
        ("run", 7000, "JSON".to_string())
    );
    assert_eq!(
        told(read_arguments(&strings(&["crawler", "JSON", "7000"]))),
        ("run", 7000, "JSON".to_string())
    );
    assert_eq!(
        told(read_arguments(&strings(&["crawler", "1", "2", "ignored"]))),
        ("confirm", 1, "2".to_string())
    );
}

#[test]
fn two_arguments_without_a_number_are_rejected() {
    assert_eq!(told(read_arguments(&strings(&["crawler", "JSON", "XML"]))).0, "reject");
}

#[test]
fn short_delay_has_to_be_confirmed() {
    assert_eq!(
        told(read_arguments(&strings(&["crawler", "4999"]))),
        ("confirm", 4999, "special:random".to_string())
    );
    assert_eq!(
        told(read_arguments(&strings(&["crawler", "5000"]))),
        ("run", 5000, "special:random".to_string())
    );
    assert_eq!(
        told(read_arguments(&strings(&["crawler", "JSON", "0"]))),
        ("confirm", 0, "JSON".to_string())
    );
}

#[test]
fn only_a_bare_y_agrees() {
    assert!(agrees("y"));
    assert!(!agrees("y\n"));
    assert!(!agrees("Y"));
    assert!(!agrees("yes"));
    assert!(!agrees(""));
    assert!(!agrees("n"));
}
