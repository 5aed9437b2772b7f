use rssbot::format::format_large_msg;

fn lines(v: &[&str]) -> Vec<String> {
    v.iter().map(|s| s.to_string()).collect()
}

#[test]
fn short_lines_share_one_message() {
    let r = format_large_msg("H".to_string(), &lines(&["a", "b"]), 4096);
    assert_eq!(r, vec!["H\na\nb".to_string()]);
}

#[test]
fn no_lines_gives_the_header() {
    let r = format_large_msg("H".to_string(), &Vec::new(), 10);
    assert_eq!(r, vec!["H".to_string()]);
}

#[test]
fn header_and_long_line_within_limit() {
    let long = "a".repeat(4090);
    let r = format_large_msg("H".to_string(), &vec![long.clone()], 4096);
    assert_eq!(r, vec![format!("H\n{}", long)]);
}

#[test]
fn line_that_would_overflow_opens_a_message() {
    let long = "a".repeat(4095);
    let r = format_large_msg("H".to_string(), &vec![long.clone()], 4096);
    assert_eq!(r, vec!["H".to_string(), long]);
}

#[test]
fn exact_fit_stays() {
    // "ab" + "\n" + "cd" is 5 characters.
    let r = format_large_msg("ab".to_string(), &lines(&["cd"]), 5);
    assert_eq!(r, vec!["ab\ncd".to_string()]);
    let r = format_large_msg("ab".to_string(), &lines(&["cd"]), 4);
    assert_eq!(r, vec!["ab".to_string(), "cd".to_string()]);
}

#[test]
fn packing_keeps_order_and_limits() {
    let input = lines(&["one", "two", "three", "four", "five", "six"]);
    let r = format_large_msg("head".to_string(), &input, 10);
    assert_eq!(
        r,
        vec![
            "head\none".to_string(),
            "two\nthree".to_string(),
            "four\nfive".to_string(),
            "six".to_string()
        ]
    );
    for m in &r {
        assert!(m.chars().count() <= 10);
    }
    let joined: Vec<String> = r.iter().flat_map(|m| m.split('\n').map(|s| s.to_string())).collect();
    let mut expected = vec!["head".to_string()];
    expected.extend(input);
    assert_eq!(joined, expected);
}

#[test]
fn length_counts_characters() {
    let r = format_large_msg("é".to_string(), &lines(&["ü"]), 3);
    assert_eq!(r, vec!["é\nü".to_string()]);
}
