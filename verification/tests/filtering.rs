use reckon_nifs::filter::{
    count_matches, filter_by_prefix, filter_by_regex, filter_by_suffix, filter_by_wildcard,
    has_prefix, has_suffix, is_valid_regex, match_indices, regex_match, wildcard_match,
    wildcard_to_regex, FilterError,
};

fn items(list: &[&[u8]]) -> Vec<Vec<u8>> {
    list.iter().map(|s| s.to_vec()).collect()
}

#[test]
fn wildcard_to_regex_cases() {
    assert_eq!(wildcard_to_regex(b"orders-*"), Ok("^orders-(?s:.*)$".to_string()));
    assert_eq!(wildcard_to_regex(b"a?c"), Ok("^a(?s:.)c$".to_string()));
    assert_eq!(wildcard_to_regex(b""), Ok("^$".to_string()));
    assert_eq!(
        wildcard_to_regex(b"x.y^$+{}[]\\|()"),
        Ok("^x\\.y\\^\\$\\+\\{\\}\\[\\]\\\\\\|\\(\\)$".to_string())
    );
    assert_eq!(wildcard_to_regex(b"caf\xc3\xa9*"), Ok("^caf\u{e9}(?s:.*)$".to_string()));
}

#[test]
fn wildcard_to_regex_rejects_non_utf8() {
    assert_eq!(wildcard_to_regex(&[0xff, b'*']), Err(FilterError::InvalidUtf8));
}

#[test]
fn wildcard_matching() {
    assert_eq!(wildcard_match(b"orders-123", b"orders-*"), Ok(true));
    assert_eq!(wildcard_match(b"orders-123", b"orders-???"), Ok(true));
    assert_eq!(wildcard_match(b"orders-1234", b"orders-???"), Ok(false));
    assert_eq!(wildcard_match(b"xorders-1", b"orders-*"), Ok(false));
    assert_eq!(wildcard_match(b"a.b", b"a.b"), Ok(true));
    assert_eq!(wildcard_match(b"axb", b"a.b"), Ok(false));
    assert_eq!(wildcard_match(&[0xff], b"*"), Err(FilterError::InvalidUtf8Text));
    assert_eq!(wildcard_match(b"x", &[0xff]), Err(FilterError::InvalidUtf8Pattern));
}

#[test]
fn regex_matching() {
    assert_eq!(regex_match(b"user-42", b"^user-[0-9]+$"), Ok(true));
    assert_eq!(regex_match(b"user-x", b"^user-[0-9]+$"), Ok(false));
    assert_eq!(regex_match(b"abc", b"b"), Ok(true));
    assert_eq!(regex_match(b"abc", b"("), Err(FilterError::InvalidRegex));
    assert_eq!(regex_match(&[0xc3], b"a"), Err(FilterError::InvalidUtf8Text));
    assert_eq!(regex_match(b"a", &[0xc3]), Err(FilterError::InvalidUtf8Pattern));
}

#[test]
fn filtering_by_wildcard_and_regex() {
    let list = items(&[b"orders-1", b"invoices-2", b"orders-22", &[0xff, 0xfe], b"orders-"]);
    assert_eq!(
        filter_by_wildcard(&list, b"orders-?*"),
        Ok(items(&[b"orders-1", b"orders-22"]))
    );
    assert_eq!(
        filter_by_regex(&list, b"-2"),
        Ok(items(&[b"invoices-2", b"orders-22"]))
    );
    assert_eq!(filter_by_regex(&list, b"["), Err(FilterError::InvalidRegex));
    assert_eq!(filter_by_wildcard(&list, &[0xff]), Err(FilterError::InvalidUtf8Pattern));
}

#[test]
fn prefix_and_suffix() {
    assert!(has_prefix(b"orders-1", b"orders"));
    assert!(has_prefix(b"orders-1", b""));
    assert!(!has_prefix(b"ord", b"orders"));
    assert!(has_suffix(b"orders-1", b"-1"));
    assert!(!has_suffix(b"1", b"-1"));
    let list = items(&[b"a-1", b"b-1", b"a-2", b""]);
    assert_eq!(filter_by_prefix(&list, b"a-"), items(&[b"a-1", b"a-2"]));
    assert_eq!(filter_by_suffix(&list, b"-1"), items(&[b"a-1", b"b-1"]));
    assert_eq!(filter_by_prefix(&list, b""), list);
}

#[test]
fn indices_and_counts() {
    let list = items(&[b"orders-1", b"invoices-2", &[0xff], b"orders-22"]);
    assert_eq!(match_indices(&list, b"orders-*"), Ok(vec![0, 3]));
    assert_eq!(count_matches(&list, b"orders-*"), Ok(2));
    assert_eq!(count_matches(&list, b"*"), Ok(3));
    assert_eq!(match_indices(&list, &[0xff]), Err(FilterError::InvalidUtf8Pattern));
    assert_eq!(count_matches(&[], b"*"), Ok(0));
}

#[test]
fn regex_validity() {
    assert!(is_valid_regex(b"^a+b?$"));
    assert!(!is_valid_regex(b"a(b"));
    assert!(!is_valid_regex(&[0xff]));
}

#[test]
fn indices_pick_the_filtered_items() {
    let list = items(&[b"s-1", b"x", b"s-22", &[0xfe], b"s-", b"s-3"]);
    for pattern in [&b"s-*"[..], b"s-?", b"*", b"none"] {
        let kept = filter_by_wildcard(&list, pattern).unwrap();
        let idx = match_indices(&list, pattern).unwrap();
        let picked: Vec<Vec<u8>> = idx.iter().map(|&i| list[i as usize].clone()).collect();
        assert_eq!(picked, kept);
        assert_eq!(count_matches(&list, pattern).unwrap(), kept.len() as u64);
    }
}

#[test]
fn wildcards_match_across_newlines() {
    assert_eq!(wildcard_match(b"line1\nline2", b"line1*"), Ok(true));
    assert_eq!(wildcard_match(b"a\nb", b"a?b"), Ok(true));
    assert_eq!(wildcard_match(b"a\n\nb", b"a?b"), Ok(false));
    let list = items(&[b"x\ny", b"xy", b"y"]);
    assert_eq!(count_matches(&list, b"x*"), Ok(2));
}

#[test]
fn indices_increase_and_stay_below_length() {
    let list = items(&[b"s-1", b"x", b"s-22", &[0xfe], b"s-", b"s-3", b"s-4"]);
    let idx = match_indices(&list, b"s-*").unwrap();
    assert_eq!(idx, vec![0, 2, 4, 5, 6]);
    assert!(idx.windows(2).all(|w| w[0] < w[1]));
    assert!(idx.iter().all(|&i| (i as usize) < list.len()));
    for (i, item) in list.iter().enumerate() {
        let matched = matches!(wildcard_match(item, b"s-*"), Ok(true));
        assert_eq!(idx.contains(&(i as u32)), matched);
    }
}
