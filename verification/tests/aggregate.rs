use reckon_nifs::aggregate::{aggregation_stats, count_where};

#[test]
fn count_where_counts_matching_events() {
    // field 1 = status, value 10 = "paid", 11 = "open"
    let events = vec![
        Some(vec![(1, 10), (2, 5)]),
        Some(vec![(1, 11)]),
        None,
        Some(vec![(2, 10), (1, 10)]),
        Some(vec![]),
    ];
    assert_eq!(count_where(&events, 1, 10), 2);
    assert_eq!(count_where(&events, 1, 11), 1);
    assert_eq!(count_where(&events, 2, 10), 1);
    assert_eq!(count_where(&events, 3, 10), 0);
    assert_eq!(count_where(&[], 1, 10), 0);
}

#[test]
fn stats_count_events_and_distinct_fields() {
    let events = vec![Some(vec![1, 2]), None, Some(vec![2, 3, 1]), Some(vec![]), None];
    let s = aggregation_stats(&events);
    assert_eq!(s.total_events, 5);
    assert_eq!(s.events_with_data, 3);
    assert_eq!(s.unique_fields, 3);
    let empty = aggregation_stats(&[]);
    assert_eq!(empty.total_events, 0);
    assert_eq!(empty.events_with_data, 0);
    assert_eq!(empty.unique_fields, 0);
}
