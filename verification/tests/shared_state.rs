use os_exercises::counter::{add_share, push_arrival, sort_ascending};
use os_exercises::messages::{collect_step, producer_message, sort_messages, take_ticket, text_before};

#[test]
fn shares_add_up() {
    let mut counter = 0usize;
    for _ in 0..10 {
        add_share(&mut counter, 100);
    }
    assert_eq!(counter, 1000);
    let mut zero = 0usize;
    for _ in 0..5 {
        add_share(&mut zero, 0);
    }
    assert_eq!(zero, 0);
}

#[test]
fn arrivals_record_their_positions() {
    let mut collector = Vec::new();
    for _ in 0..5 {
        push_arrival(&mut collector);
    }
    assert_eq!(collector, vec![0, 1, 2, 3, 4]);
    sort_ascending(&mut collector);
    assert_eq!(collector, vec![0, 1, 2, 3, 4]);
}

#[test]
fn sort_ascending_orders_values() {
    let mut v = vec![4usize, 1, 3, 1, 0, 9];
    sort_ascending(&mut v);
    assert_eq!(v, vec![0, 1, 1, 3, 4, 9]);
    let mut empty: Vec<usize> = Vec::new();
    sort_ascending(&mut empty);
    assert!(empty.is_empty());
}

#[test]
fn tickets_count_up() {
    let mut counter = 0usize;
    assert_eq!(take_ticket(&mut counter), 0);
    assert_eq!(take_ticket(&mut counter), 1);
    assert_eq!(take_ticket(&mut counter), 2);
    assert_eq!(counter, 3);
}

#[test]
fn messages_name_their_producer() {
    assert_eq!(producer_message(0), "msg from 0");
    assert_eq!(producer_message(7), "msg from 7");
    assert_eq!(producer_message(10), "msg from 10");
    assert_eq!(producer_message(305), "msg from 305");
    assert_eq!(producer_message(usize::MAX), format!("msg from {}", usize::MAX));
}

#[test]
fn collect_step_appends_until_closed() {
    let mut got = Vec::new();
    assert!(collect_step(&mut got, Some("hello".to_string())));
    assert!(collect_step(&mut got, Some("world".to_string())));
    assert!(!collect_step(&mut got, None));
    assert_eq!(got, vec!["hello".to_string(), "world".to_string()]);
}

#[test]
fn text_order_is_lexicographic() {
    assert!(text_before("msg from 0", "msg from 1"));
    assert!(!text_before("msg from 1", "msg from 0"));
    assert!(text_before("msg from 10", "msg from 2"));
    assert!(text_before("ab", "abc"));
    assert!(!text_before("abc", "abc"));
    assert!(!text_before("", ""));
}

#[test]
fn messages_sort_lexicographically() {
    let mut msgs = vec![
        "msg from 2".to_string(),
        "msg from 0".to_string(),
        "msg from 10".to_string(),
        "msg from 1".to_string(),
    ];
    sort_messages(&mut msgs);
    assert_eq!(
        msgs,
        vec![
            "msg from 0".to_string(),
            "msg from 1".to_string(),
            "msg from 10".to_string(),
            "msg from 2".to_string(),
        ]
    );
}
