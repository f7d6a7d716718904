use concurrency_template::aggregate::{Aggregate, AggregateError};
use concurrency_template::keymap::KeyMap;
use concurrency_template::results::{add_urls_to_results, make_jobs, make_results_dict};

#[test]
fn results_dict_has_one_initial_record_per_key() {
    let dict = make_results_dict(&vec![2104, 1981, 1802, 1981]);
    assert_eq!(dict.len(), 3);
    assert_eq!(dict.key_at(0), 1802);
    assert_eq!(dict.key_at(1), 1981);
    assert_eq!(dict.key_at(2), 2104);
    let rec = dict.get(1981).unwrap();
    assert_eq!(rec.url, "foo");
    assert_eq!(rec.time_taken, "bar");
    assert_eq!(rec.amz_id, "baz");
    assert!(dict.get(2000).is_none());
}

#[test]
fn add_urls_sets_delay_urls() {
    let mut dict = make_results_dict(&vec![2110, 1802]);
    add_urls_to_results(&mut dict);
    assert_eq!(dict.get(2110).unwrap().url, "https://httpbin.org/delay/2.110");
    assert_eq!(dict.get(1802).unwrap().url, "https://httpbin.org/delay/1.802");
    assert_eq!(dict.get(1802).unwrap().amz_id, "baz");
    assert_eq!(dict.len(), 2);
}

#[test]
fn jobs_follow_key_order() {
    let mut dict = make_results_dict(&vec![2110, 1802, 1933]);
    add_urls_to_results(&mut dict);
    let jobs = make_jobs(&dict);
    let keys: Vec<i32> = jobs.iter().map(|j| j.key).collect();
    assert_eq!(keys, vec![1802, 1933, 2110]);
    assert_eq!(jobs[2].url, "https://httpbin.org/delay/2.110");
}

#[test]
fn keymap_insert_replaces() {
    let mut m: KeyMap<u8> = KeyMap::new();
    assert_eq!(m.insert(5, 1), None);
    assert_eq!(m.insert(-3, 2), None);
    assert_eq!(m.insert(5, 9), Some(1));
    assert_eq!(m.len(), 2);
    assert_eq!(m.key_at(0), -3);
    assert_eq!(*m.value_at(1), 9);
    assert!(m.contains_key(-3));
    assert!(!m.contains_key(4));
    m.set_value_at(0, 7);
    assert_eq!(m.get(-3), Some(&7));
}

#[test]
fn aggregate_refuses_duplicate_key() {
    let mut a = Aggregate::new();
    assert_eq!(a.insert(2110, "x".to_string()), Ok(()));
    assert_eq!(a.insert(2110, "y".to_string()), Err(AggregateError::DuplicateKey));
    assert_eq!(a.get(2110).unwrap(), "x");
    assert_eq!(a.len(), 1);
}

#[test]
fn snapshot_in_key_order() {
    let mut a = Aggregate::new();
    a.insert(2110, "b".to_string()).unwrap();
    a.insert(1802, "a".to_string()).unwrap();
    let pairs = a.snapshot_entries();
    assert_eq!(pairs, vec![("1.802".to_string(), "a".to_string()), ("2.110".to_string(), "b".to_string())]);
    let text = a.snapshot_text();
    assert_eq!(text, "{\n  \"1.802\": \"a\",\n  \"2.110\": \"b\"\n}");
}

#[test]
fn snapshot_order_is_numeric_not_textual() {
    let mut a = Aggregate::new();
    a.insert(10000, "ten".to_string()).unwrap();
    a.insert(9000, "nine".to_string()).unwrap();
    a.insert(-1, "minus".to_string()).unwrap();
    let text = a.snapshot_text();
    assert_eq!(text, "{\n  \"-0.001\": \"minus\",\n  \"9.000\": \"nine\",\n  \"10.000\": \"ten\"\n}");
}

#[test]
fn snapshot_of_empty_aggregate() {
    let a = Aggregate::new();
    assert_eq!(a.snapshot_text(), "{}");
}

#[test]
fn snapshot_escapes_values() {
    let mut a = Aggregate::new();
    a.insert(1, "say \"hi\"".to_string()).unwrap();
    assert_eq!(a.snapshot_text(), "{\n  \"0.001\": \"say \\\"hi\\\"\"\n}");
}

#[test]
fn insert_order_does_not_change_snapshot() {
    let pairs = [(2110, "b"), (1802, "a"), (2003, "c"), (1933, "d")];
    let orders: [[usize; 4]; 4] = [[0, 1, 2, 3], [3, 2, 1, 0], [1, 3, 0, 2], [2, 0, 3, 1]];
    let mut texts = Vec::new();
    for order in orders.iter() {
        let mut a = Aggregate::new();
        for &i in order.iter() {
            a.insert(pairs[i].0, pairs[i].1.to_string()).unwrap();
        }
        assert_eq!(a.len(), 4);
        texts.push(a.snapshot_text());
    }
    for t in &texts {
        assert_eq!(t, &texts[0]);
    }
    assert_eq!(
        texts[0],
        "{\n  \"1.802\": \"a\",\n  \"1.933\": \"d\",\n  \"2.003\": \"c\",\n  \"2.110\": \"b\"\n}"
    );
}
