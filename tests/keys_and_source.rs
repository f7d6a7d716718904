use concurrency_template::job_source::{generate_keys, make_random_nums, JOB_COUNT, KEY_MAX, KEY_MIN};
use concurrency_template::keys::{delay_url, format_key};

#[test]
fn format_key_three_places() {
    assert_eq!(format_key(2110), "2.110");
    assert_eq!(format_key(1802), "1.802");
    assert_eq!(format_key(2003), "2.003");
}

#[test]
fn format_key_edges() {
    assert_eq!(format_key(0), "0.000");
    assert_eq!(format_key(7), "0.007");
    assert_eq!(format_key(12345), "12.345");
    assert_eq!(format_key(-5), "-0.005");
    assert_eq!(format_key(-1802), "-1.802");
    assert_eq!(format_key(i32::MAX), "2147483.647");
    assert_eq!(format_key(i32::MIN), "-2147483.648");
}

#[test]
fn delay_url_uses_key_seconds() {
    assert_eq!(delay_url(2110), "https://httpbin.org/delay/2.110");
    assert_eq!(delay_url(1933), "https://httpbin.org/delay/1.933");
}

#[test]
fn random_nums_are_distinct_sorted_in_range() {
    for _ in 0..50 {
        let nums = make_random_nums();
        assert_eq!(nums.len(), JOB_COUNT);
        for w in nums.windows(2) {
            assert!(w[0] < w[1]);
        }
        for n in &nums {
            assert!(KEY_MIN <= *n && *n <= KEY_MAX);
        }
    }
}

#[test]
fn generate_keys_whole_range() {
    let keys = generate_keys(401, 1800, 2200);
    let expected: Vec<i32> = (1800..=2200).collect();
    assert_eq!(keys, expected);
}

#[test]
fn generate_keys_empty_and_single() {
    assert!(generate_keys(0, 1, 10).is_empty());
    assert_eq!(generate_keys(1, 5, 5), vec![5]);
    let two = generate_keys(2, -1, 0);
    assert_eq!(two, vec![-1, 0]);
}
