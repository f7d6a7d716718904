use concurrency_template::config::{concurrency_cap, verbose_logging, ConfigError};

#[test]
fn cap_reads_positive_numbers() {
    assert_eq!(concurrency_cap(Some("3")), Ok(3));
    assert_eq!(concurrency_cap(Some("10")), Ok(10));
    assert_eq!(concurrency_cap(Some("007")), Ok(7));
    assert_eq!(concurrency_cap(Some("18446744073709551615")), Ok(usize::MAX));
}

#[test]
fn cap_missing() {
    assert_eq!(concurrency_cap(None), Err(ConfigError::Missing));
}

#[test]
fn cap_not_a_number() {
    assert_eq!(concurrency_cap(Some("")), Err(ConfigError::NotANumber));
    assert_eq!(concurrency_cap(Some("abc")), Err(ConfigError::NotANumber));
    assert_eq!(concurrency_cap(Some("3x")), Err(ConfigError::NotANumber));
    assert_eq!(concurrency_cap(Some("-1")), Err(ConfigError::NotANumber));
    assert_eq!(concurrency_cap(Some(" 3")), Err(ConfigError::NotANumber));
    assert_eq!(concurrency_cap(Some("18446744073709551616")), Err(ConfigError::NotANumber));
    assert_eq!(concurrency_cap(Some("99999999999999999999999")), Err(ConfigError::NotANumber));
}

#[test]
fn cap_zero() {
    assert_eq!(concurrency_cap(Some("0")), Err(ConfigError::NotPositive));
    assert_eq!(concurrency_cap(Some("000")), Err(ConfigError::NotPositive));
}

#[test]
fn config_messages_name_the_setting() {
    assert_eq!(ConfigError::Missing.message(), "MAX_CONCURRENT_CALLS is not set");
    assert_eq!(ConfigError::NotANumber.message(), "MAX_CONCURRENT_CALLS is not a whole number");
    assert_eq!(ConfigError::NotPositive.message(), "MAX_CONCURRENT_CALLS must be at least 1");
}

#[test]
fn verbosity_setting() {
    assert!(verbose_logging(Some("debug")));
    assert!(!verbose_logging(Some("info")));
    assert!(!verbose_logging(Some("DEBUG")));
    assert!(!verbose_logging(None));
}
