use block_analysis::retry::{add_jitter, backoff_ms, jitter_bound_us, Retry, RetryConfig};

/// Runs an operation as often as `Retry` asks for, without the waiting.
fn drive<T, E>(
    config: RetryConfig,
    mut op: impl FnMut() -> Result<T, E>,
    should_retry: impl Fn(&E) -> bool,
) -> Result<T, E> {
    let mut retry = Retry::new(config);
    loop {
        match op() {
            Ok(v) => return Ok(v),
            Err(e) => {
                if retry.after_error(should_retry(&e)).is_none() {
                    return Err(e);
                }
            }
        }
    }
}

#[test]
fn retries_transient_errors_then_succeeds() {
    let mut attempts = 0u32;
    let config = RetryConfig {
        max_retries: 3,
        base_delay_ms: 1,
        max_delay_ms: 5,
        jitter_permille: 0,
    };
    let out = drive(
        config,
        || {
            let n = attempts;
            attempts += 1;
            if n < 2 {
                Err("transient")
            } else {
                Ok(7u8)
            }
        },
        |_| true,
    );
    assert_eq!(out, Ok(7));
    assert_eq!(attempts, 3);
}

#[test]
fn does_not_retry_terminal_errors() {
    let mut attempts = 0u32;
    let config = RetryConfig {
        max_retries: 5,
        base_delay_ms: 1,
        max_delay_ms: 5,
        jitter_permille: 0,
    };
    let out: Result<(), &str> = drive(
        config,
        || {
            attempts += 1;
            Err("terminal")
        },
        |_| false,
    );
    assert_eq!(out, Err("terminal"));
    assert_eq!(attempts, 1);
}

#[test]
fn a_failing_operation_runs_once_more_than_it_is_retried() {
    let mut attempts = 0u32;
    let out: Result<(), &str> = drive(
        RetryConfig::default(),
        || {
            attempts += 1;
            Err("down")
        },
        |_| true,
    );
    assert_eq!(out, Err("down"));
    assert_eq!(attempts, 6);
}

#[test]
fn delays_double_up_to_the_maximum() {
    let config = RetryConfig::default();
    assert_eq!(config.max_retries, 5);
    let delays: Vec<u64> = (0..7).map(|n| backoff_ms(config, n)).collect();
    assert_eq!(delays, vec![250, 500, 1000, 2000, 4000, 8000, 10_000]);
    assert_eq!(backoff_ms(config, u32::MAX), 10_000);
    let none = RetryConfig { base_delay_ms: 0, ..config };
    assert_eq!(backoff_ms(none, 40), 0);
}

#[test]
fn jitter_is_added_in_whole_milliseconds() {
    assert_eq!(add_jitter(250, 0), 250);
    assert_eq!(add_jitter(250, 50_000), 300);
    assert_eq!(add_jitter(250, -50_000), 200);
    assert_eq!(add_jitter(250, -1), 249);
    assert_eq!(add_jitter(10, -20_000), 0);
    assert_eq!(add_jitter(u64::MAX, 1_000_000), u64::MAX);
}

#[test]
fn jitter_is_a_part_of_the_delay() {
    let config = RetryConfig::default();
    assert_eq!(jitter_bound_us(config, 250), 50_000);
    assert_eq!(jitter_bound_us(config, 10_000), 2_000_000);
    assert_eq!(jitter_bound_us(config, 0), 0);
    let wild = RetryConfig { jitter_permille: u32::MAX, ..config };
    assert_eq!(jitter_bound_us(wild, u64::MAX), u64::MAX as i128 * u32::MAX as i128);
}

#[test]
fn random_delays_stay_within_their_jitter() {
    let config = RetryConfig {
        max_retries: 1000,
        base_delay_ms: 1000,
        max_delay_ms: 1000,
        jitter_permille: 200,
    };
    let mut retry = Retry::new(config);
    let mut seen: Vec<u64> = Vec::new();
    for _ in 0..500 {
        let delay = retry.after_error(true).unwrap();
        assert!((800..=1200).contains(&delay));
        seen.push(delay);
    }
    seen.sort();
    seen.dedup();
    assert!(seen.len() > 1);
}
