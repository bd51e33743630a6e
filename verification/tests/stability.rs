use chunkah::stability::{
    calculate_stability, Stability, SECS_PER_DAY, STABILITY_LOOKBACK_DAYS, STABILITY_PERIOD_DAYS,
};

fn now_secs() -> u64 {
    std::time::SystemTime::now()
        .duration_since(std::time::UNIX_EPOCH)
        .unwrap()
        .as_secs()
}

/// The chance that a stability stands for.
fn chance(stability: Stability) -> f64 {
    match stability {
        Stability::Unstable => 0.0,
        Stability::Poisson { changes, span_secs } => {
            let span_days = span_secs as f64 / SECS_PER_DAY as f64;
            let lambda = changes as f64 / span_days;
            (-lambda * STABILITY_PERIOD_DAYS as f64).exp()
        }
        Stability::VeryStable => 0.99,
    }
}

fn assert_stability_in_range(stability: f64, min: f64, max: f64) {
    assert!(
        stability >= min && stability <= max,
        "stability {stability} not in range [{min}, {max}]"
    );
}

#[test]
fn test_calculate_stability_all_old_entries() {
    // All entries older than 1 year should return 0.99
    let now = now_secs();
    let old_time = now - (400 * SECS_PER_DAY); // 400 days ago
    let changelog_times = vec![old_time, old_time - SECS_PER_DAY];
    let buildtime = old_time;

    let stability = calculate_stability(&changelog_times, buildtime, now);
    assert_eq!(chance(stability), 0.99);
}

#[test]
fn test_calculate_stability_very_recent() {
    // Package built within 1 day should return 0.0
    let now = now_secs();
    let recent_time = now - 3600; // 1 hour ago
    let changelog_times = vec![recent_time];
    let buildtime = recent_time;

    let stability = calculate_stability(&changelog_times, buildtime, now);
    assert_eq!(chance(stability), 0.0);
}

#[test]
fn test_calculate_stability_no_changelog_uses_buildtime() {
    // No changelog entries should use buildtime as fallback
    let now = now_secs();
    let buildtime = now - (30 * SECS_PER_DAY); // 30 days ago
    let changelog_times: Vec<u64> = vec![];

    let stability = calculate_stability(&changelog_times, buildtime, now);
    // 1 change over 30 days = lambda of 1/30
    // stability = e^(-lambda * 7) = e^(-7/30) = 0.79
    assert_stability_in_range(chance(stability), 0.75, 0.85);
}

#[test]
fn test_calculate_stability_normal_case() {
    // Multiple changelog entries within lookback window
    let now = now_secs();
    // 4 changes over 100 days = lambda of 0.04
    // stability = e^(-0.04 * 7) = e^(-0.28) = 0.76
    let changelog_times = vec![
        now - (10 * SECS_PER_DAY),
        now - (30 * SECS_PER_DAY),
        now - (60 * SECS_PER_DAY),
        now - (100 * SECS_PER_DAY),
    ];
    let buildtime = now - (100 * SECS_PER_DAY);

    let stability = calculate_stability(&changelog_times, buildtime, now);
    assert_stability_in_range(chance(stability), 0.70, 0.80);
}

#[test]
fn test_calculate_stability_high_frequency() {
    // Many changes in a short period = low stability
    let now = now_secs();
    // 10 changes over 20 days = lambda of 0.5
    // stability = e^(-0.5 * 7) = e^(-3.5) = 0.03
    let changelog_times: Vec<u64> = (0..10)
        .map(|i| now - ((2 + i * 2) * SECS_PER_DAY))
        .collect();
    let buildtime = now - (20 * SECS_PER_DAY);

    let stability = calculate_stability(&changelog_times, buildtime, now);
    assert_stability_in_range(chance(stability), 0.0, 0.10);
}

#[test]
fn stability_counts_changes_within_lookback() {
    let now = 1_800_000_000;
    let day = SECS_PER_DAY;
    let start = now - STABILITY_LOOKBACK_DAYS * day;

    // entries before the lookback period do not count, one at its start does
    assert_eq!(
        calculate_stability(&[now - 3 * day, start, start - 1], now, now),
        Stability::Poisson {
            changes: 2,
            span_secs: 365 * 86400
        }
    );
    // the build time counts only where there is no changelog
    assert_eq!(
        calculate_stability(&[start - 1], now - 3 * day, now),
        Stability::VeryStable
    );
    assert_eq!(
        calculate_stability(&[], now - 3 * day, now),
        Stability::Poisson {
            changes: 1,
            span_secs: 3 * 86400
        }
    );
    // one day is the shortest span
    assert_eq!(
        calculate_stability(&[now - day + 1], now, now),
        Stability::Unstable
    );
    assert_eq!(
        calculate_stability(&[now - day], now, now),
        Stability::Poisson {
            changes: 1,
            span_secs: 86400
        }
    );
    // times in the future count, and the clock may be at its beginning
    assert_eq!(
        calculate_stability(&[now + day], now, now),
        Stability::Unstable
    );
    assert_eq!(calculate_stability(&[0], 0, 0), Stability::Unstable);
    assert_eq!(
        calculate_stability(&[0], 0, day),
        Stability::Poisson {
            changes: 1,
            span_secs: 86400
        }
    );
}

#[test]
fn stability_order_is_that_of_the_chances() {
    let day = SECS_PER_DAY;
    let list = [
        Stability::Unstable,
        Stability::Poisson {
            changes: 10,
            span_secs: 2 * day,
        },
        Stability::Poisson {
            changes: 2,
            span_secs: day,
        },
        Stability::Poisson {
            changes: 4,
            span_secs: 100 * day,
        },
        Stability::Poisson {
            changes: 1,
            span_secs: 100 * day,
        },
        Stability::Poisson {
            changes: 1,
            span_secs: 365 * day,
        },
        Stability::VeryStable,
    ];
    for (i, a) in list.iter().enumerate() {
        for (j, b) in list.iter().enumerate() {
            assert_eq!(a.is_below(*b), i < j);
            assert_eq!(chance(*a) < chance(*b), i < j);
            assert_eq!(a.lower(*b), list[i.min(j)]);
            assert_eq!(a.first(*b), list[i.min(j)]);
        }
    }
}

#[test]
fn same_rate_is_same_chance() {
    let a = Stability::Poisson {
        changes: 2,
        span_secs: 200,
    };
    let b = Stability::Poisson {
        changes: 3,
        span_secs: 300,
    };
    assert!(!a.is_below(b) && !b.is_below(a));
    assert_eq!(a.lower(b), a);
    assert_eq!(b.lower(a), b);
    // of the same chances the shorter span comes first, whatever the order
    assert_eq!(a.first(b), a);
    assert_eq!(b.first(a), a);
    // the products need more than 64 bits
    let c = Stability::Poisson {
        changes: u64::MAX,
        span_secs: u64::MAX,
    };
    assert!(!a.is_below(c));
    assert!(c.is_below(a));
}
