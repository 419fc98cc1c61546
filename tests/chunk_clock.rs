use chrono::DateTime;
use reaper::chunk::{window, ChunkTime, TimeUnit, EPOCH};
use reaper::config::{ConfPeriod, SimpleDuration};

fn secs(text: &str) -> i64 {
    DateTime::parse_from_rfc3339(text).unwrap().timestamp()
}

#[test]
fn chunk_of_period_hours() {
    let period = ConfPeriod {
        period_length: SimpleDuration::Weeks(1),
        chunk_size: SimpleDuration::Hours(12),
    };

    let tests = [
        (
            "2020-01-01T12:00:00+00:00", // time
            "2020-01-01T12:00:00+00:00", // expected chunk start
            87659,                       // expected chunk index
        ),
        (
            "2020-01-02T12:00:00+00:00",
            "2020-01-02T12:00:00+00:00",
            87661,
        ),
        (
            "2020-01-03T12:00:00+00:00",
            "2020-01-03T12:00:00+00:00",
            87663,
        ),
        (
            "2020-01-04T12:00:00+00:00",
            "2020-01-04T12:00:00+00:00",
            87665,
        ),
    ];

    for (time, expected_chunk_start, expected_chunk_index) in tests {
        let chunk = ChunkTime::of(&period, secs(time));

        assert_eq!(chunk.start(), secs(expected_chunk_start));
        assert_eq!(chunk.index(), expected_chunk_index);
    }
}

#[test]
fn chunk_of_period_days() {
    let period = ConfPeriod {
        period_length: SimpleDuration::Days(15),
        chunk_size: SimpleDuration::Days(3),
    };

    let tests = [
        (
            "2020-01-01T12:00:00+00:00", // time
            "2019-12-30T00:00:00+00:00", // expected chunk start
            14609,                       // expected chunk index
        ),
        (
            "2020-01-02T12:00:00+00:00",
            "2020-01-02T00:00:00+00:00",
            14610,
        ),
        (
            "2020-01-03T12:00:00+00:00",
            "2020-01-02T00:00:00+00:00",
            14610,
        ),
        (
            "2020-01-04T12:00:00+00:00",
            "2020-01-02T00:00:00+00:00",
            14610,
        ),
    ];

    for (time, expected_chunk_start, expected_chunk_index) in tests {
        let chunk = ChunkTime::of(&period, secs(time));

        assert_eq!(chunk.start(), secs(expected_chunk_start));
        assert_eq!(chunk.index(), expected_chunk_index);
    }
}

#[test]
fn epoch_is_start_of_1900() {
    assert_eq!(EPOCH, secs("1900-01-01T00:00:00+00:00"));
}

#[test]
fn chunk_before_epoch_rounds_toward_zero() {
    let period = ConfPeriod {
        period_length: SimpleDuration::Days(4),
        chunk_size: SimpleDuration::Days(2),
    };
    // Three and a half days before the epoch: -3 whole days, chunk -1.
    let chunk = ChunkTime::of(&period, EPOCH - 3 * 86400 - 43200);
    assert_eq!(chunk.unit, TimeUnit::Days);
    assert_eq!(chunk.value, 2);
    assert_eq!(chunk.since_epoch, -3);
    assert_eq!(chunk.index(), -1);
    assert_eq!(chunk.start(), EPOCH - 2 * 86400);
}

#[test]
fn chunk_units_follow_the_chunk_size() {
    let period = ConfPeriod {
        period_length: SimpleDuration::Hours(2),
        chunk_size: SimpleDuration::Minutes(30),
    };
    let chunk = ChunkTime::of(&period, EPOCH + 3600 + 45 * 60 + 10);
    assert_eq!(chunk.unit, TimeUnit::Minutes);
    assert_eq!(chunk.since_epoch, 105);
    assert_eq!(chunk.index(), 3);
    assert_eq!(chunk.start(), EPOCH + 90 * 60);
}

#[test]
fn window_ends_at_reference() {
    assert_eq!(window(100, 30), (70, 100));
    assert_eq!(window(i64::MIN + 5, 5), (i64::MIN, i64::MIN + 5));
}
