use reaper::config::{
    parse_simple_duration, ConfPeriod, DurationParseError, PolicyError, SimpleDuration, Tier,
};

#[test]
fn parses_each_unit() {
    assert_eq!(parse_simple_duration("24h"), Ok(SimpleDuration::Hours(24)));
    assert_eq!(parse_simple_duration("3d"), Ok(SimpleDuration::Days(3)));
    assert_eq!(parse_simple_duration("2w"), Ok(SimpleDuration::Weeks(2)));
    assert_eq!(parse_simple_duration("15m"), Ok(SimpleDuration::Minutes(15)));
    assert_eq!(parse_simple_duration("1s"), Ok(SimpleDuration::Seconds(1)));
}

#[test]
fn unit_letter_in_either_case_and_outer_space_ignored() {
    assert_eq!(parse_simple_duration("  7D\n"), Ok(SimpleDuration::Days(7)));
    assert_eq!(parse_simple_duration("\u{a0}5W"), Ok(SimpleDuration::Weeks(5)));
    assert_eq!(parse_simple_duration("+5m"), Ok(SimpleDuration::Minutes(5)));
    assert_eq!(parse_simple_duration("007s"), Ok(SimpleDuration::Seconds(7)));
}

#[test]
fn refuses_inner_whitespace() {
    assert_eq!(parse_simple_duration("3 d"), Err(DurationParseError::ContainsWhitespace));
    assert_eq!(parse_simple_duration(" 1\t2h "), Err(DurationParseError::ContainsWhitespace));
}

#[test]
fn refuses_empty() {
    assert_eq!(parse_simple_duration(""), Err(DurationParseError::Empty));
    assert_eq!(parse_simple_duration("   "), Err(DurationParseError::Empty));
}

#[test]
fn refuses_missing_unit() {
    assert_eq!(parse_simple_duration("24"), Err(DurationParseError::MissingUnit));
}

#[test]
fn refuses_bad_value() {
    assert_eq!(parse_simple_duration("h"), Err(DurationParseError::InvalidValue));
    assert_eq!(parse_simple_duration("+h"), Err(DurationParseError::InvalidValue));
    assert_eq!(parse_simple_duration("-3h"), Err(DurationParseError::InvalidValue));
    assert_eq!(parse_simple_duration("1.5h"), Err(DurationParseError::InvalidValue));
    assert_eq!(
        parse_simple_duration("18446744073709551616s"),
        Err(DurationParseError::InvalidValue)
    );
}

#[test]
fn refuses_value_beyond_i64() {
    assert_eq!(
        parse_simple_duration("9223372036854775808s"),
        Err(DurationParseError::ValueTooLarge)
    );
    assert_eq!(
        parse_simple_duration("9223372036854775807s"),
        Ok(SimpleDuration::Seconds(i64::MAX))
    );
}

#[test]
fn refuses_unknown_unit() {
    assert_eq!(parse_simple_duration("5x"), Err(DurationParseError::UnknownUnit('x')));
    assert_eq!(parse_simple_duration("5Y"), Err(DurationParseError::UnknownUnit('Y')));
}

#[test]
fn seconds_of_each_unit() {
    assert_eq!(SimpleDuration::Weeks(2).to_seconds(), Some(1_209_600));
    assert_eq!(SimpleDuration::Days(3).to_seconds(), Some(259_200));
    assert_eq!(SimpleDuration::Hours(24).to_seconds(), Some(86_400));
    assert_eq!(SimpleDuration::Minutes(15).to_seconds(), Some(900));
    assert_eq!(SimpleDuration::Seconds(-4).to_seconds(), Some(-4));
    assert_eq!(SimpleDuration::Weeks(i64::MAX / 1000).to_seconds(), None);
}

#[test]
fn tier_validation() {
    let ok = ConfPeriod { period_length: SimpleDuration::Days(8), chunk_size: SimpleDuration::Days(2) };
    assert_eq!(ok.to_tier(), Ok(Tier { period_length: 691_200, chunk_size: 172_800 }));
    assert_eq!(ok.chunk_count(), 4);

    let uneven = ConfPeriod { period_length: SimpleDuration::Hours(5), chunk_size: SimpleDuration::Hours(2) };
    assert_eq!(uneven.chunk_count(), 2);

    let zero = ConfPeriod { period_length: SimpleDuration::Days(1), chunk_size: SimpleDuration::Hours(0) };
    assert_eq!(zero.to_tier(), Err(PolicyError::ChunkNotPositive));

    let too_wide = ConfPeriod { period_length: SimpleDuration::Hours(1), chunk_size: SimpleDuration::Days(1) };
    assert_eq!(too_wide.to_tier(), Err(PolicyError::ChunkExceedsPeriod));

    let huge = ConfPeriod { period_length: SimpleDuration::Weeks(i64::MAX), chunk_size: SimpleDuration::Days(1) };
    assert_eq!(huge.to_tier(), Err(PolicyError::DurationOverflow));
}

#[test]
fn chunk_count_of_rows_not_yet_validated() {
    let wide = ConfPeriod { period_length: SimpleDuration::Hours(1), chunk_size: SimpleDuration::Days(1) };
    assert_eq!(wide.chunk_count(), 0);
    let week = ConfPeriod { period_length: SimpleDuration::Weeks(1), chunk_size: SimpleDuration::Hours(12) };
    assert_eq!(week.chunk_count(), 14);
    let days = ConfPeriod { period_length: SimpleDuration::Days(7), chunk_size: SimpleDuration::Days(2) };
    assert_eq!(days.chunk_count(), 3);
    let secs = ConfPeriod { period_length: SimpleDuration::Hours(6), chunk_size: SimpleDuration::Seconds(1) };
    assert_eq!(secs.chunk_count(), 21600);
}
