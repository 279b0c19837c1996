use zdircomp::logger::{days_to_ymd, timestamp};

#[test]
fn days_become_dates() {
    assert_eq!(days_to_ymd(0), (1970, 1, 1));
    assert_eq!(days_to_ymd(1), (1970, 1, 2));
    assert_eq!(days_to_ymd(30), (1970, 1, 31));
    assert_eq!(days_to_ymd(31), (1970, 2, 1));
    assert_eq!(days_to_ymd(58), (1970, 2, 28));
    assert_eq!(days_to_ymd(59), (1970, 3, 1));
    assert_eq!(days_to_ymd(364), (1970, 12, 31));
    assert_eq!(days_to_ymd(365), (1971, 1, 1));
    assert_eq!(days_to_ymd(19723), (2024, 1, 1));
    assert_eq!(days_to_ymd(20754), (2026, 10, 28));
}

#[test]
fn leap_days_are_days() {
    assert_eq!(days_to_ymd(789), (1972, 2, 29));
    assert_eq!(days_to_ymd(790), (1972, 3, 1));
    assert_eq!(days_to_ymd(11016), (2000, 2, 29));
    assert_eq!(days_to_ymd(11017), (2000, 3, 1));
    assert_eq!(days_to_ymd(47540), (2100, 2, 28));
    assert_eq!(days_to_ymd(47541), (2100, 3, 1));
    assert_eq!(days_to_ymd(19782), (2024, 2, 29));
}

#[test]
fn days_before_1970() {
    assert_eq!(days_to_ymd(-1), (1969, 12, 31));
    assert_eq!(days_to_ymd(-365), (1969, 1, 1));
    assert_eq!(days_to_ymd(-719468), (0, 3, 1));
    assert_eq!(days_to_ymd(-719469), (0, 2, 29));
    assert_eq!(days_to_ymd(-719528), (0, 1, 1));
    assert_eq!(days_to_ymd(-719529), (-1, 12, 31));
    assert_eq!(days_to_ymd(-25567), (1900, 1, 1));
    assert_eq!(days_to_ymd(-25509), (1900, 2, 28));
    assert_eq!(days_to_ymd(-25508), (1900, 3, 1));
}

#[test]
fn every_day_follows_the_one_before() {
    let mut last = days_to_ymd(-800_000);
    for days in -799_999..200_000 {
        let date = days_to_ymd(days);
        let (y, m, d) = last;
        let leap = y % 4 == 0 && (y % 100 != 0 || y % 400 == 0);
        let length = match m {
            2 => {
                if leap {
                    29
                } else {
                    28
                }
            }
            4 | 6 | 9 | 11 => 30,
            _ => 31,
        };
        let next = if d < length {
            (y, m, d + 1)
        } else if m < 12 {
            (y, m + 1, 1)
        } else {
            (y + 1, 1, 1)
        };
        assert_eq!(date, next);
        last = date;
    }
}

#[test]
fn stamps_are_padded() {
    assert_eq!(timestamp(0, 0), "[1970-01-01 00:00:00]");
    assert_eq!(timestamp(1_700_000_000, 0), "[2023-11-14 22:13:20]");
    assert_eq!(timestamp(1_700_000_000, 3600), "[2023-11-14 23:13:20]");
    assert_eq!(timestamp(1_700_000_000, 7200), "[2023-11-15 00:13:20]");
    assert_eq!(timestamp(1_700_000_000, -28800), "[2023-11-14 14:13:20]");
    assert_eq!(timestamp(951_782_399, 0), "[2000-02-28 23:59:59]");
    assert_eq!(timestamp(951_782_400, 0), "[2000-02-29 00:00:00]");
    assert_eq!(timestamp(86399, 0), "[1970-01-01 23:59:59]");
    assert_eq!(timestamp(3661, 0), "[1970-01-01 01:01:01]");
}

#[test]
fn stamps_of_far_years() {
    assert_eq!(timestamp(253_402_300_800, 0), "[10000-01-01 00:00:00]");
    assert_eq!(timestamp(0, -62_135_596_800), "[0001-01-01 00:00:00]");
    assert_eq!(timestamp(0, -62_198_755_200), "[-001-01-01 00:00:00]");
    assert_eq!(timestamp(0, -65_000_000_000), "[-090-03-28 04:26:40]");
}

#[test]
fn day_before_1970_is_rounded_towards_zero() {
    assert_eq!(timestamp(0, -1), "[1970-01-01 23:59:59]");
    assert_eq!(timestamp(0, -86400), "[1969-12-31 00:00:00]");
    assert_eq!(timestamp(0, -86401), "[1969-12-31 23:59:59]");
    assert_eq!(timestamp(100, -3700), "[1970-01-01 23:00:00]");
}

#[test]
fn stamps_at_the_ends_of_the_range() {
    let late = timestamp(u64::MAX, i64::MAX);
    assert!(late.starts_with('[') && late.ends_with(']'));
    assert_eq!(late.len(), "[876867297373-03-07 22:35:22]".len());
    let early = timestamp(0, i64::MIN);
    assert!(early.starts_with("[-"));
}
