use editpad::clock::{civil_fields, civil_fields_of_clock};

fn is_leap(y: i64) -> bool {
    y % 4 == 0 && (y % 100 != 0 || y % 400 == 0)
}

fn month_len(y: i64, m: i64) -> i64 {
    match m {
        2 => if is_leap(y) { 29 } else { 28 },
        4 | 6 | 9 | 11 => 30,
        _ => 31,
    }
}

#[test]
fn civil_fields_walk_the_calendar_day_by_day() {
    // Count days forward from 1900-01-01 with an independent calendar and
    // compare every date up to 2200 (covers 1900, 2000 and 2100).
    let (mut y, mut m, mut d) = (1900i64, 1i64, 1i64);
    let mut days: i64 = -25567; // 1900-01-01 relative to 1970-01-01
    while y < 2200 {
        let secs = days * 86400 + 12 * 3600 + 34 * 60 + 56;
        let f = civil_fields(secs);
        assert_eq!(f, (y as u16, m as u16, d as u16, 12, 34, 56), "day {days}");
        d += 1;
        if d > month_len(y, m) {
            d = 1;
            m += 1;
            if m > 12 {
                m = 1;
                y += 1;
            }
        }
        days += 1;
    }
}

#[test]
fn civil_fields_known_instants() {
    assert_eq!(civil_fields(0), (1970, 1, 1, 0, 0, 0));
    assert_eq!(civil_fields(951782400), (2000, 2, 29, 0, 0, 0));
    assert_eq!(civil_fields(946684799), (1999, 12, 31, 23, 59, 59));
    assert_eq!(civil_fields(-1), (1969, 12, 31, 23, 59, 59));
}

#[test]
fn clock_reading_maps_to_civil_fields() {
    assert_eq!(civil_fields_of_clock(None), (1970, 1, 1, 0, 0, 0), "a clock before the epoch counts as the epoch");
    assert_eq!(civil_fields_of_clock(Some(0)), (1970, 1, 1, 0, 0, 0));
    assert_eq!(civil_fields_of_clock(Some(86400 + 3661)), (1970, 1, 2, 1, 1, 1));
    assert_eq!(civil_fields_of_clock(Some(951782400)), (2000, 2, 29, 0, 0, 0));
}
