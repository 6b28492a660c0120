use std::cmp::Ordering;

use procedural_towns::utility::Date;
use procedural_towns::utility::{DAYS_PER_MONTH, DAYS_PER_YEAR, MONTHS_PER_YEAR};
use rand::rngs::StdRng;
use rand::SeedableRng;

fn date(year: u32, month: u32, day: u32) -> Date {
    let mut d = Date::default();
    d.set_year(year);
    d.set_month(month);
    d.set_day(day);
    d
}

#[test]
fn calendar_constants() {
    assert_eq!(DAYS_PER_MONTH, 30);
    assert_eq!(MONTHS_PER_YEAR, 12);
    assert_eq!(DAYS_PER_YEAR, 360);
}

#[test]
fn default_date_is_start_of_year_1000() {
    let d = Date::default();
    assert_eq!(d.get_year(), 1000);
    assert_eq!(d.get_month(), 0);
    assert_eq!(d.get_day(), 0);
    assert_eq!(d.get_day_number(), 360_000);
}

#[test]
fn setters_change_one_field() {
    let mut d = Date::default();
    d.set_day(17);
    assert_eq!((d.get_year(), d.get_month(), d.get_day()), (1000, 0, 17));
    d.set_month(11);
    assert_eq!((d.get_year(), d.get_month(), d.get_day()), (1000, 11, 17));
    d.set_year(3);
    assert_eq!((d.get_year(), d.get_month(), d.get_day()), (3, 11, 17));
    d.advance_years(40);
    assert_eq!((d.get_year(), d.get_month(), d.get_day()), (43, 11, 17));
}

#[test]
fn add_carries_from_day_to_month_to_year() {
    assert_eq!(date(1000, 11, 29) + 1, date(1001, 0, 0));
}

#[test]
fn add_examples() {
    assert_eq!(date(1000, 0, 0) + 0, date(1000, 0, 0));
    assert_eq!(date(1000, 0, 0) + 29, date(1000, 0, 29));
    assert_eq!(date(1000, 0, 0) + 30, date(1000, 1, 0));
    assert_eq!(date(1000, 0, 0) + 45, date(1000, 1, 15));
    assert_eq!(date(1000, 0, 0) + 360, date(1001, 0, 0));
    assert_eq!(date(1000, 5, 20) + 15, date(1000, 6, 5));
    assert_eq!(date(1000, 10, 10) + 60, date(1001, 0, 10));
    assert_eq!(date(1000, 11, 10) + 50, date(1001, 1, 0));
    assert_eq!(date(1000, 6, 15) + 1000, date(1003, 3, 25));
    assert_eq!(date(0, 0, 0) + 4_294_967_295, date(11_930_464, 8, 15));
}

#[test]
fn subtract_borrows_from_month_and_year() {
    assert_eq!(date(1001, 0, 0) - 1, date(1000, 11, 29));
    assert_eq!(date(1000, 1, 0) - 30, date(1000, 0, 0));
    assert_eq!(date(1000, 1, 15) - 45, date(1000, 0, 0));
    assert_eq!(date(1000, 0, 5) - 10, date(999, 11, 25));
    assert_eq!(date(1000, 3, 0) - 120, date(999, 11, 0));
    assert_eq!(date(1003, 3, 25) - 1000, date(1000, 6, 15));
    assert_eq!(date(1, 0, 0) - 360, date(0, 0, 0));
}

#[test]
fn add_then_subtract_gives_the_date_back() {
    let dates = [date(0, 0, 0), date(1000, 11, 29), date(1234, 5, 17), date(7, 0, 29)];
    let amounts = [0u32, 1, 29, 30, 31, 359, 360, 361, 719, 12_345, 1_000_000];
    for d in dates.iter() {
        for n in amounts.iter() {
            assert_eq!((*d + *n) - *n, *d);
            assert_eq!((*d + *n).get_day_number(), d.get_day_number() + *n as u64);
        }
    }
}

#[test]
fn subtract_then_add_gives_the_date_back() {
    let d = date(1500, 3, 3);
    for n in [0u32, 1, 3, 4, 93, 94, 360, 100_000].iter() {
        assert_eq!((d - *n) + *n, d);
        assert_eq!((d - *n).get_day_number() + *n as u64, d.get_day_number());
    }
}

#[test]
fn results_stay_in_range() {
    let mut d = date(10, 0, 0);
    for step in 0..2000u32 {
        d = d + (step % 97);
        assert!(d.get_day() < 30);
        assert!(d.get_month() < 12);
    }
    for step in 0..2000u32 {
        d = d - (step % 97);
        assert!(d.get_day() < 30);
        assert!(d.get_month() < 12);
    }
    assert_eq!(d, date(10, 0, 0));
}

#[test]
fn dates_are_ordered_by_year_month_day() {
    assert!(date(999, 11, 29) < date(1000, 0, 0));
    assert!(date(1000, 0, 29) < date(1000, 1, 0));
    assert!(date(1000, 1, 0) < date(1000, 1, 1));
    assert!(date(1000, 1, 1) <= date(1000, 1, 1));
    assert!(date(1000, 1, 1) >= date(1000, 1, 1));
    assert!(date(1001, 0, 0) > date(1000, 11, 29));
    assert!(!(date(1000, 5, 5) < date(1000, 5, 5)));
    assert_eq!(date(1000, 5, 5).partial_cmp(&date(1000, 5, 6)), Some(Ordering::Less));
    assert_eq!(date(1000, 5, 5).partial_cmp(&date(1000, 5, 5)), Some(Ordering::Equal));
    assert_eq!(date(1000, 6, 0).partial_cmp(&date(1000, 5, 29)), Some(Ordering::Greater));
}

#[test]
fn total_order_agrees_with_partial_order() {
    let dates = [date(1, 2, 3), date(1, 3, 2), date(2, 1, 3), date(1, 2, 4), date(0, 11, 29)];
    for a in dates.iter() {
        for b in dates.iter() {
            assert_eq!(Some(a.cmp(b)), a.partial_cmp(b));
            assert_eq!(a.cmp(b), a.get_day_number().cmp(&b.get_day_number()));
            assert_eq!(a == b, a.cmp(b) == Ordering::Equal);
        }
    }
    assert_eq!(dates.iter().max(), Some(&date(2, 1, 3)));
    assert_eq!(dates.iter().min(), Some(&date(0, 11, 29)));
}

#[test]
fn random_date_lies_in_the_year_range() {
    let mut rng = StdRng::seed_from_u64(1);
    let mut years_seen = std::collections::BTreeSet::new();
    let mut days_seen = std::collections::BTreeSet::new();
    for _ in 0..300 {
        let d = Date::random(500, 510, &mut rng);
        assert!(d.get_year() >= 500 && d.get_year() < 510);
        assert!(d.get_month() < 12);
        assert!(d.get_day() < 30);
        years_seen.insert(d.get_year());
        days_seen.insert(d.get_day());
    }
    assert!(years_seen.len() > 1);
    assert!(days_seen.len() > 1);
}

#[test]
fn random_future_lies_in_the_range_of_years() {
    let mut rng = StdRng::seed_from_u64(2);
    let today = date(1000, 4, 4);
    for _ in 0..200 {
        let d = today.random_future_years_range((2, 5), &mut rng);
        let offset = d.get_day_number() - today.get_day_number();
        assert!(offset >= 2 * 360 && offset < 5 * 360);
    }
}

#[test]
fn random_past_lies_in_the_range_of_years() {
    let mut rng = StdRng::seed_from_u64(3);
    let today = date(1000, 4, 4);
    let mut seen = std::collections::BTreeSet::new();
    for _ in 0..200 {
        let d = today.random_past_years_range((5, 40), &mut rng);
        let offset = today.get_day_number() - d.get_day_number();
        assert!(offset >= 5 * 360 && offset < 40 * 360);
        seen.insert(offset);
    }
    assert!(seen.len() > 1);
}
