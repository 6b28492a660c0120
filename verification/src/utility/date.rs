use vstd::prelude::*;
use vstd::arithmetic::div_mod::lemma_fundamental_div_mod_converse;
use vstd::std_specs::cmp::PartialOrdSpecImpl;
use vstd::std_specs::ops::AddSpecImpl;
use vstd::std_specs::ops::SubSpecImpl;
use core::cmp::Ordering;
use std::ops::Add;
use std::ops::Sub;
use rand::rngs::StdRng;
use crate::random::gen_range;
use super::text::decimal;
use super::text::decimal_text;

verus! {

/// One year has 12 months of 30 days each.
pub const DAYS_PER_MONTH: u32 = 30;

pub const MONTHS_PER_YEAR: u32 = 12;

pub const DAYS_PER_YEAR: u32 = 360;

/// A day of the fixed-radix calendar. `day` counts from 0 to 29 and `month`
/// from 0 to 11; every executable value keeps both in range. Dates are
/// ordered by year, then month, then day.
#[derive(Clone, Copy, Debug, PartialEq, Eq, Structural, Ord)]
pub struct Date {
    year: u32,
    month: u32,
    day: u32,
}

impl Date {
    /// The range condition that every executable `Date` satisfies.
    #[verifier::type_invariant]
    pub closed spec fn valid(self) -> bool {
        self.month < MONTHS_PER_YEAR && self.day < DAYS_PER_MONTH
    }

    pub closed spec fn year(self) -> nat {
        self.year as nat
    }

    pub closed spec fn month(self) -> nat {
        self.month as nat
    }

    pub closed spec fn day(self) -> nat {
        self.day as nat
    }

    /// Days elapsed since day 0 of month 0 of year 0.
    pub open spec fn day_number(self) -> int {
        (self.year() * 360 + self.month() * 30 + self.day()) as int
    }

    /// The date that lies `n` days after day 0 of month 0 of year 0.
    pub closed spec fn of_day_number(n: int) -> Date {
        Date { year: (n / 360) as u32, month: ((n % 360) / 30) as u32, day: (n % 30) as u32 }
    }

    /// Day 0 of month 0 of the year 1000, the date that a new value holds.
    pub closed spec fn start() -> Date {
        Date { year: 1000, month: 0, day: 0 }
    }

    /// Whether `self` lies strictly before `other`: by year, then month, then
    /// day.
    pub open spec fn precedes(self, other: Date) -> bool {
        self.year() < other.year() || (self.year() == other.year() && (self.month() < other.month()
            || (self.month() == other.month() && self.day() < other.day())))
    }

    /// Whether `self` is `other` or lies before it.
    pub open spec fn not_after(self, other: Date) -> bool {
        !other.precedes(self)
    }

    /// The day numbers that a `Date` can hold: the year must fit in 32 bits.
    pub open spec fn representable(n: int) -> bool {
        0 <= n < 360 * 0x1_0000_0000
    }

    /// The date `n` days after `self`.
    pub open spec fn days_after(self, n: u32) -> Date {
        Date::of_day_number(self.day_number() + n)
    }

    /// The date `n` days before `self`.
    pub open spec fn days_before(self, n: u32) -> Date {
        Date::of_day_number(self.day_number() - n)
    }

    /// A date in range is the date of its own day number.
    pub proof fn lemma_of_day_number(self)
        requires
            self.valid(),
        ensures
            Date::of_day_number(self.day_number()) == self,
    {
        let k = self.day_number();
        let y = self.year as int;
        let r = self.month as int * 30 + self.day as int;
        assert(k == 360 * y + r && 0 <= r < 360);
        assert(k / 360 == y && k % 360 == r) by {
            lemma_fundamental_div_mod_converse(k, 360, y, r);
        }
        assert(r / 30 == self.month as int && r % 30 == self.day as int) by {
            lemma_fundamental_div_mod_converse(r, 30, self.month as int, self.day as int);
        }
        assert(k % 30 == self.day as int) by {
            lemma_fundamental_div_mod_converse(k, 30, 12 * y + self.month as int, self.day as int);
        }
    }

    /// The date of a representable day number is in range and has that day
    /// number.
    pub proof fn lemma_day_number_of(n: int)
        requires
            Date::representable(n),
        ensures
            Date::of_day_number(n).valid(),
            Date::of_day_number(n).day_number() == n,
            Date::of_day_number(n).year() == n / 360,
            Date::of_day_number(n).month() == (n % 360) / 30,
            Date::of_day_number(n).day() == n % 30,
    {
        let r = n % 360;
        assert(n == 360 * (n / 360) + r && 0 <= r < 360);
        assert(r == 30 * (r / 30) + r % 30);
        assert(n % 30 == r % 30) by {
            lemma_fundamental_div_mod_converse(n, 30, 12 * (n / 360) + r / 30, r % 30);
        }
    }

    /// Two dates in range with the same day number are the same date.
    pub proof fn lemma_day_number_injective(self, other: Date)
        requires
            self.valid(),
            other.valid(),
            self.day_number() == other.day_number(),
        ensures
            self == other,
    {
        self.lemma_of_day_number();
        other.lemma_of_day_number();
    }

    /// Two dates with the same year, month and day are the same date.
    pub proof fn lemma_same_fields(self, other: Date)
        requires
            self.year() == other.year(),
            self.month() == other.month(),
            self.day() == other.day(),
        ensures
            self == other,
    {
    }

    /// A date in range with a greater day number comes later.
    pub proof fn lemma_later(self, other: Date)
        requires
            self.valid(),
            other.valid(),
            self.day_number() <= other.day_number(),
        ensures
            self.not_after(other),
    {
    }

    /// Of two dates one lies before the other, or they are the same date.
    pub proof fn lemma_order_total(self, other: Date)
        ensures
            self.precedes(other) || other.precedes(self) || self == other,
            !(self.precedes(other) && other.precedes(self)),
            !self.precedes(self),
    {
    }

    /// What is not after a day is not after a later day.
    pub proof fn lemma_order_transitive(first: Date, second: Date, third: Date)
        requires
            first.not_after(second),
            second.not_after(third),
        ensures
            first.not_after(third),
    {
    }

    /// On dates in range, the order by year, month and day is the order of
    /// the day numbers.
    pub proof fn lemma_precedes_by_day_number(self, other: Date)
        requires
            self.valid(),
            other.valid(),
        ensures
            self.precedes(other) <==> self.day_number() < other.day_number(),
    {
    }

    pub fn get_day(&self) -> (r: u32)
        ensures
            r == self.day(),
            r < DAYS_PER_MONTH,
    {
        proof {
            use_type_invariant(self);
        }
        self.day
    }

    pub fn get_month(&self) -> (r: u32)
        ensures
            r == self.month(),
            r < MONTHS_PER_YEAR,
    {
        proof {
            use_type_invariant(self);
        }
        self.month
    }

    pub fn get_year(&self) -> (r: u32)
        ensures
            r == self.year(),
    {
        self.year
    }

    /// Days elapsed since day 0 of month 0 of year 0.
    pub fn get_day_number(&self) -> (r: u64)
        ensures
            r == self.day_number(),
            Date::representable(r as int),
    {
        proof {
            use_type_invariant(self);
        }
        (self.year as u64) * 360 + (self.month as u64) * 30 + (self.day as u64)
    }

    /// The date as text: the year, the month and the day, the last two
    /// counted from one, with hyphens between them.
    pub open spec fn text(self) -> Seq<char> {
        decimal(self.year()) + "-"@ + decimal(self.month() + 1) + "-"@ + decimal(self.day() + 1)
    }

    /// The date as text.
    pub fn to_string(&self) -> (r: String)
        ensures
            r@ == self.text(),
    {
        proof {
            use_type_invariant(self);
        }
        let mut text = decimal_text(self.year as u64);
        text.append("-");
        text.append(decimal_text(self.month as u64 + 1).as_str());
        text.append("-");
        text.append(decimal_text(self.day as u64 + 1).as_str());
        text
    }

    /// A date with a uniformly drawn day and month and a year drawn from the
    /// half-open range from `min_year` to `max_year`.
    pub fn random(min_year: u32, max_year: u32, rng: &mut StdRng) -> (r: Date)
        requires
            min_year < max_year,
        ensures
            r.valid(),
            min_year <= r.year() < max_year,
    {
        let day: u32 = gen_range(rng, 0, DAYS_PER_MONTH);
        let month: u32 = gen_range(rng, 0, MONTHS_PER_YEAR);
        let year: u32 = gen_range(rng, min_year, max_year);
        Date { year, month, day }
    }

    /// The date that lies a drawn number of days after `self`: at least
    /// `range.0` years and less than `range.1` years, of 360 days each.
    pub fn random_future_years_range(&self, range: (u32, u32), rng: &mut StdRng) -> (r: Date)
        requires
            range.0 < range.1,
            range.1 * 360 <= u32::MAX,
            Date::representable(self.day_number() + range.1 * 360 - 1),
        ensures
            r.valid(),
            self.day_number() + range.0 * 360 <= r.day_number() < self.day_number() + range.1 * 360,
    {
        proof {
            use_type_invariant(self);
        }
        let offset: u32 = gen_range(rng, range.0 * DAYS_PER_YEAR, range.1 * DAYS_PER_YEAR);
        proof {
            Date::lemma_day_number_of(self.day_number() + offset);
        }
        *self + offset
    }

    /// The date that lies a drawn number of days before `self`: at least
    /// `range.0` years and less than `range.1` years, of 360 days each.
    pub fn random_past_years_range(&self, range: (u32, u32), rng: &mut StdRng) -> (r: Date)
        requires
            range.0 < range.1,
            range.1 * 360 <= u32::MAX,
            range.1 * 360 <= self.day_number() + 1,
        ensures
            r.valid(),
            self.day_number() - range.1 * 360 < r.day_number() <= self.day_number() - range.0 * 360,
    {
        proof {
            use_type_invariant(self);
        }
        let offset: u32 = gen_range(rng, range.0 * DAYS_PER_YEAR, range.1 * DAYS_PER_YEAR);
        proof {
            Date::lemma_day_number_of(self.day_number() - offset);
        }
        *self - offset
    }

    pub fn set_day(&mut self, day: u32)
        requires
            day < DAYS_PER_MONTH,
        ensures
            final(self).day() == day,
            final(self).month() == old(self).month(),
            final(self).year() == old(self).year(),
    {
        proof {
            use_type_invariant(&*self);
        }
        self.day = day;
    }

    pub fn set_month(&mut self, month: u32)
        requires
            month < MONTHS_PER_YEAR,
        ensures
            final(self).month() == month,
            final(self).day() == old(self).day(),
            final(self).year() == old(self).year(),
    {
        proof {
            use_type_invariant(&*self);
        }
        self.month = month;
    }

    pub fn set_year(&mut self, year: u32)
        ensures
            final(self).year() == year,
            final(self).month() == old(self).month(),
            final(self).day() == old(self).day(),
    {
        proof {
            use_type_invariant(&*self);
        }
        self.year = year;
    }

    pub fn advance_years(&mut self, years: u32)
        requires
            old(self).year() + years <= u32::MAX,
        ensures
            final(self).year() == old(self).year() + years,
            final(self).month() == old(self).month(),
            final(self).day() == old(self).day(),
    {
        proof {
            use_type_invariant(&*self);
        }
        self.year += years;
    }
}

impl Default for Date {
    /// Day 0 of month 0 of the year 1000.
    fn default() -> (r: Date)
        ensures
            r == Date::start(),
            r.valid(),
            r.year() == 1000,
            r.month() == 0,
            r.day() == 0,
    {
        Date { year: 1000, month: 0, day: 0 }
    }
}

impl AddSpecImpl<u32> for Date {
    open spec fn obeys_add_spec() -> bool {
        true
    }

    /// The year of the result must fit in 32 bits.
    open spec fn add_req(self, rhs: u32) -> bool {
        Date::representable(self.day_number() + rhs)
    }

    open spec fn add_spec(self, rhs: u32) -> Date {
        self.days_after(rhs)
    }
}

impl Add<u32> for Date {
    type Output = Date;

    /// The date `day_amount` days after `self`. The amount is split into
    /// whole years, whole months and remaining days, which are added with
    /// carry from day to month and from month to year.
    fn add(self, day_amount: u32) -> (r: Date)
        ensures
            r.valid(),
            r.day_number() == self.day_number() + day_amount,
    {
        proof {
            use_type_invariant(self);
        }
        let mut year: u32 = self.year;
        let mut month: u32 = self.month;
        let mut day: u32 = self.day;
        let days_left: u32 = day_amount % DAYS_PER_YEAR;
        let additional_months: u32 = days_left / DAYS_PER_MONTH;
        let additional_days: u32 = days_left % DAYS_PER_MONTH;
        proof {
            assert(day_amount == 360 * (day_amount / 360) + days_left);
            assert(days_left == 30 * additional_months + additional_days);
        }
        if day_amount >= DAYS_PER_YEAR {
            year += day_amount / DAYS_PER_YEAR;
        }
        if additional_months > 0 {
            if month + additional_months < MONTHS_PER_YEAR {
                month += additional_months;
            } else {
                assert((month + additional_months) % 12 == month + additional_months - 12);
                month = (month + additional_months) % MONTHS_PER_YEAR;
                year += 1;
            }
        }
        assert(year * 360 + month * 30 + day + additional_days == self.day_number() + day_amount);
        if additional_days > 0 {
            if day + additional_days < DAYS_PER_MONTH {
                day += additional_days;
            } else {
                assert((day + additional_days) % 30 == day + additional_days - 30);
                day = (day + additional_days) % DAYS_PER_MONTH;
                month += 1;
                if month == MONTHS_PER_YEAR {
                    month = 0;
                    year += 1;
                }
            }
        }
        let r = Date { year, month, day };
        proof {
            assert(r.day_number() == self.day_number() + day_amount);
            r.lemma_of_day_number();
        }
        r
    }
}

impl SubSpecImpl<u32> for Date {
    open spec fn obeys_sub_spec() -> bool {
        true
    }

    /// The result must not lie before day 0 of month 0 of year 0.
    open spec fn sub_req(self, rhs: u32) -> bool {
        rhs <= self.day_number()
    }

    open spec fn sub_spec(self, rhs: u32) -> Date {
        self.days_before(rhs)
    }
}

impl Sub<u32> for Date {
    type Output = Date;

    /// The date `day_amount` days before `self`. The amount is split as in
    /// the addition, and subtracted with borrow from month to day and from
    /// year to month.
    fn sub(self, day_amount: u32) -> (r: Date)
        ensures
            r.valid(),
            r.day_number() == self.day_number() - day_amount,
    {
        proof {
            use_type_invariant(self);
        }
        let mut year: u32 = self.year;
        let mut month: u32 = self.month;
        let mut day: u32 = self.day;
        let days_left: u32 = day_amount % DAYS_PER_YEAR;
        let additional_months: u32 = days_left / DAYS_PER_MONTH;
        let additional_days: u32 = days_left % DAYS_PER_MONTH;
        proof {
            assert(day_amount == 360 * (day_amount / 360) + 30 * additional_months
                + additional_days);
        }
        if day_amount >= DAYS_PER_YEAR {
            year -= day_amount / DAYS_PER_YEAR;
        }
        if additional_months > 0 {
            if month >= additional_months {
                month -= additional_months;
            } else {
                let diff: u32 = additional_months - month;
                month = MONTHS_PER_YEAR - diff;
                year -= 1;
            }
        }
        if additional_days > 0 {
            if day >= additional_days {
                day -= additional_days;
            } else {
                let diff: u32 = additional_days - day;
                day = DAYS_PER_MONTH - diff;
                if month > 0 {
                    month -= 1;
                } else {
                    month = MONTHS_PER_YEAR - 1;
                    year -= 1;
                }
            }
        }
        let r = Date { year, month, day };
        proof {
            assert(r.day_number() == self.day_number() - day_amount);
            r.lemma_of_day_number();
        }
        r
    }
}

impl PartialOrdSpecImpl for Date {
    open spec fn obeys_partial_cmp_spec() -> bool {
        true
    }

    open spec fn partial_cmp_spec(&self, other: &Date) -> Option<Ordering> {
        if self.precedes(*other) {
            Some(Ordering::Less)
        } else if other.precedes(*self) {
            Some(Ordering::Greater)
        } else {
            Some(Ordering::Equal)
        }
    }
}

impl PartialOrd for Date {
    fn partial_cmp(&self, other: &Date) -> (r: Option<Ordering>) {
        if self.year < other.year {
            Some(Ordering::Less)
        } else if self.year > other.year {
            Some(Ordering::Greater)
        } else {
            if self.month < other.month {
                Some(Ordering::Less)
            } else if self.month > other.month {
                Some(Ordering::Greater)
            } else {
                if self.day < other.day {
                    Some(Ordering::Less)
                } else if self.day > other.day {
                    Some(Ordering::Greater)
                } else {
                    Some(Ordering::Equal)
                }
            }
        }
    }
}

/// Adding a number of days to a date and subtracting it again gives the date
/// back, wherever the sum can be held.
pub proof fn lemma_add_then_subtract(d: Date, n: u32)
    requires
        d.valid(),
        Date::representable(d.day_number() + n),
    ensures
        n <= d.days_after(n).day_number(),
        d.days_after(n).days_before(n) == d,
{
    Date::lemma_day_number_of(d.day_number() + n);
    d.lemma_of_day_number();
}

/// Subtracting a number of days from a date and adding it again gives the
/// date back, wherever the difference is a date.
pub proof fn lemma_subtract_then_add(d: Date, n: u32)
    requires
        d.valid(),
        n <= d.day_number(),
    ensures
        Date::representable(d.days_before(n).day_number() + n),
        d.days_before(n).days_after(n) == d,
{
    Date::lemma_day_number_of(d.day_number() - n);
    d.lemma_of_day_number();
}

} // verus!
