//! The season of a calendar day.
use chrono::Datelike;
use vstd::prelude::*;

verus! {

#[derive(Debug, Clone, Copy, PartialEq, Eq, Structural)]
pub enum Season {
    Spring,
    Summer,
    Autumn,
    Winter,
}

/// `(m1, d1)` comes no later than `(m2, d2)` in the calendar order of (month, day) pairs.
pub open spec fn day_le(m1: u32, d1: u32, m2: u32, d2: u32) -> bool {
    m1 < m2 || (m1 == m2 && d1 <= d2)
}

/// `(month, day)` lies in the inclusive range from `(m1, d1)` to `(m2, d2)`.
pub open spec fn day_in(month: u32, day: u32, m1: u32, d1: u32, m2: u32, d2: u32) -> bool {
    day_le(m1, d1, month, day) && day_le(month, day, m2, d2)
}

/// The season of a day: winter up to March 20, spring up to June 21, summer up to
/// September 22, autumn up to December 21 and winter again to the end of the year. Pairs
/// outside January 1 to December 31 have none.
pub open spec fn season_on(month: u32, day: u32) -> Option<Season> {
    if day_in(month, day, 1, 1, 3, 20) {
        Some(Season::Winter)
    } else if day_in(month, day, 3, 21, 6, 21) {
        Some(Season::Spring)
    } else if day_in(month, day, 6, 22, 9, 22) {
        Some(Season::Summer)
    } else if day_in(month, day, 9, 23, 12, 21) {
        Some(Season::Autumn)
    } else if day_in(month, day, 12, 22, 12, 31) {
        Some(Season::Winter)
    } else {
        None
    }
}

fn day_le_exec(m1: u32, d1: u32, m2: u32, d2: u32) -> (r: bool)
    ensures
        r == day_le(m1, d1, m2, d2),
{
    m1 < m2 || (m1 == m2 && d1 <= d2)
}

/// `chrono::Utc::now()`, read through `Datelike::month` and `Datelike::day`: the month (1 to
/// 12) and the day of the month (1 to 31) of the current date in UTC. Which date it is
/// depends on the clock.
#[verifier::external_body]
fn utc_month_day() -> (md: (u32, u32))
    ensures
        1 <= md.0 <= 12,
        1 <= md.1 <= 31,
{
    let now = chrono::Utc::now();
    (now.month(), now.day())
}

impl Season {
    /// The season of today's date in UTC; every day has one.
    pub fn current() -> (season: Option<Season>)
        ensures
            season is Some,
            exists|month: u32, day: u32| 1 <= month <= 12 && 1 <= day <= 31 && season == season_on(month, day),
    {
        let (month, day) = utc_month_day();
        proof {
            law_every_day_has_a_season(month, day);
        }
        Season::on(month, day)
    }

    /// The season on day `day` of month `month`.
    pub fn on(month: u32, day: u32) -> (season: Option<Season>)
        ensures
            season == season_on(month, day),
    {
        let md_in = |m1: u32, d1: u32, m2: u32, d2: u32| -> (r: bool)
            ensures
                r == day_in(month, day, m1, d1, m2, d2),
            { day_le_exec(m1, d1, month, day) && day_le_exec(month, day, m2, d2) };
        if md_in(1, 1, 3, 20) {
            Some(Season::Winter)
        } else if md_in(3, 21, 6, 21) {
            Some(Season::Spring)
        } else if md_in(6, 22, 9, 22) {
            Some(Season::Summer)
        } else if md_in(9, 23, 12, 21) {
            Some(Season::Autumn)
        } else if md_in(12, 22, 12, 31) {
            Some(Season::Winter)
        } else {
            None
        }
    }
}

/// Every day of the year, from January 1 to December 31 (day numbers 1 to 31 in any month),
/// has exactly one season.
pub proof fn law_every_day_has_a_season(month: u32, day: u32)
    requires
        1 <= month <= 12,
        1 <= day <= 31,
    ensures
        season_on(month, day) is Some,
{
}

/// Days outside the calendar have no season.
pub proof fn law_no_season_outside_the_year(month: u32, day: u32)
    requires
        !(day_le(1, 1, month, day) && day_le(month, day, 12, 31)),
    ensures
        season_on(month, day) is None,
{
}

} // verus!
