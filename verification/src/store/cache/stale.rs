//! Approved resolutions that have gone stale: superseded, or past their
//! review date.
use vstd::prelude::*;
use vstd::string::{StringExecFns, StringSliceAdditionalSpecFns};
use vstd::utf8::encode_utf8;
use super::graph::{edges_view, ids_view, Edge, EdgeView};
use super::rules::{policy_matches, produced_by_resolution, rules_for_resolution, rules_view, RulePolicy, RuleRecord, RuleView};

verus! {

/// Milliseconds in a day.
pub const MILLIS_PER_DAY: u64 = 86_400_000;

/// The reason given for a superseded resolution.
pub const SUPERSEDED_REASON: &'static str = "approved resolution was superseded";
/// The reason given for a resolution past its review date.
pub const PAST_REVIEW_REASON: &'static str = "approved resolution is past review date";

/// A stale resolution and why it is stale.
#[derive(Clone, Debug, PartialEq, Eq)]
pub struct StaleResolution {
    pub resolution_id: String,
    pub reason: String,
}

/// A day as the number of days since 1970-01-01 (negative before it).
#[derive(Clone, Copy, Debug, PartialEq, Eq, Structural)]
pub struct CalendarDay(pub i64);

/// An ASCII digit byte.
pub open spec fn digit_byte(b: u8) -> bool {
    0x30 <= b <= 0x39
}

/// Every byte of `b[start..end]` is a digit.
pub open spec fn all_digits(b: Seq<u8>, start: int, end: int) -> bool {
    forall|i: int| start <= i < end ==> digit_byte(#[trigger] b[i])
}

/// The number the digits `b[start..end]` spell.
pub open spec fn digits_value(b: Seq<u8>, start: int, end: int) -> int
    decreases end - start,
{
    if end <= start {
        0
    } else {
        digits_value(b, start, end - 1) * 10 + (b[end - 1] - 0x30)
    }
}

/// What `i64::from_str` gives for `b[start..end]`, a field that holds no
/// `-`: an optional `+` and at least one digit.
pub open spec fn field_value(b: Seq<u8>, start: int, end: int) -> Option<int> {
    let first = if start < end && b[start] == 0x2B { start + 1 } else { start };
    if first < end && all_digits(b, first, end) {
        Some(digits_value(b, first, end))
    } else {
        None
    }
}

/// Leap years of the proleptic Gregorian calendar.
pub open spec fn leap_year(year: int) -> bool {
    year % 4 == 0 && (year % 100 != 0 || year % 400 == 0)
}

/// The number of days in a month.
pub open spec fn month_length(year: int, month: int) -> int {
    if month == 2 {
        if leap_year(year) {
            29
        } else {
            28
        }
    } else if month == 4 || month == 6 || month == 9 || month == 11 {
        30
    } else {
        31
    }
}

/// Days since 1970-01-01 of a valid date.
pub open spec fn days_from_civil(year: int, month: int, day: int) -> int {
    let adjusted = year - if month <= 2 { 1int } else { 0int };
    let era = adjusted / 400;
    let year_of_era = adjusted - era * 400;
    let shifted_month = month + if month > 2 { -3int } else { 9int };
    let day_of_year = (153 * shifted_month + 2) / 5 + day - 1;
    let day_of_era = year_of_era * 365 + year_of_era / 4 - year_of_era / 100 + day_of_year;
    era * 146_097 + day_of_era - 719_468
}

/// The day a `YYYY-MM-DD` text names, when it names a valid date.
pub open spec fn parse_day(b: Seq<u8>) -> Option<int> {
    if b.len() != 10 || b[4] != 0x2D || b[7] != 0x2D {
        None
    } else {
        match (field_value(b, 0, 4), field_value(b, 5, 7), field_value(b, 8, 10)) {
            (Some(year), Some(month), Some(day)) => if 1 <= month <= 12 && 1 <= day <= month_length(year, month) {
                Some(days_from_civil(year, month, day))
            } else {
                None
            },
            _ => None,
        }
    }
}

proof fn lemma_digits_value_bound(b: Seq<u8>, start: int, end: int)
    requires
        0 <= start <= end <= b.len(),
        all_digits(b, start, end),
    ensures
        0 <= digits_value(b, start, end),
        end - start <= 4 ==> digits_value(b, start, end) < 10000,
        end - start <= 3 ==> digits_value(b, start, end) < 1000,
        end - start <= 2 ==> digits_value(b, start, end) < 100,
        end - start <= 1 ==> digits_value(b, start, end) < 10,
    decreases end - start,
{
    if end > start {
        lemma_digits_value_bound(b, start, end - 1);
    }
}

fn field(b: &[u8], start: usize, end: usize) -> (r: Option<u32>)
    requires
        start < end <= b@.len(),
        end - start <= 4,
    ensures
        match r {
            Some(v) => field_value(b@, start as int, end as int) == Some(v as int),
            None => field_value(b@, start as int, end as int) is None,
        },
{
    let first = if b[start] == 0x2B { start + 1 } else { start };
    if first >= end {
        return None;
    }
    let mut value: u32 = 0;
    let mut i = first;
    while i < end
        invariant
            start <= first <= i <= end <= b@.len(),
            first == (if b@[start as int] == 0x2B { start + 1 } else { start as int }),
            end - start <= 4,
            all_digits(b@, first as int, i as int),
            value == digits_value(b@, first as int, i as int),
        decreases end - i,
    {
        if !(0x30 <= b[i] && b[i] <= 0x39) {
            assert(!digit_byte(b@[i as int]));
            assert(!all_digits(b@, first as int, end as int));
            return None;
        }
        proof {
            lemma_digits_value_bound(b@, first as int, i as int);
        }
        value = value * 10 + (b[i] - 0x30) as u32;
        i = i + 1;
    }
    Some(value)
}

impl CalendarDay {
    /// Reads a `YYYY-MM-DD` date; any other text, or a date that does not
    /// exist, gives `None`.
    pub fn parse(value: &str) -> (r: Option<CalendarDay>)
        ensures
            match r {
                Some(day) => parse_day(value.spec_bytes()) == Some(day.0 as int),
                None => parse_day(value.spec_bytes()) is None,
            },
    {
        let b = value.as_bytes();
        if b.len() != 10 || b[4] != 0x2D || b[7] != 0x2D {
            return None;
        }
        let year = match field(b, 0, 4) {
            Some(v) => v,
            None => {
                return None;
            },
        };
        let month = match field(b, 5, 7) {
            Some(v) => v,
            None => {
                return None;
            },
        };
        let day = match field(b, 8, 10) {
            Some(v) => v,
            None => {
                return None;
            },
        };
        proof {
            let bytes = value.spec_bytes();
            let first = if bytes[0] == 0x2B { 1int } else { 0int };
            lemma_digits_value_bound(bytes, first, 4);
        }
        if month < 1 || month > 12 {
            return None;
        }
        let leap = year % 4 == 0 && (year % 100 != 0 || year % 400 == 0);
        let max_day: u32 = if month == 2 {
            if leap {
                29
            } else {
                28
            }
        } else if month == 4 || month == 6 || month == 9 || month == 11 {
            30
        } else {
            31
        };
        if day < 1 || day > max_day {
            return None;
        }
        let adjusted: i64 = year as i64 - if month <= 2 { 1 } else { 0 };
        let era: i64 = if adjusted >= 0 { adjusted / 400 } else { -1 };
        let year_of_era: i64 = adjusted - era * 400;
        let shifted_month: i64 = month as i64 + if month > 2 { -3 } else { 9 };
        let day_of_year: i64 = (153 * shifted_month + 2) / 5 + day as i64 - 1;
        let day_of_era: i64 = year_of_era * 365 + year_of_era / 4 - year_of_era / 100 + day_of_year;
        proof {
            assert(adjusted < 0 ==> adjusted / 400 == -1);
        }
        Some(CalendarDay(era * 146_097 + day_of_era - 719_468))
    }
}

/// The date after `year-month-day`.
pub open spec fn next_date(year: int, month: int, day: int) -> (int, int, int) {
    if day < month_length(year, month) {
        (year, month, day + 1)
    } else if month < 12 {
        (year, month + 1, 1)
    } else {
        (year + 1, 1, 1)
    }
}

/// Crossing from the end of February to the first of March adds one day.
proof fn lemma_february_to_march(year: int)
    requires
        0 <= year,
    ensures
        days_from_civil(year, 3, 1) == days_from_civil(year, 2, month_length(year, 2)) + 1,
{
    let a = year - 1;
    let era = a / 400;
    let yoe = a - era * 400;
    assert(0 <= yoe < 400);
    assert((153 * 11 + 2) / 5 == 337);
    assert((153 * 0 + 2) / 5 == 0);
    if yoe < 399 {
        let z = yoe + 1;
        assert(year == 400 * era + z);
        assert(year / 400 == era);
        assert(year % 4 == z % 4);
        assert(year % 100 == z % 100);
        assert(year % 400 == z);
        assert(z / 4 - yoe / 4 == if z % 4 == 0 { 1int } else { 0int });
        assert(z / 100 - yoe / 100 == if z % 100 == 0 { 1int } else { 0int });
    } else {
        assert(year == 400 * (era + 1));
        assert(year / 400 == era + 1);
        assert(year % 400 == 0);
        assert(year % 4 == 0);
        assert(399int / 4 == 99 && 399int / 100 == 3);
    }
}

/// Consecutive dates have consecutive day numbers: the day after a valid
/// date, from year 0 on, is counted one more day since 1970-01-01.
pub proof fn law_next_day_is_one_day_later(year: int, month: int, day: int)
    requires
        0 <= year,
        1 <= month <= 12,
        1 <= day <= month_length(year, month),
    ensures
        ({
            let (y, m, d) = next_date(year, month, day);
            days_from_civil(y, m, d) == days_from_civil(year, month, day) + 1
        }),
{
    if day < month_length(year, month) {
    } else if month == 2 {
        lemma_february_to_march(year);
    } else if month < 12 {
        assert((153 * 10 + 2) / 5 == 306);
        assert((153 * 11 + 2) / 5 == 337);
        assert((153 * 0 + 2) / 5 == 0);
        assert((153 * 1 + 2) / 5 == 31);
        assert((153 * 2 + 2) / 5 == 61);
        assert((153 * 3 + 2) / 5 == 92);
        assert((153 * 4 + 2) / 5 == 122);
        assert((153 * 5 + 2) / 5 == 153);
        assert((153 * 6 + 2) / 5 == 184);
        assert((153 * 7 + 2) / 5 == 214);
        assert((153 * 8 + 2) / 5 == 245);
        assert((153 * 9 + 2) / 5 == 275);
    } else {
        assert((153 * 9 + 2) / 5 == 275);
        assert((153 * 10 + 2) / 5 == 306);
    }
}

/// The year, month and day a `YYYY-MM-DD` text writes, when it names a valid
/// date.
pub open spec fn date_fields(b: Seq<u8>) -> Option<(int, int, int)> {
    if b.len() != 10 || b[4] != 0x2D || b[7] != 0x2D {
        None
    } else {
        match (field_value(b, 0, 4), field_value(b, 5, 7), field_value(b, 8, 10)) {
            (Some(year), Some(month), Some(day)) => if 1 <= month <= 12 && 1 <= day <= month_length(year, month) {
                Some((year, month, day))
            } else {
                None
            },
            _ => None,
        }
    }
}

proof fn lemma_field_nonnegative(b: Seq<u8>, start: int, end: int)
    requires
        0 <= start <= end <= b.len(),
    ensures
        field_value(b, start, end) matches Some(v) ==> v >= 0,
{
    let first = if start < end && b[start] == 0x2B { start + 1 } else { start };
    if first < end && all_digits(b, first, end) {
        lemma_digits_value_bound(b, first, end);
    }
}

/// A text names a date exactly when its fields do, and the date's day
/// number is the text's.
proof fn lemma_parse_day_fields(b: Seq<u8>)
    ensures
        parse_day(b) == (match date_fields(b) {
            Some((y, m, d)) => Some(days_from_civil(y, m, d)),
            None => None,
        }),
        date_fields(b) matches Some((y, m, d)) ==> 0 <= y && 1 <= m <= 12 && 1 <= d <= month_length(y, m),
{
    if b.len() == 10 {
        lemma_field_nonnegative(b, 0, 4);
    }
}

/// Read from text, consecutive dates have consecutive day numbers: when `a`
/// and `b` are `YYYY-MM-DD` texts of valid dates and `b` writes the day after
/// `a`, `CalendarDay::parse` gives `b` one day more than `a`.
pub proof fn law_parsed_next_day_is_one_day_later(a: Seq<u8>, b: Seq<u8>)
    requires
        date_fields(a) matches Some((y, m, d)) && date_fields(b) == Some(next_date(y, m, d)),
    ensures
        parse_day(a) is Some,
        parse_day(b) == Some(parse_day(a)->0 + 1),
{
    lemma_parse_day_fields(a);
    lemma_parse_day_fields(b);
    let (y, m, d) = date_fields(a)->0;
    law_next_day_is_one_day_later(y, m, d);
}

/// Whether a resolution approved at `approved_at` (milliseconds since the
/// epoch) is at least `min_age_days` whole days old at `now`. With no
/// minimum every resolution is; without a usable approval time none is.
pub open spec fn old_enough_spec(approved_at: Option<i64>, min_age_days: u32, now: u64) -> bool {
    if min_age_days == 0 {
        true
    } else {
        match approved_at {
            Some(t) => t >= 0 && (if now >= t { ((now - t) as nat) / (MILLIS_PER_DAY as nat) } else { 0 }) >= min_age_days,
            None => false,
        }
    }
}

/// Whether an approval is old enough for a policy's minimum age.
pub fn old_enough(approved_at: Option<i64>, min_age_days: u32, now: u64) -> (r: bool)
    ensures
        r == old_enough_spec(approved_at, min_age_days, now),
{
    if min_age_days == 0 {
        return true;
    }
    let approved: u64 = match approved_at {
        Some(t) => {
            if t < 0 {
                return false;
            }
            t as u64
        },
        None => {
            return false;
        },
    };
    now.saturating_sub(approved) / MILLIS_PER_DAY >= min_age_days as u64
}

/// The day `now` (milliseconds since the epoch) falls on.
pub fn today(now: u64) -> (d: CalendarDay)
    ensures
        d.0 == now / MILLIS_PER_DAY,
{
    CalendarDay((now / MILLIS_PER_DAY) as i64)
}

/// Why an approved resolution is stale: superseded first, else past a
/// review date that parses and lies before `today`.
pub open spec fn stale_reason(superseded: bool, review_on: Option<Seq<u8>>, today: int) -> Option<Seq<char>> {
    if superseded {
        Some(SUPERSEDED_REASON@)
    } else if review_on matches Some(b) && parse_day(b) matches Some(day) && day < today {
        Some(PAST_REVIEW_REASON@)
    } else {
        None
    }
}

/// The reason an approved resolution is stale, if it is.
pub fn staleness(superseded: bool, review_on: Option<&str>, today: CalendarDay) -> (r: Option<String>)
    ensures
        match r {
            Some(s) => stale_reason(superseded, match review_on {
                Some(t) => Some(t.spec_bytes()),
                None => None,
            }, today.0 as int) == Some(s@),
            None => stale_reason(superseded, match review_on {
                Some(t) => Some(t.spec_bytes()),
                None => None,
            }, today.0 as int) is None,
        },
{
    if superseded {
        return Some(String::from_str(SUPERSEDED_REASON));
    }
    match review_on {
        Some(text) => match CalendarDay::parse(text) {
            Some(day) => if day.0 < today.0 {
                Some(String::from_str(PAST_REVIEW_REASON))
            } else {
                None
            },
            None => None,
        },
        None => None,
    }
}

/// What makes resolutions count as stale.
#[derive(Clone, Debug, PartialEq, Eq)]
pub struct StaleResolutionPolicy {
    pub min_age_days: u32,
    pub rule_severities: Vec<String>,
    pub min_downstream_rules: u32,
}

impl Default for StaleResolutionPolicy {
    fn default() -> (p: StaleResolutionPolicy)
        ensures
            p.min_age_days == 0,
            p.rule_severities@.len() == 0,
            p.min_downstream_rules == 0,
    {
        StaleResolutionPolicy { min_age_days: 0, rule_severities: Vec::new(), min_downstream_rules: 0 }
    }
}

/// A resolution as the staleness query reads it.
#[derive(Clone, Debug, PartialEq, Eq)]
pub struct ResolutionRecord {
    pub id: String,
    pub approved: bool,
    pub approved_at: Option<i64>,
    pub superseded: bool,
    pub review_on: Option<String>,
}

pub struct ResolutionView {
    pub id: Seq<char>,
    pub approved: bool,
    pub approved_at: Option<i64>,
    pub superseded: bool,
    pub review_on: Option<Seq<char>>,
}

impl View for ResolutionRecord {
    type V = ResolutionView;

    open spec fn view(&self) -> ResolutionView {
        ResolutionView {
            id: self.id@,
            approved: self.approved,
            approved_at: self.approved_at,
            superseded: self.superseded,
            review_on: match self.review_on {
                Some(s) => Some(s@),
                None => None,
            },
        }
    }
}

pub struct StaleView {
    pub resolution_id: Seq<char>,
    pub reason: Seq<char>,
}

impl View for StaleResolution {
    type V = StaleView;

    open spec fn view(&self) -> StaleView {
        StaleView { resolution_id: self.resolution_id@, reason: self.reason@ }
    }
}

/// Why one resolution is stale under a policy at `now`, if it is: it must be
/// approved, old enough, have the downstream rules the policy asks for, and
/// be superseded or past its review date.
pub open spec fn stale_entry(
    r: ResolutionView,
    rules: Seq<RuleView>,
    edges: Seq<EdgeView>,
    severities: Seq<Seq<char>>,
    min_rules: nat,
    min_age_days: u32,
    now: u64,
) -> Option<Seq<char>> {
    if r.approved && old_enough_spec(r.approved_at, min_age_days, now) && policy_matches(
        severities,
        min_rules,
        produced_by_resolution(rules, edges, r.id),
    ) {
        stale_reason(
            r.superseded,
            match r.review_on {
                Some(t) => Some(encode_utf8(t)),
                None => None,
            },
            (now / MILLIS_PER_DAY) as int,
        )
    } else {
        None
    }
}

/// The stale resolutions, in order.
pub open spec fn stale_list(
    resolutions: Seq<ResolutionView>,
    rules: Seq<RuleView>,
    edges: Seq<EdgeView>,
    severities: Seq<Seq<char>>,
    min_rules: nat,
    min_age_days: u32,
    now: u64,
) -> Seq<StaleView>
    decreases resolutions.len(),
{
    if resolutions.len() == 0 {
        seq![]
    } else {
        let r = resolutions.last();
        stale_list(resolutions.drop_last(), rules, edges, severities, min_rules, min_age_days, now)
            + match stale_entry(r, rules, edges, severities, min_rules, min_age_days, now) {
            Some(reason) => seq![StaleView { resolution_id: r.id, reason: reason }],
            None => seq![],
        }
    }
}

/// The approved resolutions that have gone stale under the default policy
/// at `now` (milliseconds since the epoch).
pub fn find_stale(resolutions: &[ResolutionRecord], rules: &[RuleRecord], edges: &[Edge], now: u64) -> (r: Vec<
    StaleResolution,
>)
    ensures
        r@.map_values(|s: StaleResolution| s@) == stale_list(
            resolutions@.map_values(|x: ResolutionRecord| x@),
            rules_view(rules@),
            edges_view(edges@),
            Seq::empty(),
            0,
            0,
            now,
        ),
{
    let policy = StaleResolutionPolicy::default();
    proof {
        assert(ids_view(policy.rule_severities@) =~= Seq::<Seq<char>>::empty());
    }
    find_stale_with_policy(resolutions, rules, edges, &policy, now)
}

/// The same query as [`find_stale_with_policy`], under its other name.
pub fn find_stale_with_options(
    resolutions: &[ResolutionRecord],
    rules: &[RuleRecord],
    edges: &[Edge],
    options: &StaleResolutionPolicy,
    now: u64,
) -> (r: Vec<StaleResolution>)
    ensures
        r@.map_values(|s: StaleResolution| s@) == stale_list(
            resolutions@.map_values(|x: ResolutionRecord| x@),
            rules_view(rules@),
            edges_view(edges@),
            ids_view(options.rule_severities@),
            options.min_downstream_rules as nat,
            options.min_age_days,
            now,
        ),
{
    find_stale_with_policy(resolutions, rules, edges, options, now)
}

/// The approved resolutions that have gone stale under a policy at `now`
/// (milliseconds since the epoch).
pub fn find_stale_with_policy(
    resolutions: &[ResolutionRecord],
    rules: &[RuleRecord],
    edges: &[Edge],
    policy: &StaleResolutionPolicy,
    now: u64,
) -> (r: Vec<StaleResolution>)
    ensures
        r@.map_values(|s: StaleResolution| s@) == stale_list(
            resolutions@.map_values(|x: ResolutionRecord| x@),
            rules_view(rules@),
            edges_view(edges@),
            ids_view(policy.rule_severities@),
            policy.min_downstream_rules as nat,
            policy.min_age_days,
            now,
        ),
{
    let ghost rv = resolutions@.map_values(|x: ResolutionRecord| x@);
    let ghost args = (rules_view(rules@), edges_view(edges@), ids_view(policy.rule_severities@));
    let rule_policy = RulePolicy {
        severities: crate::scanner::parser::clone_strings(&policy.rule_severities),
        minimum: policy.min_downstream_rules,
    };
    let day = today(now);
    let mut out: Vec<StaleResolution> = Vec::new();
    let mut i: usize = 0;
    while i < resolutions.len()
        invariant
            0 <= i <= resolutions@.len(),
            rv == resolutions@.map_values(|x: ResolutionRecord| x@),
            rule_policy.severities@ == policy.rule_severities@,
            rule_policy.minimum == policy.min_downstream_rules,
            day.0 == now / MILLIS_PER_DAY,
            out@.map_values(|s: StaleResolution| s@) == stale_list(
                rv.subrange(0, i as int),
                rules_view(rules@),
                edges_view(edges@),
                ids_view(policy.rule_severities@),
                policy.min_downstream_rules as nat,
                policy.min_age_days,
                now,
            ),
        decreases resolutions@.len() - i,
    {
        let res = &resolutions[i];
        proof {
            let s = rv.subrange(0, i + 1);
            assert(s.drop_last() =~= rv.subrange(0, i as int));
            assert(s.last() == res@);
        }
        let ghost prev = out@;
        if res.approved && old_enough(res.approved_at, policy.min_age_days, now) {
            let downstream = rules_for_resolution(rules, edges, res.id.as_str());
            if rule_policy.matches(downstream.as_slice()) {
                let review = match &res.review_on {
                    Some(t) => Some(t.as_str()),
                    None => None,
                };
                match staleness(res.superseded, review, day) {
                    Some(reason) => {
                        let item = StaleResolution { resolution_id: res.id.clone(), reason };
                        out.push(item);
                        assert(out@.map_values(|s: StaleResolution| s@) =~= prev.map_values(
                            |s: StaleResolution| s@,
                        ).push(item@));
                    },
                    None => {},
                }
            }
        }
        assert(out@.map_values(|s: StaleResolution| s@) =~= stale_list(
            rv.subrange(0, i + 1),
            rules_view(rules@),
            edges_view(edges@),
            ids_view(policy.rule_severities@),
            policy.min_downstream_rules as nat,
            policy.min_age_days,
            now,
        ));
        i = i + 1;
    }
    assert(rv.subrange(0, resolutions@.len() as int) =~= rv);
    out
}

} // verus!
