//! The time-expression grammar: either a run of duration tokens such as
//! `1h30m`, or an absolute form `month|day|year|H:MMam` whose date parts are
//! optional, tried in that order. The grammar is stated as spec functions
//! over the character sequence; the executable parser is proved to follow it.

use vstd::prelude::*;
use crate::timestamp::Timestamp;
use crate::timestamp::max_epoch_sec;

verus! {

/// A malformed or unrepresentable time expression.
#[derive(Clone, Copy, Debug, PartialEq, Eq, Structural)]
pub struct ParseError;

#[derive(Clone, Copy, Debug, PartialEq, Eq, Structural)]
pub enum DurUnit {
    Hours,
    Minutes,
    Days,
}

pub open spec fn unit_minutes(u: DurUnit) -> int {
    match u {
        DurUnit::Hours => 60,
        DurUnit::Minutes => 1,
        DurUnit::Days => 1440,
    }
}

/// What a well-formed expression denotes, before it is anchored to "now".
pub enum ParsedExpr {
    /// Duration tokens, in input order.
    Duration(Vec<(u32, DurUnit)>),
    /// Absolute date and time: the date components that were present
    /// (month, then optional day and year), hour, optional minutes, and
    /// whether the meridiem marker was `pm`.
    Absolute {
        date: Option<(u32, Option<u32>, Option<i32>)>,
        hour: u32,
        minute: Option<u32>,
        pm: bool,
    },
}

pub open spec fn is_digit(c: char) -> bool {
    48 <= c as u32 <= 57
}

pub open spec fn digit_val(c: char) -> int {
    if is_digit(c) {
        c as u32 - 48
    } else {
        0
    }
}

/// First position at or after `i` that does not hold a digit.
pub open spec fn digit_end(s: Seq<char>, i: int) -> int
    decreases s.len() - i,
{
    if i < 0 || i >= s.len() {
        i
    } else if is_digit(s[i]) {
        digit_end(s, i + 1)
    } else {
        i
    }
}

/// Value of the digit run `s[i..j)`, most significant first.
pub open spec fn digits_val(s: Seq<char>, i: int, j: int) -> int
    decreases j - i,
{
    if j <= i {
        0
    } else {
        digits_val(s, i, j - 1) * 10 + digit_val(s[j - 1])
    }
}

pub proof fn lemma_digits_val_nonneg(s: Seq<char>, i: int, j: int)
    ensures
        digits_val(s, i, j) >= 0,
    decreases j - i,
{
    if j > i {
        lemma_digits_val_nonneg(s, i, j - 1);
    }
}

/// A maximal run of digits, read as a number; fails on an empty run and on
/// overflow past `u32::MAX`.
pub open spec fn spec_num(s: Seq<char>, i: int) -> Option<(u32, int)> {
    let j = digit_end(s, i);
    if j == i {
        None
    } else if digits_val(s, i, j) > u32::MAX {
        None
    } else {
        Some((digits_val(s, i, j) as u32, j))
    }
}

/// A number immediately terminated by `|`, consuming the pipe.
pub open spec fn spec_num_pipe(s: Seq<char>, i: int) -> Option<(u32, int)> {
    match spec_num(s, i) {
        None => None,
        Some((v, p)) => if p < s.len() && s[p] == '|' {
            Some((v, p + 1))
        } else {
            None
        },
    }
}

/// An optionally negated number terminated by `|`, within `i32` range.
pub open spec fn spec_signed_pipe(s: Seq<char>, i: int) -> Option<(i32, int)> {
    if i < s.len() && s[i] == '-' {
        let j = digit_end(s, i + 1);
        if j == i + 1 || digits_val(s, i + 1, j) > 2147483648 {
            None
        } else if j < s.len() && s[j] == '|' {
            Some(((-digits_val(s, i + 1, j)) as i32, j + 1))
        } else {
            None
        }
    } else {
        let j = digit_end(s, i);
        if j == i || digits_val(s, i, j) > 2147483647 {
            None
        } else if j < s.len() && s[j] == '|' {
            Some((digits_val(s, i, j) as i32, j + 1))
        } else {
            None
        }
    }
}

/// Date prefix: month, then optional day and optional year, every present
/// component pipe-terminated.
pub open spec fn spec_date(s: Seq<char>, i: int) -> Option<
    ((u32, Option<u32>, Option<i32>), int),
> {
    match spec_num_pipe(s, i) {
        None => None,
        Some((month, p)) => {
            let (day, p2) = match spec_num_pipe(s, p) {
                Some((v, q)) => (Some(v), q),
                None => (None, p),
            };
            let (year, p3) = match spec_signed_pipe(s, p2) {
                Some((v, q)) => (Some(v), q),
                None => (None, p2),
            };
            Some(((month, day, year), p3))
        },
    }
}

/// Time of day: hour, optional `:`-prefixed minutes, mandatory meridiem.
pub open spec fn spec_time(s: Seq<char>, i: int) -> Option<((u32, Option<u32>, bool), int)> {
    match spec_num(s, i) {
        None => None,
        Some((hr, p)) => {
            let (min, q) = if p < s.len() && s[p] == ':' {
                match spec_num(s, p + 1) {
                    Some((mv, r)) => (Some(mv), r),
                    None => (None, p),
                }
            } else {
                (None, p)
            };
            if q + 2 <= s.len() && (s[q] == 'p' || s[q] == 'a') && s[q + 1] == 'm' {
                Some(((hr, min, s[q] == 'p'), q + 2))
            } else {
                None
            }
        },
    }
}

/// Optional date followed by a mandatory time; a failed date consumes
/// nothing.
pub open spec fn spec_date_time(s: Seq<char>, i: int) -> Option<
    (((Option<(u32, Option<u32>, Option<i32>)>), (u32, Option<u32>, bool)), int),
> {
    match spec_date(s, i) {
        Some((d, p)) => match spec_time(s, p) {
            Some((t, q)) => Some(((Some(d), t), q)),
            None => None,
        },
        None => match spec_time(s, i) {
            Some((t, q)) => Some(((None, t), q)),
            None => None,
        },
    }
}

/// One duration token: a number and a unit letter.
pub open spec fn spec_dur_el(s: Seq<char>, i: int) -> Option<((u32, DurUnit), int)> {
    match spec_num(s, i) {
        None => None,
        Some((v, p)) => if p < s.len() && s[p] == 'h' {
            Some(((v, DurUnit::Hours), p + 1))
        } else if p < s.len() && s[p] == 'm' {
            Some(((v, DurUnit::Minutes), p + 1))
        } else if p < s.len() && s[p] == 'd' {
            Some(((v, DurUnit::Days), p + 1))
        } else {
            None
        },
    }
}

/// One or more duration tokens, taken greedily.
pub open spec fn spec_duration(s: Seq<char>, i: int) -> Option<(Seq<(u32, DurUnit)>, int)>
    decreases s.len() - i,
{
    match spec_dur_el(s, i) {
        None => None,
        Some((el, p)) => if p <= i || p > s.len() {
            None  // a token always advances; this arm is unreachable
        } else {
            match spec_duration(s, p) {
                None => Some((seq![el], p)),
                Some((rest, q)) => Some((seq![el].add(rest), q)),
            }
        },
    }
}

/// Total of a duration expression, in minutes.
pub open spec fn dur_total_minutes(toks: Seq<(u32, DurUnit)>) -> int
    decreases toks.len(),
{
    if toks.len() == 0 {
        0
    } else {
        dur_total_minutes(toks.drop_last()) + toks.last().0 * unit_minutes(toks.last().1)
    }
}

/// Scans the maximal digit run from `i`, accumulating its value; the flag
/// reports a value past `u32::MAX`.
fn scan_digits(s: &str, n: usize, i: usize) -> (r: (u64, bool, usize))
    requires
        n == s@.len(),
        i <= n,
    ensures
        r.2 == digit_end(s@, i as int),
        i <= r.2 <= n,
        !r.1 ==> r.0 == digits_val(s@, i as int, r.2 as int) && r.0 <= u32::MAX as u64,
        r.1 ==> digits_val(s@, i as int, r.2 as int) > u32::MAX,
{
    let mut j: usize = i;
    let mut val: u64 = 0;
    let mut over: bool = false;
    loop
        invariant
            n == s@.len(),
            i <= j <= n,
            digit_end(s@, i as int) == digit_end(s@, j as int),
            !over ==> val == digits_val(s@, i as int, j as int) && val <= u32::MAX as u64,
            over ==> digits_val(s@, i as int, j as int) > u32::MAX,
        ensures
            j == digit_end(s@, i as int),
            i <= j <= n,
            !over ==> val == digits_val(s@, i as int, j as int) && val <= u32::MAX as u64,
            over ==> digits_val(s@, i as int, j as int) > u32::MAX,
        decreases n - j,
    {
        if j >= n {
            proof {
                assert(digit_end(s@, j as int) == j);
            }
            break ;
        }
        let c = s.get_char(j);
        let u = c as u32;
        if !(48 <= u && u <= 57) {
            proof {
                assert(digit_end(s@, j as int) == j);
            }
            break ;
        }
        let d: u64 = (u - 48) as u64;
        proof {
            assert(digits_val(s@, i as int, j + 1 as int) == digits_val(s@, i as int, j as int)
                * 10 + digit_val(s@[j as int]));
            lemma_digits_val_nonneg(s@, i as int, j as int);
        }
        if !over {
            let nv = val * 10 + d;
            if nv > 4294967295 {
                over = true;
            } else {
                val = nv;
            }
        }
        j = j + 1;
    }
    (val, over, j)
}

/// The executable counterpart of `spec_num`.
fn parse_num(s: &str, n: usize, i: usize) -> (r: Option<(u32, usize)>)
    requires
        n == s@.len(),
        i <= n,
    ensures
        match r {
            Some(p) => spec_num(s@, i as int) == Some((p.0, p.1 as int)) && i < p.1 <= n,
            None => spec_num(s@, i as int) is None,
        },
{
    let (val, over, j) = scan_digits(s, n, i);
    if j == i {
        None
    } else if over {
        None
    } else {
        Some((val as u32, j))
    }
}

/// Whether position `i` holds exactly the character `c`.
fn char_at_is(s: &str, n: usize, i: usize, c: char) -> (r: bool)
    requires
        n == s@.len(),
    ensures
        r == (i < s@.len() && s@[i as int] == c),
{
    i < n && s.get_char(i) == c
}

/// The executable counterpart of `spec_num_pipe`.
fn parse_num_pipe(s: &str, n: usize, i: usize) -> (r: Option<(u32, usize)>)
    requires
        n == s@.len(),
        i <= n,
    ensures
        match r {
            Some(p) => spec_num_pipe(s@, i as int) == Some((p.0, p.1 as int)) && i < p.1 <= n,
            None => spec_num_pipe(s@, i as int) is None,
        },
{
    match parse_num(s, n, i) {
        None => None,
        Some((v, p)) => if char_at_is(s, n, p, '|') {
            Some((v, p + 1))
        } else {
            None
        },
    }
}

/// The executable counterpart of `spec_signed_pipe`.
fn parse_signed_pipe(s: &str, n: usize, i: usize) -> (r: Option<(i32, usize)>)
    requires
        n == s@.len(),
        i <= n,
    ensures
        match r {
            Some(p) => spec_signed_pipe(s@, i as int) == Some((p.0, p.1 as int)) && i < p.1 <= n,
            None => spec_signed_pipe(s@, i as int) is None,
        },
{
    if char_at_is(s, n, i, '-') {
        let (val, over, j) = scan_digits(s, n, i + 1);
        if j == i + 1 || over || val > 2147483648 {
            None
        } else if char_at_is(s, n, j, '|') {
            Some(((-(val as i64)) as i32, j + 1))
        } else {
            None
        }
    } else {
        let (val, over, j) = scan_digits(s, n, i);
        if j == i || over || val > 2147483647 {
            None
        } else if char_at_is(s, n, j, '|') {
            Some((val as i32, j + 1))
        } else {
            None
        }
    }
}

/// The executable counterpart of `spec_date`.
fn parse_date(s: &str, n: usize, i: usize) -> (r: Option<((u32, Option<u32>, Option<i32>), usize)>)
    requires
        n == s@.len(),
        i <= n,
    ensures
        match r {
            Some(p) => spec_date(s@, i as int) == Some((p.0, p.1 as int)) && i < p.1 <= n,
            None => spec_date(s@, i as int) is None,
        },
{
    match parse_num_pipe(s, n, i) {
        None => None,
        Some((month, p)) => {
            let (day, p2): (Option<u32>, usize) = match parse_num_pipe(s, n, p) {
                Some((v, q)) => (Some(v), q),
                None => (None, p),
            };
            let (year, p3): (Option<i32>, usize) = match parse_signed_pipe(s, n, p2) {
                Some((v, q)) => (Some(v), q),
                None => (None, p2),
            };
            Some(((month, day, year), p3))
        },
    }
}

/// The executable counterpart of `spec_time`.
fn parse_time_of_day(s: &str, n: usize, i: usize) -> (r: Option<((u32, Option<u32>, bool), usize)>)
    requires
        n == s@.len(),
        i <= n,
    ensures
        match r {
            Some(p) => spec_time(s@, i as int) == Some((p.0, p.1 as int)) && i < p.1 <= n,
            None => spec_time(s@, i as int) is None,
        },
{
    match parse_num(s, n, i) {
        None => None,
        Some((hr, p)) => {
            let (min, q): (Option<u32>, usize) = if char_at_is(s, n, p, ':') {
                match parse_num(s, n, p + 1) {
                    Some((mv, r2)) => (Some(mv), r2),
                    None => (None, p),
                }
            } else {
                (None, p)
            };
            if char_at_is(s, n, q, 'p') || char_at_is(s, n, q, 'a') {
                if char_at_is(s, n, q + 1, 'm') {
                    let pm = char_at_is(s, n, q, 'p');
                    Some(((hr, min, pm), q + 2))
                } else {
                    None
                }
            } else {
                None
            }
        },
    }
}

/// The executable counterpart of `spec_date_time`.
fn parse_date_time(s: &str, n: usize, i: usize) -> (r: Option<
    ((Option<(u32, Option<u32>, Option<i32>)>, (u32, Option<u32>, bool)), usize),
>)
    requires
        n == s@.len(),
        i <= n,
    ensures
        match r {
            Some(p) => spec_date_time(s@, i as int) == Some((p.0, p.1 as int)) && p.1 <= n,
            None => spec_date_time(s@, i as int) is None,
        },
{
    match parse_date(s, n, i) {
        Some((d, p)) => match parse_time_of_day(s, n, p) {
            Some((t, q)) => Some(((Some(d), t), q)),
            None => None,
        },
        None => match parse_time_of_day(s, n, i) {
            Some((t, q)) => Some(((None, t), q)),
            None => None,
        },
    }
}

/// The executable counterpart of `spec_dur_el`.
fn parse_dur_el(s: &str, n: usize, i: usize) -> (r: Option<((u32, DurUnit), usize)>)
    requires
        n == s@.len(),
        i <= n,
    ensures
        match r {
            Some(p) => spec_dur_el(s@, i as int) == Some((p.0, p.1 as int)) && i < p.1 <= n,
            None => spec_dur_el(s@, i as int) is None,
        },
{
    match parse_num(s, n, i) {
        None => None,
        Some((v, p)) => if char_at_is(s, n, p, 'h') {
            Some(((v, DurUnit::Hours), p + 1))
        } else if char_at_is(s, n, p, 'm') {
            Some(((v, DurUnit::Minutes), p + 1))
        } else if char_at_is(s, n, p, 'd') {
            Some(((v, DurUnit::Days), p + 1))
        } else {
            None
        },
    }
}

/// The executable counterpart of `spec_duration`: one or more tokens, greedy.
fn parse_duration(s: &str, n: usize, i: usize) -> (r: Option<(Vec<(u32, DurUnit)>, usize)>)
    requires
        n == s@.len(),
        i <= n,
    ensures
        match r {
            Some(p) => spec_duration(s@, i as int) == Some((p.0@, p.1 as int)) && i < p.1 <= n,
            None => spec_duration(s@, i as int) is None,
        },
    decreases n - i,
{
    match parse_dur_el(s, n, i) {
        None => None,
        Some((el, p)) => {
            match parse_duration(s, n, p) {
                None => {
                    let mut v: Vec<(u32, DurUnit)> = Vec::new();
                    v.push(el);
                    proof {
                        assert(v@ =~= seq![el]);
                    }
                    Some((v, p))
                },
                Some((rest, q)) => {
                    let mut v: Vec<(u32, DurUnit)> = Vec::new();
                    v.push(el);
                    let mut rest = rest;
                    let ghost rest_view = rest@;
                    v.append(&mut rest);
                    proof {
                        assert(v@ =~= seq![el].add(rest_view));
                    }
                    Some((v, q))
                },
            }
        },
    }
}

/// Parses a raw expression into its syntactic form: a run of duration
/// tokens if the input starts with one, else the absolute date-time form.
/// Trailing text after a match is ignored.
pub fn parse_alarm(s: &str) -> (r: Result<ParsedExpr, ParseError>)
    ensures
        match spec_duration(s@, 0) {
            Some(p) => r matches Ok(e) && e matches ParsedExpr::Duration(v) && v@ == p.0,
            None => match spec_date_time(s@, 0) {
                Some(p) => r == Ok::<ParsedExpr, ParseError>(
                    ParsedExpr::Absolute {
                        date: p.0.0,
                        hour: p.0.1.0,
                        minute: p.0.1.1,
                        pm: p.0.1.2,
                    },
                ),
                None => r == Err::<ParsedExpr, ParseError>(ParseError),
            },
        },
{
    let n = s.unicode_len();
    match parse_duration(s, n, 0) {
        Some((v, _)) => Ok(ParsedExpr::Duration(v)),
        None => match parse_date_time(s, n, 0) {
            Some(((date, (hour, minute, pm)), _)) => Ok(
                ParsedExpr::Absolute { date, hour, minute, pm },
            ),
            None => Err(ParseError),
        },
    }
}

/// What the absolute form denotes relative to "now": omitted date fields
/// default independently to now's, omitted minutes to 0, and `pm` adds 12
/// to the hour unconditionally — so `12pm` names hour 24 and is rejected,
/// a quirk of the grammar that is kept deliberately.
pub open spec fn spec_eval_absolute(
    date: Option<(u32, Option<u32>, Option<i32>)>,
    hour: u32,
    minute: Option<u32>,
    pm: bool,
    now: Timestamp,
) -> Option<Timestamp> {
    let h = hour as int + (if pm {
        12int
    } else {
        0int
    });
    let month = match date {
        None => now.month,
        Some(d) => d.0,
    };
    let day = match date {
        None => now.day,
        Some(d) => match d.1 {
            Some(x) => x,
            None => now.day,
        },
    };
    let year = match date {
        None => now.year,
        Some(d) => match d.2 {
            Some(x) => x,
            None => now.year,
        },
    };
    let min = match minute {
        Some(x) => x,
        None => 0u32,
    };
    if h > 23 {
        None
    } else {
        let t = Timestamp { year, month, day, hour: h as u32, minute: min, second: 0 };
        if t.valid() {
            Some(t)
        } else {
            None
        }
    }
}

fn unit_minutes_exec(u: DurUnit) -> (r: u64)
    ensures
        r == unit_minutes(u),
{
    match u {
        DurUnit::Hours => 60,
        DurUnit::Minutes => 1,
        DurUnit::Days => 1440,
    }
}

proof fn lemma_dur_total_nonneg(toks: Seq<(u32, DurUnit)>)
    ensures
        dur_total_minutes(toks) >= 0,
    decreases toks.len(),
{
    if toks.len() > 0 {
        lemma_dur_total_nonneg(toks.drop_last());
    }
}

/// Anchors a parsed expression to "now". For durations the result is now
/// plus the tokens' total, on the linear scale of seconds; for the absolute
/// form it is exactly `spec_eval_absolute`. Fails when the denoted instant
/// cannot be represented.
pub fn parse_parsed_time(e: &ParsedExpr, now: &Timestamp) -> (r: Result<Timestamp, ParseError>)
    requires
        now.valid(),
    ensures
        match e {
            ParsedExpr::Duration(v) => {
                &&& ((r is Ok) <==> now.epoch_sec() + 60 * dur_total_minutes(v@)
                    <= max_epoch_sec())
                &&& (r matches Ok(t) ==> {
                    &&& t.valid()
                    &&& t.epoch_sec() == now.epoch_sec() + 60 * dur_total_minutes(v@)
                    &&& t.second == now.second
                })
            },
            ParsedExpr::Absolute { date, hour, minute, pm } => r == (
            match spec_eval_absolute(*date, *hour, *minute, *pm, *now) {
                Some(t) => Ok::<Timestamp, ParseError>(t),
                None => Err::<Timestamp, ParseError>(ParseError),
            }),
        },
{
    match e {
        ParsedExpr::Duration(v) => {
            let mut total: u64 = 0;
            let mut k: usize = 0;
            while k < v.len()
                invariant
                    k <= v.len(),
                    total <= 500_000_000_001,
                    total <= 500_000_000_000 ==> total == dur_total_minutes(v@.take(k as int)),
                    total > 500_000_000_000 ==> dur_total_minutes(v@.take(k as int))
                        > 500_000_000_000,
                decreases v.len() - k,
            {
                let (val, unit) = v[k];
                let add: u64 = (val as u64) * unit_minutes_exec(unit);
                proof {
                    assert(v@.take(k + 1 as int).drop_last() =~= v@.take(k as int));
                    assert(v@.take(k + 1 as int).last() == v@[k as int]);
                    lemma_dur_total_nonneg(v@.take(k as int));
                    assert(add <= 4294967295u64 * 1440) by (nonlinear_arith)
                        requires add == (val as u64) * unit_minutes(unit) && val <= u32::MAX
                            && (unit_minutes(unit) == 1 || unit_minutes(unit) == 60
                            || unit_minutes(unit) == 1440),
                    ;
                }
                let nt = total + add;
                if nt > 500_000_000_000 {
                    total = 500_000_000_001;
                } else {
                    total = nt;
                }
                k = k + 1;
            }
            proof {
                assert(v@.take(v@.len() as int) =~= v@);
                crate::timestamp::lemma_epoch_sec_bounds(*now);
            }
            match now.plus_minutes(total) {
                Some(t) => Ok(t),
                None => Err(ParseError),
            }
        },
        ParsedExpr::Absolute { date, hour, minute, pm } => {
            let h: u32 = if *pm {
                if *hour > 11 {
                    return Err(ParseError);
                }
                *hour + 12
            } else {
                if *hour > 23 {
                    return Err(ParseError);
                }
                *hour
            };
            let month: u32 = match date {
                None => now.month,
                Some(d) => d.0,
            };
            let day: u32 = match date {
                None => now.day,
                Some(d) => match d.1 {
                    Some(x) => x,
                    None => now.day,
                },
            };
            let year: i32 = match date {
                None => now.year,
                Some(d) => match d.2 {
                    Some(x) => x,
                    None => now.year,
                },
            };
            let min: u32 = match minute {
                Some(x) => *x,
                None => 0,
            };
            match Timestamp::new(year, month, day, h, min, 0) {
                Some(t) => Ok(t),
                None => Err(ParseError),
            }
        },
    }
}

/// The valid timestamp at a given position of the linear scale, where one
/// exists; by `lemma_epoch_sec_injective` there is at most one.
pub open spec fn spec_instant(e: int) -> Timestamp {
    choose|t: Timestamp| t.valid() && t.epoch_sec() == e
}

/// The outcome the whole parser owes for a given input and "now": the
/// timestamp it must return, or `None` where it must fail.
pub open spec fn spec_parse_time(s: Seq<char>, now: Timestamp) -> Option<Timestamp> {
    match spec_duration(s, 0) {
        Some(p) => {
            let target = now.epoch_sec() + 60 * dur_total_minutes(p.0);
            if target <= max_epoch_sec() {
                Some(spec_instant(target))
            } else {
                None
            }
        },
        None => match spec_date_time(s, 0) {
            Some(p) => spec_eval_absolute(p.0.0, p.0.1.0, p.0.1.1, p.0.1.2, now),
            None => None,
        },
    }
}

/// Parses a time expression and anchors it to `now`: the public contract of
/// the whole parser, stated over the grammar's spec functions.
pub fn parse_time(s: &str, now: &Timestamp) -> (r: Result<Timestamp, ParseError>)
    requires
        now.valid(),
    ensures
        match spec_parse_time(s@, *now) {
            Some(t) => r == Ok::<Timestamp, ParseError>(t) && t.valid(),
            None => r == Err::<Timestamp, ParseError>(ParseError),
        },
        match spec_duration(s@, 0) {
            Some(p) => {
                &&& ((r is Ok) <==> now.epoch_sec() + 60 * dur_total_minutes(p.0)
                    <= max_epoch_sec())
                &&& (r matches Ok(t) ==> {
                    &&& t.valid()
                    &&& t.epoch_sec() == now.epoch_sec() + 60 * dur_total_minutes(p.0)
                    &&& t.second == now.second
                })
            },
            None => match spec_date_time(s@, 0) {
                Some(p) => r == (match spec_eval_absolute(p.0.0, p.0.1.0, p.0.1.1, p.0.1.2, *now) {
                    Some(t) => Ok::<Timestamp, ParseError>(t),
                    None => Err::<Timestamp, ParseError>(ParseError),
                }),
                None => r == Err::<Timestamp, ParseError>(ParseError),
            },
        },
{
    let r = match parse_alarm(s) {
        Ok(e) => parse_parsed_time(&e, now),
        Err(e) => Err(e),
    };
    proof {
        match spec_duration(s@, 0) {
            Some(p) => {
                let target = now.epoch_sec() + 60 * dur_total_minutes(p.0);
                match r {
                    Ok(t) => {
                        assert(t.valid() && t.epoch_sec() == target);
                        assert(exists|x: Timestamp| x.valid() && x.epoch_sec() == target) by {
                            assert(t.valid() && t.epoch_sec() == target);
                        }
                        let c = spec_instant(target);
                        assert(c.valid() && c.epoch_sec() == target);
                        crate::timestamp::lemma_epoch_sec_injective(t, c);
                    },
                    Err(e) => {
                        assert(e == ParseError);
                    },
                }
            },
            None => {},
        }
    }
    r
}

/// A concatenation of duration tokens totals the sum of its parts.
pub proof fn lemma_dur_total_concat(a: Seq<(u32, DurUnit)>, b: Seq<(u32, DurUnit)>)
    ensures
        dur_total_minutes(a + b) == dur_total_minutes(a) + dur_total_minutes(b),
    decreases b.len(),
{
    if b.len() == 0 {
        assert(a + b =~= a);
    } else {
        lemma_dur_total_concat(a, b.drop_last());
        assert((a + b).drop_last() =~= a + b.drop_last());
        assert((a + b).last() == b.last());
    }
}

/// Duration tokens denote a sum of minutes, so the order of the tokens
/// cannot change the instant a duration expression names.
pub proof fn lemma_dur_total_order_independent(a: Seq<(u32, DurUnit)>, b: Seq<(u32, DurUnit)>)
    ensures
        dur_total_minutes(a + b) == dur_total_minutes(b + a),
{
    lemma_dur_total_concat(a, b);
    lemma_dur_total_concat(b, a);
}

proof fn lemma_dur_total_remove(s: Seq<(u32, DurUnit)>, i: int)
    requires
        0 <= i < s.len(),
    ensures
        dur_total_minutes(s.remove(i)) == dur_total_minutes(s) - s[i].0 * unit_minutes(s[i].1),
    decreases s.len(),
{
    if i == s.len() - 1 {
        assert(s.remove(i) =~= s.drop_last());
    } else {
        assert(s.remove(i).drop_last() =~= s.drop_last().remove(i));
        assert(s.remove(i).last() == s.last());
        lemma_dur_total_remove(s.drop_last(), i);
    }
}

/// Any reordering of the same duration tokens totals the same minutes: the
/// expression denotes a sum.
pub proof fn lemma_dur_total_permutation(a: Seq<(u32, DurUnit)>, b: Seq<(u32, DurUnit)>)
    requires
        a.to_multiset() == b.to_multiset(),
    ensures
        dur_total_minutes(a) == dur_total_minutes(b),
    decreases a.len(),
{
    a.to_multiset_ensures();
    b.to_multiset_ensures();
    if a.len() == 0 {
        assert(b.len() == 0);
    } else {
        let x = a.last();
        assert(a.contains(x));
        assert(b.to_multiset().count(x) > 0);
        assert(b.contains(x));
        let j = choose|j: int| 0 <= j < b.len() && b[j] == x;
        let a2 = a.drop_last();
        let b2 = b.remove(j);
        assert(a2 =~= a.remove(a.len() - 1));
        assert(a2.to_multiset() =~= a.to_multiset().remove(x));
        assert(b2.to_multiset() =~= b.to_multiset().remove(x));
        lemma_dur_total_permutation(a2, b2);
        lemma_dur_total_remove(b, j);
        lemma_dur_total_remove(a, a.len() - 1);
    }
}

/// With the whole date omitted, the absolute form takes day, month and year
/// from "now", each field independently.
pub proof fn lemma_absolute_defaults_to_now(
    hour: u32,
    minute: Option<u32>,
    pm: bool,
    now: Timestamp,
)
    ensures
        spec_eval_absolute(None, hour, minute, pm, now) matches Some(t) ==> {
            &&& t.year == now.year
            &&& t.month == now.month
            &&& t.day == now.day
        },
{
}

} // verus!
