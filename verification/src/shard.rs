//! Shard path resolution.
//!
//! A record written for table `t` at Unix timestamp `ts` lands in the file
//! `root/t/YYYYMMDD/HH`, where the date and hour name the UTC calendar day
//! and hour of `ts`. The calendar is fixed to UTC so that paths are
//! reproducible across machines and environments.
//!
//! Resolution is pure: two writes land in the same shard file exactly when
//! they name the same table and fall in the same calendar hour
//! ([`lemma_shard_determinism`]).

use vstd::arithmetic::div_mod::{
    lemma_fundamental_div_mod, lemma_fundamental_div_mod_converse_div,
    lemma_fundamental_div_mod_converse_mod,
};
use vstd::prelude::*;
use vstd::string::StringExecFns;

verus! {

/// Whether `y` is a leap year in the Gregorian calendar.
pub open spec fn is_leap_year(y: int) -> bool {
    (y % 4 == 0 && y % 100 != 0) || y % 400 == 0
}

/// The number of days of year `y`.
pub open spec fn days_in_year(y: int) -> int {
    if is_leap_year(y) {
        366
    } else {
        365
    }
}

/// The number of days of month `m` of year `y`.
pub open spec fn days_in_month(y: int, m: int) -> int {
    if m == 2 {
        if is_leap_year(y) {
            29
        } else {
            28
        }
    } else if m == 4 || m == 6 || m == 9 || m == 11 {
        30
    } else {
        31
    }
}

/// The number of days of year `y` that precede month `m`.
pub open spec fn days_before_month(y: int, m: int) -> int
    decreases m,
{
    if m <= 1 {
        0
    } else {
        days_before_month(y, m - 1) + days_in_month(y, m - 1)
    }
}

/// The number of days between 1970-01-01 and the first day of year `y`.
pub open spec fn days_before_year(y: int) -> int
    decreases y - 1970,
{
    if y <= 1970 {
        0
    } else {
        days_before_year(y - 1) + days_in_year(y - 1)
    }
}

/// The day number (days since 1970-01-01) of a civil date.
pub open spec fn day_number_of_date(y: int, m: int, d: int) -> int {
    days_before_year(y) + days_before_month(y, m) + (d - 1)
}

/// A civil date the engine can produce: on or after 1970, with a real month
/// and a day that exists in that month.
pub open spec fn valid_date(y: int, m: int, d: int) -> bool {
    1970 <= y && 1 <= m <= 12 && 1 <= d <= days_in_month(y, m)
}

/// Steps year by year from `y`, consuming `rem` days: yields the year the
/// last day falls in and the days left within that year.
pub open spec fn split_year(y: int, rem: int) -> (int, int)
    decreases rem,
{
    if rem < days_in_year(y) {
        (y, rem)
    } else {
        split_year(y + 1, rem - days_in_year(y))
    }
}

/// Steps month by month within year `y`, as [`split_year`] does for years.
pub open spec fn split_month(y: int, m: int, rem: int) -> (int, int)
    decreases rem,
{
    if rem < days_in_month(y, m) {
        (m, rem)
    } else {
        split_month(y, m + 1, rem - days_in_month(y, m))
    }
}

/// The civil date (UTC, Gregorian) of a day number.
pub open spec fn date_of_day_number(days: int) -> (int, int, int) {
    let (y, r1) = split_year(1970, days);
    let (m, r2) = split_month(y, 1, r1);
    (y, m, r2 + 1)
}

proof fn lemma_split_year(y: int, rem: int)
    requires
        1970 <= y,
        0 <= rem,
    ensures
        ({
            let (fy, fr) = split_year(y, rem);
            &&& y <= fy
            &&& 0 <= fr < days_in_year(fy)
            &&& days_before_year(fy) + fr == days_before_year(y) + rem
        }),
    decreases rem,
{
    if rem >= days_in_year(y) {
        lemma_split_year(y + 1, rem - days_in_year(y));
    }
}

/// The months of year `y` cover it exactly.
proof fn lemma_months_in_year(y: int)
    ensures
        days_before_month(y, 13) == days_in_year(y),
{
    reveal_with_fuel(days_before_month, 13);
}

proof fn lemma_split_month(y: int, m: int, rem: int)
    requires
        1 <= m <= 12,
        0 <= rem,
        days_before_month(y, m) + rem < days_in_year(y),
    ensures
        ({
            let (fm, fr) = split_month(y, m, rem);
            &&& m <= fm <= 12
            &&& 0 <= fr < days_in_month(y, fm)
            &&& days_before_month(y, fm) + fr == days_before_month(y, m) + rem
        }),
    decreases rem,
{
    lemma_months_in_year(y);
    if rem >= days_in_month(y, m) {
        assert(days_before_month(y, m + 1) == days_before_month(y, m) + days_in_month(y, m));
        assert(m < 12);
        lemma_split_month(y, m + 1, rem - days_in_month(y, m));
    }
}

proof fn lemma_days_before_year_lower(y: int)
    requires
        1970 <= y,
    ensures
        365 * (y - 1970) <= days_before_year(y),
    decreases y - 1970,
{
    if y > 1970 {
        lemma_days_before_year_lower(y - 1);
    }
}

/// The date of a day number is a valid date whose day number is the one
/// given: [`date_of_day_number`] inverts [`day_number_of_date`].
pub proof fn lemma_date_of_day_number(days: int)
    requires
        0 <= days,
    ensures
        ({
            let (y, m, d) = date_of_day_number(days);
            &&& valid_date(y, m, d)
            &&& day_number_of_date(y, m, d) == days
            &&& 365 * (y - 1970) <= days
        }),
{
    lemma_split_year(1970, days);
    let (fy, r1) = split_year(1970, days);
    lemma_split_month(fy, 1, r1);
    lemma_days_before_year_lower(fy);
}

fn is_leap_year_exec(y: u32) -> (r: bool)
    ensures
        r == is_leap_year(y as int),
{
    (y % 4 == 0 && y % 100 != 0) || y % 400 == 0
}

fn days_in_year_exec(y: u32) -> (r: u32)
    ensures
        r == days_in_year(y as int),
{
    if is_leap_year_exec(y) {
        366
    } else {
        365
    }
}

fn days_in_month_exec(y: u32, m: u32) -> (r: u32)
    ensures
        r == days_in_month(y as int, m as int),
{
    if m == 2 {
        if is_leap_year_exec(y) {
            29
        } else {
            28
        }
    } else if m == 4 || m == 6 || m == 9 || m == 11 {
        30
    } else {
        31
    }
}

/// The largest day number a `u32` timestamp can reach.
pub open spec fn max_day_number() -> int {
    49710
}

/// Computes the civil date of a day number by stepping years, then months.
fn date_of_days(days: u32) -> (r: (u32, u32, u32))
    requires
        days <= max_day_number(),
    ensures
        ({
            let (y, m, d) = date_of_day_number(days as int);
            &&& r.0 == y
            &&& r.1 == m
            &&& r.2 == d
            &&& 1970 <= r.0 <= 2106
            &&& 1 <= r.1 <= 12
            &&& 1 <= r.2 <= 31
        }),
{
    proof {
        lemma_date_of_day_number(days as int);
    }
    let mut y: u32 = 1970;
    let mut rem: u32 = days;
    while rem >= days_in_year_exec(y)
        invariant
            1970 <= y <= 2106,
            rem <= days <= max_day_number(),
            days_before_year(y as int) + rem == days,
            split_year(1970, days as int) == split_year(y as int, rem as int),
        decreases rem,
    {
        proof {
            lemma_days_before_year_lower(y as int + 1);
        }
        rem = rem - days_in_year_exec(y);
        y = y + 1;
    }
    proof {
        lemma_split_year(1970, days as int);
        lemma_split_month(y as int, 1, rem as int);
    }
    let ghost r1 = rem as int;
    let mut m: u32 = 1;
    while rem >= days_in_month_exec(y, m)
        invariant
            1 <= m <= 12,
            rem <= r1,
            days_before_month(y as int, m as int) + rem == r1,
            r1 < days_in_year(y as int),
            split_month(y as int, 1, r1) == split_month(y as int, m as int, rem as int),
        decreases rem,
    {
        proof {
            lemma_months_in_year(y as int);
            assert(days_before_month(y as int, m as int + 1) == days_before_month(
                y as int,
                m as int,
            ) + days_in_month(y as int, m as int));
        }
        rem = rem - days_in_month_exec(y, m);
        m = m + 1;
    }
    (y, m, rem + 1)
}

/// The character of one decimal digit.
pub open spec fn digit_char(d: int) -> char {
    if d == 0 {
        '0'
    } else if d == 1 {
        '1'
    } else if d == 2 {
        '2'
    } else if d == 3 {
        '3'
    } else if d == 4 {
        '4'
    } else if d == 5 {
        '5'
    } else if d == 6 {
        '6'
    } else if d == 7 {
        '7'
    } else if d == 8 {
        '8'
    } else {
        '9'
    }
}

/// The `w` low decimal digits of `n`, most significant first, zero padded.
pub open spec fn digits(n: int, w: nat) -> Seq<char>
    decreases w,
{
    if w == 0 {
        Seq::empty()
    } else {
        digits(n / 10, (w - 1) as nat).push(digit_char(n % 10))
    }
}

pub proof fn lemma_digits_len(n: int, w: nat)
    ensures
        digits(n, w).len() == w,
    decreases w,
{
    if w > 0 {
        lemma_digits_len(n / 10, (w - 1) as nat);
    }
}

/// Ten to the `w`.
pub open spec fn pow10(w: nat) -> int
    decreases w,
{
    if w == 0 {
        1
    } else {
        10 * pow10((w - 1) as nat)
    }
}

/// Fixed-width decimal digit runs are injective below their capacity.
pub proof fn lemma_digits_injective(a: int, b: int, w: nat)
    requires
        0 <= a < pow10(w),
        0 <= b < pow10(w),
        digits(a, w) == digits(b, w),
    ensures
        a == b,
    decreases w,
{
    if w > 0 {
        lemma_digits_len(a / 10, (w - 1) as nat);
        lemma_digits_len(b / 10, (w - 1) as nat);
        assert(digits(a, w).last() == digit_char(a % 10));
        assert(digits(b, w).last() == digit_char(b % 10));
        assert(a % 10 == b % 10);
        assert(digits(a / 10, (w - 1) as nat) =~= digits(b / 10, (w - 1) as nat)) by {
            let da = digits(a / 10, (w - 1) as nat);
            let db = digits(b / 10, (w - 1) as nat);
            assert forall|i: int| 0 <= i < da.len() implies da[i] == db[i] by {
                assert(da[i] == digits(a, w)[i]);
                assert(db[i] == digits(b, w)[i]);
            }
        }
        assert(a / 10 < pow10((w - 1) as nat)) by {
            lemma_fundamental_div_mod(a, 10);
        }
        assert(b / 10 < pow10((w - 1) as nat)) by {
            lemma_fundamental_div_mod(b, 10);
        }
        lemma_digits_injective(a / 10, b / 10, (w - 1) as nat);
        lemma_fundamental_div_mod(a, 10);
        lemma_fundamental_div_mod(b, 10);
    }
}

/// The eight-character `YYYYMMDD` name of the UTC day of a timestamp.
pub open spec fn date_seq(ts: u32) -> Seq<char> {
    let (y, m, d) = date_of_day_number(ts as int / 86400);
    digits(y * 10000 + m * 100 + d, 8)
}

/// The two-character name of the UTC hour of day of a timestamp.
pub open spec fn hour_seq(ts: u32) -> Seq<char> {
    digits((ts as int % 86400) / 3600, 2)
}

/// The day directory of a write: `root/table/YYYYMMDD`.
pub open spec fn day_dir_of(root: Seq<char>, table: Seq<char>, ts: u32) -> Seq<char> {
    root + seq!['/'] + table + seq!['/'] + date_seq(ts)
}

/// The shard file of a write: `root/table/YYYYMMDD/HH`.
pub open spec fn path_of(root: Seq<char>, table: Seq<char>, ts: u32) -> Seq<char> {
    day_dir_of(root, table, ts) + seq!['/'] + hour_seq(ts)
}

fn digit_str(d: u32) -> (r: &'static str)
    requires
        d < 10,
    ensures
        r@ == seq![digit_char(d as int)],
{
    let s = match d {
        0 => "0",
        1 => "1",
        2 => "2",
        3 => "3",
        4 => "4",
        5 => "5",
        6 => "6",
        7 => "7",
        8 => "8",
        _ => "9",
    };
    proof {
        reveal_strlit("0");
        reveal_strlit("1");
        reveal_strlit("2");
        reveal_strlit("3");
        reveal_strlit("4");
        reveal_strlit("5");
        reveal_strlit("6");
        reveal_strlit("7");
        reveal_strlit("8");
        reveal_strlit("9");
        assert(s@ =~= seq![digit_char(d as int)]);
    }
    s
}

/// The characters of a digit run, last digit first.
spec fn rev_digit_chars(ds: Seq<u32>) -> Seq<char>
    decreases ds.len(),
{
    if ds.len() == 0 {
        Seq::empty()
    } else {
        rev_digit_chars(ds.drop_first()) + seq![digit_char(ds.first() as int)]
    }
}

proof fn lemma_rev_digit_chars_push(ds: Seq<u32>, x: u32)
    ensures
        rev_digit_chars(ds.push(x)) == seq![digit_char(x as int)] + rev_digit_chars(ds),
    decreases ds.len(),
{
    if ds.len() == 0 {
        let p = ds.push(x);
        assert(p.drop_first() =~= Seq::<u32>::empty());
        assert(p.first() == x);
        assert(rev_digit_chars(p) == rev_digit_chars(p.drop_first()) + seq![
            digit_char(p.first() as int),
        ]);
        assert(rev_digit_chars(p.drop_first()) =~= Seq::<char>::empty());
        assert(rev_digit_chars(ds) =~= Seq::<char>::empty());
        assert(rev_digit_chars(p) =~= seq![digit_char(x as int)] + rev_digit_chars(ds));
    } else {
        assert(ds.push(x).drop_first() =~= ds.drop_first().push(x));
        lemma_rev_digit_chars_push(ds.drop_first(), x);
        assert(ds.push(x).first() == ds.first());
        assert((seq![digit_char(x as int)] + rev_digit_chars(ds.drop_first())) + seq![
            digit_char(ds.first() as int),
        ] =~= seq![digit_char(x as int)] + (rev_digit_chars(ds.drop_first()) + seq![
            digit_char(ds.first() as int),
        ]));
    }
}

/// Appends the `w` low decimal digits of `n`, most significant first, zero
/// padded.
fn push_digits(s: &mut String, n: u32, w: usize)
    ensures
        final(s)@ == old(s)@ + digits(n as int, w as nat),
{
    let mut ds: Vec<u32> = Vec::new();
    let mut v: u32 = n;
    let mut i: usize = 0;
    proof {
        assert(digits(n as int, w as nat) =~= digits(n as int, w as nat) + rev_digit_chars(
            Seq::empty(),
        ));
    }
    while i < w
        invariant
            i <= w,
            ds@.len() == i,
            forall|k: int| 0 <= k < i ==> ds@[k] < 10,
            digits(n as int, w as nat) == digits(v as int, (w - i) as nat) + rev_digit_chars(ds@),
        decreases w - i,
    {
        let dgt = v % 10;
        proof {
            lemma_rev_digit_chars_push(ds@, dgt);
            assert(digits(v as int, (w - i) as nat) == digits(v as int / 10, (w - i - 1) as nat)
                + seq![digit_char(v as int % 10)]) by {
                assert(digits(v as int, (w - i) as nat) == digits(
                    v as int / 10,
                    (w - i - 1) as nat,
                ).push(digit_char(v as int % 10)));
                assert(digits(v as int / 10, (w - i - 1) as nat).push(
                    digit_char(v as int % 10),
                ) =~= digits(v as int / 10, (w - i - 1) as nat) + seq![digit_char(v as int % 10)]);
            }
            assert((digits(v as int / 10, (w - i - 1) as nat) + seq![digit_char(v as int % 10)])
                + rev_digit_chars(ds@) =~= digits(v as int / 10, (w - i - 1) as nat) + (seq![
                digit_char(v as int % 10),
            ] + rev_digit_chars(ds@)));
        }
        ds.push(dgt);
        v = v / 10;
        i = i + 1;
    }
    proof {
        assert(digits(n as int, w as nat) =~= rev_digit_chars(ds@));
        assert(ds@.skip(w as int) =~= Seq::<u32>::empty());
        assert(s@ + rev_digit_chars(ds@.skip(w as int)) =~= s@);
    }
    let mut j: usize = w;
    while j > 0
        invariant
            j <= w,
            ds@.len() == w,
            forall|k: int| 0 <= k < w ==> ds@[k] < 10,
            digits(n as int, w as nat) == rev_digit_chars(ds@),
            s@ == old(s)@ + rev_digit_chars(ds@.skip(j as int)),
        decreases j,
    {
        j = j - 1;
        let c = digit_str(ds[j]);
        proof {
            assert(ds@.skip(j as int).drop_first() =~= ds@.skip(j as int + 1));
            assert(ds@.skip(j as int).first() == ds@[j as int]);
            assert(rev_digit_chars(ds@.skip(j as int)) == rev_digit_chars(ds@.skip(j as int + 1))
                + seq![digit_char(ds@[j as int] as int)]);
            assert((old(s)@ + rev_digit_chars(ds@.skip(j as int + 1))) + seq![
                digit_char(ds@[j as int] as int),
            ] =~= old(s)@ + (rev_digit_chars(ds@.skip(j as int + 1)) + seq![
                digit_char(ds@[j as int] as int),
            ]));
        }
        s.append(c);
    }
    proof {
        assert(ds@.skip(0) =~= ds@);
    }
}

/// Appends `/` to a path under construction.
fn push_slash(s: &mut String)
    ensures
        final(s)@ == old(s)@ + seq!['/'],
{
    proof {
        reveal_strlit("/");
        assert("/"@ =~= seq!['/']);
    }
    s.append("/");
}

/// Resolves the shard file path of a write: `root/table/YYYYMMDD/HH`, with
/// the date and hour of `ts` in the UTC calendar. Pure and total: no I/O,
/// no error cases.
pub fn resolve(root: &str, table: &str, ts: u32) -> (p: String)
    ensures
        p@ == path_of(root@, table@, ts),
{
    let mut p = day_dir(root, table, ts);
    push_slash(&mut p);
    let hour = (ts % 86400) / 3600;
    push_digits(&mut p, hour, 2);
    assert(p@ =~= path_of(root@, table@, ts));
    p
}

/// The hour bucket of a timestamp: all timestamps of one calendar hour — and
/// no others — share it.
pub open spec fn hour_bucket(ts: u32) -> int {
    ts as int / 3600
}

/// An hour bucket is the day number and the hour of day, combined.
proof fn lemma_bucket_day_hour(t: u32)
    ensures
        0 <= (t as int % 86400) / 3600 < 24,
        hour_bucket(t) == 24 * (t as int / 86400) + (t as int % 86400) / 3600,
{
    let ti = t as int;
    lemma_fundamental_div_mod(ti, 86400);
    let q = ti / 86400;
    let r = ti % 86400;
    lemma_fundamental_div_mod(r, 3600);
    let h = r / 3600;
    let r2 = r % 3600;
    assert(3600 * (24 * q + h) == 86400 * q + 3600 * h) by (nonlinear_arith);
    assert(ti == 3600 * (24 * q + h) + r2);
    lemma_fundamental_div_mod_converse_div(ti, 3600, 24 * q + h, r2);
}

/// Shard determinism: two timestamps resolve to the same shard path, for the
/// same root and table, exactly when they fall in the same calendar hour.
pub proof fn lemma_shard_determinism(root: Seq<char>, table: Seq<char>, t1: u32, t2: u32)
    ensures
        (path_of(root, table, t1) == path_of(root, table, t2)) <==> (hour_bucket(t1)
            == hour_bucket(t2)),
{
    lemma_bucket_day_hour(t1);
    lemma_bucket_day_hour(t2);
    let d1 = t1 as int / 86400;
    let d2 = t2 as int / 86400;
    let h1 = (t1 as int % 86400) / 3600;
    let h2 = (t2 as int % 86400) / 3600;
    vstd::arithmetic::div_mod::lemma_multiply_divide_lt(t1 as int, 86400, 49711);
    vstd::arithmetic::div_mod::lemma_multiply_divide_lt(t2 as int, 86400, 49711);
    lemma_date_of_day_number(d1);
    lemma_date_of_day_number(d2);
    let (y1, m1, dd1) = date_of_day_number(d1);
    let (y2, m2, dd2) = date_of_day_number(d2);
    let n1 = y1 * 10000 + m1 * 100 + dd1;
    let n2 = y2 * 10000 + m2 * 100 + dd2;
    lemma_digits_len(n1, 8);
    lemma_digits_len(n2, 8);
    lemma_digits_len(h1, 2);
    lemma_digits_len(h2, 2);
    if hour_bucket(t1) == hour_bucket(t2) {
        assert(d1 == d2 && h1 == h2);
        assert(path_of(root, table, t1) == path_of(root, table, t2));
    }
    if path_of(root, table, t1) == path_of(root, table, t2) {
        let p1 = path_of(root, table, t1);
        let p2 = path_of(root, table, t2);
        let base = root.len() + 1 + table.len() + 1;
        assert(date_seq(t1) =~= date_seq(t2)) by {
            assert(p1.len() == base + 11);
            assert forall|i: int| 0 <= i < 8 implies date_seq(t1)[i] == date_seq(t2)[i] by {
                assert(p1[base + i] == date_seq(t1)[i]);
                assert(p2[base + i] == date_seq(t2)[i]);
            }
        }
        assert(hour_seq(t1) =~= hour_seq(t2)) by {
            assert(p1.len() == base + 11);
            assert forall|i: int| 0 <= i < 2 implies hour_seq(t1)[i] == hour_seq(t2)[i] by {
                assert(p1[base + 9 + i] == hour_seq(t1)[i]);
                assert(p2[base + 9 + i] == hour_seq(t2)[i]);
            }
        }
        reveal_with_fuel(pow10, 9);
        assert(y1 <= 2106 && y2 <= 2106);
        assert(0 <= n1 < pow10(8) && 0 <= n2 < pow10(8));
        lemma_digits_injective(n1, n2, 8);
        assert(y1 == y2 && m1 == m2 && dd1 == dd2);
        assert(d1 == d2);
        lemma_digits_injective(h1, h2, 2);
        assert(hour_bucket(t1) == hour_bucket(t2));
    }
}

/// Resolves the day directory of a write: `root/table/YYYYMMDD`.
pub fn day_dir(root: &str, table: &str, ts: u32) -> (p: String)
    ensures
        p@ == day_dir_of(root@, table@, ts),
{
    let days = ts / 86400;
    let (y, m, d) = date_of_days(days);
    let date_num = y * 10000 + m * 100 + d;
    let mut p = root.to_owned();
    push_slash(&mut p);
    p.append(table);
    push_slash(&mut p);
    push_digits(&mut p, date_num, 8);
    proof {
        assert(ts as int / 86400 == days as int);
        assert(p@ =~= day_dir_of(root@, table@, ts));
    }
    p
}

} // verus!
