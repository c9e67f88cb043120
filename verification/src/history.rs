//! Replay history: the entries kept per config file, how a new run is
//! recorded, which entry `again` replays, the SHA-256 fingerprint of a
//! config, and the UTC timestamps of runs.
use vstd::prelude::*;
use sha2::{Digest, Sha256};
use std::time::{Duration, SystemTime};
use crate::text::{views, copy_string, string_from_chars, push_str, push_decimal, decimal,
    digit_char, str_eq};
use crate::config::copy_strings;

verus! {

// ---------------------------------------------------------------------------
// Entries
// ---------------------------------------------------------------------------

/// One run: the config it used, that config's fingerprint, the steps that
/// ran, in order, and when.
#[derive(Debug, Clone)]
pub struct HistoryEntry {
    /// Absolute path to the config file used.
    pub config_path: String,
    /// SHA-256 hex digest of the config file's bytes at the time of the run.
    pub config_sha256: String,
    /// The names of the steps that ran, in order.
    pub selected: Vec<String>,
    /// RFC 3339 timestamp of the run.
    pub timestamp: String,
}

/// An entry, every string taken by view.
pub struct EntryView {
    pub config_path: Seq<char>,
    pub config_sha256: Seq<char>,
    pub selected: Seq<Seq<char>>,
    pub timestamp: Seq<char>,
}

impl View for HistoryEntry {
    type V = EntryView;

    open spec fn view(&self) -> EntryView {
        EntryView {
            config_path: self.config_path@,
            config_sha256: self.config_sha256@,
            selected: views(self.selected@),
            timestamp: self.timestamp@,
        }
    }
}

impl HistoryEntry {
    /// A copy of the entry.
    pub fn duplicate(&self) -> (r: HistoryEntry)
        ensures
            r@ == self@,
    {
        HistoryEntry {
            config_path: copy_string(&self.config_path),
            config_sha256: copy_string(&self.config_sha256),
            selected: copy_strings(&self.selected),
            timestamp: copy_string(&self.timestamp),
        }
    }
}

/// The whole history file.
#[derive(Debug)]
pub struct History {
    pub version: u32,
    pub entries: Vec<HistoryEntry>,
}

/// The views of a list of entries.
pub open spec fn entry_views(es: Seq<HistoryEntry>) -> Seq<EntryView> {
    es.map_values(|e: HistoryEntry| e@)
}

impl Default for History {
    fn default() -> (h: History)
        ensures
            h.version == 0,
            h.entries@.len() == 0,
    {
        History { version: 0, entries: Vec::new() }
    }
}

/// How many runs of one config the history keeps.
pub const MAX_ENTRIES_PER_CONFIG: usize = 10;

// ---------------------------------------------------------------------------
// Recording a run
// ---------------------------------------------------------------------------

/// The number of entries for config `p`.
pub open spec fn count_for(es: Seq<EntryView>, p: Seq<char>) -> nat
    decreases es.len(),
{
    if es.len() == 0 {
        0
    } else {
        count_for(es.drop_last(), p) + if es.last().config_path == p { 1nat } else { 0nat }
    }
}

/// `es` without its `k` oldest entries for config `p`.
pub open spec fn without_oldest(es: Seq<EntryView>, p: Seq<char>, k: nat) -> Seq<EntryView>
    decreases es.len(),
{
    if es.len() == 0 {
        seq![]
    } else if es.last().config_path == p && count_for(es.drop_last(), p) < k {
        without_oldest(es.drop_last(), p, k)
    } else {
        without_oldest(es.drop_last(), p, k).push(es.last())
    }
}

/// The entries after recording `e`: enough of the oldest entries for its
/// config are dropped that, with `e` appended, the config keeps at most
/// `MAX_ENTRIES_PER_CONFIG`.
pub open spec fn recorded(es: Seq<EntryView>, e: EntryView) -> Seq<EntryView> {
    let c = count_for(es, e.config_path);
    let k: nat = if c >= MAX_ENTRIES_PER_CONFIG { (c - (MAX_ENTRIES_PER_CONFIG - 1)) as nat } else { 0 };
    without_oldest(es, e.config_path, k).push(e)
}

/// Records a run in `history`, evicting the oldest runs of the same config
/// beyond the limit, and marks the history as version 1.
pub fn record_entry(history: &mut History, entry: HistoryEntry)
    ensures
        final(history).version == 1,
        entry_views(final(history).entries@) == recorded(entry_views(old(history).entries@), entry@),
{
    let ghost es = entry_views(history.entries@);
    let ghost p = entry@.config_path;
    // Count the entries of this config.
    let mut c: usize = 0;
    let mut i: usize = 0;
    while i < history.entries.len()
        invariant
            es == entry_views(history.entries@),
            p == entry@.config_path,
            i <= history.entries@.len(),
            c as nat == count_for(es.take(i as int), p),
            c <= i,
        decreases history.entries@.len() - i,
    {
        let ghost t = es.take(i + 1);
        assert(t.drop_last() =~= es.take(i as int));
        assert(t.last() == history.entries@[i as int]@);
        if str_eq(history.entries[i].config_path.as_str(), entry.config_path.as_str()) {
            c = c + 1;
        }
        i = i + 1;
    }
    assert(es.take(i as int) =~= es);
    let k: usize = if c >= MAX_ENTRIES_PER_CONFIG { c - (MAX_ENTRIES_PER_CONFIG - 1) } else { 0 };
    // Keep all but the `k` oldest entries of this config.
    let mut kept: Vec<HistoryEntry> = Vec::new();
    let mut seen: usize = 0;
    let mut j: usize = 0;
    assert(es.take(0) =~= Seq::<EntryView>::empty());
    while j < history.entries.len()
        invariant
            es == entry_views(history.entries@),
            p == entry@.config_path,
            j <= history.entries@.len(),
            seen as nat == count_for(es.take(j as int), p),
            seen <= j,
            entry_views(kept@) == without_oldest(es.take(j as int), p, k as nat),
        decreases history.entries@.len() - j,
    {
        let ghost t = es.take(j + 1);
        assert(t.drop_last() =~= es.take(j as int));
        assert(t.last() == history.entries@[j as int]@);
        let ghost before = entry_views(kept@);
        let same = str_eq(history.entries[j].config_path.as_str(), entry.config_path.as_str());
        if same && seen < k {
            seen = seen + 1;
        } else {
            if same {
                seen = seen + 1;
            }
            let d = history.entries[j].duplicate();
            kept.push(d);
            assert(entry_views(kept@) =~= before.push(d@));
        }
        j = j + 1;
    }
    assert(es.take(j as int) =~= es);
    let ghost ev = entry@;
    let ghost before = entry_views(kept@);
    kept.push(entry);
    assert(entry_views(kept@) =~= before.push(ev));
    history.entries = kept;
    history.version = 1;
}

// ---------------------------------------------------------------------------
// Finding the run to replay
// ---------------------------------------------------------------------------

/// The most recent entry for config `p`.
pub open spec fn latest_for(es: Seq<EntryView>, p: Seq<char>) -> Option<EntryView>
    decreases es.len(),
{
    if es.len() == 0 {
        None
    } else if es.last().config_path == p {
        Some(es.last())
    } else {
        latest_for(es.drop_last(), p)
    }
}

/// The view of an optional entry.
pub open spec fn opt_entry_view(o: Option<HistoryEntry>) -> Option<EntryView> {
    match o {
        Some(e) => Some(e@),
        None => None,
    }
}

/// The most recent entry of `history` for the config at `config_path`.
pub fn latest_entry_for(history: &History, config_path: &str) -> (r: Option<HistoryEntry>)
    ensures
        opt_entry_view(r) == latest_for(entry_views(history.entries@), config_path@),
{
    let ghost es = entry_views(history.entries@);
    let mut i: usize = history.entries.len();
    assert(es.take(i as int) =~= es);
    while i > 0
        invariant
            es == entry_views(history.entries@),
            i <= history.entries@.len(),
            latest_for(es.take(i as int), config_path@) == latest_for(es, config_path@),
        decreases i,
    {
        let ghost t = es.take(i as int);
        assert(t.drop_last() =~= es.take(i - 1));
        assert(t.last() == history.entries@[i - 1]@);
        if str_eq(history.entries[i - 1].config_path.as_str(), config_path) {
            return Some(history.entries[i - 1].duplicate());
        }
        i = i - 1;
    }
    None
}

// ---------------------------------------------------------------------------
// Laws of the history
// ---------------------------------------------------------------------------

proof fn lemma_count_without_oldest(es: Seq<EntryView>, p: Seq<char>, k: nat)
    ensures
        count_for(without_oldest(es, p, k), p) == if count_for(es, p) >= k {
            (count_for(es, p) - k) as nat
        } else {
            0nat
        },
    decreases es.len(),
{
    if es.len() > 0 {
        lemma_count_without_oldest(es.drop_last(), p, k);
        let w = without_oldest(es.drop_last(), p, k);
        if !(es.last().config_path == p && count_for(es.drop_last(), p) < k) {
            assert(w.push(es.last()).drop_last() =~= w);
        }
    }
}

proof fn lemma_latest_without_oldest(es: Seq<EntryView>, p: Seq<char>, k: nat, q: Seq<char>)
    requires
        q != p,
    ensures
        latest_for(without_oldest(es, p, k), q) == latest_for(es, q),
        count_for(without_oldest(es, p, k), q) == count_for(es, q),
    decreases es.len(),
{
    if es.len() > 0 {
        lemma_latest_without_oldest(es.drop_last(), p, k, q);
        let w = without_oldest(es.drop_last(), p, k);
        if !(es.last().config_path == p && count_for(es.drop_last(), p) < k) {
            assert(w.push(es.last()).drop_last() =~= w);
        }
    }
}

/// After a run is recorded, replaying its config finds exactly that run.
pub proof fn law_latest_after_record(es: Seq<EntryView>, e: EntryView)
    ensures
        latest_for(recorded(es, e), e.config_path) == Some(e),
{
    let w = recorded(es, e);
    assert(w.drop_last() =~= without_oldest(es, e.config_path,
        if count_for(es, e.config_path) >= MAX_ENTRIES_PER_CONFIG {
            (count_for(es, e.config_path) - (MAX_ENTRIES_PER_CONFIG - 1)) as nat
        } else {
            0
        }));
}

/// After a run is recorded, its config has at most `MAX_ENTRIES_PER_CONFIG`
/// entries, one more than before while under the limit.
pub proof fn law_record_keeps_at_most_ten(es: Seq<EntryView>, e: EntryView)
    ensures
        count_for(recorded(es, e), e.config_path) <= MAX_ENTRIES_PER_CONFIG,
        count_for(es, e.config_path) < MAX_ENTRIES_PER_CONFIG ==> count_for(recorded(es, e), e.config_path)
            == count_for(es, e.config_path) + 1,
{
    let c = count_for(es, e.config_path);
    let k: nat = if c >= MAX_ENTRIES_PER_CONFIG { (c - (MAX_ENTRIES_PER_CONFIG - 1)) as nat } else { 0 };
    lemma_count_without_oldest(es, e.config_path, k);
    let w = without_oldest(es, e.config_path, k);
    assert(w.push(e).drop_last() =~= w);
}

/// Recording a run leaves what every other config would replay, and how
/// many runs it has, unchanged.
pub proof fn law_record_leaves_other_configs(es: Seq<EntryView>, e: EntryView, q: Seq<char>)
    requires
        q != e.config_path,
    ensures
        latest_for(recorded(es, e), q) == latest_for(es, q),
        count_for(recorded(es, e), q) == count_for(es, q),
{
    let c = count_for(es, e.config_path);
    let k: nat = if c >= MAX_ENTRIES_PER_CONFIG { (c - (MAX_ENTRIES_PER_CONFIG - 1)) as nat } else { 0 };
    lemma_latest_without_oldest(es, e.config_path, k, q);
    let w = without_oldest(es, e.config_path, k);
    assert(w.push(e).drop_last() =~= w);
}

// ---------------------------------------------------------------------------
// Config fingerprints
// ---------------------------------------------------------------------------

/// The SHA-256 digest of `bytes`, as the `sha2` crate computes it.
pub uninterp spec fn sha256_digest(bytes: Seq<u8>) -> Seq<u8>;

/// Calls `Sha256::digest` of the `sha2` crate. Its output type holds 32
/// bytes; what they are is named, not stated.
#[verifier::external_body]
fn sha256_bytes(bytes: &[u8]) -> (r: Vec<u8>)
    ensures
        r@ == sha256_digest(bytes@),
        r@.len() == 32,
{
    Sha256::digest(bytes).to_vec()
}

/// The lowercase hexadecimal digit for `d < 16`.
pub open spec fn hex_digit(d: nat) -> char {
    if d < 10 {
        digit_char(d)
    } else if d == 10 { 'a' } else if d == 11 { 'b' } else if d == 12 { 'c' } else if d == 13 { 'd' }
    else if d == 14 { 'e' } else { 'f' }
}

/// Two lowercase hexadecimal digits per byte, high nibble first.
pub open spec fn hex_lower(bytes: Seq<u8>) -> Seq<char>
    decreases bytes.len(),
{
    if bytes.len() == 0 {
        seq![]
    } else {
        hex_lower(bytes.drop_last()) + seq![hex_digit(bytes.last() as nat / 16), hex_digit(bytes.last() as nat % 16)]
    }
}

fn hex_digit_exec(d: u8) -> (c: char)
    requires
        d < 16,
    ensures
        c == hex_digit(d as nat),
{
    if d < 10 {
        if d == 0 { '0' } else if d == 1 { '1' } else if d == 2 { '2' } else if d == 3 { '3' }
        else if d == 4 { '4' } else if d == 5 { '5' } else if d == 6 { '6' } else if d == 7 { '7' }
        else if d == 8 { '8' } else { '9' }
    } else if d == 10 { 'a' } else if d == 11 { 'b' } else if d == 12 { 'c' } else if d == 13 { 'd' }
    else if d == 14 { 'e' } else { 'f' }
}

/// Lowercase hexadecimal notation of `bytes`.
pub fn hex_string(bytes: &Vec<u8>) -> (r: String)
    ensures
        r@ == hex_lower(bytes@),
        r@.len() == 2 * bytes@.len(),
{
    let mut out: Vec<char> = Vec::new();
    let mut i: usize = 0;
    while i < bytes.len()
        invariant
            i <= bytes@.len(),
            out@ == hex_lower(bytes@.take(i as int)),
            out@.len() == 2 * i,
        decreases bytes@.len() - i,
    {
        let b: u8 = bytes[i];
        let ghost t = bytes@.take(i + 1);
        assert(t.drop_last() =~= bytes@.take(i as int));
        out.push(hex_digit_exec(b / 16));
        out.push(hex_digit_exec(b % 16));
        i = i + 1;
    }
    assert(bytes@.take(i as int) =~= bytes@);
    string_from_chars(&out)
}

/// The SHA-256 digest of `bytes` in lowercase hexadecimal, 64 characters.
pub fn sha256_hex(bytes: &[u8]) -> (r: String)
    ensures
        r@ == hex_lower(sha256_digest(bytes@)),
        r@.len() == 64,
{
    let d: Vec<u8> = sha256_bytes(bytes);
    hex_string(&d)
}

// ---------------------------------------------------------------------------
// Timestamps
// ---------------------------------------------------------------------------

/// Gregorian leap years.
pub open spec fn is_leap_year(y: int) -> bool {
    (y % 4 == 0 && y % 100 != 0) || y % 400 == 0
}

/// The number of days of year `y`.
pub open spec fn year_days(y: int) -> nat {
    if is_leap_year(y) { 366 } else { 365 }
}

/// Days from 1970-01-01 to the first day of year `y`.
pub open spec fn days_before_year(y: int) -> nat
    decreases y - 1970,
{
    if y <= 1970 {
        0
    } else {
        days_before_year(y - 1) + year_days(y - 1)
    }
}

/// The number of days of month `m` (1 to 12).
pub open spec fn month_days(leap: bool, m: int) -> nat {
    if m == 2 {
        if leap { 29 } else { 28 }
    } else if m == 4 || m == 6 || m == 9 || m == 11 {
        30
    } else {
        31
    }
}

/// Days from the first of the year to the first of month `m`.
pub open spec fn days_before_month(leap: bool, m: int) -> nat
    decreases m,
{
    if m <= 1 {
        0
    } else {
        days_before_month(leap, m - 1) + month_days(leap, m - 1)
    }
}

/// A UTC date and time: year, month, day, hour, minute, second.
pub type DateTime = (u64, u64, u64, u64, u64, u64);

/// A date and time on or after the epoch, every field in its range.
pub open spec fn is_calendar_time(t: DateTime) -> bool {
    &&& t.0 >= 1970
    &&& 1 <= t.1 <= 12
    &&& 1 <= t.2 <= month_days(is_leap_year(t.0 as int), t.1 as int)
    &&& t.3 < 24
    &&& t.4 < 60
    &&& t.5 < 60
}

/// Seconds from 1970-01-01T00:00:00Z to `t`.
pub open spec fn epoch_seconds(t: DateTime) -> int {
    (days_before_year(t.0 as int) + days_before_month(is_leap_year(t.0 as int), t.1 as int) + t.2 - 1)
        * 86400 + t.3 * 3600 + t.4 * 60 + t.5
}

fn is_leap(year: u64) -> (r: bool)
    ensures
        r == is_leap_year(year as int),
{
    (year % 4 == 0 && year % 100 != 0) || year % 400 == 0
}

proof fn lemma_days_before_year_grows(y: int)
    requires
        y >= 1970,
    ensures
        days_before_year(y) >= 365 * (y - 1970),
    decreases y - 1970,
{
    if y > 1970 {
        lemma_days_before_year_grows(y - 1);
    }
}

/// Splits a day count since the epoch into a year and the day of that year.
fn split_years(total: u64) -> (r: (u64, u64))
    requires
        total <= u64::MAX / 86400,
    ensures
        r.0 >= 1970,
        total == days_before_year(r.0 as int) + r.1,
        r.1 < year_days(r.0 as int),
{
    let mut days = total;
    let mut year: u64 = 1970;
    loop
        invariant
            year >= 1970,
            total <= u64::MAX / 86400,
            total == days_before_year(year as int) + days,
        decreases days,
    {
        proof {
            lemma_days_before_year_grows(year as int);
        }
        let diy: u64 = if is_leap(year) { 366 } else { 365 };
        if days < diy {
            return (year, days);
        }
        days = days - diy;
        year = year + 1;
    }
}

fn month_length(leap: bool, m: u64) -> (r: u64)
    ensures
        r == month_days(leap, m as int),
{
    if m == 2 {
        if leap { 29 } else { 28 }
    } else if m == 4 || m == 6 || m == 9 || m == 11 {
        30
    } else {
        31
    }
}

proof fn lemma_months_fill_year(leap: bool)
    ensures
        days_before_month(leap, 12) + month_days(leap, 12) == if leap { 366nat } else { 365nat },
{
    reveal_with_fuel(days_before_month, 13);
}

/// Splits a day of the year into a month and the day of that month.
fn split_months(leap: bool, days: u64) -> (r: (u64, u64))
    requires
        days < if leap { 366u64 } else { 365u64 },
    ensures
        1 <= r.0 <= 12,
        days == days_before_month(leap, r.0 as int) + r.1,
        r.1 < month_days(leap, r.0 as int),
{
    proof {
        lemma_months_fill_year(leap);
    }
    let mut d = days;
    let mut month: u64 = 1;
    loop
        invariant
            1 <= month <= 12,
            days < if leap { 366u64 } else { 365u64 },
            days == days_before_month(leap, month as int) + d,
            days_before_month(leap, 12) + month_days(leap, 12) == if leap { 366nat } else { 365nat },
        decreases 12 - month,
    {
        let md: u64 = month_length(leap, month);
        if d < md {
            return (month, d);
        }
        d = d - md;
        month = month + 1;
    }
}

/// The UTC date and time `secs` seconds after the epoch.
pub fn unix_secs_to_datetime(secs: u64) -> (t: DateTime)
    ensures
        is_calendar_time(t),
        epoch_seconds(t) == secs,
{
    let second: u64 = secs % 60;
    let m1: u64 = secs / 60;
    let minute: u64 = m1 % 60;
    let h1: u64 = m1 / 60;
    let hour: u64 = h1 % 24;
    let days: u64 = h1 / 24;
    assert(secs == days * 86400 + hour * 3600 + minute * 60 + second) by (nonlinear_arith)
        requires
            second == secs % 60,
            m1 == secs / 60,
            minute == m1 % 60,
            h1 == m1 / 60,
            hour == h1 % 24,
            days == h1 / 24,
    {
        assert(secs == m1 * 60 + second);
        assert(m1 == h1 * 60 + minute);
        assert(h1 == days * 24 + hour);
    }
    assert(days <= u64::MAX / 86400) by (nonlinear_arith)
        requires
            secs == days * 86400 + hour * 3600 + minute * 60 + second,
            hour >= 0,
            minute >= 0,
            second >= 0,
            secs <= u64::MAX,
    ;
    let (year, yday) = split_years(days);
    let leap = is_leap(year);
    let (month, mday) = split_months(leap, yday);
    (year, month, mday + 1, hour, minute, second)
}

proof fn lemma_days_before_year_step(a: int, b: int)
    requires
        1970 <= a < b,
    ensures
        days_before_year(b) >= days_before_year(a) + year_days(a),
    decreases b - a,
{
    if b > a + 1 {
        lemma_days_before_year_step(a, b - 1);
    }
}

proof fn lemma_days_before_month_step(leap: bool, a: int, b: int)
    requires
        1 <= a < b,
    ensures
        days_before_month(leap, b) >= days_before_month(leap, a) + month_days(leap, a),
    decreases b - a,
{
    if b > a + 1 {
        lemma_days_before_month_step(leap, a, b - 1);
    }
}

proof fn lemma_day_within_year(t: DateTime)
    requires
        is_calendar_time(t),
    ensures
        days_before_month(is_leap_year(t.0 as int), t.1 as int) + t.2 - 1 < year_days(t.0 as int),
{
    let leap = is_leap_year(t.0 as int);
    lemma_months_fill_year(leap);
    if t.1 < 12 {
        lemma_days_before_month_step(leap, t.1 as int, 12);
    }
}

proof fn lemma_split_day(d1: int, s1: int, d2: int, s2: int)
    requires
        0 <= s1 < 86400,
        0 <= s2 < 86400,
        d1 >= 0,
        d2 >= 0,
        d1 * 86400 + s1 == d2 * 86400 + s2,
    ensures
        d1 == d2,
        s1 == s2,
{
    assert(d1 == d2) by (nonlinear_arith)
        requires
            0 <= s1 < 86400,
            0 <= s2 < 86400,
            d1 * 86400 + s1 == d2 * 86400 + s2,
    ;
}

/// A number of seconds since the epoch names one date and time: two calendar
/// times with the same epoch seconds are the same, so the date and time that
/// `unix_secs_to_datetime` gives back is the only one for its input.
pub proof fn law_calendar_time_unique(a: DateTime, b: DateTime)
    requires
        is_calendar_time(a),
        is_calendar_time(b),
        epoch_seconds(a) == epoch_seconds(b),
    ensures
        a == b,
{
    let la = is_leap_year(a.0 as int);
    let lb = is_leap_year(b.0 as int);
    let da = days_before_year(a.0 as int) + days_before_month(la, a.1 as int) + a.2 - 1;
    let db = days_before_year(b.0 as int) + days_before_month(lb, b.1 as int) + b.2 - 1;
    let sa = a.3 * 3600 + a.4 * 60 + a.5;
    let sb = b.3 * 3600 + b.4 * 60 + b.5;
    lemma_split_day(da, sa, db, sb);
    lemma_day_within_year(a);
    lemma_day_within_year(b);
    if a.0 < b.0 {
        lemma_days_before_year_step(a.0 as int, b.0 as int);
    } else if b.0 < a.0 {
        lemma_days_before_year_step(b.0 as int, a.0 as int);
    }
    assert(a.0 == b.0);
    if a.1 < b.1 {
        lemma_days_before_month_step(la, a.1 as int, b.1 as int);
    } else if b.1 < a.1 {
        lemma_days_before_month_step(la, b.1 as int, a.1 as int);
    }
    assert(a.1 == b.1);
    assert(a.3 == b.3 && a.4 == b.4 && a.5 == b.5) by (nonlinear_arith)
        requires
            a.3 < 24, a.4 < 60, a.5 < 60, b.3 < 24, b.4 < 60, b.5 < 60,
            a.3 * 3600 + a.4 * 60 + a.5 == b.3 * 3600 + b.4 * 60 + b.5,
    ;
}

/// Two decimal digits of `n < 100`, as `{:02}` writes them.
pub open spec fn two_digits(n: nat) -> Seq<char> {
    seq![digit_char(n / 10), digit_char(n % 10)]
}

/// `n` in decimal, zero-padded to at least four digits, as `{:04}` writes it.
pub open spec fn four_digits(n: nat) -> Seq<char> {
    if n < 10 {
        "000"@ + decimal(n)
    } else if n < 100 {
        "00"@ + decimal(n)
    } else if n < 1000 {
        "0"@ + decimal(n)
    } else {
        decimal(n)
    }
}

/// `t` written as `YYYY-MM-DDTHH:MM:SSZ`.
pub open spec fn rfc3339_text(t: DateTime) -> Seq<char> {
    four_digits(t.0 as nat) + "-"@ + two_digits(t.1 as nat) + "-"@ + two_digits(t.2 as nat) + "T"@
        + two_digits(t.3 as nat) + ":"@ + two_digits(t.4 as nat) + ":"@ + two_digits(t.5 as nat) + "Z"@
}

fn push_two_digits(out: &mut Vec<char>, n: u64)
    requires
        n < 100,
    ensures
        final(out)@ == old(out)@ + two_digits(n as nat),
{
    let mut tmp: Vec<char> = Vec::new();
    push_decimal(&mut tmp, n / 10);
    push_decimal(&mut tmp, n % 10);
    proof {
        reveal_with_fuel(decimal, 2);
        assert(tmp@ =~= two_digits(n as nat));
    }
    let mut i: usize = 0;
    let ghost start = out@;
    while i < tmp.len()
        invariant
            i <= tmp@.len(),
            out@ == start + tmp@.take(i as int),
        decreases tmp@.len() - i,
    {
        out.push(tmp[i]);
        i = i + 1;
        assert(out@ =~= start + tmp@.take(i as int));
    }
    assert(tmp@.take(i as int) =~= tmp@);
}

/// `t` in RFC 3339 form, second precision, UTC.
pub fn format_rfc3339(t: DateTime) -> (r: String)
    requires
        t.1 < 100 && t.2 < 100 && t.3 < 100 && t.4 < 100 && t.5 < 100,
    ensures
        r@ == rfc3339_text(t),
{
    let mut out: Vec<char> = Vec::new();
    if t.0 < 10 {
        push_str(&mut out, "000");
    } else if t.0 < 100 {
        push_str(&mut out, "00");
    } else if t.0 < 1000 {
        push_str(&mut out, "0");
    }
    push_decimal(&mut out, t.0);
    push_str(&mut out, "-");
    push_two_digits(&mut out, t.1);
    push_str(&mut out, "-");
    push_two_digits(&mut out, t.2);
    push_str(&mut out, "T");
    push_two_digits(&mut out, t.3);
    push_str(&mut out, ":");
    push_two_digits(&mut out, t.4);
    push_str(&mut out, ":");
    push_two_digits(&mut out, t.5);
    push_str(&mut out, "Z");
    assert(out@ =~= rfc3339_text(t));
    string_from_chars(&out)
}

/// The RFC 3339 timestamp of the instant `secs` seconds after the epoch.
pub fn rfc3339_from_unix_secs(secs: u64) -> (r: String)
    ensures
        exists|t: DateTime| is_calendar_time(t) && epoch_seconds(t) == secs && r@ == rfc3339_text(t),
{
    let t = unix_secs_to_datetime(secs);
    format_rfc3339(t)
}

#[verifier::external_type_specification]
#[verifier::external_body]
pub struct ExSystemTime(std::time::SystemTime);

/// Calls `SystemTime::now`: the clock, of which nothing is stated.
#[verifier::external_body]
fn system_now() -> SystemTime {
    SystemTime::now()
}

/// Calls `SystemTime::duration_since(UNIX_EPOCH)`, with `None` in place of
/// its error (an instant before the epoch); the duration rests on the clock
/// and is not stated.
#[verifier::external_body]
fn duration_since_epoch(t: &SystemTime) -> Option<Duration> {
    t.duration_since(std::time::UNIX_EPOCH).ok()
}

/// Calls `Duration::as_secs`: the whole seconds of `d`. A duration is opaque
/// here, so nothing is stated of the count.
#[verifier::external_body]
fn whole_seconds(d: &Duration) -> u64 {
    d.as_secs()
}

/// The current time as an RFC 3339 timestamp (UTC, second precision).
pub fn now_rfc3339() -> (r: String)
    ensures
        exists|t: DateTime| is_calendar_time(t) && r@ == rfc3339_text(t),
{
    let now = system_now();
    let secs: u64 = match duration_since_epoch(&now) {
        Some(d) => whole_seconds(&d),
        None => 0,
    };
    rfc3339_from_unix_secs(secs)
}

} // verus!
