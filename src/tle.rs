//! The orbital-element store: element records ordered by epoch.
use crate::calendar::{
    days_before_year, lemma_days_before_year_bounds, ordinal_midnight, year_length, SECONDS_PER_DAY,
};
use crate::digits::{all_digits, digits_value, lemma_pow10_max, lemma_pow10_monotone, pow10, read_digits, MAX_DIGITS};
use crate::ParseError;
use vstd::prelude::*;
use vstd::slice::slice_subrange;

verus! {

/// Two-digit years below this pivot are in the 2000s, the others in the 1900s.
pub const CENTURY_PIVOT: u64 = 57;

/// Where the epoch field of an element record's first line starts and ends.
pub const EPOCH_FIELD_START: usize = 18;
pub const EPOCH_FIELD_END: usize = 32;

pub open spec fn full_year(yy: int) -> int {
    if yy < CENTURY_PIVOT { 2000 + yy } else { 1900 + yy }
}

/// Index of the first `.` at or after `from`, or the length where there is none.
pub open spec fn dot_index(s: Seq<u8>, from: int) -> int
    decreases s.len() - from,
{
    if from >= s.len() {
        s.len() as int
    } else if s[from] == 46 {
        from
    } else {
        dot_index(s, from + 1)
    }
}

/// The digits after the decimal point of an epoch field.
pub open spec fn fraction_digits(e: Seq<u8>) -> Seq<u8> {
    let d = dot_index(e, 2);
    if d < e.len() { e.subrange(d + 1, e.len() as int) } else { Seq::empty() }
}

/// A fraction of a day, given by its decimal digits, in whole seconds rounded
/// half up.
pub open spec fn day_fraction_seconds(f: Seq<u8>) -> int {
    ((digits_value(f) * 172800 + pow10(f.len())) / (2 * pow10(f.len()))) as int
}

/// An epoch field is two year digits, the day of the year as digits, and an
/// optional decimal point with the digits of the fraction of the day.
pub open spec fn epoch_text_ok(e: Seq<u8>) -> bool {
    let d = dot_index(e, 2);
    &&& e.len() >= 3
    &&& all_digits(e.subrange(0, 2))
    &&& 2 < d
    &&& d - 2 <= MAX_DIGITS
    &&& all_digits(e.subrange(2, d))
    &&& fraction_digits(e).len() <= MAX_DIGITS
    &&& all_digits(fraction_digits(e))
}

/// Seconds since 1970 UTC of an epoch field, where it is well formed and names
/// a day of its year.
pub open spec fn epoch_timestamp_of(e: Seq<u8>) -> Option<int> {
    if !epoch_text_ok(e) {
        None
    } else {
        let year = full_year(digits_value(e.subrange(0, 2)) as int);
        let day = digits_value(e.subrange(2, dot_index(e, 2))) as int;
        if 1 <= day <= year_length(year) {
            Some(
                SECONDS_PER_DAY * (days_before_year(year) + day - 1) + day_fraction_seconds(
                    fraction_digits(e),
                ),
            )
        } else {
            None
        }
    }
}

fn pow10_exec(n: usize) -> (r: u64)
    requires
        n <= MAX_DIGITS,
    ensures
        r == pow10(n as nat),
{
    proof {
        lemma_pow10_monotone(n as nat, MAX_DIGITS as nat);
        lemma_pow10_max();
    }
    let mut r: u64 = 1;
    let mut i: usize = 0;
    while i < n
        invariant
            i <= n <= MAX_DIGITS,
            r == pow10(i as nat),
            pow10(n as nat) <= 1_000_000_000_000_000_000,
        decreases n - i,
    {
        proof {
            lemma_pow10_monotone((i + 1) as nat, n as nat);
        }
        r = r * 10;
        i = i + 1;
    }
    r
}

/// Converts an epoch field (`YYDDD.DDDDDDDD`: year of the century and day of
/// the year with its fraction) to whole seconds since 1970 UTC.
pub fn tle_epoch_to_timestamp(tle_epoch: &[u8]) -> (r: Result<i64, ParseError>)
    ensures
        r is Ok <==> epoch_timestamp_of(tle_epoch@) is Some,
        r matches Ok(v) ==> epoch_timestamp_of(tle_epoch@) == Some(v as int),
{
    let e = tle_epoch;
    let n = e.len();
    if n < 3 {
        return Err(ParseError);
    }
    let yy = match read_digits(e, 0, 2) {
        Some(v) => v,
        None => return Err(ParseError),
    };
    let mut d: usize = 2;
    while d < n && e[d] != 46
        invariant
            2 <= d <= n == e@.len(),
            dot_index(e@, 2) == dot_index(e@, d as int),
        decreases n - d,
    {
        d = d + 1;
    }
    assert(dot_index(e@, d as int) == d);
    let day = match read_digits(e, 2, d) {
        Some(v) => v,
        None => return Err(ParseError),
    };
    let (frac, frac_len): (u64, usize) = if d + 1 >= n {
        assert(fraction_digits(e@) =~= Seq::<u8>::empty());
        (0, 0)
    } else {
        assert(fraction_digits(e@) =~= e@.subrange(d + 1, n as int));
        match read_digits(e, d + 1, n) {
            Some(v) => (v, n - d - 1),
            None => return Err(ParseError),
        }
    };
    assert(epoch_text_ok(e@));
    proof {
        reveal_with_fuel(pow10, 3);
    }
    assert(yy < 100);
    let year: i32 = if yy < CENTURY_PIVOT { 2000 + yy as i32 } else { 1900 + yy as i32 };
    if day < 1 || day > 366 {
        return Err(ParseError);
    }
    let midnight = match ordinal_midnight(year, day as u32) {
        Some(t) => t,
        None => return Err(ParseError),
    };
    let p = pow10_exec(frac_len);
    proof {
        lemma_days_before_year_bounds(year as int);
        assert(days_before_year(year as int) <= 32000);
        lemma_pow10_monotone(frac_len as nat, MAX_DIGITS as nat);
        lemma_pow10_max();
        assert(frac < p);
        assert((frac * 172800 + p) / (2 * p) <= 86400) by (nonlinear_arith)
            requires
                frac < p,
                1 <= p,
        ;
    }
    let secs = ((frac as u128) * 172800 + p as u128) / (2 * p as u128);
    Ok(midnight + secs as i64)
}

/// One element record: its two lines and the epoch of its first.
pub struct TLE {
    pub line1: Vec<u8>,
    pub line2: Vec<u8>,
    pub epoch_timestamp: i64,
}

impl TLE {
    pub open spec fn record(&self) -> (Seq<u8>, Seq<u8>, int) {
        (self.line1@, self.line2@, self.epoch_timestamp as int)
    }
}

/// The records that consecutive pairs of lines (the first `n` of them) give.
/// The whole fails where a first line's epoch field is absent or malformed.
pub open spec fn element_records(lines: Seq<Seq<u8>>, n: nat) -> Option<
    Seq<(Seq<u8>, Seq<u8>, int)>,
>
    decreases n,
{
    if n == 0 {
        Some(Seq::empty())
    } else {
        match element_records(lines, (n - 1) as nat) {
            None => None,
            Some(prev) => {
                let l1 = lines[2 * (n - 1)];
                let l2 = lines[2 * (n - 1) + 1];
                if l1.len() < EPOCH_FIELD_END {
                    None
                } else {
                    match epoch_timestamp_of(
                        l1.subrange(EPOCH_FIELD_START as int, EPOCH_FIELD_END as int),
                    ) {
                        None => None,
                        Some(t) => Some(prev.push((l1, l2, t))),
                    }
                }
            },
        }
    }
}

/// How many records of `s` have an epoch at or before `t`.
pub open spec fn count_not_after(s: Seq<(Seq<u8>, Seq<u8>, int)>, t: int) -> nat
    decreases s.len(),
{
    if s.len() == 0 {
        0
    } else {
        count_not_after(s.drop_last(), t) + if s.last().2 <= t { 1nat } else { 0nat }
    }
}

/// The records in ascending order of epoch, those with equal epochs in their
/// order of appearance.
pub open spec fn stable_sorted(recs: Seq<(Seq<u8>, Seq<u8>, int)>) -> Seq<(Seq<u8>, Seq<u8>, int)>
    decreases recs.len(),
{
    if recs.len() == 0 {
        recs
    } else {
        let s = stable_sorted(recs.drop_last());
        s.insert(count_not_after(s, recs.last().2) as int, recs.last())
    }
}

proof fn lemma_count_not_after_is_split(s: Seq<(Seq<u8>, Seq<u8>, int)>, t: int, pos: int)
    requires
        0 <= pos <= s.len(),
        forall|j: int| 0 <= j < pos ==> s[j].2 <= t,
        forall|j: int| pos <= j < s.len() ==> s[j].2 > t,
    ensures
        count_not_after(s, t) == pos,
    decreases s.len(),
{
    if s.len() > 0 {
        let d = s.drop_last();
        if pos == s.len() {
            lemma_count_not_after_is_split(d, t, pos - 1);
        } else {
            lemma_count_not_after_is_split(d, t, pos);
        }
    }
}

pub struct TLEManager {
    pub tles: Vec<TLE>,
}

pub open spec fn abs_diff(a: int, b: int) -> int {
    if a >= b { a - b } else { b - a }
}

impl TLEManager {
    pub open spec fn epoch(&self, i: int) -> int {
        self.tles@[i].epoch_timestamp as int
    }

    /// The records are in ascending order of epoch.
    pub open spec fn wf(&self) -> bool {
        forall|i: int, j: int| 0 <= i <= j < self.tles@.len() ==> self.epoch(i) <= self.epoch(j)
    }

    pub open spec fn records(&self) -> Seq<(Seq<u8>, Seq<u8>, int)> {
        self.tles@.map_values(|t: TLE| t.record())
    }

    /// Builds the store from the lines of an element file, taken two by two (a
    /// last odd line is ignored), in ascending order of epoch.
    pub fn from_lines(lines: &Vec<Vec<u8>>) -> (r: Result<TLEManager, ParseError>)
        ensures
            r is Ok <==> element_records(lines.deep_view(), (lines@.len() / 2) as nat) is Some,
            r matches Ok(m) ==> m.wf() && m.records() == stable_sorted(
                element_records(lines.deep_view(), (lines@.len() / 2) as nat).unwrap(),
            ) && m.records().to_multiset() == element_records(
                lines.deep_view(),
                (lines@.len() / 2) as nat,
            ).unwrap().to_multiset(),
    {
        let ghost lv = lines.deep_view();
        let mut tles: Vec<TLE> = Vec::new();
        let nlines = lines.len();
        let npairs = nlines / 2;
        let mut k: usize = 0;
        proof {
            vstd::arithmetic::div_mod::lemma_fundamental_div_mod(lines@.len() as int, 2);
        }
        assert((TLEManager { tles }).records() =~= Seq::empty());
        while k < npairs
            invariant
                npairs == lines@.len() / 2,
                nlines == lines@.len(),
                2 * npairs <= nlines,
                k <= npairs,
                lv == lines.deep_view(),
                element_records(lv, k as nat) is Some,
                (TLEManager { tles }).wf(),
                (TLEManager { tles }).records().to_multiset() == element_records(
                    lv,
                    k as nat,
                ).unwrap().to_multiset(),
                (TLEManager { tles }).records() == stable_sorted(element_records(lv, k as nat).unwrap()),
            decreases npairs - k,
        {
            assert(2 * k + 1 < lines@.len());
            let first: usize = k + k;
            let l1 = &lines[first];
            let l2 = &lines[first + 1];
            assert(lv[2 * k as int] == l1@ && lv[2 * k + 1] == l2@);
            let ghost prev = element_records(lv, k as nat).unwrap();
            if l1.len() >= EPOCH_FIELD_END {
                let field = slice_subrange(l1.as_slice(), EPOCH_FIELD_START, EPOCH_FIELD_END);
                let t = match tle_epoch_to_timestamp(field) {
                    Ok(t) => t,
                    Err(e) => {
                        assert(element_records(lv, (k + 1) as nat) is None);
                        proof {
                            lemma_records_fail_onward(lv, (k + 1) as nat, npairs as nat);
                        }
                        return Err(e);
                    },
                };
                let rec = TLE { line1: l1.clone(), line2: l2.clone(), epoch_timestamp: t };
                assert(rec.record() == (l1@, l2@, t as int));
                let mut pos: usize = tles.len();
                while pos > 0 && tles[pos - 1].epoch_timestamp > t
                    invariant
                        pos <= tles@.len(),
                        (TLEManager { tles }).wf(),
                        forall|j: int| pos <= j < tles@.len() ==> tles@[j].epoch_timestamp > t,
                    decreases pos,
                {
                    pos = pos - 1;
                }
                let ghost old_tles = tles@;
                assert forall|a: int, b: int| 0 <= a <= b < old_tles.len() implies #[trigger] old_tles[a].epoch_timestamp
                    <= #[trigger] old_tles[b].epoch_timestamp by {
                    let m = TLEManager { tles };
                    assert(m.epoch(a) <= m.epoch(b));
                }
                assert(forall|j: int| 0 <= j < pos ==> old_tles[j].epoch_timestamp <= t) by {
                    if pos > 0 {
                        let m = TLEManager { tles };
                        assert(m.tles@ == old_tles);
                        assert(m.epoch(pos - 1) <= t);
                        assert forall|j: int| 0 <= j < pos implies old_tles[j].epoch_timestamp <= t by {
                            assert(m.epoch(j) <= m.epoch(pos - 1));
                        }
                    }
                }
                tles.insert(pos, rec);
                assert(forall|j: int|
                    0 <= j < tles@.len() ==> tles@[j] == if j < pos {
                        old_tles[j]
                    } else if j == pos {
                        rec
                    } else {
                        old_tles[j - 1]
                    });
                proof {
                    let m = TLEManager { tles };
                    assert forall|i: int, j: int| 0 <= i <= j < tles@.len() implies m.epoch(i) <= m.epoch(j) by {
                        let oi = if i < pos { i } else { i - 1 };
                        let oj = if j < pos { j } else { j - 1 };
                        if i != pos && j != pos {
                            assert(old_tles[oi].epoch_timestamp <= old_tles[oj].epoch_timestamp);
                        }
                    }
                }
                proof {
                    let f = |t: TLE| t.record();
                    assert(tles@.map_values(f) =~= old_tles.map_values(f).insert(pos as int, rec.record()));
                    vstd::seq_lib::to_multiset_insert(old_tles.map_values(f), pos as int, rec.record());
                    vstd::seq_lib::to_multiset_build(prev, rec.record());
                    assert(element_records(lv, (k + 1) as nat) == Some(prev.push(rec.record())));
                    let olds = old_tles.map_values(f);
                    assert(olds == stable_sorted(prev));
                    lemma_count_not_after_is_split(olds, t as int, pos as int);
                    assert(prev.push(rec.record()).drop_last() =~= prev);
                }
            } else {
                proof {
                    lemma_records_fail_onward(lv, (k + 1) as nat, npairs as nat);
                }
                return Err(ParseError);
            }
            k = k + 1;
        }
        Ok(TLEManager { tles })
    }

    /// The index of the record whose epoch is nearest `target_time`; between
    /// two equally near, the earlier one. `None` only for an empty store.
    pub fn select_tle_index(&self, target_time: i64) -> (r: Option<usize>)
        requires
            self.wf(),
        ensures
            r is None <==> self.tles@.len() == 0,
            r matches Some(i) ==> {
                &&& i < self.tles@.len()
                &&& forall|j: int|
                    0 <= j < self.tles@.len() ==> abs_diff(self.epoch(i as int), target_time as int)
                        <= abs_diff(#[trigger] self.epoch(j), target_time as int)
                &&& forall|j: int|
                    0 <= j < self.tles@.len() && abs_diff(self.epoch(j), target_time as int)
                        == abs_diff(self.epoch(i as int), target_time as int) ==> self.epoch(
                        i as int,
                    ) <= #[trigger] self.epoch(j)
            },
    {
        let n = self.tles.len();
        if n == 0 {
            return None;
        }
        // First index whose epoch is not before the target.
        let mut lo: usize = 0;
        let mut hi: usize = n;
        while lo < hi
            invariant
                self.wf(),
                n == self.tles@.len(),
                lo <= hi <= n,
                forall|j: int| 0 <= j < lo ==> self.epoch(j) < target_time,
                forall|j: int| hi <= j < n ==> self.epoch(j) >= target_time,
            decreases hi - lo,
        {
            let mid = lo + (hi - lo) / 2;
            if self.tles[mid].epoch_timestamp < target_time {
                assert(forall|j: int| 0 <= j <= mid ==> self.epoch(j) <= self.epoch(mid as int));
                lo = mid + 1;
            } else {
                assert(forall|j: int| mid <= j < n ==> self.epoch(mid as int) <= self.epoch(j));
                hi = mid;
            }
        }
        if lo < n && self.tles[lo].epoch_timestamp == target_time {
            return Some(lo);
        }
        if lo == 0 {
            return Some(0);
        }
        if lo >= n {
            return Some(n - 1);
        }
        let before = lo - 1;
        let after = lo;
        assert(forall|j: int| 0 <= j < lo ==> self.epoch(j) <= self.epoch(before as int));
        assert(forall|j: int| lo <= j < n ==> self.epoch(after as int) <= self.epoch(j));
        let d_before = target_time as i128 - self.tles[before].epoch_timestamp as i128;
        let d_after = self.tles[after].epoch_timestamp as i128 - target_time as i128;
        if d_before <= d_after {
            Some(before)
        } else {
            Some(after)
        }
    }
}

proof fn lemma_records_fail_onward(lines: Seq<Seq<u8>>, k: nat, m: nat)
    requires
        element_records(lines, k) is None,
        k <= m,
    ensures
        element_records(lines, m) is None,
    decreases m - k,
{
    if k < m {
        lemma_records_fail_onward(lines, k, (m - 1) as nat);
    }
}

} // verus!
