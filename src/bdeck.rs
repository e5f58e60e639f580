//! The track store: a storm's fixes at a fixed cadence, and interpolation
//! between them.
use crate::calendar::{
    civil_hour, civil_seconds, lemma_days_before_month_bounds, lemma_days_before_year_bounds,
};
use crate::digits::{all_digits, digits_value, lemma_pow10_monotone, pow10, read_digits};
use crate::ParseError;
use vstd::prelude::*;
use vstd::slice::slice_subrange;

verus! {

/// Intensity value that marks an unknown intensity; it is read as 0.
pub const MISSING_INTENSITY: i64 = 999;

/// Longitudes are kept in tenths of a degree east, in `[0, 3600)` for
/// well-formed records.
pub const FULL_CIRCLE_TENTHS: i64 = 3600;

/// Microseconds in one second.
pub const MICROS_PER_SECOND: i64 = 1_000_000;

/// The largest time, in seconds either side of 1970, that a track may hold.
pub const MAX_TRACK_SECONDS: i64 = 1_000_000_000_000;

/// The largest magnitude of a stored position or intensity.
pub const MAX_TRACK_VALUE: i64 = 100_000;

/// The shortest record that holds every field.
pub const MIN_RECORD_LEN: usize = 46;

pub open spec fn is_blank(b: u8) -> bool {
    b == 32 || (9 <= b <= 13)
}

/// The bytes of `s` that are not white space, in order.
pub open spec fn non_blank(s: Seq<u8>) -> Seq<u8>
    decreases s.len(),
{
    if s.len() == 0 {
        s
    } else if is_blank(s.last()) {
        non_blank(s.drop_last())
    } else {
        non_blank(s.drop_last()).push(s.last())
    }
}

/// A decimal integer with an optional sign.
pub open spec fn signed_value(s: Seq<u8>) -> Option<int> {
    if s.len() > 0 && (s[0] == 45 || s[0] == 43) {
        let rest = s.drop_first();
        if rest.len() > 0 && rest.len() <= 18 && all_digits(rest) {
            Some(if s[0] == 45 { -digits_value(rest) } else { digits_value(rest) as int })
        } else {
            None
        }
    } else if s.len() > 0 && s.len() <= 18 && all_digits(s) {
        Some(digits_value(s) as int)
    } else {
        None
    }
}

/// The hour of a record, columns 16 and 17.
pub open spec fn record_hour(l: Seq<u8>) -> Option<int> {
    if l.len() >= 18 && all_digits(l.subrange(16, 18)) {
        Some(digits_value(l.subrange(16, 18)) as int)
    } else {
        None
    }
}

/// The time of a record, `YYYYMMDDHH` in columns 8 to 17, in seconds since 1970.
pub open spec fn record_time(l: Seq<u8>) -> Option<int> {
    if l.len() >= 18 && all_digits(l.subrange(8, 18)) {
        civil_seconds(
            digits_value(l.subrange(8, 12)) as int,
            digits_value(l.subrange(12, 14)) as int,
            digits_value(l.subrange(14, 16)) as int,
            digits_value(l.subrange(16, 18)) as int,
        )
    } else {
        None
    }
}

/// The intensity field: columns 48 to 50, or the last three bytes of a
/// record too short to hold them, with one leading space dropped. The
/// missing-value mark reads as 0; a field that is not an integer is malformed.
pub open spec fn record_intensity(l: Seq<u8>) -> Option<int> {
    let f = if l.len() - 1 < 51 { l.subrange(l.len() - 3, l.len() as int) } else { l.subrange(48, 51) };
    let g = if f.len() > 0 && f[0] == 32 { f.drop_first() } else { f };
    match signed_value(g) {
        Some(v) => Some(if v == MISSING_INTENSITY { 0 } else { v }),
        None => None,
    }
}

/// Latitude in tenths of a degree: columns 35 to 37, negated where column 38
/// is `S`.
pub open spec fn record_latitude(l: Seq<u8>) -> Option<int> {
    match signed_value(non_blank(l.subrange(35, 38))) {
        Some(v) => Some(if l[38] == 83 { -v } else { v }),
        None => None,
    }
}

/// Longitude in tenths of a degree east: columns 41 to 44; a west longitude
/// (column 45 is `W`) is taken from a full circle.
pub open spec fn record_longitude(l: Seq<u8>) -> Option<int> {
    match signed_value(non_blank(l.subrange(41, 45))) {
        Some(v) => Some(if l[45] == 87 { FULL_CIRCLE_TENTHS - v } else { v }),
        None => None,
    }
}

/// One fix: time in seconds, intensity in knots, latitude and longitude in
/// tenths of a degree.
pub type FixView = (int, int, int, int);

/// The fixes that the first `n` records give: a record is kept where its hour
/// is a multiple of `cadence` and its time is not that of the fix before it.
/// The whole fails on a malformed hour, on a malformed field of a kept record,
/// and where times go backwards.
pub open spec fn track_fixes(lines: Seq<Seq<u8>>, cadence: int, n: nat) -> Option<Seq<FixView>>
    decreases n,
{
    if n == 0 {
        Some(Seq::empty())
    } else {
        match track_fixes(lines, cadence, (n - 1) as nat) {
            None => None,
            Some(prev) => {
                let l = lines[n - 1];
                match record_hour(l) {
                    None => None,
                    Some(h) => if h % cadence != 0 {
                        Some(prev)
                    } else {
                        match record_time(l) {
                            None => None,
                            Some(t) => if prev.len() > 0 && t == prev.last().0 {
                                Some(prev)
                            } else if (prev.len() > 0 && t < prev.last().0) || l.len()
                                < MIN_RECORD_LEN {
                                None
                            } else {
                                match (record_latitude(l), record_longitude(l), record_intensity(l)) {
                                    (Some(lat), Some(lon), Some(w)) => Some(
                                        prev.push((t, w, lat, lon)),
                                    ),
                                    _ => None,
                                }
                            },
                        }
                    },
                }
            },
        }
    }
}

/// Reads an optionally signed decimal integer.
fn read_signed(s: &[u8]) -> (r: Option<i64>)
    ensures
        match signed_value(s@) {
            Some(v) => r == Some(v as i64) && -pow10(18) < v < pow10(18),
            None => r is None,
        },
{
    let n = s.len();
    proof {
        crate::digits::lemma_pow10_max();
    }
    if n > 0 && (s[0] == 45 || s[0] == 43) {
        assert(s@.drop_first() =~= s@.subrange(1, n as int));
        match read_digits(s, 1, n) {
            Some(v) => {
                proof {
                    lemma_pow10_monotone((n - 1) as nat, 18);
                }
                if s[0] == 45 {
                    Some(-(v as i64))
                } else {
                    Some(v as i64)
                }
            },
            None => None,
        }
    } else {
        assert(s@ =~= s@.subrange(0, n as int));
        match read_digits(s, 0, n) {
            Some(v) => {
                proof {
                    lemma_pow10_monotone(n as nat, 18);
                }
                Some(v as i64)
            },
            None => None,
        }
    }
}

/// The bytes of `s` that are not white space.
fn strip_blank(s: &[u8]) -> (r: Vec<u8>)
    ensures
        r@ == non_blank(s@),
{
    let mut r: Vec<u8> = Vec::new();
    let mut i: usize = 0;
    while i < s.len()
        invariant
            i <= s@.len(),
            r@ == non_blank(s@.subrange(0, i as int)),
        decreases s@.len() - i,
    {
        assert(s@.subrange(0, i + 1).drop_last() =~= s@.subrange(0, i as int));
        let b = s[i];
        if !(b == 32 || (9 <= b && b <= 13)) {
            r.push(b);
        }
        i = i + 1;
    }
    assert(s@.subrange(0, s@.len() as int) =~= s@);
    r
}

/// Reads the time of a record.
fn parse_record_time(l: &[u8]) -> (r: Option<i64>)
    requires
        l@.len() >= 18,
    ensures
        match record_time(l@) {
            Some(t) => r == Some(t as i64) && -MAX_TRACK_SECONDS <= t <= MAX_TRACK_SECONDS,
            None => r is None,
        },
{
    let whole = read_digits(l, 8, 18);
    if whole.is_none() {
        return None;
    }
    proof {
        let w = l@.subrange(8, 18);
        assert forall|a: int, b: int| 8 <= a <= b <= 18 implies all_digits(#[trigger] l@.subrange(a, b))
            by {
            assert forall|k: int| 0 <= k < b - a implies crate::digits::is_digit(#[trigger] l@.subrange(a, b)[k]) by {
                assert(l@.subrange(a, b)[k] == w[a - 8 + k]);
            }
        }
        crate::digits::lemma_pow10_max();
        reveal_with_fuel(pow10, 5);
    }
    let year = read_digits(l, 8, 12).unwrap();
    let month = read_digits(l, 12, 14).unwrap();
    let day = read_digits(l, 14, 16).unwrap();
    let hour = read_digits(l, 16, 18).unwrap();
    proof {
        lemma_days_before_year_bounds(year as int);
        if 1 <= month <= 12 {
            lemma_days_before_month_bounds(year as int, month as int);
        }
    }
    civil_hour(year as i32, month as u32, day as u32, hour as u32)
}

/// A storm track: parallel columns, one entry per fix.
pub struct BDeck {
    /// Seconds since 1970 UTC, strictly increasing.
    pub time: Vec<i64>,
    /// Knots.
    pub intensity: Vec<i64>,
    /// Tenths of a degree north.
    pub latitude: Vec<i64>,
    /// Tenths of a degree east.
    pub longitude: Vec<i64>,
}

/// A track position and intensity, each exactly `value / scale`, in the units
/// of the track's columns.
#[derive(Debug, Clone, Copy, PartialEq, Eq)]
pub struct TrackSample {
    pub latitude: i128,
    pub longitude: i128,
    pub intensity: i128,
    pub scale: i128,
}

impl BDeck {
    pub open spec fn len(&self) -> nat {
        self.time@.len()
    }

    /// A fix's time in microseconds.
    pub open spec fn time_us(&self, i: int) -> int {
        self.time@[i] * MICROS_PER_SECOND
    }

    pub open spec fn fixes(&self) -> Seq<FixView> {
        Seq::new(
            self.len(),
            |i: int| (self.time@[i] as int, self.intensity@[i] as int, self.latitude@[i] as int, self.longitude@[i] as int),
        )
    }

    /// Columns of one length, times strictly increasing, and every value in range.
    pub open spec fn wf(&self) -> bool {
        &&& self.intensity@.len() == self.len()
        &&& self.latitude@.len() == self.len()
        &&& self.longitude@.len() == self.len()
        &&& forall|i: int, j: int| 0 <= i < j < self.len() ==> self.time@[i] < self.time@[j]
        &&& forall|i: int| 0 <= i < self.len() ==> -MAX_TRACK_SECONDS <= #[trigger] self.time@[i] <= MAX_TRACK_SECONDS
        &&& forall|i: int| 0 <= i < self.len() ==> -MAX_TRACK_VALUE <= #[trigger] self.intensity@[i] <= MAX_TRACK_VALUE
        &&& forall|i: int| 0 <= i < self.len() ==> -MAX_TRACK_VALUE <= #[trigger] self.latitude@[i] <= MAX_TRACK_VALUE
        &&& forall|i: int| 0 <= i < self.len() ==> -MAX_TRACK_VALUE <= #[trigger] self.longitude@[i] <= MAX_TRACK_VALUE
    }

    /// The stored values of fix `k`, exactly.
    pub open spec fn sample_at(&self, k: int) -> TrackSample {
        TrackSample {
            latitude: self.latitude@[k] as i128,
            longitude: self.longitude@[k] as i128,
            intensity: self.intensity@[k] as i128,
            scale: 1,
        }
    }

    /// The linear interpolation between fixes `k` and `k + 1` at `q`
    /// microseconds: each value is `v_k + (q - t_k) / (t_(k+1) - t_k) * (v_(k+1) - v_k)`,
    /// with `t_(k+1) - t_k` as its scale.
    pub open spec fn sample_between(&self, k: int, q: int) -> TrackSample {
        let den = self.time_us(k + 1) - self.time_us(k);
        let f = q - self.time_us(k);
        TrackSample {
            latitude: (self.latitude@[k] * den + f * (self.latitude@[k + 1] - self.latitude@[k])) as i128,
            longitude: (self.longitude@[k] * den + f * (self.longitude@[k + 1] - self.longitude@[k])) as i128,
            intensity: (self.intensity@[k] * den + f * (self.intensity@[k + 1] - self.intensity@[k])) as i128,
            scale: den as i128,
        }
    }

    /// Fix `k` brackets `q`: `q` is its time, or lies between it and the next.
    pub open spec fn brackets(&self, k: int, q: int) -> bool {
        &&& 0 <= k < self.len()
        &&& self.time_us(k) == q || (k + 1 < self.len() && self.time_us(k) < q < self.time_us(k + 1))
    }

    /// The track at `q` microseconds: `None` outside its time span, the stored
    /// values at a fix's time, and the interpolation between the two fixes
    /// around `q` otherwise.
    pub open spec fn value_at(&self, q: int) -> Option<TrackSample> {
        if self.len() == 0 || q < self.time_us(0) || q > self.time_us(self.len() - 1) {
            None
        } else {
            let k = choose|k: int| self.brackets(k, q);
            if self.time_us(k) == q {
                Some(self.sample_at(k))
            } else {
                Some(self.sample_between(k, q))
            }
        }
    }

    /// At most one fix brackets a time.
    pub proof fn lemma_bracket_unique(&self, k1: int, k2: int, q: int)
        requires
            self.wf(),
            self.brackets(k1, q),
            self.brackets(k2, q),
        ensures
            k1 == k2,
    {
        if k1 < k2 {
            assert(self.time@[k1] < self.time@[k2]);
            if k1 + 1 < k2 {
                assert(self.time@[k1 + 1] < self.time@[k2]);
            }
        } else if k2 < k1 {
            assert(self.time@[k2] < self.time@[k1]);
            if k2 + 1 < k1 {
                assert(self.time@[k2 + 1] < self.time@[k1]);
            }
        }
    }

    /// The track's value at a time that fix `k` brackets.
    pub proof fn lemma_value_at(&self, k: int, q: int)
        requires
            self.wf(),
            self.brackets(k, q),
        ensures
            self.value_at(q) == (if self.time_us(k) == q {
                Some(self.sample_at(k))
            } else {
                Some(self.sample_between(k, q))
            }),
    {
        if k > 0 {
            assert(self.time@[0] < self.time@[k]);
        }
        if k < self.len() - 1 {
            assert(self.time@[k] < self.time@[self.len() - 1]);
            if k + 1 < self.len() - 1 {
                assert(self.time@[k + 1] < self.time@[self.len() - 1]);
            }
        }
        let c = choose|c: int| self.brackets(c, q);
        self.lemma_bracket_unique(c, k, q);
    }

    /// The track at `query_us` microseconds, or `None` outside the track's time
    /// span. `index` is a search hint: the lower fix of the bracket that was
    /// last resolved. A query at a fix's time gives that fix's values exactly;
    /// one between fixes `k` and `k + 1` their linear interpolation.
    pub fn interpolate_with_index(&self, query_us: i64, index: &mut usize) -> (r: Option<TrackSample>)
        requires
            self.wf(),
        ensures
            r is None <==> (self.len() == 0 || query_us < self.time_us(0) || query_us > self.time_us(
                self.len() - 1,
            )),
            r is None ==> *final(index) == *old(index),
            r == self.value_at(query_us as int),
            r matches Some(s) ==> {
                let k = *final(index) as int;
                &&& k < self.len()
                &&& (self.time_us(k) == query_us && s == self.sample_at(k)) || (self.time_us(k)
                    < query_us < self.time_us(k + 1) && k + 1 < self.len() && s
                    == self.sample_between(k, query_us as int))
            },
    {
        let n = self.time.len();
        if n == 0 {
            return None;
        }
        proof {
            assert(-MAX_TRACK_SECONDS <= self.time@[0] <= MAX_TRACK_SECONDS);
            assert(-MAX_TRACK_SECONDS <= self.time@[n - 1] <= MAX_TRACK_SECONDS);
        }
        if query_us < self.time[0] * MICROS_PER_SECOND || query_us > self.time[n - 1] * MICROS_PER_SECOND {
            return None;
        }
        assert(self.time_us(0) <= query_us <= self.time_us(n - 1));
        let mut i: usize = if *index < n - 1 { *index } else { n - 1 };
        assert(-MAX_TRACK_SECONDS <= self.time@[i as int] <= MAX_TRACK_SECONDS);
        if query_us < self.time[i] * MICROS_PER_SECOND {
            // Behind the hint: search the whole track for the first fix not
            // before the query.
            let mut lo: usize = 0;
            let mut hi: usize = i;
            while lo < hi
                invariant
                    self.wf(),
                    n == self.len(),
                    lo <= hi <= i < n,
                    forall|j: int| 0 <= j < lo ==> self.time_us(j) < query_us,
                    forall|j: int| hi <= j < n ==> self.time_us(j) >= query_us,
                decreases hi - lo,
            {
                let mid = lo + (hi - lo) / 2;
                assert(-MAX_TRACK_SECONDS <= self.time@[mid as int] <= MAX_TRACK_SECONDS);
                if self.time[mid] * MICROS_PER_SECOND < query_us {
                    assert forall|j: int| 0 <= j <= mid implies self.time_us(j) < query_us by {
                        if j < mid {
                            assert(self.time@[j] < self.time@[mid as int]);
                        }
                    }
                    lo = mid + 1;
                } else {
                    assert forall|j: int| mid <= j < n implies self.time_us(j) >= query_us by {
                        if j > mid {
                            assert(self.time@[mid as int] < self.time@[j]);
                        }
                    }
                    hi = mid;
                }
            }
            assert(-MAX_TRACK_SECONDS <= self.time@[lo as int] <= MAX_TRACK_SECONDS);
            if self.time[lo] * MICROS_PER_SECOND == query_us {
                proof {
                    self.lemma_value_at(lo as int, query_us as int);
                }
                *index = lo;
                return Some(TrackSample {
                    latitude: self.latitude[lo] as i128,
                    longitude: self.longitude[lo] as i128,
                    intensity: self.intensity[lo] as i128,
                    scale: 1,
                });
            }
            // `lo` is not 0: the query is not before the first fix.
            assert(lo > 0);
            i = lo - 1;
        } else {
            while i + 1 < n && self.time[i + 1] * MICROS_PER_SECOND < query_us
                invariant
                    self.wf(),
                    n == self.len(),
                    i < n,
                    self.time_us(i as int) <= query_us,
                decreases n - i,
            {
                assert(-MAX_TRACK_SECONDS <= self.time@[i + 1] <= MAX_TRACK_SECONDS);
                i = i + 1;
            }
            if i + 1 < n {
                assert(-MAX_TRACK_SECONDS <= self.time@[i + 1] <= MAX_TRACK_SECONDS);
            }
        }
        assert(-MAX_TRACK_SECONDS <= self.time@[i as int] <= MAX_TRACK_SECONDS);
        if self.time[i] * MICROS_PER_SECOND == query_us {
            proof {
                self.lemma_value_at(i as int, query_us as int);
            }
            *index = i;
            return Some(TrackSample {
                latitude: self.latitude[i] as i128,
                longitude: self.longitude[i] as i128,
                intensity: self.intensity[i] as i128,
                scale: 1,
            });
        }
        if i + 1 < n && self.time[i + 1] * MICROS_PER_SECOND == query_us {
            proof {
                self.lemma_value_at(i + 1, query_us as int);
            }
            *index = i + 1;
            return Some(TrackSample {
                latitude: self.latitude[i + 1] as i128,
                longitude: self.longitude[i + 1] as i128,
                intensity: self.intensity[i + 1] as i128,
                scale: 1,
            });
        }
        if i + 1 >= n {
            return None;
        }
        let t0 = self.time[i] as i128 * MICROS_PER_SECOND as i128;
        let t1 = self.time[i + 1] as i128 * MICROS_PER_SECOND as i128;
        let den = t1 - t0;
        let f = query_us as i128 - t0;
        proof {
            assert(self.time@[i as int] < self.time@[i + 1]);
            let v = self.latitude@[i as int];
            let w = self.latitude@[i + 1];
            assert(-MAX_TRACK_VALUE <= v <= MAX_TRACK_VALUE);
            assert(-MAX_TRACK_VALUE <= w <= MAX_TRACK_VALUE);
            let v = self.longitude@[i as int];
            let w = self.longitude@[i + 1];
            assert(-MAX_TRACK_VALUE <= v <= MAX_TRACK_VALUE);
            assert(-MAX_TRACK_VALUE <= w <= MAX_TRACK_VALUE);
            let v = self.intensity@[i as int];
            let w = self.intensity@[i + 1];
            assert(-MAX_TRACK_VALUE <= v <= MAX_TRACK_VALUE);
            assert(-MAX_TRACK_VALUE <= w <= MAX_TRACK_VALUE);
            assert(t0 == self.time_us(i as int));
            assert(t1 == self.time_us(i + 1));
            assert(self.time_us(i as int) < query_us);
            assert(query_us < self.time_us(i + 1));
            assert(0 < den <= 2_000_000_000_000_000_000);
            assert(0 < f < den);
        }
        let lat = lerp(self.latitude[i], self.latitude[i + 1], f, den);
        let lon = lerp(self.longitude[i], self.longitude[i + 1], f, den);
        let inten = lerp(self.intensity[i], self.intensity[i + 1], f, den);
        proof {
            self.lemma_value_at(i as int, query_us as int);
        }
        *index = i;
        Some(TrackSample { latitude: lat, longitude: lon, intensity: inten, scale: den })
    }

    /// Reads a track from its records, keeping those whose hour is a multiple
    /// of `cadence_hours` and the first of each run with one time. Fails on a
    /// malformed hour, and on a malformed time, latitude, longitude or
    /// intensity of a kept record, and where the kept times go backwards.
    pub fn from_lines(lines: &Vec<Vec<u8>>, cadence_hours: u32) -> (r: Result<BDeck, ParseError>)
        requires
            cadence_hours > 0,
        ensures
            r is Ok <==> track_fixes(lines.deep_view(), cadence_hours as int, lines@.len()) is Some,
            r matches Ok(b) ==> b.wf() && b.fixes() == track_fixes(
                lines.deep_view(),
                cadence_hours as int,
                lines@.len(),
            ).unwrap(),
    {
        let ghost lv = lines.deep_view();
        let mut b = BDeck { time: Vec::new(), intensity: Vec::new(), latitude: Vec::new(), longitude: Vec::new() };
        let mut k: usize = 0;
        assert(b.fixes() =~= Seq::empty());
        while k < lines.len()
            invariant
                k <= lines@.len(),
                lv == lines.deep_view(),
                cadence_hours > 0,
                b.wf(),
                track_fixes(lv, cadence_hours as int, k as nat) == Some(b.fixes()),
            decreases lines@.len() - k,
        {
            let l = lines[k].as_slice();
            assert(lv[k as int] == l@);
            let ghost prev = b.fixes();
            if l.len() < 18 {
                proof { lemma_fixes_fail_onward(lv, cadence_hours as int, (k + 1) as nat, lines@.len()); }
                return Err(ParseError);
            }
            let hour = match read_digits(l, 16, 18) {
                Some(h) => h,
                None => {
                    proof { lemma_fixes_fail_onward(lv, cadence_hours as int, (k + 1) as nat, lines@.len()); }
                    return Err(ParseError);
                },
            };
            if hour % (cadence_hours as u64) != 0 {
                k = k + 1;
                continue;
            }
            let t = match parse_record_time(l) {
                Some(t) => t,
                None => {
                    proof { lemma_fixes_fail_onward(lv, cadence_hours as int, (k + 1) as nat, lines@.len()); }
                    return Err(ParseError);
                },
            };
            let n = b.time.len();
            if n > 0 && t == b.time[n - 1] {
                k = k + 1;
                continue;
            }
            if (n > 0 && t < b.time[n - 1]) || l.len() < MIN_RECORD_LEN {
                proof { lemma_fixes_fail_onward(lv, cadence_hours as int, (k + 1) as nat, lines@.len()); }
                return Err(ParseError);
            }
            let lat_raw = match read_signed(strip_blank(slice_subrange(l, 35, 38)).as_slice()) {
                Some(v) => v,
                None => {
                    proof { lemma_fixes_fail_onward(lv, cadence_hours as int, (k + 1) as nat, lines@.len()); }
                    return Err(ParseError);
                },
            };
            let lon_raw = match read_signed(strip_blank(slice_subrange(l, 41, 45)).as_slice()) {
                Some(v) => v,
                None => {
                    proof { lemma_fixes_fail_onward(lv, cadence_hours as int, (k + 1) as nat, lines@.len()); }
                    return Err(ParseError);
                },
            };
            let ghost digits3 = non_blank(l@.subrange(35, 38));
            let ghost digits4 = non_blank(l@.subrange(41, 45));
            proof {
                lemma_non_blank_len(l@.subrange(35, 38));
                lemma_non_blank_len(l@.subrange(41, 45));
                lemma_small_value(digits3);
                lemma_small_value(digits4);
            }
            let lat = if l[38] == 83 { -lat_raw } else { lat_raw };
            let lon = if l[45] == 87 { FULL_CIRCLE_TENTHS - lon_raw } else { lon_raw };
            let wind = match read_intensity(l) {
                Some(v) => v,
                None => {
                    proof { lemma_fixes_fail_onward(lv, cadence_hours as int, (k + 1) as nat, lines@.len()); }
                    return Err(ParseError);
                },
            };
            b.time.push(t);
            b.intensity.push(wind);
            b.latitude.push(lat);
            b.longitude.push(lon);
            assert(b.fixes() =~= prev.push((t as int, wind as int, lat as int, lon as int)));
            k = k + 1;
        }
        Ok(b)
    }
}

/// `a * den + f * (b - a)`: the value `f / den` of the way from `a` to `b`,
/// scaled by `den`.
fn lerp(a: i64, b: i64, f: i128, den: i128) -> (r: i128)
    requires
        -MAX_TRACK_VALUE <= a <= MAX_TRACK_VALUE,
        -MAX_TRACK_VALUE <= b <= MAX_TRACK_VALUE,
        0 < f < den <= 2_000_000_000_000_000_000,
    ensures
        r == a * den + f * (b - a),
{
    let ghost (ai, bi, fi, di) = (a as int, b as int, f as int, den as int);
    assert(-200_000_000_000_000_000_000_000 <= ai * di <= 200_000_000_000_000_000_000_000) by (nonlinear_arith)
        requires
            -100_000 <= ai <= 100_000,
            0 < di <= 2_000_000_000_000_000_000,
    ;
    assert(-400_000_000_000_000_000_000_000 <= fi * (bi - ai) <= 400_000_000_000_000_000_000_000) by (nonlinear_arith)
        requires
            -200_000 <= bi - ai <= 200_000,
            0 < fi < di <= 2_000_000_000_000_000_000,
    ;
    a as i128 * den + f * (b as i128 - a as i128)
}

/// `x / scale` lies strictly between `a` and `b`, or equals them where they
/// are equal.
pub open spec fn strictly_between(x: int, a: int, b: int, scale: int) -> bool {
    if a == b {
        x == a * scale
    } else if a < b {
        a * scale < x < b * scale
    } else {
        b * scale < x < a * scale
    }
}

proof fn lemma_lerp(a: int, b: int, f: int, den: int)
    requires
        -100_000 <= a <= 100_000,
        -100_000 <= b <= 100_000,
        0 < f < den <= 2_000_000_000_000_000_000,
    ensures
        strictly_between(a * den + f * (b - a), a, b, den),
        -1_000_000_000_000_000_000_000_000 <= a * den + f * (b - a) <= 1_000_000_000_000_000_000_000_000,
{
    assert(-200_000_000_000_000_000_000_000 <= a * den <= 200_000_000_000_000_000_000_000) by (nonlinear_arith)
        requires
            -100_000 <= a <= 100_000,
            0 < den <= 2_000_000_000_000_000_000,
    ;
    assert(-400_000_000_000_000_000_000_000 <= f * (b - a) <= 400_000_000_000_000_000_000_000) by (nonlinear_arith)
        requires
            -200_000 <= b - a <= 200_000,
            0 < f < den <= 2_000_000_000_000_000_000,
    ;
    if a < b {
        assert(0 < f * (b - a) < den * (b - a)) by (nonlinear_arith)
            requires
                a < b,
                0 < f < den,
        ;
        assert(b * den == a * den + den * (b - a)) by (nonlinear_arith);
    } else if b < a {
        assert(den * (b - a) < f * (b - a) < 0) by (nonlinear_arith)
            requires
                b < a,
                0 < f < den,
        ;
        assert(b * den == a * den + den * (b - a)) by (nonlinear_arith);
    } else {
        assert(f * (b - a) == 0) by (nonlinear_arith)
            requires
                a == b,
        ;
    }
}

/// Interpolating strictly between two neighbouring fixes gives, for each of
/// latitude, longitude and intensity, a value strictly between the two fixes'
/// values (or their common value), over a positive scale.
pub proof fn lemma_interpolation_convex(track: &BDeck, k: int, q: int)
    requires
        track.wf(),
        0 <= k,
        k + 1 < track.len(),
        track.time_us(k) < q < track.time_us(k + 1),
    ensures
        track.sample_between(k, q).scale > 0,
        strictly_between(
            track.sample_between(k, q).latitude as int,
            track.latitude@[k] as int,
            track.latitude@[k + 1] as int,
            track.sample_between(k, q).scale as int,
        ),
        strictly_between(
            track.sample_between(k, q).longitude as int,
            track.longitude@[k] as int,
            track.longitude@[k + 1] as int,
            track.sample_between(k, q).scale as int,
        ),
        strictly_between(
            track.sample_between(k, q).intensity as int,
            track.intensity@[k] as int,
            track.intensity@[k + 1] as int,
            track.sample_between(k, q).scale as int,
        ),
{
    assert(-MAX_TRACK_SECONDS <= track.time@[k] <= MAX_TRACK_SECONDS);
    assert(-MAX_TRACK_SECONDS <= track.time@[k + 1] <= MAX_TRACK_SECONDS);
    assert(-MAX_TRACK_VALUE <= track.latitude@[k] <= MAX_TRACK_VALUE);
    assert(-MAX_TRACK_VALUE <= track.latitude@[k + 1] <= MAX_TRACK_VALUE);
    assert(-MAX_TRACK_VALUE <= track.longitude@[k] <= MAX_TRACK_VALUE);
    assert(-MAX_TRACK_VALUE <= track.longitude@[k + 1] <= MAX_TRACK_VALUE);
    assert(-MAX_TRACK_VALUE <= track.intensity@[k] <= MAX_TRACK_VALUE);
    assert(-MAX_TRACK_VALUE <= track.intensity@[k + 1] <= MAX_TRACK_VALUE);
    let den = track.time_us(k + 1) - track.time_us(k);
    let f = q - track.time_us(k);
    lemma_lerp(track.latitude@[k] as int, track.latitude@[k + 1] as int, f, den);
    lemma_lerp(track.longitude@[k] as int, track.longitude@[k + 1] as int, f, den);
    lemma_lerp(track.intensity@[k] as int, track.intensity@[k + 1] as int, f, den);
}

/// A record whose hour reads and is not a multiple of `cadence`.
pub open spec fn dropped_by_cadence(l: Seq<u8>, cadence: int) -> bool {
    record_hour(l) matches Some(h) && h % cadence != 0
}

/// Records that the cadence filter drops leave the track as it is.
proof fn lemma_dropped_records(lines: Seq<Seq<u8>>, cadence: int, a: nat, b: nat)
    requires
        a <= b <= lines.len(),
        forall|j: int|
            a <= j < b ==> dropped_by_cadence(#[trigger] lines[j], cadence),
    ensures
        track_fixes(lines, cadence, b) == track_fixes(lines, cadence, a),
    decreases b - a,
{
    if a < b {
        lemma_dropped_records(lines, cadence, a, (b - 1) as nat);
        assert(dropped_by_cadence(lines[b - 1], cadence));
    }
}

/// Two kept records with the same time, with only records that the cadence
/// filter drops between them, give one fix: the second adds nothing, and the
/// track's last fix has their time, from the first of them (or from an
/// earlier record with that time).
pub proof fn lemma_duplicate_time_kept_once(lines: Seq<Seq<u8>>, cadence: int, n: nat, m: nat)
    requires
        cadence > 0,
        n < m < lines.len(),
        record_hour(lines[n as int]) matches Some(h) && h % cadence == 0,
        record_hour(lines[m as int]) matches Some(h) && h % cadence == 0,
        forall|j: int|
            n < j < m ==> dropped_by_cadence(#[trigger] lines[j], cadence),
        record_time(lines[n as int]) is Some,
        record_time(lines[m as int]) == record_time(lines[n as int]),
        track_fixes(lines, cadence, n + 1) is Some,
    ensures
        track_fixes(lines, cadence, m + 1) == track_fixes(lines, cadence, n + 1),
        track_fixes(lines, cadence, n + 1).unwrap().last().0 == record_time(lines[n as int]).unwrap(),
{
    assert(track_fixes(lines, cadence, n) is Some);
    lemma_dropped_records(lines, cadence, n + 1, m);
}

/// The track of fewer records is a prefix of the track of more.
proof fn lemma_track_prefix(lines: Seq<Seq<u8>>, cadence: int, a: nat, b: nat)
    requires
        a <= b,
        track_fixes(lines, cadence, b) is Some,
    ensures
        track_fixes(lines, cadence, a) is Some,
        track_fixes(lines, cadence, a).unwrap().len() <= track_fixes(lines, cadence, b).unwrap().len(),
        forall|j: int|
            0 <= j < track_fixes(lines, cadence, a).unwrap().len() ==> #[trigger] track_fixes(
                lines,
                cadence,
                b,
            ).unwrap()[j] == track_fixes(lines, cadence, a).unwrap()[j],
    decreases b - a,
{
    if a < b {
        assert(track_fixes(lines, cadence, (b - 1) as nat) is Some);
        lemma_track_prefix(lines, cadence, a, (b - 1) as nat);
    }
}

/// In a finished store, two kept records with the same time (only records
/// that the cadence filter drops between them) stand as exactly one fix, with
/// the values of the first record of that time.
pub proof fn lemma_duplicate_time_in_store(track: &BDeck, lines: Seq<Seq<u8>>, cadence: int, n: nat, m: nat)
    requires
        track.wf(),
        track_fixes(lines, cadence, lines.len()) == Some(track.fixes()),
        cadence > 0,
        n < m < lines.len(),
        record_hour(lines[n as int]) matches Some(h) && h % cadence == 0,
        record_hour(lines[m as int]) matches Some(h) && h % cadence == 0,
        forall|j: int| n < j < m ==> dropped_by_cadence(#[trigger] lines[j], cadence),
        record_time(lines[n as int]) is Some,
        record_time(lines[m as int]) == record_time(lines[n as int]),
    ensures
        ({
            let f = track_fixes(lines, cadence, n + 1).unwrap();
            let k = f.len() - 1;
            &&& 0 <= k < track.len()
            &&& track.fixes()[k] == f.last()
            &&& track.time@[k] == record_time(lines[n as int]).unwrap()
            &&& forall|j: int|
                0 <= j < track.len() && track.time@[j] == record_time(lines[n as int]).unwrap() ==> j
                    == k
        }),
{
    lemma_track_prefix(lines, cadence, n + 1, lines.len());
    lemma_duplicate_time_kept_once(lines, cadence, n, m);
    let f = track_fixes(lines, cadence, n + 1).unwrap();
    let k = f.len() - 1;
    assert(track.fixes()[k] == f[k]);
    assert forall|j: int|
        0 <= j < track.len() && track.time@[j] == record_time(lines[n as int]).unwrap() implies j == k by {
        if j < k {
            assert(track.time@[j] < track.time@[k]);
        } else if j > k {
            assert(track.time@[k] < track.time@[j]);
        }
    }
}

/// Reads the intensity field of a record.
fn read_intensity(l: &[u8]) -> (r: Option<i64>)
    requires
        l@.len() >= MIN_RECORD_LEN,
    ensures
        match record_intensity(l@) {
            Some(v) => r == Some(v as i64) && -MAX_TRACK_VALUE <= v <= MAX_TRACK_VALUE,
            None => r is None,
        },
{
    let n = l.len();
    let f = if n - 1 < 51 { slice_subrange(l, n - 3, n) } else { slice_subrange(l, 48, 51) };
    let g = if f.len() > 0 && f[0] == 32 { slice_subrange(f, 1, f.len()) } else { f };
    assert(f@.len() > 0 && f@[0] == 32 ==> g@ =~= f@.drop_first());
    proof {
        lemma_small_value(g@);
    }
    match read_signed(g) {
        Some(v) => if v == MISSING_INTENSITY { Some(0) } else { Some(v) },
        None => None,
    }
}

proof fn lemma_non_blank_len(s: Seq<u8>)
    ensures
        non_blank(s).len() <= s.len(),
    decreases s.len(),
{
    if s.len() > 0 {
        lemma_non_blank_len(s.drop_last());
    }
}

/// A signed integer of at most four bytes is below ten thousand in magnitude.
proof fn lemma_small_value(s: Seq<u8>)
    requires
        s.len() <= 4,
    ensures
        signed_value(s) matches Some(v) ==> -10000 < v < 10000,
{
    if s.len() > 0 && (s[0] == 45 || s[0] == 43) {
        if all_digits(s.drop_first()) {
            digits_below(s.drop_first());
        }
    } else if all_digits(s) {
        digits_below(s);
    }
}

proof fn digits_below(s: Seq<u8>)
    requires
        all_digits(s),
        s.len() <= 4,
    ensures
        digits_value(s) < 10000,
{
    crate::digits::lemma_digits_bound(s);
    lemma_pow10_monotone(s.len(), 4);
    reveal_with_fuel(pow10, 5);
}

proof fn lemma_fixes_fail_onward(lines: Seq<Seq<u8>>, cadence: int, k: nat, m: nat)
    requires
        track_fixes(lines, cadence, k) is None,
        k <= m,
    ensures
        track_fixes(lines, cadence, m) is None,
    decreases m - k,
{
    if k < m {
        lemma_fixes_fail_onward(lines, cadence, k, (m - 1) as nat);
    }
}

} // verus!
