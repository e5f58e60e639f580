//! Pass search: the visibility-window scanner and the maximum-elevation
//! bisection, as state machines. The caller observes the satellite where an
//! action asks and hands back what it saw; times are microseconds since 1970
//! UTC and elevations micro-degrees.
use vstd::prelude::*;

verus! {

/// Step while the elevation is far from the threshold: ten seconds.
pub const COARSE_STEP_US: i64 = 10_000_000;

/// Step near the threshold, and the precision floor of the scan: one second.
/// A coarse step there could pass over a crossing.
pub const FINE_STEP_US: i64 = 1_000_000;

/// How near the threshold the fine step starts: five degrees.
pub const BAND_UDEG: i64 = 5_000_000;

/// The largest magnitude of a scan time.
pub const MAX_SCAN_US: i64 = 1_000_000_000_000_000_000;

/// The largest magnitude of an elevation: a full turn.
pub const MAX_ELEVATION_UDEG: i64 = 360_000_000;

/// The bisection stops after this many halvings at most.
pub const MAX_BISECTION_STEPS: u32 = 10000;

pub open spec fn abs(x: int) -> int {
    if x < 0 { -x } else { x }
}

/// How far the scan moves after an observation at `elevation`.
pub open spec fn step_for(elevation: int, min_elevation: int) -> int {
    if abs(elevation - min_elevation) > BAND_UDEG { COARSE_STEP_US as int } else { FINE_STEP_US as int }
}

pub fn scan_step_us(elevation: i64, min_elevation: i64) -> (r: i64)
    requires
        -MAX_ELEVATION_UDEG <= elevation <= MAX_ELEVATION_UDEG,
        -MAX_ELEVATION_UDEG <= min_elevation <= MAX_ELEVATION_UDEG,
    ensures
        r == step_for(elevation as int, min_elevation as int),
{
    let d = elevation - min_elevation;
    if d > BAND_UDEG || d < -BAND_UDEG {
        COARSE_STEP_US
    } else {
        FINE_STEP_US
    }
}

/// Whether a scan that starts at an observation of `elevation` starts inside
/// a pass, the satellite already at or above the threshold, so that the
/// caller first walks back to where the pass rose.
pub fn starts_inside_pass(elevation: i64, min_elevation: i64) -> (r: bool)
    ensures
        r == (elevation >= min_elevation),
{
    elevation >= min_elevation
}

/// A visibility window: the refined rise and set times.
#[derive(Debug, Clone, Copy, PartialEq, Eq)]
pub struct Window {
    pub rise_us: i64,
    pub set_us: i64,
}

/// What the scanner is waiting for.
#[derive(Debug, Clone, Copy, PartialEq, Eq)]
pub enum ScanPhase {
    /// Stepping until the satellite is above the threshold and rising.
    SeekingRise,
    /// Waiting for the precise rise time.
    RefiningRise,
    /// Stepping until the satellite is at or below the threshold and falling.
    SeekingSet { rise_us: i64 },
    /// Waiting for the precise set time.
    RefiningSet { rise_us: i64 },
    /// The scan horizon is reached.
    Finished,
}

/// What the caller does next.
#[derive(Debug, Clone, Copy, PartialEq, Eq)]
pub enum ScanAction {
    /// Observe elevation and elevation rate at this time.
    Observe { at_us: i64 },
    /// Find the precise upward crossing, searching from this time.
    RefineRise { from_us: i64 },
    /// Find the precise downward crossing, searching from this time.
    RefineSet { from_us: i64 },
    /// Nothing: the scan is over.
    Stop,
}

/// What the caller saw.
#[derive(Debug, Clone, Copy, PartialEq, Eq)]
pub enum ScanEvent {
    /// Elevation (micro-degrees) and the sign of the elevation rate.
    Observed { elevation: i64, rate_sign: i8 },
    /// The precise time of the crossing that was asked for.
    Refined { at_us: i64 },
}

pub struct WindowScanner {
    pub phase: ScanPhase,
    /// The scan's current time.
    pub now_us: i64,
    /// The scan horizon.
    pub stop_us: i64,
    pub min_elevation: i64,
    /// The complete windows found so far, in scan order.
    pub windows: Vec<Window>,
}

impl WindowScanner {
    pub open spec fn wf(&self) -> bool {
        &&& -MAX_SCAN_US <= self.now_us <= MAX_SCAN_US
        &&& -MAX_SCAN_US <= self.stop_us <= MAX_SCAN_US
        &&& -MAX_ELEVATION_UDEG <= self.min_elevation <= MAX_ELEVATION_UDEG
    }

    /// The action that the current phase asks for.
    pub open spec fn pending(&self) -> ScanAction {
        match self.phase {
            ScanPhase::SeekingRise => ScanAction::Observe { at_us: self.now_us },
            ScanPhase::SeekingSet { .. } => ScanAction::Observe { at_us: self.now_us },
            ScanPhase::RefiningRise => ScanAction::RefineRise { from_us: (self.now_us - FINE_STEP_US) as i64 },
            ScanPhase::RefiningSet { .. } => ScanAction::RefineSet { from_us: (self.now_us - FINE_STEP_US) as i64 },
            ScanPhase::Finished => ScanAction::Stop,
        }
    }

    /// Starts a scan of `[start_us, stop_us)`, the satellite not yet risen at
    /// `start_us`.
    pub fn new(start_us: i64, stop_us: i64, min_elevation: i64) -> (r: (WindowScanner, ScanAction))
        requires
            -MAX_SCAN_US <= start_us <= MAX_SCAN_US,
            -MAX_SCAN_US <= stop_us <= MAX_SCAN_US,
            -MAX_ELEVATION_UDEG <= min_elevation <= MAX_ELEVATION_UDEG,
        ensures
            r.0.wf(),
            r.0.now_us == start_us,
            r.0.stop_us == stop_us,
            r.0.min_elevation == min_elevation,
            r.0.windows@.len() == 0,
            r.0.phase == (if start_us >= stop_us { ScanPhase::Finished } else { ScanPhase::SeekingRise }),
            r.1 == r.0.pending(),
    {
        let phase = if start_us >= stop_us { ScanPhase::Finished } else { ScanPhase::SeekingRise };
        let s = WindowScanner { phase, now_us: start_us, stop_us, min_elevation, windows: Vec::new() };
        let a = if start_us >= stop_us { ScanAction::Stop } else { ScanAction::Observe { at_us: start_us } };
        (s, a)
    }

    /// Takes what the caller saw for the pending action and moves the scan on.
    /// An event of the wrong kind for the phase changes nothing.
    ///
    /// Seeking a rise, an elevation at or above the threshold with a positive
    /// rate asks for the rise to be refined from one fine step back; any other
    /// observation moves the scan by `step_for` and ends it at the horizon.
    /// Seeking a set, the same holds of an elevation at or below the threshold
    /// with a negative rate; a window whose set the horizon cuts off is
    /// dropped. A refined set completes a window: only then is one recorded.
    pub fn step(&mut self, event: ScanEvent) -> (r: ScanAction)
        requires
            old(self).wf(),
            event matches ScanEvent::Observed { elevation, .. } ==> -MAX_ELEVATION_UDEG <= elevation
                <= MAX_ELEVATION_UDEG,
        ensures
            final(self).wf(),
            r == final(self).pending(),
            final(self).stop_us == old(self).stop_us,
            final(self).min_elevation == old(self).min_elevation,
            match (old(self).phase, event) {
                (ScanPhase::SeekingRise, ScanEvent::Observed { elevation, rate_sign }) => {
                    final(self).windows@ == old(self).windows@ && if elevation >= old(self).min_elevation
                        && rate_sign > 0 {
                        final(self).phase == ScanPhase::RefiningRise && final(self).now_us == old(self).now_us
                    } else {
                        let t = old(self).now_us + step_for(elevation as int, old(self).min_elevation as int);
                        &&& final(self).now_us == (if t > MAX_SCAN_US { MAX_SCAN_US as int } else { t })
                        &&& final(self).phase == (if t >= old(self).stop_us { ScanPhase::Finished } else { ScanPhase::SeekingRise })
                    }
                },
                (ScanPhase::RefiningRise, ScanEvent::Refined { at_us }) => {
                    &&& final(self).windows@ == old(self).windows@
                    &&& final(self).now_us == old(self).now_us
                    &&& final(self).phase == ScanPhase::SeekingSet { rise_us: at_us }
                },
                (ScanPhase::SeekingSet { rise_us }, ScanEvent::Observed { elevation, rate_sign }) => {
                    final(self).windows@ == old(self).windows@ && if elevation <= old(self).min_elevation
                        && rate_sign < 0 {
                        final(self).phase == ScanPhase::RefiningSet { rise_us }
                            && final(self).now_us == old(self).now_us
                    } else {
                        let t = old(self).now_us + step_for(elevation as int, old(self).min_elevation as int);
                        &&& final(self).now_us == (if t > MAX_SCAN_US { MAX_SCAN_US as int } else { t })
                        &&& final(self).phase == (if t >= old(self).stop_us { ScanPhase::Finished } else { ScanPhase::SeekingSet { rise_us } })
                    }
                },
                (ScanPhase::RefiningSet { rise_us }, ScanEvent::Refined { at_us }) => {
                    &&& final(self).windows@ == old(self).windows@.push(Window { rise_us, set_us: at_us })
                    &&& final(self).now_us == old(self).now_us
                    &&& final(self).phase == (if old(self).now_us >= old(self).stop_us { ScanPhase::Finished } else { ScanPhase::SeekingRise })
                },
                _ => final(self).windows@ == old(self).windows@ && final(self).phase == old(self).phase
                    && final(self).now_us == old(self).now_us,
            },
    {
        match (self.phase, event) {
            (ScanPhase::SeekingRise, ScanEvent::Observed { elevation, rate_sign }) => {
                if elevation >= self.min_elevation && rate_sign > 0 {
                    self.phase = ScanPhase::RefiningRise;
                } else {
                    self.advance(elevation, ScanPhase::SeekingRise);
                }
            },
            (ScanPhase::RefiningRise, ScanEvent::Refined { at_us }) => {
                self.phase = ScanPhase::SeekingSet { rise_us: at_us };
            },
            (ScanPhase::SeekingSet { rise_us }, ScanEvent::Observed { elevation, rate_sign }) => {
                if elevation <= self.min_elevation && rate_sign < 0 {
                    self.phase = ScanPhase::RefiningSet { rise_us };
                } else {
                    self.advance(elevation, ScanPhase::SeekingSet { rise_us });
                }
            },
            (ScanPhase::RefiningSet { rise_us }, ScanEvent::Refined { at_us }) => {
                self.windows.push(Window { rise_us, set_us: at_us });
                self.phase = if self.now_us >= self.stop_us {
                    ScanPhase::Finished
                } else {
                    ScanPhase::SeekingRise
                };
            },
            _ => {},
        }
        self.pending_action()
    }

    /// Moves the scan on from an observation at `elevation`, staying in
    /// `phase` unless that passes the horizon.
    fn advance(&mut self, elevation: i64, phase: ScanPhase)
        requires
            old(self).wf(),
            -MAX_ELEVATION_UDEG <= elevation <= MAX_ELEVATION_UDEG,
        ensures
            final(self).wf(),
            final(self).stop_us == old(self).stop_us,
            final(self).min_elevation == old(self).min_elevation,
            final(self).windows == old(self).windows,
            ({
                let t = old(self).now_us + step_for(elevation as int, old(self).min_elevation as int);
                &&& final(self).now_us == (if t > MAX_SCAN_US { MAX_SCAN_US as int } else { t })
                &&& final(self).phase == (if t >= old(self).stop_us { ScanPhase::Finished } else { phase })
            }),
    {
        let step = scan_step_us(elevation, self.min_elevation);
        let t = self.now_us + step;
        self.now_us = if t > MAX_SCAN_US { MAX_SCAN_US } else { t };
        if t >= self.stop_us {
            self.phase = ScanPhase::Finished;
        } else {
            self.phase = phase;
        }
    }

    pub fn pending_action(&self) -> (r: ScanAction)
        requires
            self.wf(),
        ensures
            r == self.pending(),
    {
        match self.phase {
            ScanPhase::SeekingRise => ScanAction::Observe { at_us: self.now_us },
            ScanPhase::SeekingSet { .. } => ScanAction::Observe { at_us: self.now_us },
            ScanPhase::RefiningRise => ScanAction::RefineRise { from_us: self.now_us - FINE_STEP_US },
            ScanPhase::RefiningSet { .. } => ScanAction::RefineSet { from_us: self.now_us - FINE_STEP_US },
            ScanPhase::Finished => ScanAction::Stop,
        }
    }
}

/// The sign of a number: -1, 0 or 1.
pub open spec fn sign(x: int) -> int {
    if x > 0 { 1 } else if x < 0 { -1 } else { 0 }
}

/// Two signs that are opposite and not zero.
pub open spec fn opposite(a: int, b: int) -> bool {
    (a > 0 && b < 0) || (a < 0 && b > 0)
}

/// Bisection for the instant of maximum elevation: the elevation rate changes
/// sign once in `[lower_us, upper_us]`, and `candidate_us` is the midpoint
/// that the caller observes next.
#[derive(Debug, Clone, Copy, PartialEq, Eq)]
pub struct Bisection {
    pub lower_us: i64,
    pub upper_us: i64,
    /// Sign of the elevation rate at `lower_us`.
    pub lower_sign: i8,
    /// Sign of the elevation rate at `upper_us`.
    pub upper_sign: i8,
    pub candidate_us: i64,
    pub iteration: u32,
    /// Set where the candidate's rate was not opposite to either bound's, so
    /// that no smaller bracket was found.
    pub settled: bool,
}

pub open spec fn midpoint(lo: int, hi: int) -> int {
    lo + (hi - lo) / 2
}

impl Bisection {
    pub open spec fn wf(&self) -> bool {
        &&& self.lower_us <= self.upper_us
        &&& self.candidate_us == midpoint(self.lower_us as int, self.upper_us as int)
        &&& self.iteration <= MAX_BISECTION_STEPS
    }

    /// The bracket is narrow enough, the halvings are spent, or no sign change
    /// was found.
    pub open spec fn done(&self) -> bool {
        self.settled || self.upper_us - self.lower_us <= 1 || self.iteration >= MAX_BISECTION_STEPS
    }

    /// One halving, given the sign of the rate at the candidate.
    pub open spec fn next(self, s: int) -> Bisection {
        if opposite(s, self.lower_sign as int) {
            Bisection {
                upper_us: self.candidate_us,
                upper_sign: s as i8,
                candidate_us: midpoint(self.lower_us as int, self.candidate_us as int) as i64,
                iteration: (self.iteration + 1) as u32,
                ..self
            }
        } else if opposite(s, self.upper_sign as int) {
            Bisection {
                lower_us: self.candidate_us,
                lower_sign: s as i8,
                candidate_us: midpoint(self.candidate_us as int, self.upper_us as int) as i64,
                iteration: (self.iteration + 1) as u32,
                ..self
            }
        } else {
            Bisection { settled: true, ..self }
        }
    }

    /// Starts on `[lower_us, upper_us]` with the signs of the rate at both ends.
    pub fn new(lower_us: i64, upper_us: i64, lower_sign: i8, upper_sign: i8) -> (r: Bisection)
        requires
            lower_us <= upper_us,
        ensures
            r.wf(),
            r == (Bisection {
                lower_us,
                upper_us,
                lower_sign,
                upper_sign,
                candidate_us: midpoint(lower_us as int, upper_us as int) as i64,
                iteration: 0,
                settled: false,
            }),
    {
        let c = lower_us + ((upper_us as i128 - lower_us as i128) / 2) as i64;
        Bisection { lower_us, upper_us, lower_sign, upper_sign, candidate_us: c, iteration: 0, settled: false }
    }

    pub fn is_done(&self) -> (r: bool)
        ensures
            r == self.done(),
    {
        self.settled || (self.upper_us as i128 - self.lower_us as i128) <= 1 || self.iteration
            >= MAX_BISECTION_STEPS
    }

    /// Halves the bracket towards the sign change, given the sign of the
    /// elevation rate at the candidate.
    pub fn step(&mut self, candidate_sign: i8)
        requires
            old(self).wf(),
            !old(self).done(),
            -1 <= candidate_sign <= 1,
        ensures
            *final(self) == old(self).next(candidate_sign as int),
            final(self).wf(),
    {
        let s = candidate_sign;
        let (l, u) = (self.lower_sign, self.upper_sign);
        if (s > 0 && l < 0) || (s < 0 && l > 0) {
            self.upper_us = self.candidate_us;
            self.upper_sign = candidate_sign;
        } else if (s > 0 && u < 0) || (s < 0 && u > 0) {
            self.lower_us = self.candidate_us;
            self.lower_sign = candidate_sign;
        } else {
            self.settled = true;
            return;
        }
        self.iteration = self.iteration + 1;
        self.candidate_us = self.lower_us + ((self.upper_us as i128 - self.lower_us as i128) / 2) as i64;
    }
}

/// The bisection run to its end, with `rate` giving the sign of the elevation
/// rate at each candidate.
pub open spec fn settle(b: Bisection, rate: spec_fn(int) -> int) -> Bisection
    decreases MAX_BISECTION_STEPS - b.iteration, if b.settled { 0int } else { 1int },
{
    if !b.wf() || b.done() {
        b
    } else {
        settle(b.next(sign(rate(b.candidate_us as int))), rate)
    }
}

/// A rate whose sign changes once, at `root`: with `d` equal to 1 it is
/// positive before `root` and negative after it, with `d` equal to -1 the
/// other way round.
pub open spec fn single_sign_change(rate: spec_fn(int) -> int, root: int, d: int) -> bool {
    &&& d == 1 || d == -1
    &&& forall|t: int| t < root ==> has_sign(#[trigger] rate(t), d)
    &&& forall|t: int| t > root ==> has_sign(#[trigger] rate(t), -d)
}

/// `x` is non-zero with the sign of `d`.
pub open spec fn has_sign(x: int, d: int) -> bool {
    if d > 0 { x > 0 } else { x < 0 }
}

/// With an elevation rate that changes sign once, at `root`, and a bracket
/// strictly around `root` whose end signs are the rate's, the bisection ends
/// within one microsecond of `root`, unless it spends all its halvings.
pub proof fn lemma_bisection_converges(b: Bisection, rate: spec_fn(int) -> int, root: int, d: int)
    requires
        b.wf(),
        b.lower_us < root < b.upper_us,
        single_sign_change(rate, root, d),
        b.lower_sign == sign(rate(b.lower_us as int)),
        b.upper_sign == sign(rate(b.upper_us as int)),
        !b.settled,
    ensures
        settle(b, rate).iteration == MAX_BISECTION_STEPS || abs(settle(b, rate).candidate_us - root)
            <= 1,
{
    assert(has_sign(rate(b.lower_us as int), d));
    assert(has_sign(rate(b.upper_us as int), -d));
    lemma_settle_invariant(b, rate, root, d);
}

proof fn lemma_settle_invariant(b: Bisection, rate: spec_fn(int) -> int, root: int, d: int)
    requires
        b.wf(),
        b.lower_us <= root <= b.upper_us,
        single_sign_change(rate, root, d),
        has_sign(b.lower_sign as int, d),
        has_sign(b.upper_sign as int, -d),
        b.settled ==> b.candidate_us == root,
    ensures
        settle(b, rate).iteration == MAX_BISECTION_STEPS || abs(settle(b, rate).candidate_us - root)
            <= 1,
    decreases MAX_BISECTION_STEPS - b.iteration, if b.settled { 0int } else { 1int },
{
    if !b.done() {
        let c = b.candidate_us as int;
        let s = sign(rate(c));
        let nb = b.next(s);
        if c < root {
            assert(has_sign(rate(c), d));
        } else if c > root {
            assert(has_sign(rate(c), -d));
        }
        assert(nb.wf());
        lemma_settle_invariant(nb, rate, root, d);
    }
}

/// Whatever the rate, the bisection ends, done, after at most
/// `MAX_BISECTION_STEPS` halvings: each step halves or settles.
pub proof fn lemma_bisection_terminates(b: Bisection, rate: spec_fn(int) -> int)
    requires
        b.wf(),
    ensures
        settle(b, rate).wf(),
        settle(b, rate).done(),
        settle(b, rate).iteration <= MAX_BISECTION_STEPS,
        settle(b, rate).iteration >= b.iteration,
    decreases MAX_BISECTION_STEPS - b.iteration, if b.settled { 0int } else { 1int },
{
    if !b.done() {
        let nb = b.next(sign(rate(b.candidate_us as int)));
        assert(nb.wf());
        lemma_bisection_terminates(nb, rate);
    }
}
} // verus!
