//! The correlation pipeline's decisions: which candidate closest approaches
//! of a track fix are searched again, and which refined passes become
//! correlated events. The caller runs the pass searches.
use crate::bdeck::{BDeck, TrackSample, MAX_TRACK_SECONDS, MAX_TRACK_VALUE};
use crate::scan::{MAX_ELEVATION_UDEG, MAX_SCAN_US};
use vstd::prelude::*;

verus! {

/// Half the span of the second, tighter search around a candidate closest
/// approach: thirty minutes.
pub const REFINE_HALF_SPAN_US: i64 = 1_800_000_000;

/// Whether the track's intensity at a candidate reaches the threshold.
pub fn meets_intensity(sample: &TrackSample, threshold_kt: i64) -> (r: bool)
    requires
        0 < sample.scale <= 2_000_000_000_000_000_000,
    ensures
        r == (sample.intensity >= threshold_kt * sample.scale),
{
    assert(-18_446_744_073_709_551_616_000_000_000_000_000_000 <= threshold_kt * sample.scale
        <= 18_446_744_073_709_551_616_000_000_000_000_000_000) by (nonlinear_arith)
        requires
            -9_223_372_036_854_775_808 <= threshold_kt <= 9_223_372_036_854_775_807,
            0 <= sample.scale <= 2_000_000_000_000_000_000,
    ;
    sample.intensity >= threshold_kt as i128 * sample.scale
}

/// The span of the tighter search around a candidate closest approach at
/// `cpa_us`: thirty minutes either side.
pub fn refinement_window(cpa_us: i64) -> (r: (i64, i64))
    requires
        -MAX_SCAN_US <= cpa_us <= MAX_SCAN_US,
    ensures
        r.0 == cpa_us - REFINE_HALF_SPAN_US,
        r.1 == cpa_us + REFINE_HALF_SPAN_US,
{
    (cpa_us - REFINE_HALF_SPAN_US, cpa_us + REFINE_HALF_SPAN_US)
}

/// The zenith, ninety degrees, in micro-degrees.
pub const ZENITH_UDEG: i64 = 90_000_000;

/// A refined pass as the pass search saw it: time of closest approach, ground
/// distance in whole metres, and maximum elevation in micro-degrees.
#[derive(Debug, Clone, Copy, PartialEq, Eq)]
pub struct PassObservation {
    pub cpa_us: i64,
    pub distance_m: i64,
    pub elevation_udeg: i64,
}

/// A pass correlated with the storm: closest approach, distance, zenith angle
/// of the satellite, and the storm's track values then.
#[derive(Debug, Clone, Copy, PartialEq, Eq)]
pub struct CorrelatedEvent {
    pub cpa_us: i64,
    pub distance_m: i64,
    pub zenith_udeg: i64,
    pub intensity: TrackSample,
}

/// The candidates, in order, where the track has a value that reaches the
/// intensity threshold, each with that value.
pub open spec fn requests_of(track: BDeck, cpas: Seq<i64>, threshold_kt: int) -> Seq<(i64, TrackSample)>
    decreases cpas.len(),
{
    if cpas.len() == 0 {
        Seq::empty()
    } else {
        let prev = requests_of(track, cpas.drop_last(), threshold_kt);
        match track.value_at(cpas.last() as int) {
            Some(s) => if s.intensity >= threshold_kt * s.scale {
                prev.push((cpas.last(), s))
            } else {
                prev
            },
            None => prev,
        }
    }
}

/// The event that a refined pass gives with the track's values `sample`.
pub open spec fn event_of(p: PassObservation, sample: TrackSample) -> CorrelatedEvent {
    CorrelatedEvent {
        cpa_us: p.cpa_us,
        distance_m: p.distance_m,
        zenith_udeg: (ZENITH_UDEG - p.elevation_udeg) as i64,
        intensity: sample,
    }
}

/// The events of the refined passes, in order, that lie within the distance
/// threshold.
pub open spec fn events_of(refined: Seq<PassObservation>, sample: TrackSample, distance_m: int) -> Seq<
    CorrelatedEvent,
>
    decreases refined.len(),
{
    if refined.len() == 0 {
        Seq::empty()
    } else {
        let prev = events_of(refined.drop_last(), sample, distance_m);
        if refined.last().distance_m <= distance_m {
            prev.push(event_of(refined.last(), sample))
        } else {
            prev
        }
    }
}

/// The candidate closest approaches of track fix `fix` that are searched
/// again: those where the track has a value reaching the intensity threshold,
/// in order, each with that value. The interpolation cursor starts at the
/// fix and follows the candidates.
pub fn refinement_requests(track: &BDeck, fix: usize, cpa_us: &Vec<i64>, threshold_kt: i64) -> (r: Vec<
    (i64, TrackSample),
>)
    requires
        track.wf(),
    ensures
        r@ == requests_of(*track, cpa_us@, threshold_kt as int),
{
    let mut cursor = fix;
    let mut out: Vec<(i64, TrackSample)> = Vec::new();
    let mut i: usize = 0;
    assert(cpa_us@.subrange(0, 0) =~= Seq::<i64>::empty());
    while i < cpa_us.len()
        invariant
            track.wf(),
            i <= cpa_us@.len(),
            out@ == requests_of(*track, cpa_us@.subrange(0, i as int), threshold_kt as int),
        decreases cpa_us@.len() - i,
    {
        let q = cpa_us[i];
        let ghost cs = cpa_us@.subrange(0, i as int + 1);
        assert(cs.drop_last() =~= cpa_us@.subrange(0, i as int));
        assert(cs.last() == q);
        match track.interpolate_with_index(q, &mut cursor) {
            Some(s) => {
                proof {
                    let k = cursor as int;
                    assert(-MAX_TRACK_SECONDS <= track.time@[k] <= MAX_TRACK_SECONDS);
                    if k + 1 < track.len() {
                        assert(-MAX_TRACK_SECONDS <= track.time@[k + 1] <= MAX_TRACK_SECONDS);
                        assert(track.time@[k] < track.time@[k + 1]);
                    }
                }
                if meets_intensity(&s, threshold_kt) {
                    out.push((q, s));
                }
            },
            None => {},
        }
        i = i + 1;
    }
    assert(cpa_us@.subrange(0, cpa_us@.len() as int) =~= cpa_us@);
    out
}

/// The correlated events of the passes found around one candidate: those
/// within the distance threshold, in order, each with the zenith angle of its
/// maximum elevation and the track's values at the candidate.
pub fn correlated_events(refined: &Vec<PassObservation>, sample: &TrackSample, distance_thres_m: i64) -> (r: Vec<
    CorrelatedEvent,
>)
    requires
        forall|i: int|
            0 <= i < refined@.len() ==> -MAX_ELEVATION_UDEG <= #[trigger] refined@[i].elevation_udeg
                <= MAX_ELEVATION_UDEG,
    ensures
        r@ == events_of(refined@, *sample, distance_thres_m as int),
{
    let mut out: Vec<CorrelatedEvent> = Vec::new();
    let mut i: usize = 0;
    assert(refined@.subrange(0, 0) =~= Seq::<PassObservation>::empty());
    while i < refined.len()
        invariant
            i <= refined@.len(),
            forall|j: int|
                0 <= j < refined@.len() ==> -MAX_ELEVATION_UDEG <= #[trigger] refined@[j].elevation_udeg
                    <= MAX_ELEVATION_UDEG,
            out@ == events_of(refined@.subrange(0, i as int), *sample, distance_thres_m as int),
        decreases refined@.len() - i,
    {
        let p = refined[i];
        let ghost ps = refined@.subrange(0, i as int + 1);
        assert(ps.drop_last() =~= refined@.subrange(0, i as int));
        assert(ps.last() == p);
        if p.distance_m <= distance_thres_m {
            out.push(CorrelatedEvent {
                cpa_us: p.cpa_us,
                distance_m: p.distance_m,
                zenith_udeg: ZENITH_UDEG - p.elevation_udeg,
                intensity: *sample,
            });
        }
        i = i + 1;
    }
    assert(refined@.subrange(0, refined@.len() as int) =~= refined@);
    out
}

/// Splitting the candidates into two runs and joining what each gives is the
/// same as deciding them all at once: the decisions do not depend on which
/// worker takes which candidates, nor on the interpolation cursor.
pub proof fn lemma_requests_concat(track: BDeck, a: Seq<i64>, b: Seq<i64>, threshold_kt: int)
    ensures
        requests_of(track, a + b, threshold_kt) == requests_of(track, a, threshold_kt) + requests_of(
            track,
            b,
            threshold_kt,
        ),
    decreases b.len(),
{
    if b.len() == 0 {
        assert(a + b =~= a);
        assert(requests_of(track, a, threshold_kt) + requests_of(track, b, threshold_kt) =~= requests_of(track, a, threshold_kt));
    } else {
        assert((a + b).drop_last() =~= a + b.drop_last());
        assert((a + b).last() == b.last());
        lemma_requests_concat(track, a, b.drop_last(), threshold_kt);
        let ra = requests_of(track, a, threshold_kt);
        let rb = requests_of(track, b.drop_last(), threshold_kt);
        match track.value_at(b.last() as int) {
            Some(s) => if s.intensity >= threshold_kt * s.scale {
                assert((ra + rb).push((b.last(), s)) =~= ra + rb.push((b.last(), s)));
            },
            None => {},
        }
    }
}

/// Splitting the refined passes into two runs and joining the events of each
/// is the same as filtering them all at once.
pub proof fn lemma_events_concat(a: Seq<PassObservation>, b: Seq<PassObservation>, sample: TrackSample, distance_m: int)
    ensures
        events_of(a + b, sample, distance_m) == events_of(a, sample, distance_m) + events_of(
            b,
            sample,
            distance_m,
        ),
    decreases b.len(),
{
    if b.len() == 0 {
        assert(a + b =~= a);
        assert(events_of(a, sample, distance_m) + events_of(b, sample, distance_m) =~= events_of(a, sample, distance_m));
    } else {
        assert((a + b).drop_last() =~= a + b.drop_last());
        assert((a + b).last() == b.last());
        lemma_events_concat(a, b.drop_last(), sample, distance_m);
        let ea = events_of(a, sample, distance_m);
        let eb = events_of(b.drop_last(), sample, distance_m);
        if b.last().distance_m <= distance_m {
            assert((ea + eb).push(event_of(b.last(), sample)) =~= ea + eb.push(event_of(b.last(), sample)));
        }
    }
}

/// One candidate where the track reaches the intensity threshold is searched
/// again, and one refined pass within the distance threshold gives exactly
/// one event, at that pass's closest approach and distance.
pub proof fn lemma_one_pass_one_event(
    track: BDeck,
    cpa: i64,
    threshold_kt: int,
    p: PassObservation,
    distance_m: int,
)
    requires
        track.value_at(cpa as int) matches Some(s) && s.intensity >= threshold_kt * s.scale,
        p.distance_m <= distance_m,
    ensures
        requests_of(track, seq![cpa], threshold_kt) == seq![(cpa, track.value_at(cpa as int).unwrap())],
        events_of(seq![p], track.value_at(cpa as int).unwrap(), distance_m) == seq![
            event_of(p, track.value_at(cpa as int).unwrap()),
        ],
        events_of(seq![p], track.value_at(cpa as int).unwrap(), distance_m)[0].distance_m <= distance_m,
{
    let s = track.value_at(cpa as int).unwrap();
    let one = seq![cpa];
    assert(one.drop_last() =~= Seq::<i64>::empty());
    assert(one.last() == cpa);
    assert(requests_of(track, Seq::<i64>::empty(), threshold_kt) == Seq::<(i64, TrackSample)>::empty());
    assert(requests_of(track, one, threshold_kt) == requests_of(track, one.drop_last(), threshold_kt).push((cpa, s)));
    assert(Seq::<(i64, TrackSample)>::empty().push((cpa, s)) =~= seq![(cpa, s)]);
    let ps = seq![p];
    assert(ps.drop_last() =~= Seq::<PassObservation>::empty());
    assert(ps.last() == p);
    assert(events_of(Seq::<PassObservation>::empty(), s, distance_m) == Seq::<CorrelatedEvent>::empty());
    assert(events_of(ps, s, distance_m) == events_of(ps.drop_last(), s, distance_m).push(event_of(p, s)));
    assert(Seq::<CorrelatedEvent>::empty().push(event_of(p, s)) =~= seq![event_of(p, s)]);
}

} // verus!
