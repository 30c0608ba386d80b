//! Which timing points are in force at a given time of a beatmap.
use crate::number::DecimalNumber;
use crate::osutypes::{whole, whole_number, OsuBeatmap, OsuTimingPoint};
use vstd::prelude::*;

verus! {

/// The timing point in force before the first one: 600 ms beats in 4/4,
/// uninherited.
pub open spec fn default_timing_point() -> OsuTimingPoint {
    OsuTimingPoint {
        time: 0,
        beat_length: whole(seq![6u8, 0u8, 0u8]),
        meter: 4,
        sample_set: 0,
        sample_index: 0,
        volume: 0,
        uninherited: true,
        effects: 0,
    }
}

/// The timing point in force before the first one.
pub fn default_osu_timing_point() -> (r: OsuTimingPoint)
    ensures
        r == default_timing_point(),
{
    let six_hundred = vec![6u8, 0u8, 0u8];
    assert(six_hundred@ =~= seq![6u8, 0u8, 0u8]);
    OsuTimingPoint::new(0, whole_number(&six_hundred), 4, 0, 0, 0, true, 0)
}

/// The index of the first timing point from `i` on that starts at or after
/// `t`, or the number of points; the points before it are the ones read.
pub open spec fn scan_end(ps: Seq<OsuTimingPoint>, t: int, i: int) -> int
    decreases ps.len() - i,
{
    if 0 <= i < ps.len() && ps[i].time < t {
        scan_end(ps, t, i + 1)
    } else {
        i
    }
}

/// The last uninherited timing point of `ps` (or the default one), and the
/// last point of `ps` if it is inherited.
pub open spec fn timing_state(ps: Seq<OsuTimingPoint>) -> (OsuTimingPoint, Option<OsuTimingPoint>)
    decreases ps.len(),
{
    if ps.len() == 0 {
        (default_timing_point(), None)
    } else {
        let (u, i) = timing_state(ps.drop_last());
        let p = ps.last();
        if p.uninherited {
            (p, None)
        } else {
            (u, Some(p))
        }
    }
}

/// The timing points in force at time `t`: those read are the leading points
/// that start before `t`, up to the first one that does not.
pub open spec fn current_timing_points(ps: Seq<OsuTimingPoint>, t: int) -> (
    OsuTimingPoint,
    Option<OsuTimingPoint>,
) {
    timing_state(ps.take(scan_end(ps, t, 0)))
}

impl OsuBeatmap {
    /// The uninherited timing point in force at `time_since_start` (in
    /// milliseconds), and the inherited one if one follows it.
    pub fn get_current_timing_points(&self, time_since_start: i32) -> (r: (
        OsuTimingPoint,
        Option<OsuTimingPoint>,
    ))
        ensures
            r == current_timing_points(self.timing_points@, time_since_start as int),
    {
        let ghost ps = self.timing_points@;
        let mut last_uninherited = default_osu_timing_point();
        let mut last_inherited: Option<OsuTimingPoint> = None;
        let mut i: usize = 0;
        assert(ps.take(0) =~= Seq::<OsuTimingPoint>::empty());
        while i < self.timing_points.len() && self.timing_points[i].time < time_since_start
            invariant
                ps == self.timing_points@,
                i <= ps.len(),
                scan_end(ps, time_since_start as int, 0) == scan_end(
                    ps,
                    time_since_start as int,
                    i as int,
                ),
                timing_state(ps.take(i as int)) == (last_uninherited, last_inherited),
            decreases ps.len() - i,
        {
            let timing = self.timing_points[i];
            assert(ps.take(i + 1).drop_last() =~= ps.take(i as int));
            if timing.uninherited {
                last_uninherited = timing;
                last_inherited = None;
            } else {
                last_inherited = Some(timing);
            }
            i = i + 1;
        }
        (last_uninherited, last_inherited)
    }

    /// The beat length of the uninherited timing point in force at
    /// `time_since_start` (in milliseconds).
    pub fn get_beat_length(&self, time_since_start: i32) -> (r: DecimalNumber)
        ensures
            r == current_timing_points(self.timing_points@, time_since_start as int).0.beat_length,
    {
        self.get_current_timing_points(time_since_start).0.beat_length
    }

    /// The beat length of the inherited timing point in force at
    /// `time_since_start`, if there is one (it sets the slider velocity
    /// multiplier to -100 divided by it; with none the multiplier is 1).
    pub fn get_current_slider_velocity(&self, time_since_start: i32) -> (r: Option<DecimalNumber>)
        ensures
            r == match current_timing_points(self.timing_points@, time_since_start as int).1 {
                Some(p) => Some(p.beat_length),
                None => None::<DecimalNumber>,
            },
    {
        match self.get_current_timing_points(time_since_start).1 {
            Some(p) => Some(p.beat_length),
            None => None,
        }
    }
}

proof fn lemma_state_shape(ps: Seq<OsuTimingPoint>)
    ensures
        timing_state(ps).0.uninherited,
        timing_state(ps).0 == default_timing_point() || ps.contains(timing_state(ps).0),
        timing_state(ps).1 matches Some(p) ==> ps.len() > 0 && p == ps.last() && !p.uninherited,
        ps.len() > 0 && !ps.last().uninherited ==> timing_state(ps).1 == Some(ps.last()),
    decreases ps.len(),
{
    if ps.len() > 0 {
        lemma_state_shape(ps.drop_last());
        let u = timing_state(ps.drop_last()).0;
        if !ps.last().uninherited && u != default_timing_point() {
            let k = choose|k: int| 0 <= k < ps.drop_last().len() && ps.drop_last()[k] == u;
            assert(ps[k] == u);
        }
        if ps.last().uninherited {
            assert(ps[ps.len() - 1] == ps.last());
        }
    }
}

proof fn lemma_scan_end_bounds(ps: Seq<OsuTimingPoint>, t: int, i: int)
    requires
        0 <= i <= ps.len(),
    ensures
        i <= scan_end(ps, t, i) <= ps.len(),
        forall|k: int| i <= k < scan_end(ps, t, i) ==> #[trigger] ps[k].time < t,
        scan_end(ps, t, i) < ps.len() ==> ps[scan_end(ps, t, i)].time >= t,
    decreases ps.len() - i,
{
    if i < ps.len() && ps[i].time < t {
        lemma_scan_end_bounds(ps, t, i + 1);
    }
}

/// The uninherited timing point in force is always an uninherited one: one
/// of the beatmap's that starts before `t`, or the default one.
pub proof fn law_current_uninherited(ps: Seq<OsuTimingPoint>, t: int)
    ensures
        current_timing_points(ps, t).0.uninherited,
        current_timing_points(ps, t).0 == default_timing_point() || (ps.contains(
            current_timing_points(ps, t).0,
        ) && current_timing_points(ps, t).0.time < t),
{
    lemma_scan_end_bounds(ps, t, 0);
    let n = scan_end(ps, t, 0);
    lemma_state_shape(ps.take(n));
    let u = current_timing_points(ps, t).0;
    if u != default_timing_point() {
        let k = choose|k: int| 0 <= k < ps.take(n).len() && ps.take(n)[k] == u;
        assert(ps[k] == u);
        assert(ps[k].time < t);
    }
}

/// An inherited timing point is in force at `t` exactly when the last point
/// that starts before `t` (up to the first one that does not) is inherited,
/// and then it is that point.
pub proof fn law_current_inherited(ps: Seq<OsuTimingPoint>, t: int)
    ensures
        current_timing_points(ps, t).1 matches Some(p) ==> !p.uninherited && p.time < t
            && ps.contains(p),
        ({
            let n = scan_end(ps, t, 0);
            n > 0 && !ps[n - 1].uninherited ==> current_timing_points(ps, t).1 == Some(ps[n - 1])
        }),
        ({
            let n = scan_end(ps, t, 0);
            n == 0 || ps[n - 1].uninherited ==> current_timing_points(ps, t).1 is None
        }),
{
    lemma_scan_end_bounds(ps, t, 0);
    let n = scan_end(ps, t, 0);
    let pre = ps.take(n);
    lemma_state_shape(pre);
    if n > 0 {
        assert(pre.last() == ps[n - 1]);
    }
    if current_timing_points(ps, t).1 is Some {
        assert(ps[n - 1].time < t);
    }
}

proof fn lemma_scan_end_append(ps: Seq<OsuTimingPoint>, qs: Seq<OsuTimingPoint>, t: int, i: int)
    requires
        0 <= i <= ps.len(),
        scan_end(ps, t, i) < ps.len(),
    ensures
        scan_end(ps + qs, t, i) == scan_end(ps, t, i),
    decreases ps.len() - i,
{
    if i < ps.len() && ps[i].time < t {
        assert((ps + qs)[i] == ps[i]);
        lemma_scan_end_append(ps, qs, t, i + 1);
    } else {
        assert((ps + qs)[i] == ps[i]);
    }
}

/// Timing points after the first one that starts at or after `t` do not
/// change which points are in force at `t`.
pub proof fn law_later_points_irrelevant(ps: Seq<OsuTimingPoint>, qs: Seq<OsuTimingPoint>, t: int)
    requires
        exists|k: int| 0 <= k < ps.len() && #[trigger] ps[k].time >= t,
    ensures
        current_timing_points(ps + qs, t) == current_timing_points(ps, t),
{
    lemma_scan_end_bounds(ps, t, 0);
    let k = choose|k: int| 0 <= k < ps.len() && #[trigger] ps[k].time >= t;
    let n = scan_end(ps, t, 0);
    if n == ps.len() {
        assert(ps[k].time < t);
    }
    lemma_scan_end_append(ps, qs, t, 0);
    assert((ps + qs).take(n) =~= ps.take(n));
}

/// A beatmap without timing points runs on the default one.
pub proof fn law_no_timing_points(t: int)
    ensures
        current_timing_points(Seq::empty(), t) == (default_timing_point(), None::<OsuTimingPoint>),
{
    let e = Seq::<OsuTimingPoint>::empty();
    assert(scan_end(e, t, 0) == 0);
    assert(e.take(0) =~= e);
}

proof fn lemma_state_last_uninherited(qs: Seq<OsuTimingPoint>)
    ensures
        forall|k: int|
            0 <= k < qs.len() && #[trigger] qs[k].uninherited && (forall|j: int|
                k < j < qs.len() ==> !(#[trigger] qs[j]).uninherited) ==> timing_state(qs).0
                == qs[k],
        (forall|k: int| 0 <= k < qs.len() ==> !(#[trigger] qs[k]).uninherited) ==> timing_state(
            qs,
        ).0 == default_timing_point(),
    decreases qs.len(),
{
    if qs.len() > 0 {
        let pre = qs.drop_last();
        lemma_state_last_uninherited(pre);
        assert forall|k: int|
            0 <= k < qs.len() && #[trigger] qs[k].uninherited && (forall|j: int|
                k < j < qs.len() ==> !(#[trigger] qs[j]).uninherited) implies timing_state(qs).0
            == qs[k] by {
            if k < qs.len() - 1 {
                assert(!qs[qs.len() - 1].uninherited);
                assert(pre[k] == qs[k]);
                assert forall|j: int| k < j < pre.len() implies !(#[trigger] pre[j]).uninherited by {
                    assert(pre[j] == qs[j]);
                }
            }
        }
        if forall|k: int| 0 <= k < qs.len() ==> !(#[trigger] qs[k]).uninherited {
            assert(!qs[qs.len() - 1].uninherited);
            assert forall|k: int| 0 <= k < pre.len() implies !(#[trigger] pre[k]).uninherited by {
                assert(pre[k] == qs[k]);
            }
        }
    }
}

/// The uninherited timing point in force at `t` is the last uninherited
/// point among those read (the leading points that start before `t`),
/// whatever points come before it; with none, the default one.
pub proof fn law_last_uninherited_in_force(ps: Seq<OsuTimingPoint>, t: int, k: int)
    ensures
        ({
            let n = scan_end(ps, t, 0);
            0 <= k < n && ps[k].uninherited && (forall|j: int| k < j < n ==> !(#[trigger] ps[j]).uninherited)
                ==> current_timing_points(ps, t).0 == ps[k]
        }),
        ({
            let n = scan_end(ps, t, 0);
            (forall|j: int| 0 <= j < n ==> !(#[trigger] ps[j]).uninherited)
                ==> current_timing_points(ps, t).0 == default_timing_point()
        }),
{
    lemma_scan_end_bounds(ps, t, 0);
    let n = scan_end(ps, t, 0);
    let pre = ps.take(n);
    lemma_state_last_uninherited(pre);
    if 0 <= k < n && ps[k].uninherited && (forall|j: int| k < j < n ==> !(#[trigger] ps[j]).uninherited) {
        assert(pre[k] == ps[k]);
        assert forall|j: int| k < j < pre.len() implies !(#[trigger] pre[j]).uninherited by {
            assert(pre[j] == ps[j]);
        }
    }
    if forall|j: int| 0 <= j < n ==> !(#[trigger] ps[j]).uninherited {
        assert forall|j: int| 0 <= j < pre.len() implies !(#[trigger] pre[j]).uninherited by {
            assert(pre[j] == ps[j]);
        }
    }
}

/// The points read at `t` are exactly the leading ones that start before
/// `t`: each of them does, and the next one, if any, does not.
pub proof fn law_points_read(ps: Seq<OsuTimingPoint>, t: int)
    ensures
        0 <= scan_end(ps, t, 0) <= ps.len(),
        forall|k: int| 0 <= k < scan_end(ps, t, 0) ==> #[trigger] ps[k].time < t,
        scan_end(ps, t, 0) < ps.len() ==> ps[scan_end(ps, t, 0)].time >= t,
{
    lemma_scan_end_bounds(ps, t, 0);
}

} // verus!
