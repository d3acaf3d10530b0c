//! Lowering of per-finger waypoint paths into a time-ordered touch stream.
//!
//! A path is one list per finger of `(delay_ms, (x, y))` waypoints: wait
//! `delay_ms`, then be at `(x, y)`. A finger goes down at its first waypoint,
//! moves through every interior one and lifts at its last.

use vstd::prelude::*;

verus! {

/// A waypoint: delay in milliseconds since the previous one, then a position.
pub type Waypoint = (u64, (i32, i32));

#[derive(Clone, Copy, Debug, PartialEq, Eq, Structural)]
pub enum TouchAction {
    Down,
    Move,
    Up,
}

/// One touch to inject at `time` milliseconds after the gesture starts.
#[derive(Clone, Copy, Debug, PartialEq, Eq, Structural)]
pub struct TouchEvent {
    pub x: i32,
    pub y: i32,
    /// The finger: index of its path.
    pub id: usize,
    pub action: TouchAction,
    pub time: u64,
    /// Position of the event among its finger's events.
    pub step: usize,
}

/// Sum of the delays of the first `m` waypoints: the time of arrival at
/// waypoint `m - 1`.
pub open spec fn elapsed(p: Seq<Waypoint>, m: nat) -> int
    decreases m,
{
    if m == 0 {
        0
    } else {
        elapsed(p, (m - 1) as nat) + p[m - 1].0
    }
}

/// Every path's total delay fits the time type, and its events can be counted.
pub open spec fn paths_fit(path: Seq<Seq<Waypoint>>) -> bool {
    forall|f: int|
        0 <= f < path.len() ==> elapsed(#[trigger] path[f], path[f].len()) <= u64::MAX
            && path[f].len() < usize::MAX
}

/// The events of finger `f` produced by its first `m` waypoints: `Down` at
/// the first waypoint, `Move` at every interior one, `Up` at the last; a
/// single waypoint gives `Down` then `Up` there.
pub open spec fn finger_events(f: usize, p: Seq<Waypoint>, m: nat) -> Seq<TouchEvent>
    decreases m,
{
    if m == 0 {
        seq![]
    } else {
        let prev = finger_events(f, p, (m - 1) as nat);
        let j = m - 1;
        let t = elapsed(p, m) as u64;
        let (x, y) = p[j].1;
        let first = TouchEvent {
            x,
            y,
            id: f,
            action: if j == 0 {
                TouchAction::Down
            } else if j == p.len() - 1 {
                TouchAction::Up
            } else {
                TouchAction::Move
            },
            time: t,
            step: prev.len() as usize,
        };
        if j == 0 && j == p.len() - 1 {
            prev.push(first).push(
                TouchEvent { x, y, id: f, action: TouchAction::Up, time: t, step: (prev.len() + 1) as usize },
            )
        } else {
            prev.push(first)
        }
    }
}

/// All events of finger `f`.
pub open spec fn all_finger_events(path: Seq<Seq<Waypoint>>, f: int) -> Seq<TouchEvent> {
    finger_events(f as usize, path[f], path[f].len())
}

/// `e` is an event that the paths produce.
pub open spec fn is_gesture_event(path: Seq<Seq<Waypoint>>, e: TouchEvent) -> bool {
    &&& e.id < path.len()
    &&& e.step < all_finger_events(path, e.id as int).len()
    &&& all_finger_events(path, e.id as int)[e.step as int] == e
}

/// Order of the merged stream: by time, ties by finger, then by the finger's
/// own order; this is the order of a stable sort by time of the fingers'
/// streams laid end to end.
pub open spec fn event_before(a: TouchEvent, b: TouchEvent) -> bool {
    a.time < b.time || (a.time == b.time && (a.id < b.id || (a.id == b.id && a.step < b.step)))
}

/// `r` is the merged event stream of the paths.
#[verifier::opaque]
pub open spec fn is_gesture_stream(path: Seq<Seq<Waypoint>>, r: Seq<TouchEvent>) -> bool {
    &&& forall|e: TouchEvent| r.contains(e) <==> is_gesture_event(path, e)
    &&& forall|i: int, j: int| 0 <= i < j < r.len() ==> event_before(r[i], r[j])
}

proof fn lemma_finger_events_shape(f: usize, p: Seq<Waypoint>, m: nat)
    requires
        m <= p.len(),
        p.len() < usize::MAX,
    ensures
        forall|k: int|
            0 <= k < finger_events(f, p, m).len() ==> (#[trigger] finger_events(f, p, m)[k]).id == f
                && finger_events(f, p, m)[k].step == k,
        finger_events(f, p, m).len() == m + (if m == p.len() && m == 1 {
            1int
        } else {
            0
        }),
    decreases m,
{
    if m > 0 {
        lemma_finger_events_shape(f, p, (m - 1) as nat);
    }
}

proof fn lemma_finger_events_prefix(f: usize, p: Seq<Waypoint>, m1: nat, m2: nat)
    requires
        m1 <= m2 <= p.len(),
    ensures
        finger_events(f, p, m1).len() <= finger_events(f, p, m2).len(),
        forall|k: int|
            0 <= k < finger_events(f, p, m1).len() ==> #[trigger] finger_events(f, p, m2)[k]
                == finger_events(f, p, m1)[k],
    decreases m2,
{
    if m1 < m2 {
        lemma_finger_events_prefix(f, p, m1, (m2 - 1) as nat);
    }
}

/// Inserts `e` after every event at or before its time.
fn insert_by_time(r: &mut Vec<TouchEvent>, e: TouchEvent)
    requires
        forall|i: int, j: int| 0 <= i < j < old(r)@.len() ==> event_before(old(r)@[i], old(r)@[j]),
        forall|i: int|
            0 <= i < old(r)@.len() ==> (#[trigger] old(r)@[i]).id < e.id || (old(r)@[i].id == e.id
                && old(r)@[i].step < e.step),
    ensures
        forall|i: int, j: int| 0 <= i < j < final(r)@.len() ==> event_before(final(r)@[i], final(r)@[j]),
        forall|x: TouchEvent| #[trigger] final(r)@.contains(x) <==> (old(r)@.contains(x) || x == e),
{
    let mut pos: usize = 0;
    while pos < r.len() && r[pos].time <= e.time
        invariant
            r@ == old(r)@,
            0 <= pos <= r@.len(),
            forall|i: int| 0 <= i < pos ==> (#[trigger] r@[i]).time <= e.time,
        decreases r@.len() - pos,
    {
        pos += 1;
    }
    let ghost old_r = r@;
    r.insert(pos, e);
    assert(r@ == old_r.insert(pos as int, e));
    assert forall|i: int, j: int| 0 <= i < j < r@.len() implies event_before(r@[i], r@[j]) by {
        if j < pos {
            assert(r@[i] == old_r[i] && r@[j] == old_r[j]);
        } else if j == pos {
            assert(r@[i] == old_r[i]);
        } else if i == pos {
            assert(r@[j] == old_r[j - 1]);
            if j - 1 > pos {
                assert(event_before(old_r[pos as int], old_r[j - 1]));
            }
        } else if i < pos {
            assert(r@[i] == old_r[i] && r@[j] == old_r[j - 1]);
        } else {
            assert(r@[i] == old_r[i - 1] && r@[j] == old_r[j - 1]);
        }
    }
    assert forall|x: TouchEvent| #[trigger] r@.contains(x) <==> (old_r.contains(x) || x == e) by {
        if r@.contains(x) {
            let k = choose|k: int| 0 <= k < r@.len() && r@[k] == x;
            if k < pos {
                assert(old_r[k] == x);
            } else if k > pos {
                assert(old_r[k - 1] == x);
            }
        }
        if old_r.contains(x) {
            let k = choose|k: int| 0 <= k < old_r.len() && old_r[k] == x;
            if k < pos {
                assert(r@[k] == x);
            } else {
                assert(r@[k + 1] == x);
            }
        }
        if x == e {
            assert(r@[pos as int] == x);
        }
    }
}


/// The paths as plain sequences.
pub open spec fn path_view(path: Seq<Vec<Waypoint>>) -> Seq<Seq<Waypoint>> {
    Seq::new(path.len(), |f: int| path[f]@)
}

proof fn lemma_elapsed_monotone(p: Seq<Waypoint>, m1: nat, m2: nat)
    requires
        m1 <= m2 <= p.len(),
    ensures
        0 <= elapsed(p, m1) <= elapsed(p, m2),
    decreases m2,
{
    if m1 < m2 {
        lemma_elapsed_monotone(p, m1, (m2 - 1) as nat);
    } else {
        lemma_elapsed_nonneg(p, m1);
    }
}

proof fn lemma_elapsed_nonneg(p: Seq<Waypoint>, m: nat)
    ensures
        0 <= elapsed(p, m),
    decreases m,
{
    if m > 0 {
        lemma_elapsed_nonneg(p, (m - 1) as nat);
    }
}

/// Lowers the paths into one touch stream ordered by time. Fingers with an
/// empty path produce nothing; equal times keep the fingers' order.
pub fn gesture(path: &Vec<Vec<Waypoint>>) -> (r: Vec<TouchEvent>)
    requires
        paths_fit(path_view(path@)),
    ensures
        is_gesture_stream(path_view(path@), r@),
{
    let ghost pv = path_view(path@);
    let mut r: Vec<TouchEvent> = Vec::new();
    let mut f: usize = 0;
    while f < path.len()
        invariant
            pv == path_view(path@),
            paths_fit(pv),
            0 <= f <= path@.len(),
            forall|i: int, j: int| 0 <= i < j < r@.len() ==> event_before(r@[i], r@[j]),
            forall|e: TouchEvent| #[trigger] r@.contains(e) <==> (is_gesture_event(pv, e) && e.id < f),
        decreases path@.len() - f,
    {
        let p = &path[f];
        let ghost ps = p@;
        assert(pv[f as int] == ps);
        assert(elapsed(ps, ps.len()) <= u64::MAX && ps.len() < usize::MAX);
        let mut time: u64 = 0;
        let mut step: usize = 0;
        let mut j: usize = 0;
        assert forall|i: int| 0 <= i < r@.len() implies (#[trigger] r@[i]).id < f by {
            assert(r@.contains(r@[i]));
        }
        while j < p.len()
            invariant
                pv == path_view(path@),
                paths_fit(pv),
                0 <= f < path@.len(),
                p == &path@[f as int],
                ps == p@,
                pv[f as int] == ps,
                elapsed(ps, ps.len()) <= u64::MAX,
                ps.len() < usize::MAX,
                0 <= j <= ps.len(),
                time == elapsed(ps, j as nat),
                step == finger_events(f, ps, j as nat).len(),
                forall|i: int, k: int| 0 <= i < k < r@.len() ==> event_before(r@[i], r@[k]),
                forall|i: int|
                    0 <= i < r@.len() ==> (#[trigger] r@[i]).id < f || (r@[i].id == f && r@[i].step < step),
                forall|e: TouchEvent|
                    #[trigger] r@.contains(e) <==> ((is_gesture_event(pv, e) && e.id < f) || (e.id == f
                        && e.step < finger_events(f, ps, j as nat).len() && finger_events(
                        f,
                        ps,
                        j as nat,
                    )[e.step as int] == e)),
            decreases ps.len() - j,
        {
            proof {
                lemma_elapsed_monotone(ps, (j + 1) as nat, ps.len());
                lemma_finger_events_shape(f, ps, j as nat);
                lemma_finger_events_shape(f, ps, (j + 1) as nat);
            }
            let ghost prev = finger_events(f, ps, j as nat);
            let ghost next = finger_events(f, ps, (j + 1) as nat);
            time = time + p[j].0;
            let (x, y) = p[j].1;
            let action = if j == 0 {
                TouchAction::Down
            } else if j + 1 == p.len() {
                TouchAction::Up
            } else {
                TouchAction::Move
            };
            let first = TouchEvent { x, y, id: f, action, time, step };
            assert(next[prev.len() as int] == first);
            assert forall|i: int| 0 <= i < r@.len() implies (#[trigger] r@[i]).id < first.id || (r@[i].id == first.id && r@[i].step < first.step) by {
                assert(r@.contains(r@[i]));
            }
            let ghost r0 = r@;
            insert_by_time(&mut r, first);
            step = step + 1;
            if j == 0 && j + 1 == p.len() {
                let up = TouchEvent { x, y, id: f, action: TouchAction::Up, time, step };
                assert(next[prev.len() + 1int] == up);
                assert forall|i: int| 0 <= i < r@.len() implies (#[trigger] r@[i]).id < up.id || (r@[i].id == up.id && r@[i].step < up.step) by {
                    assert(r@.contains(r@[i]));
                    if r@[i] != first {
                        assert(r0.contains(r@[i]));
                    }
                }
                let ghost r1 = r@;
                insert_by_time(&mut r, up);
                step = step + 1;
                assert forall|e: TouchEvent| #[trigger] r@.contains(e) <==> ((is_gesture_event(pv, e) && e.id < f) || (e.id == f && e.step < next.len() && next[e.step as int] == e)) by {
                    assert(r@.contains(e) <==> (r1.contains(e) || e == up));
                    assert(r1.contains(e) <==> (r0.contains(e) || e == first));
                    if e.id == f && e.step < next.len() && next[e.step as int] == e {
                        if e.step < prev.len() {
                            assert(prev[e.step as int] == e);
                        }
                    }
                }
            } else {
                assert forall|e: TouchEvent| #[trigger] r@.contains(e) <==> ((is_gesture_event(pv, e) && e.id < f) || (e.id == f && e.step < next.len() && next[e.step as int] == e)) by {
                    assert(r@.contains(e) <==> (r0.contains(e) || e == first));
                    if e.id == f && e.step < next.len() && next[e.step as int] == e {
                        if e.step < prev.len() {
                            assert(prev[e.step as int] == e);
                        }
                    }
                }
            }
            assert forall|i: int| 0 <= i < r@.len() implies (#[trigger] r@[i]).id < f || (r@[i].id == f && r@[i].step < step) by {
                assert(r@.contains(r@[i]));
            }
            j = j + 1;
        }
        assert forall|e: TouchEvent| #[trigger] r@.contains(e) <==> (is_gesture_event(pv, e) && e.id < f + 1) by {
            assert(all_finger_events(pv, f as int) == finger_events(f, ps, ps.len()));
        }
        f = f + 1;
    }
    proof {
        reveal(is_gesture_stream);
    }
    r
}

proof fn lemma_finger_events_order(f: usize, p: Seq<Waypoint>, m: nat)
    requires
        m <= p.len(),
        elapsed(p, p.len()) <= u64::MAX,
        p.len() < usize::MAX,
    ensures
        forall|k: int|
            0 <= k < finger_events(f, p, m).len() ==> (#[trigger] finger_events(f, p, m)[k]).time
                <= elapsed(p, m),
        forall|k1: int, k2: int|
            0 <= k1 <= k2 < finger_events(f, p, m).len() ==> (#[trigger] finger_events(f, p, m)[k1]).time
                <= (#[trigger] finger_events(f, p, m)[k2]).time,
        m > 0 ==> finger_events(f, p, m)[0].action == TouchAction::Down,
        m > 0 && m == p.len() ==> finger_events(f, p, m).last().action == TouchAction::Up,
        m > 0 ==> finger_events(f, p, m)[0].x == p[0].1.0 && finger_events(f, p, m)[0].y == p[0].1.1,
        m > 0 && m == p.len() ==> finger_events(f, p, m).last().x == p[m - 1].1.0 && finger_events(
            f,
            p,
            m,
        ).last().y == p[m - 1].1.1,
        forall|k: int|
            0 < k < finger_events(f, p, m).len() ==> (#[trigger] finger_events(f, p, m)[k]).action
                != TouchAction::Down,
    decreases m,
{
    lemma_finger_events_shape(f, p, m);
    if m > 0 {
        let mm = (m - 1) as nat;
        lemma_finger_events_order(f, p, mm);
        lemma_finger_events_shape(f, p, mm);
        lemma_elapsed_monotone(p, mm, m);
        lemma_elapsed_monotone(p, m, p.len());
        let prev = finger_events(f, p, mm);
        let cur = finger_events(f, p, m);
        assert forall|k: int| 0 <= k < prev.len() implies cur[k] == prev[k] by {}
        if m > 1 {
            assert(cur[0] == prev[0]);
        }
    }
}

/// No earlier event of the stream belongs to the finger of event `i`.
pub open spec fn first_of_finger(r: Seq<TouchEvent>, i: int) -> bool {
    forall|k: int| 0 <= k < i ==> (#[trigger] r[k]).id != r[i].id
}

/// No later event of the stream belongs to the finger of event `i`.
pub open spec fn last_of_finger(r: Seq<TouchEvent>, i: int) -> bool {
    forall|k: int| i < k < r.len() ==> (#[trigger] r[k]).id != r[i].id
}

proof fn lemma_first_is_down(path: Seq<Seq<Waypoint>>, r: Seq<TouchEvent>, i: int)
    requires
        paths_fit(path),
        is_gesture_stream(path, r),
        0 <= i < r.len(),
        first_of_finger(r, i),
    ensures
        r[i].action == TouchAction::Down,
        r[i].x == path[r[i].id as int][0].1.0,
        r[i].y == path[r[i].id as int][0].1.1,
{
    reveal(is_gesture_stream);
    assert(r.contains(r[i]));
    let f = r[i].id as int;
    let p = path[f];
    let fe = all_finger_events(path, f);
    lemma_finger_events_shape(f as usize, p, p.len());
    lemma_finger_events_order(f as usize, p, p.len());
    let e = r[i];
    if e.step > 0 {
        let d = fe[0];
        assert(is_gesture_event(path, d));
        assert(r.contains(d));
        let k = choose|k: int| 0 <= k < r.len() && r[k] == d;
        if k > i {
            assert(event_before(r[i], r[k]));
            assert(fe[0].time <= fe[e.step as int].time);
        }
        assert(k != i);
    }
    assert(e == fe[0]);
}

proof fn lemma_last_is_up(path: Seq<Seq<Waypoint>>, r: Seq<TouchEvent>, i: int)
    requires
        paths_fit(path),
        is_gesture_stream(path, r),
        0 <= i < r.len(),
        last_of_finger(r, i),
    ensures
        r[i].action == TouchAction::Up,
        r[i].x == path[r[i].id as int].last().1.0,
        r[i].y == path[r[i].id as int].last().1.1,
{
    reveal(is_gesture_stream);
    assert(r.contains(r[i]));
    let f = r[i].id as int;
    let p = path[f];
    let fe = all_finger_events(path, f);
    lemma_finger_events_shape(f as usize, p, p.len());
    lemma_finger_events_order(f as usize, p, p.len());
    let e = r[i];
    let last = fe.len() - 1;
    if e.step < last {
        let u = fe[last];
        assert(is_gesture_event(path, u));
        assert(r.contains(u));
        let k = choose|k: int| 0 <= k < r.len() && r[k] == u;
        if k < i {
            assert(event_before(r[k], r[i]));
            assert(fe[e.step as int].time <= fe[last].time);
        }
        assert(k != i);
    }
    assert(e == fe[last]);
}

proof fn lemma_event_has_path(path: Seq<Seq<Waypoint>>, r: Seq<TouchEvent>, i: int)
    requires
        paths_fit(path),
        is_gesture_stream(path, r),
        0 <= i < r.len(),
    ensures
        r[i].id < path.len(),
        path[r[i].id as int].len() > 0,
{
    reveal(is_gesture_stream);
    assert(r.contains(r[i]));
    let f = r[i].id as int;
    lemma_finger_events_shape(f as usize, path[f], path[f].len());
}

proof fn lemma_finger_present(path: Seq<Seq<Waypoint>>, r: Seq<TouchEvent>, f: int)
    requires
        paths_fit(path),
        path.len() <= usize::MAX,
        is_gesture_stream(path, r),
        0 <= f < path.len(),
        path[f].len() > 0,
    ensures
        exists|i: int| 0 <= i < r.len() && r[i].id == f,
{
    reveal(is_gesture_stream);
    let p = path[f];
    lemma_finger_events_shape(f as usize, p, p.len());
    let e = all_finger_events(path, f)[0];
    assert(e.id == f);
    assert(is_gesture_event(path, e));
    assert(r.contains(e));
}

proof fn lemma_stream_times(path: Seq<Seq<Waypoint>>, r: Seq<TouchEvent>)
    requires
        is_gesture_stream(path, r),
    ensures
        forall|i: int, j: int| 0 <= i <= j < r.len() ==> r[i].time <= r[j].time,
{
    reveal(is_gesture_stream);
    assert forall|i: int, j: int| 0 <= i <= j < r.len() implies r[i].time <= r[j].time by {
        if i < j {
            assert(event_before(r[i], r[j]));
        }
    }
}

/// The merged touch stream is ordered by time; every finger with a
/// non-empty path appears in it and no other finger does; each finger's
/// first event is `Down` at its first waypoint and its last is `Up` at its
/// last waypoint.
pub proof fn lemma_gesture_ordering(path: Seq<Seq<Waypoint>>, r: Seq<TouchEvent>)
    requires
        paths_fit(path),
        path.len() <= usize::MAX,
        is_gesture_stream(path, r),
    ensures
        forall|i: int, j: int| 0 <= i <= j < r.len() ==> r[i].time <= r[j].time,
        forall|i: int|
            0 <= i < r.len() && #[trigger] first_of_finger(r, i) ==> r[i].action == TouchAction::Down
                && r[i].x == path[r[i].id as int][0].1.0 && r[i].y == path[r[i].id as int][0].1.1,
        forall|i: int|
            0 <= i < r.len() && #[trigger] last_of_finger(r, i) ==> r[i].action == TouchAction::Up
                && r[i].x == path[r[i].id as int].last().1.0 && r[i].y == path[r[i].id as int].last().1.1,
        forall|i: int| 0 <= i < r.len() ==> (#[trigger] r[i]).id < path.len() && path[r[i].id as int].len() > 0,
        forall|f: int|
            0 <= f < path.len() && (#[trigger] path[f]).len() > 0 ==> exists|i: int|
                0 <= i < r.len() && r[i].id == f,
{
    lemma_stream_times(path, r);
    assert forall|i: int|
        0 <= i < r.len() && #[trigger] first_of_finger(r, i)
            implies r[i].action == TouchAction::Down && r[i].x == path[r[i].id as int][0].1.0
            && r[i].y == path[r[i].id as int][0].1.1 by {
        lemma_first_is_down(path, r, i);
    }
    assert forall|i: int|
        0 <= i < r.len() && #[trigger] last_of_finger(r, i)
            implies r[i].action == TouchAction::Up && r[i].x == path[r[i].id as int].last().1.0
            && r[i].y == path[r[i].id as int].last().1.1 by {
        lemma_last_is_up(path, r, i);
    }
    assert forall|f: int| 0 <= f < path.len() && (#[trigger] path[f]).len() > 0 implies exists|i: int|
        0 <= i < r.len() && r[i].id == f by {
        lemma_finger_present(path, r, f);
    }
    assert forall|i: int| 0 <= i < r.len() implies (#[trigger] r[i]).id < path.len() && path[r[i].id as int].len() > 0 by {
        lemma_event_has_path(path, r, i);
    }
}


/// A straight move of one finger between consecutive waypoints, during the
/// half-open time span `[start, end)` in milliseconds.
#[derive(Clone, Copy, Debug, PartialEq, Eq, Structural)]
pub struct MoveSegment {
    pub x1: i32,
    pub y1: i32,
    pub x2: i32,
    pub y2: i32,
    pub id: usize,
    pub start: u64,
    pub end: u64,
}

/// The segments of finger `f` between its first `m` waypoints.
pub open spec fn finger_segments(f: usize, p: Seq<Waypoint>, m: nat) -> Seq<MoveSegment>
    decreases m,
{
    if m <= 1 {
        seq![]
    } else {
        let j = m - 1;
        finger_segments(f, p, (m - 1) as nat).push(
            MoveSegment {
                x1: p[j - 1].1.0,
                y1: p[j - 1].1.1,
                x2: p[j].1.0,
                y2: p[j].1.1,
                id: f,
                start: elapsed(p, j as nat) as u64,
                end: elapsed(p, m) as u64,
            },
        )
    }
}

/// The segments of the fingers `0..n`, finger after finger.
pub open spec fn all_segments(path: Seq<Seq<Waypoint>>, n: nat) -> Seq<MoveSegment>
    decreases n,
{
    if n == 0 {
        seq![]
    } else {
        all_segments(path, (n - 1) as nat) + finger_segments(
            (n - 1) as usize,
            path[n - 1],
            path[n - 1].len(),
        )
    }
}

/// The moves between consecutive waypoints of every finger, finger after
/// finger and in path order.
pub fn move_segments(path: &Vec<Vec<Waypoint>>) -> (r: Vec<MoveSegment>)
    requires
        paths_fit(path_view(path@)),
    ensures
        r@ == all_segments(path_view(path@), path@.len()),
{
    let ghost pv = path_view(path@);
    let mut r: Vec<MoveSegment> = Vec::new();
    let mut f: usize = 0;
    while f < path.len()
        invariant
            pv == path_view(path@),
            paths_fit(pv),
            0 <= f <= path@.len(),
            r@ == all_segments(pv, f as nat),
        decreases path@.len() - f,
    {
        let p = &path[f];
        let ghost ps = p@;
        assert(pv[f as int] == ps);
        assert(elapsed(ps, ps.len()) <= u64::MAX);
        let ghost base = r@;
        if p.len() > 0 {
            let mut time: u64 = p[0].0;
            let mut j: usize = 1;
            proof {
                lemma_elapsed_monotone(ps, 1, ps.len());
            }
            assert(finger_segments(f, ps, 1) =~= seq![]);
            assert(base + finger_segments(f, ps, 1) =~= base);
            while j < p.len()
                invariant
                    pv == path_view(path@),
                    p == &path@[f as int],
                    ps == p@,
                    elapsed(ps, ps.len()) <= u64::MAX,
                    1 <= j <= ps.len(),
                    time == elapsed(ps, j as nat),
                    r@ == base + finger_segments(f, ps, j as nat),
                decreases ps.len() - j,
            {
                proof {
                    lemma_elapsed_monotone(ps, (j + 1) as nat, ps.len());
                    lemma_elapsed_nonneg(ps, j as nat);
                }
                let end = time + p[j].0;
                let seg = MoveSegment {
                    x1: p[j - 1].1.0,
                    y1: p[j - 1].1.1,
                    x2: p[j].1.0,
                    y2: p[j].1.1,
                    id: f,
                    start: time,
                    end,
                };
                r.push(seg);
                assert(r@ =~= base + finger_segments(f, ps, (j + 1) as nat));
                time = end;
                j = j + 1;
            }
        } else {
            assert(finger_segments(f, ps, 0) =~= seq![]);
        }
        assert(r@ =~= all_segments(pv, (f + 1) as nat));
        f = f + 1;
    }
    r
}

/// Progress through a segment at time `now`, as the fraction
/// `(now - start) / (end - start)`; a segment of no duration counts as done.
pub fn segment_progress(seg: &MoveSegment, now: u64) -> (r: (u64, u64))
    requires
        seg.start <= now < seg.end,
    ensures
        r.1 > 0,
        r.0 == now - seg.start,
        r.1 == seg.end - seg.start,
{
    (now - seg.start, seg.end - seg.start)
}

/// The segment is under way at time `now`.
pub fn segment_active(seg: &MoveSegment, now: u64) -> (r: bool)
    ensures
        r == (seg.start <= now < seg.end),
{
    seg.start <= now && now < seg.end
}

/// Some segment has not yet ended at time `now`: the driver keeps sampling.
pub fn moves_remaining(moves: &Vec<MoveSegment>, now: u64) -> (r: bool)
    ensures
        r == exists|i: int| 0 <= i < moves@.len() && (#[trigger] moves@[i]).end > now,
{
    let mut i: usize = 0;
    while i < moves.len()
        invariant
            0 <= i <= moves@.len(),
            forall|k: int| 0 <= k < i ==> (#[trigger] moves@[k]).end <= now,
        decreases moves@.len() - i,
    {
        if moves[i].end > now {
            return true;
        }
        i += 1;
    }
    false
}

/// Index of the first event at or after `from` whose time is later than
/// `now`, or the stream's length: the events before it are due.
pub fn first_pending(events: &Vec<TouchEvent>, from: usize, now: u64) -> (r: usize)
    requires
        from <= events@.len(),
    ensures
        from <= r <= events@.len(),
        forall|k: int| from <= k < r ==> (#[trigger] events@[k]).time <= now,
        r < events@.len() ==> events@[r as int].time > now,
{
    let mut i = from;
    while i < events.len() && events[i].time <= now
        invariant
            from <= i <= events@.len(),
            forall|k: int| from <= k < i ==> (#[trigger] events@[k]).time <= now,
        decreases events@.len() - i,
    {
        i += 1;
    }
    i
}

/// When the smooth-gesture driver wakes next: at the next down or up event,
/// or one sampling interval after the last wake while moves remain,
/// whichever comes first; `None` once nothing remains.
pub fn next_wake_time(next_updown: Option<u64>, moves_left: bool, last_wake: u64, interval: u64) -> (r: Option<u64>)
    ensures
        !moves_left ==> r == next_updown,
        moves_left ==> r.is_some(),
        moves_left ==> r.unwrap() == (match next_updown {
            Some(t) => if (t as int) < last_wake + interval {
                t as int
            } else {
                if last_wake + interval <= u64::MAX {
                    last_wake + interval
                } else {
                    u64::MAX as int
                }
            },
            None => if last_wake + interval <= u64::MAX {
                last_wake + interval
            } else {
                u64::MAX as int
            },
        }),
{
    if !moves_left {
        return next_updown;
    }
    let tick = last_wake.saturating_add(interval);
    match next_updown {
        Some(t) => if t < tick {
            Some(t)
        } else {
            Some(tick)
        },
        None => Some(tick),
    }
}

/// The down and up events of the merged stream, in order: the discrete
/// events that the smooth driver keeps, its moves being sampled instead.
pub fn updown_events(path: &Vec<Vec<Waypoint>>) -> (r: Vec<TouchEvent>)
    requires
        paths_fit(path_view(path@)),
    ensures
        exists|all: Seq<TouchEvent>|
            is_gesture_stream(path_view(path@), all) && r@ == all.filter(
                |e: TouchEvent| e.action != TouchAction::Move,
            ),
{
    let all = gesture(path);
    let mut r: Vec<TouchEvent> = Vec::new();
    let mut i: usize = 0;
    while i < all.len()
        invariant
            0 <= i <= all@.len(),
            r@ == all@.take(i as int).filter(|e: TouchEvent| e.action != TouchAction::Move),
        decreases all@.len() - i,
    {
        proof {
            assert(all@.take(i + 1).drop_last() =~= all@.take(i as int));
            reveal(Seq::filter);
        }
        if all[i].action != TouchAction::Move {
            r.push(all[i]);
        }
        i += 1;
    }
    assert(all@.take(i as int) =~= all@);
    r
}

/// A tap: finger 0 goes down and up at `(x, y)` at once.
pub fn click(x: i32, y: i32) -> (r: Vec<TouchEvent>)
    ensures
        r@ == seq![
            TouchEvent { x, y, id: 0, action: TouchAction::Down, time: 0, step: 0 },
            TouchEvent { x, y, id: 0, action: TouchAction::Up, time: 0, step: 1 },
        ],
{
    let mut r: Vec<TouchEvent> = Vec::new();
    r.push(TouchEvent { x, y, id: 0, action: TouchAction::Down, time: 0, step: 0 });
    r.push(TouchEvent { x, y, id: 0, action: TouchAction::Up, time: 0, step: 1 });
    assert(r@ =~= seq![
        TouchEvent { x, y, id: 0, action: TouchAction::Down, time: 0, step: 0 },
        TouchEvent { x, y, id: 0, action: TouchAction::Up, time: 0, step: 1 },
    ]);
    r
}

/// A two-finger swipe among empty paths, used to try the gesture driver.
pub fn test_gesture() -> (r: Vec<Vec<Waypoint>>)
    ensures
        r@.len() == 6,
        r@[0]@ == Seq::<Waypoint>::empty(),
        r@[1]@ == seq![(0u64, (600i32, 500i32)), (500u64, (1000i32, 0i32)), (100u64, (1000i32, 0i32))],
        r@[2]@ == Seq::<Waypoint>::empty(),
        r@[3]@ == seq![(100u64, (600i32, 500i32)), (500u64, (1000i32, 0i32)), (100u64, (1000i32, 0i32))],
        r@[4]@ == Seq::<Waypoint>::empty(),
        r@[5]@ == Seq::<Waypoint>::empty(),
{
    let mut a: Vec<Waypoint> = Vec::new();
    a.push((0, (600, 500)));
    a.push((500, (1000, 0)));
    a.push((100, (1000, 0)));
    let mut b: Vec<Waypoint> = Vec::new();
    b.push((100, (600, 500)));
    b.push((500, (1000, 0)));
    b.push((100, (1000, 0)));
    let mut r: Vec<Vec<Waypoint>> = Vec::new();
    r.push(Vec::new());
    r.push(a);
    r.push(Vec::new());
    r.push(b);
    r.push(Vec::new());
    r.push(Vec::new());
    assert(r@[1]@ =~= seq![(0u64, (600i32, 500i32)), (500u64, (1000i32, 0i32)), (100u64, (1000i32, 0i32))]);
    assert(r@[3]@ =~= seq![(100u64, (600i32, 500i32)), (500u64, (1000i32, 0i32)), (100u64, (1000i32, 0i32))]);
    r
}

/// Sampling interval of the smooth gesture driver, in milliseconds.
pub const SMOOTH_SAMPLE_INTERVAL_MS: u64 = 33;

/// What the smooth gesture driver replays: the down and up events at their
/// times, and the moves in between, sampled every `sample_interval`
/// milliseconds with an easing curve.
#[derive(Clone, Debug)]
pub struct SmoothGesture {
    pub updown: Vec<TouchEvent>,
    pub moves: Vec<MoveSegment>,
    pub sample_interval: u64,
}

/// Plans a smooth gesture over the paths. Empty paths, or no paths at all,
/// plan nothing.
pub fn gesture_interpolated(path: &Vec<Vec<Waypoint>>, sample_interval: u64) -> (r: SmoothGesture)
    requires
        paths_fit(path_view(path@)),
    ensures
        exists|all: Seq<TouchEvent>|
            is_gesture_stream(path_view(path@), all) && r.updown@ == all.filter(
                |e: TouchEvent| e.action != TouchAction::Move,
            ),
        r.moves@ == all_segments(path_view(path@), path@.len()),
        r.sample_interval == sample_interval,
{
    SmoothGesture { updown: updown_events(path), moves: move_segments(path), sample_interval }
}

/// Plans a smooth gesture with the default sampling interval.
pub fn gesture_smooth(path: &Vec<Vec<Waypoint>>) -> (r: SmoothGesture)
    requires
        paths_fit(path_view(path@)),
    ensures
        exists|all: Seq<TouchEvent>|
            is_gesture_stream(path_view(path@), all) && r.updown@ == all.filter(
                |e: TouchEvent| e.action != TouchAction::Move,
            ),
        r.moves@ == all_segments(path_view(path@), path@.len()),
        r.sample_interval == SMOOTH_SAMPLE_INTERVAL_MS,
{
    gesture_interpolated(path, SMOOTH_SAMPLE_INTERVAL_MS)
}
} // verus!
