//! Captured frames and the matching engine that looks for probes in them.

use vstd::prelude::*;
use crate::color::{
    abs_diff, channel_diff, channel_threshold, channel_threshold_spec, ColorPoint,
    ColorPointGroup, ColorPointGroupIn, Image, ImageIn, Tolerance, TOLERANCE_SCALE, rgba_offset,
};
use crate::geometry::{Point, Region};

verus! {

/// One captured frame: `width` by `height` RGBA8 pixels, row-major.
#[derive(Clone, Debug, Default)]
pub struct Screenshot {
    pub width: u32,
    pub height: u32,
    pub data: Vec<u8>,
    /// Capture time given by the host; later captures have larger stamps.
    pub timestamp: i64,
}

/// `p` comes strictly before the position `(x, y)` in row-major order.
pub open spec fn before_xy(p: Point, x: int, y: int) -> bool {
    p.y < y || (p.y == y && p.x < x)
}

/// Every member of the group, shifted by `(dx, dy)`, lies inside `region`.
pub open spec fn group_in_region(group: Seq<ColorPoint>, region: Region, dx: int, dy: int) -> bool {
    forall|i: int| 0 <= i < group.len() ==> #[trigger] region.holds(group[i].x + dx, group[i].y + dy)
}

/// Smallest and largest coordinates of a non-empty group, as `(left, top, right, bottom)`.
fn bounding_box(group: &Vec<ColorPoint>) -> (r: (u32, u32, u32, u32))
    requires
        group@.len() > 0,
    ensures
        forall|i: int|
            0 <= i < group@.len() ==> r.0 <= #[trigger] group@[i].x <= r.2 && r.1 <= group@[i].y
                <= r.3,
        exists|i: int| 0 <= i < group@.len() && group@[i].x == r.0,
        exists|i: int| 0 <= i < group@.len() && group@[i].y == r.1,
        exists|i: int| 0 <= i < group@.len() && group@[i].x == r.2,
        exists|i: int| 0 <= i < group@.len() && group@[i].y == r.3,
{
    let mut l = group[0].x;
    let mut t = group[0].y;
    let mut r = group[0].x;
    let mut b = group[0].y;
    let mut k: usize = 1;
    while k < group.len()
        invariant
            1 <= k <= group@.len(),
            forall|i: int|
                0 <= i < k ==> l <= #[trigger] group@[i].x <= r && t <= group@[i].y <= b,
            exists|i: int| 0 <= i < k && group@[i].x == l,
            exists|i: int| 0 <= i < k && group@[i].y == t,
            exists|i: int| 0 <= i < k && group@[i].x == r,
            exists|i: int| 0 <= i < k && group@[i].y == b,
        decreases group@.len() - k,
    {
        let cp = &group[k];
        if cp.x < l {
            l = cp.x;
        }
        if cp.x > r {
            r = cp.x;
        }
        if cp.y < t {
            t = cp.y;
        }
        if cp.y > b {
            b = cp.y;
        }
        k += 1;
    }
    (l, t, r, b)
}


/// Largest error that one template pixel can contribute: full alpha times
/// three full squared channel differences.
pub const MAX_PIXEL_ERROR: u128 = 49_744_125;

pub open spec fn max3(a: int, b: int, c: int) -> int {
    if a >= b && a >= c {
        a
    } else if b >= c {
        b
    } else {
        c
    }
}

/// Folds one pixel's error into the running loss: a sum for the mean
/// tolerances, a maximum for `MAX`.
pub open spec fn combine(mode: Tolerance, acc: int, e: int) -> int {
    match mode {
        Tolerance::MAX(_) => if e > acc {
            e
        } else {
            acc
        },
        _ => acc + e,
    }
}

/// The integer bound that `loss * TOLERANCE_SCALE` may not pass for a
/// template of `n` pixels: the tolerance's limit scaled back from the
/// normalized error in `[0, 1]` to alpha-weighted channel units.
pub open spec fn loss_bound(mode: Tolerance, n: int) -> int {
    match mode {
        Tolerance::MAE(lim) => lim * 195_075 * n,
        Tolerance::MSE(lim) => lim * 49_744_125 * n,
        Tolerance::MAX(lim) => lim * 65_025,
    }
}

/// The accumulated loss is over the tolerance's limit.
pub open spec fn loss_exceeds(mode: Tolerance, loss: int, n: int) -> bool {
    loss * TOLERANCE_SCALE > loss_bound(mode, n)
}


impl Screenshot {
    pub open spec fn wf(&self) -> bool {
        &&& self.data@.len() == self.width * self.height * 4
        &&& self.data@.len() <= usize::MAX
        &&& self.width <= i32::MAX
        &&& self.height <= i32::MAX
    }

    /// The region that covers the whole frame.
    pub open spec fn region_spec(&self) -> Region {
        Region { left: 0, top: 0, width: self.width, height: self.height }
    }

    pub open spec fn in_frame(&self, x: int, y: int) -> bool {
        0 <= x < self.width && 0 <= y < self.height
    }

    /// Byte `c` (0 red, 1 green, 2 blue, 3 alpha) of the pixel at `(x, y)`.
    pub open spec fn channel(&self, x: int, y: int, c: int) -> u8 {
        self.data@[(y * self.width + x) * 4 + c]
    }

    /// The pixel at `(x, y)` lies in the frame and each of its color channels
    /// is within `tol` of the given color.
    pub open spec fn color_within(&self, x: int, y: int, red: u8, green: u8, blue: u8, tol: int) -> bool {
        &&& self.in_frame(x, y)
        &&& abs_diff(self.channel(x, y, 0), red) <= tol
        &&& abs_diff(self.channel(x, y, 1), green) <= tol
        &&& abs_diff(self.channel(x, y, 2), blue) <= tol
    }

    /// The probe's color, shifted by `(dx, dy)`, is found within `tol`.
    pub open spec fn probe_within(&self, cp: ColorPoint, dx: int, dy: int, tol: int) -> bool {
        self.color_within(cp.x + dx, cp.y + dy, cp.red, cp.green, cp.blue, tol)
    }

    /// Every member of the group, shifted by `(dx, dy)`, is found within `tol`.
    pub open spec fn group_within(&self, group: Seq<ColorPoint>, dx: int, dy: int, tol: int) -> bool {
        forall|i: int| 0 <= i < group.len() ==> #[trigger] self.probe_within(group[i], dx, dy, tol)
    }

    /// Result of an exact color probe.
    pub open spec fn color_point_result(&self, cp: ColorPoint) -> Option<Point> {
        if self.probe_within(cp, 0, 0, 0) {
            Some(cp.point_spec())
        } else {
            None
        }
    }

    /// Result of a fixed-position group probe with the given channel threshold.
    pub open spec fn group_result(&self, group: Seq<ColorPoint>, tol: int) -> Option<Point> {
        if group.len() > 0 && self.group_within(group, 0, 0, tol) {
            Some(group[0].point_spec())
        } else {
            None
        }
    }

    /// A frame of the given size, or `None` where `data` does not hold exactly
    /// four bytes per pixel or a side does not fit a screen coordinate.
    pub fn new(width: u32, height: u32, data: Vec<u8>, timestamp: i64) -> (r: Option<Screenshot>)
        ensures
            r.is_some() <==> (data@.len() == width * height * 4 && width <= i32::MAX && height
                <= i32::MAX),
            r.is_some() ==> r.unwrap().wf() && r.unwrap().width == width && r.unwrap().height
                == height && r.unwrap().data@ == data@ && r.unwrap().timestamp == timestamp,
    {
        assert(width as int * height as int * 4 <= u128::MAX) by (nonlinear_arith)
            requires
                width <= u32::MAX,
                height <= u32::MAX,
        ;
        let n = (width as u128) * (height as u128) * 4;
        let byte_count = data.len();
        if n == byte_count as u128 && width <= i32::MAX as u32 && height <= i32::MAX as u32 {
            Some(Screenshot { width, height, data, timestamp })
        } else {
            None
        }
    }

    /// The region that covers the whole frame.
    pub fn region(&self) -> (r: Region)
        ensures
            r == self.region_spec(),
    {
        Region { left: 0, width: self.width, top: 0, height: self.height }
    }

    /// Whether the pixel at `(x, y)` is within `tol` of the given color.
    fn color_matches(&self, x: u32, y: u32, red: u8, green: u8, blue: u8, tol: u8) -> (r: bool)
        requires
            self.wf(),
            x < self.width,
            y < self.height,
        ensures
            r == self.color_within(x as int, y as int, red, green, blue, tol as int),
    {
        let i = rgba_offset(self.width, self.height, &self.data, x, y);
        channel_diff(self.data[i], red) <= tol && channel_diff(self.data[i + 1], green) <= tol
            && channel_diff(self.data[i + 2], blue) <= tol
    }

    /// Exact match of one color at one position; alpha is not compared.
    pub fn find_color_point(&self, cp: &ColorPoint) -> (r: Option<Point>)
        requires
            self.wf(),
        ensures
            r == self.color_point_result(*cp),
    {
        if cp.x >= self.width || cp.y >= self.height {
            return None;
        }
        if !self.color_matches(cp.x, cp.y, cp.red, cp.green, cp.blue, 0) {
            return None;
        }
        Some(Point { x: cp.x as i32, y: cp.y as i32 })
    }

    /// Every member of the group must match at its own position within the
    /// group's tolerance; the anchor is returned unmoved.
    pub fn find_color_point_group(&self, cpg: &ColorPointGroup) -> (r: Option<Point>)
        requires
            self.wf(),
        ensures
            r == self.group_result(cpg.group@, channel_threshold_spec(cpg.tolerance)),
    {
        if cpg.group.len() == 0 {
            return None;
        }
        let tol = channel_threshold(cpg.tolerance);
        let mut k: usize = 0;
        while k < cpg.group.len()
            invariant
                self.wf(),
                0 <= k <= cpg.group@.len(),
                tol == channel_threshold_spec(cpg.tolerance),
                forall|i: int| 0 <= i < k ==> #[trigger] self.probe_within(cpg.group@[i], 0, 0, tol as int),
            decreases cpg.group@.len() - k,
        {
            let cp = &cpg.group[k];
            if cp.x >= self.width || cp.y >= self.height {
                assert(!self.probe_within(cpg.group@[k as int], 0, 0, tol as int));
                return None;
            }
            if !self.color_matches(cp.x, cp.y, cp.red, cp.green, cp.blue, tol) {
                assert(!self.probe_within(cpg.group@[k as int], 0, 0, tol as int));
                return None;
            }
            k += 1;
        }
        let a = &cpg.group[0];
        assert(self.probe_within(cpg.group@[0], 0, 0, tol as int));
        Some(Point { x: a.x as i32, y: a.y as i32 })
    }

    /// A match of the group whose anchor lands on `p`: every member, shifted
    /// by the anchor's displacement, lies inside `region` (itself inside the
    /// frame) and is within `tol`.
    pub open spec fn group_hit(&self, group: Seq<ColorPoint>, region: Region, tol: int, p: Point) -> bool {
        &&& group.len() > 0
        &&& self.region_spec().contains_spec(region)
        &&& group_in_region(group, region, p.x - group[0].x, p.y - group[0].y)
        &&& self.group_within(group, p.x - group[0].x, p.y - group[0].y, tol)
    }

    /// The matches of a shifted group that a search with `max_num` keeps:
    /// at most `max_num`, each a match, strictly in row-major order, and no
    /// match skipped before the search stopped.
    pub open spec fn group_in_result(&self, cpg: ColorPointGroupIn, max_num: nat, r: Seq<Point>) -> bool {
        let tol = channel_threshold_spec(cpg.tolerance);
        &&& r.len() <= max_num
        &&& r.len() <= cpg.region.width * cpg.region.height
        &&& forall|i: int| 0 <= i < r.len() ==> #[trigger] self.group_hit(cpg.group@, cpg.region, tol, r[i])
        &&& forall|i: int, j: int| 0 <= i < j < r.len() ==> r[i].before(r[j])
        &&& forall|p: Point|
            #[trigger] self.group_hit(cpg.group@, cpg.region, tol, p) && (r.len() < max_num || (r.len() > 0
                && !r.last().before(p))) ==> r.contains(p)
    }

    /// Whether every member of the group, shifted by `(dx, dy)`, is within `tol`.
    fn group_matches_at(&self, group: &Vec<ColorPoint>, dx: i64, dy: i64, tol: u8) -> (r: bool)
        requires
            self.wf(),
            forall|i: int|
                0 <= i < group@.len() ==> #[trigger] self.in_frame(
                    group@[i].x + dx,
                    group@[i].y + dy,
                ),
        ensures
            r == self.group_within(group@, dx as int, dy as int, tol as int),
    {
        let mut k: usize = 0;
        while k < group.len()
            invariant
                self.wf(),
                0 <= k <= group@.len(),
                forall|i: int|
                    0 <= i < group@.len() ==> #[trigger] self.in_frame(
                        group@[i].x + dx,
                        group@[i].y + dy,
                    ),
                forall|i: int|
                    0 <= i < k ==> #[trigger] self.probe_within(group@[i], dx as int, dy as int, tol as int),
            decreases group@.len() - k,
        {
            let cp = &group[k];
            assert(self.in_frame(group@[k as int].x + dx, group@[k as int].y + dy));
            let x = (cp.x as i64 + dx) as u32;
            let y = (cp.y as i64 + dy) as u32;
            if !self.color_matches(x, y, cp.red, cp.green, cp.blue, tol) {
                assert(!self.probe_within(group@[k as int], dx as int, dy as int, tol as int));
                return false;
            }
            k += 1;
        }
        true
    }

    /// Searches `cpg.region` for every displacement of the whole group at
    /// which all members match; returns the displaced anchors in row-major
    /// order, stopping once `max_num` are found.
    #[verifier::spinoff_prover]
    pub fn find_all_color_point_group_in(&self, cpg: &ColorPointGroupIn, max_num: usize) -> (r: Vec<Point>)
        requires
            self.wf(),
        ensures
            self.group_in_result(*cpg, max_num as nat, r@),
    {
        let ghost tol_s = channel_threshold_spec(cpg.tolerance);
        let ghost g = cpg.group@;
        let mut ans: Vec<Point> = Vec::new();
        let region = cpg.region;
        if max_num == 0 || cpg.group.len() == 0 || !self.region().contains(&region) {
            assert forall|p: Point| !#[trigger] self.group_hit(cpg.group@, cpg.region, tol_s, p) || max_num == 0 by {}
            return ans;
        }
        let (l, t, rr, b) = bounding_box(&cpg.group);
        let tol = channel_threshold(cpg.tolerance);
        let ax = cpg.group[0].x as i64;
        let ay = cpg.group[0].y as i64;
        let dx0 = region.left as i64 - l as i64;
        let dx1 = region.left as i64 + region.width as i64 - rr as i64;
        let dy0 = region.top as i64 - t as i64;
        let dy1 = region.top as i64 + region.height as i64 - b as i64;
        assert forall|p: Point| #[trigger] self.group_hit(g, region, tol_s, p) implies dx0 <= p.x - ax < dx1 && dy0 <= p.y - ay < dy1 by {
            let dx = p.x - ax;
            let dy = p.y - ay;
            let il = choose|i: int| 0 <= i < g.len() && g[i].x == l;
            let ir = choose|i: int| 0 <= i < g.len() && g[i].x == rr;
            let it = choose|i: int| 0 <= i < g.len() && g[i].y == t;
            let ib = choose|i: int| 0 <= i < g.len() && g[i].y == b;
            assert(region.holds(g[il].x + dx, g[il].y + dy));
            assert(region.holds(g[ir].x + dx, g[ir].y + dy));
            assert(region.holds(g[it].x + dx, g[it].y + dy));
            assert(region.holds(g[ib].x + dx, g[ib].y + dy));
        }
        let mut dy = dy0;
        while dy < dy1
            invariant
                self.wf(),
                g == cpg.group@,
                g.len() > 0,
                region == cpg.region,
                self.region_spec().contains_spec(region),
                tol == tol_s,
                tol_s == channel_threshold_spec(cpg.tolerance),
                ax == g[0].x,
                ay == g[0].y,
                forall|i: int|
                    0 <= i < g.len() ==> l <= #[trigger] g[i].x <= rr && t <= g[i].y <= b,
                dx0 == region.left - l,
                dx1 == region.left + region.width - rr,
                dy0 == region.top - t,
                dy1 == region.top + region.height - b,
                dx1 - dx0 <= region.width,
                dy1 - dy0 <= region.height,
                dy0 <= dy,
                dy <= dy1 || dy == dy0,
                forall|p: Point| #[trigger] self.group_hit(g, region, tol_s, p) ==> dx0 <= p.x - ax < dx1 && dy0 <= p.y - ay < dy1,
                0 < max_num,
                ans@.len() < max_num,
                ans@.len() <= (dy - dy0) * region.width,
                forall|i: int| 0 <= i < ans@.len() ==> #[trigger] self.group_hit(g, region, tol_s, ans@[i]),
                forall|i: int, j: int| 0 <= i < j < ans@.len() ==> ans@[i].before(ans@[j]),
                forall|i: int| 0 <= i < ans@.len() ==> before_xy(#[trigger] ans@[i], ax + dx0, ay + dy),
                forall|p: Point| #[trigger] self.group_hit(g, region, tol_s, p) && before_xy(p, ax + dx0, ay + dy) ==> ans@.contains(p),
            decreases dy1 - dy,
        {
            let mut dx = dx0;
            while dx < dx1
                invariant
                    self.wf(),
                    g == cpg.group@,
                    g.len() > 0,
                    region == cpg.region,
                    self.region_spec().contains_spec(region),
                    tol == tol_s,
                    tol_s == channel_threshold_spec(cpg.tolerance),
                    ax == g[0].x,
                    ay == g[0].y,
                    forall|i: int|
                        0 <= i < g.len() ==> l <= #[trigger] g[i].x <= rr && t <= g[i].y <= b,
                    dx0 == region.left - l,
                    dx1 == region.left + region.width - rr,
                    dy0 == region.top - t,
                    dy1 == region.top + region.height - b,
                    dy0 <= dy < dy1,
                    dx0 <= dx,
                    dx <= dx1 || dx == dx0,
                    forall|p: Point| #[trigger] self.group_hit(g, region, tol_s, p) ==> dx0 <= p.x - ax < dx1 && dy0 <= p.y - ay < dy1,
                    0 < max_num,
                    ans@.len() < max_num,
                    ans@.len() <= (dy - dy0) * region.width + (dx - dx0),
                    dx1 - dx0 <= region.width,
                    dy1 - dy0 <= region.height,
                    forall|i: int| 0 <= i < ans@.len() ==> #[trigger] self.group_hit(g, region, tol_s, ans@[i]),
                    forall|i: int, j: int| 0 <= i < j < ans@.len() ==> ans@[i].before(ans@[j]),
                    forall|i: int| 0 <= i < ans@.len() ==> before_xy(#[trigger] ans@[i], ax + dx, ay + dy),
                    forall|p: Point| #[trigger] self.group_hit(g, region, tol_s, p) && before_xy(p, ax + dx, ay + dy) ==> ans@.contains(p),
                decreases dx1 - dx,
            {
                assert forall|i: int| 0 <= i < g.len() implies #[trigger] region.holds(g[i].x + dx, g[i].y + dy) by {
                    assert(l <= g[i].x <= rr && t <= g[i].y <= b);
                }
                assert forall|i: int| 0 <= i < g.len() implies #[trigger] self.in_frame(g[i].x + dx, g[i].y + dy) by {
                    assert(region.holds(g[i].x + dx, g[i].y + dy));
                }
                let found = self.group_matches_at(&cpg.group, dx, dy, tol);
                let ghost cur = Point { x: (ax + dx) as i32, y: (ay + dy) as i32 };
                assert(region.holds(g[0].x + dx, g[0].y + dy));
                assert(cur.x == ax + dx && cur.y == ay + dy);
                assert(group_in_region(g, region, cur.x - g[0].x, cur.y - g[0].y));
                assert(self.group_hit(g, region, tol_s, cur) == found);
                let ghost old_ans = ans@;
                if found {
                    let pt = Point { x: (ax + dx) as i32, y: (ay + dy) as i32 };
                    ans.push(pt);
                    assert(ans@.last() == cur);
                    assert forall|i: int, j: int| 0 <= i < j < ans@.len() implies ans@[i].before(ans@[j]) by {
                        if j == ans@.len() - 1 {
                            assert(before_xy(old_ans[i], ax + dx, ay + dy));
                        } else {
                            assert(old_ans[i].before(old_ans[j]));
                        }
                    }
                    assert forall|i: int| 0 <= i < ans@.len() implies #[trigger] self.group_hit(g, region, tol_s, ans@[i]) by {
                        if i < old_ans.len() {
                            assert(self.group_hit(g, region, tol_s, old_ans[i]));
                        }
                    }
                    if ans.len() >= max_num {
                        assert((dy - dy0) * region.width + region.width <= region.width * region.height) by (nonlinear_arith)
                            requires
                                dy - dy0 + 1 <= region.height,
                                0 <= dy - dy0,
                        ;
                        assert forall|p: Point| #[trigger] self.group_hit(g, region, tol_s, p) && (ans@.len() < max_num || (ans@.len() > 0 && !ans@.last().before(p))) implies ans@.contains(p) by {
                            if p == cur {
                                assert(ans@[ans@.len() - 1] == p);
                            } else {
                                assert(before_xy(p, ax + dx, ay + dy));
                                assert(old_ans.contains(p));
                                let k = choose|k: int| 0 <= k < old_ans.len() && old_ans[k] == p;
                                assert(ans@[k] == p);
                            }
                        }
                        return ans;
                    }
                }
                assert forall|p: Point| #[trigger] self.group_hit(g, region, tol_s, p) && before_xy(p, ax + dx + 1, ay + dy) implies ans@.contains(p) by {
                    if p == cur {
                        assert(ans@[ans@.len() - 1] == p);
                    } else {
                        assert(before_xy(p, ax + dx, ay + dy));
                        assert(old_ans.contains(p));
                        let k = choose|k: int| 0 <= k < old_ans.len() && old_ans[k] == p;
                        assert(ans@[k] == p);
                    }
                }
                assert forall|i: int| 0 <= i < ans@.len() implies before_xy(#[trigger] ans@[i], ax + dx + 1, ay + dy) by {
                    if i < old_ans.len() {
                        assert(before_xy(old_ans[i], ax + dx, ay + dy));
                    }
                }
                dx = dx + 1;
            }
            assert((dy - dy0) * region.width + region.width == (dy + 1 - dy0) * region.width) by (nonlinear_arith);
            assert forall|p: Point| #[trigger] self.group_hit(g, region, tol_s, p) && before_xy(p, ax + dx0, ay + dy + 1) implies ans@.contains(p) by {
                assert(before_xy(p, ax + dx, ay + dy));
            }
            assert forall|i: int| 0 <= i < ans@.len() implies before_xy(#[trigger] ans@[i], ax + dx0, ay + dy + 1) by {
                assert(before_xy(ans@[i], ax + dx, ay + dy));
            }
            dy = dy + 1;
        }
        assert forall|p: Point| #[trigger] self.group_hit(g, region, tol_s, p) implies ans@.contains(p) by {
            assert(before_xy(p, ax + dx0, ay + dy));
        }
        assert((dy - dy0) * region.width <= region.width * region.height) by (nonlinear_arith)
            requires
                dy - dy0 <= region.height,
                0 <= dy - dy0,
        ;
        ans
    }

    /// The first match of a shifted group in row-major order.
    pub fn find_color_point_group_in(&self, cpg: &ColorPointGroupIn) -> (r: Option<Point>)
        requires
            self.wf(),
        ensures
            exists|s: Seq<Point>|
                self.group_in_result(*cpg, 1, s) && r == (if s.len() > 0 {
                    Some(s[0])
                } else {
                    None
                }),
    {
        let all = self.find_all_color_point_group_in(cpg, 1);
        if all.len() > 0 {
            Some(all[0])
        } else {
            None
        }
    }

    /// Alpha-weighted error of template pixel `(ix, iy)` against the frame
    /// pixel under it when the template's top-left corner is at `(x, y)`.
    pub open spec fn pixel_error(&self, img: Image, mode: Tolerance, x: int, y: int, ix: int, iy: int) -> int {
        let a = img.channel(ix, iy, 3) as int;
        let dr = abs_diff(img.channel(ix, iy, 0), self.channel(x + ix, y + iy, 0));
        let dg = abs_diff(img.channel(ix, iy, 1), self.channel(x + ix, y + iy, 1));
        let db = abs_diff(img.channel(ix, iy, 2), self.channel(x + ix, y + iy, 2));
        match mode {
            Tolerance::MAE(_) => a * (dr + dg + db),
            Tolerance::MSE(_) => a * (dr * dr + dg * dg + db * db),
            Tolerance::MAX(_) => a * max3(dr, dg, db),
        }
    }

    /// Loss of the template at `(x, y)` accumulated over the pixels before
    /// `(ix, iy)` in row-major order.
    pub open spec fn window_loss(&self, img: Image, mode: Tolerance, x: int, y: int, iy: nat, ix: nat) -> int
        decreases iy, ix,
    {
        if ix > 0 {
            combine(
                mode,
                self.window_loss(img, mode, x, y, iy, (ix - 1) as nat),
                self.pixel_error(img, mode, x, y, ix - 1, iy as int),
            )
        } else if iy > 0 {
            self.window_loss(img, mode, x, y, (iy - 1) as nat, img.width as nat)
        } else {
            0
        }
    }

    /// The template placed with its top-left corner at `(x, y)` is accepted.
    pub open spec fn window_accepts(&self, img: Image, mode: Tolerance, x: int, y: int) -> bool {
        !loss_exceeds(
            mode,
            self.window_loss(img, mode, x, y, img.height as nat, 0),
            img.width * img.height,
        )
    }

    /// The template fits inside `region` at top-left corner `p`.
    pub open spec fn window_in_region(&self, img: Image, region: Region, p: Point) -> bool {
        &&& region.left <= p.x
        &&& p.x + img.width <= region.right_spec()
        &&& region.top <= p.y
        &&& p.y + img.height <= region.bottom_spec()
    }

    /// A match of the reference image with its top-left corner at `p`.
    pub open spec fn image_hit(&self, img_in: ImageIn, p: Point) -> bool {
        &&& self.region_spec().contains_spec(img_in.region)
        &&& img_in.img.width <= img_in.region.width
        &&& img_in.img.height <= img_in.region.height
        &&& self.window_in_region(img_in.img, img_in.region, p)
        &&& self.window_accepts(img_in.img, img_in.tolerance, p.x as int, p.y as int)
    }

    /// The matches of a reference image that a search with `max_num` keeps:
    /// at most `max_num`, each a match, strictly in row-major order, and no
    /// match skipped before the search stopped.
    pub open spec fn image_in_result(&self, img_in: ImageIn, max_num: nat, r: Seq<Point>) -> bool {
        &&& r.len() <= max_num
        &&& forall|i: int| 0 <= i < r.len() ==> #[trigger] self.image_hit(img_in, r[i])
        &&& forall|i: int, j: int| 0 <= i < j < r.len() ==> r[i].before(r[j])
        &&& forall|p: Point|
            #[trigger] self.image_hit(img_in, p) && (r.len() < max_num || (r.len() > 0
                && !r.last().before(p))) ==> r.contains(p)
    }

    proof fn lemma_pixel_error_bounds(&self, img: Image, mode: Tolerance, x: int, y: int, ix: int, iy: int)
        ensures
            0 <= self.pixel_error(img, mode, x, y, ix, iy) <= MAX_PIXEL_ERROR,
    {
        let a = img.channel(ix, iy, 3) as int;
        let dr = abs_diff(img.channel(ix, iy, 0), self.channel(x + ix, y + iy, 0));
        let dg = abs_diff(img.channel(ix, iy, 1), self.channel(x + ix, y + iy, 1));
        let db = abs_diff(img.channel(ix, iy, 2), self.channel(x + ix, y + iy, 2));
        assert(0 <= a * (dr + dg + db) <= 195_075) by (nonlinear_arith)
            requires
                0 <= a <= 255,
                0 <= dr <= 255,
                0 <= dg <= 255,
                0 <= db <= 255,
        ;
        assert(0 <= a * (dr * dr + dg * dg + db * db) <= MAX_PIXEL_ERROR) by (nonlinear_arith)
            requires
                0 <= a <= 255,
                0 <= dr <= 255,
                0 <= dg <= 255,
                0 <= db <= 255,
        ;
        let m = max3(dr, dg, db);
        assert(0 <= a * m <= 65_025) by (nonlinear_arith)
            requires
                0 <= a <= 255,
                0 <= m <= 255,
        ;
    }

    /// The loss accumulated so far never exceeds the loss of the whole window.
    proof fn lemma_window_monotone(&self, img: Image, mode: Tolerance, x: int, y: int, iy: nat, ix: nat)
        requires
            iy < img.height,
            ix <= img.width,
        ensures
            self.window_loss(img, mode, x, y, iy, ix) <= self.window_loss(
                img,
                mode,
                x,
                y,
                img.height as nat,
                0,
            ),
        decreases img.height - iy, img.width - ix,
    {
        if ix < img.width {
            self.lemma_pixel_error_bounds(img, mode, x, y, ix as int, iy as int);
            assert(self.window_loss(img, mode, x, y, iy, ix) <= self.window_loss(img, mode, x, y, iy, ix + 1));
            self.lemma_window_monotone(img, mode, x, y, iy, ix + 1);
        } else if iy + 1 < img.height {
            assert(self.window_loss(img, mode, x, y, iy + 1, 0) == self.window_loss(img, mode, x, y, iy, ix));
            self.lemma_window_monotone(img, mode, x, y, iy + 1, 0);
        } else {
            assert(self.window_loss(img, mode, x, y, iy + 1, 0) == self.window_loss(img, mode, x, y, iy, ix));
        }
    }

    /// Whether the template placed at `(x, y)` stays within its tolerance;
    /// gives up as soon as the running loss passes the limit.
    fn window_matches(&self, img: &Image, mode: Tolerance, x: u32, y: u32) -> (r: bool)
        requires
            self.wf(),
            img.wf(),
            x + img.width <= self.width,
            y + img.height <= self.height,
        ensures
            r == self.window_accepts(*img, mode, x as int, y as int),
    {
        let iw = img.width;
        let ih = img.height;
        assert(iw * ih <= 0x1_0000_0000_0000_0000) by (nonlinear_arith)
            requires
                iw <= u32::MAX,
                ih <= u32::MAX,
        ;
        let n: u128 = iw as u128 * ih as u128;
        let bound: u128 = match mode {
            Tolerance::MAE(lim) => {
                assert(lim * 195_075 * n <= 0x4000_0000_0000_0000_0000_0000_0000_0000) by (nonlinear_arith)
                    requires
                        lim <= u32::MAX,
                        n <= 0x1_0000_0000_0000_0000,
                ;
                lim as u128 * 195_075 * n
            },
            Tolerance::MSE(lim) => {
                assert(lim * 49_744_125 * n <= 0x4000_0000_0000_0000_0000_0000_0000_0000) by (nonlinear_arith)
                    requires
                        lim <= u32::MAX,
                        n <= 0x1_0000_0000_0000_0000,
                ;
                lim as u128 * 49_744_125 * n
            },
            Tolerance::MAX(lim) => lim as u128 * 65_025,
        };
        assert(bound == loss_bound(mode, iw * ih));
        let mut loss: u128 = 0;
        let mut iy: u32 = 0;
        while iy < ih
            invariant
                self.wf(),
                img.wf(),
                iw == img.width,
                ih == img.height,
                x + iw <= self.width,
                y + ih <= self.height,
                iy <= ih,
                bound == loss_bound(mode, iw * ih),
                bound <= 0x4000_0000_0000_0000_0000_0000_0000_0000,
                loss == self.window_loss(*img, mode, x as int, y as int, iy as nat, 0),
                loss * TOLERANCE_SCALE <= bound,
            decreases ih - iy,
        {
            let mut ix: u32 = 0;
            while ix < iw
                invariant
                    self.wf(),
                    img.wf(),
                    iw == img.width,
                    ih == img.height,
                    x + iw <= self.width,
                    y + ih <= self.height,
                    iy < ih,
                    ix <= iw,
                    bound == loss_bound(mode, iw * ih),
                    bound <= 0x4000_0000_0000_0000_0000_0000_0000_0000,
                    loss == self.window_loss(*img, mode, x as int, y as int, iy as nat, ix as nat),
                    loss * TOLERANCE_SCALE <= bound,
                decreases iw - ix,
            {
                let i = rgba_offset(img.width, img.height, &img.data, ix, iy);
                let j = rgba_offset(self.width, self.height, &self.data, x + ix, y + iy);
                let a = img.data[i + 3] as u128;
                let dr = channel_diff(img.data[i], self.data[j]) as u128;
                let dg = channel_diff(img.data[i + 1], self.data[j + 1]) as u128;
                let db = channel_diff(img.data[i + 2], self.data[j + 2]) as u128;
                proof {
                    self.lemma_pixel_error_bounds(*img, mode, x as int, y as int, ix as int, iy as int);
                }
                let e: u128 = match mode {
                    Tolerance::MAE(_) => {
                        assert(a * (dr + dg + db) <= 195_075) by (nonlinear_arith)
                            requires
                                a <= 255,
                                dr <= 255,
                                dg <= 255,
                                db <= 255,
                        ;
                        a * (dr + dg + db)
                    },
                    Tolerance::MSE(_) => {
                        assert(dr * dr <= 65_025 && dg * dg <= 65_025 && db * db <= 65_025) by (nonlinear_arith)
                            requires
                                dr <= 255,
                                dg <= 255,
                                db <= 255,
                        ;
                        assert(a * (dr * dr + dg * dg + db * db) <= MAX_PIXEL_ERROR) by (nonlinear_arith)
                            requires
                                a <= 255,
                                dr <= 255,
                                dg <= 255,
                                db <= 255,
                        ;
                        a * (dr * dr + dg * dg + db * db)
                    },
                    Tolerance::MAX(_) => {
                        let m = if dr >= dg && dr >= db {
                            dr
                        } else if dg >= db {
                            dg
                        } else {
                            db
                        };
                        assert(a * m <= 65_025) by (nonlinear_arith)
                            requires
                                a <= 255,
                                m <= 255,
                        ;
                        a * m
                    },
                };
                assert(e == self.pixel_error(*img, mode, x as int, y as int, ix as int, iy as int));
                loss = match mode {
                    Tolerance::MAX(_) => if e > loss {
                        e
                    } else {
                        loss
                    },
                    _ => loss + e,
                };
                assert(loss == self.window_loss(*img, mode, x as int, y as int, iy as nat, (ix + 1) as nat));
                if loss * (TOLERANCE_SCALE as u128) > bound {
                    proof {
                        self.lemma_window_monotone(*img, mode, x as int, y as int, iy as nat, (ix + 1) as nat);
                    }
                    return false;
                }
                ix = ix + 1;
            }
            assert(self.window_loss(*img, mode, x as int, y as int, (iy + 1) as nat, 0) == self.window_loss(*img, mode, x as int, y as int, iy as nat, iw as nat));
            iy = iy + 1;
        }
        true
    }

    /// Slides the reference image over every top-left position that keeps it
    /// inside its region; returns the accepted positions in row-major order,
    /// stopping once `max_num` are found.
    pub fn find_all_image_in(&self, img_in: &ImageIn, max_num: usize) -> (r: Vec<Point>)
        requires
            self.wf(),
            img_in.wf(),
        ensures
            self.image_in_result(*img_in, max_num as nat, r@),
    {
        let mut ans: Vec<Point> = Vec::new();
        let region = img_in.region;
        let img = &img_in.img;
        if max_num == 0 || !self.region().contains(&region) || img.width > region.width
            || img.height > region.height {
            assert forall|p: Point| !#[trigger] self.image_hit(*img_in, p) || max_num == 0 by {}
            return ans;
        }
        let x0 = region.left as i64;
        let x1 = region.left as i64 + region.width as i64 - img.width as i64 + 1;
        let y0 = region.top as i64;
        let y1 = region.top as i64 + region.height as i64 - img.height as i64 + 1;
        let mut y = y0;
        while y < y1
            invariant
                self.wf(),
                img_in.wf(),
                img == &img_in.img,
                region == img_in.region,
                self.region_spec().contains_spec(region),
                img.width <= region.width,
                img.height <= region.height,
                x0 == region.left,
                x1 == region.left + region.width - img.width + 1,
                y0 == region.top,
                y1 == region.top + region.height - img.height + 1,
                y0 <= y <= y1,
                0 < max_num,
                ans@.len() < max_num,
                forall|i: int| 0 <= i < ans@.len() ==> #[trigger] self.image_hit(*img_in, ans@[i]),
                forall|i: int, j: int| 0 <= i < j < ans@.len() ==> ans@[i].before(ans@[j]),
                forall|i: int| 0 <= i < ans@.len() ==> before_xy(#[trigger] ans@[i], x0 as int, y as int),
                forall|p: Point| #[trigger] self.image_hit(*img_in, p) && before_xy(p, x0 as int, y as int) ==> ans@.contains(p),
            decreases y1 - y,
        {
            let mut x = x0;
            while x < x1
                invariant
                    self.wf(),
                    img_in.wf(),
                    img == &img_in.img,
                    region == img_in.region,
                    self.region_spec().contains_spec(region),
                    img.width <= region.width,
                    img.height <= region.height,
                    x0 == region.left,
                    x1 == region.left + region.width - img.width + 1,
                    y0 == region.top,
                    y1 == region.top + region.height - img.height + 1,
                    y0 <= y < y1,
                    x0 <= x <= x1,
                    0 < max_num,
                    ans@.len() < max_num,
                    forall|i: int| 0 <= i < ans@.len() ==> #[trigger] self.image_hit(*img_in, ans@[i]),
                    forall|i: int, j: int| 0 <= i < j < ans@.len() ==> ans@[i].before(ans@[j]),
                    forall|i: int| 0 <= i < ans@.len() ==> before_xy(#[trigger] ans@[i], x as int, y as int),
                    forall|p: Point| #[trigger] self.image_hit(*img_in, p) && before_xy(p, x as int, y as int) ==> ans@.contains(p),
                decreases x1 - x,
            {
                let found = self.window_matches(img, img_in.tolerance, x as u32, y as u32);
                let ghost cur = Point { x: x as i32, y: y as i32 };
                assert(cur.x == x && cur.y == y);
                assert(self.image_hit(*img_in, cur) == found);
                let ghost old_ans = ans@;
                if found {
                    let pt = Point { x: x as i32, y: y as i32 };
                    ans.push(pt);
                    assert(ans@.last() == cur);
                    assert forall|i: int, j: int| 0 <= i < j < ans@.len() implies ans@[i].before(ans@[j]) by {
                        if j == ans@.len() - 1 {
                            assert(before_xy(old_ans[i], x as int, y as int));
                        } else {
                            assert(old_ans[i].before(old_ans[j]));
                        }
                    }
                    assert forall|i: int| 0 <= i < ans@.len() implies #[trigger] self.image_hit(*img_in, ans@[i]) by {
                        if i < old_ans.len() {
                            assert(self.image_hit(*img_in, old_ans[i]));
                        }
                    }
                    if ans.len() >= max_num {
                        assert forall|p: Point| #[trigger] self.image_hit(*img_in, p) && (ans@.len() < max_num || (ans@.len() > 0 && !ans@.last().before(p))) implies ans@.contains(p) by {
                            if p == cur {
                                assert(ans@[ans@.len() - 1] == p);
                            } else {
                                assert(before_xy(p, x as int, y as int));
                                assert(old_ans.contains(p));
                                let k = choose|k: int| 0 <= k < old_ans.len() && old_ans[k] == p;
                                assert(ans@[k] == p);
                            }
                        }
                        return ans;
                    }
                }
                assert forall|p: Point| #[trigger] self.image_hit(*img_in, p) && before_xy(p, x + 1, y as int) implies ans@.contains(p) by {
                    if p == cur {
                        assert(ans@[ans@.len() - 1] == p);
                    } else {
                        assert(before_xy(p, x as int, y as int));
                        assert(old_ans.contains(p));
                        let k = choose|k: int| 0 <= k < old_ans.len() && old_ans[k] == p;
                        assert(ans@[k] == p);
                    }
                }
                assert forall|i: int| 0 <= i < ans@.len() implies before_xy(#[trigger] ans@[i], x + 1, y as int) by {
                    if i < old_ans.len() {
                        assert(before_xy(old_ans[i], x as int, y as int));
                    }
                }
                x = x + 1;
            }
            assert forall|p: Point| #[trigger] self.image_hit(*img_in, p) && before_xy(p, x0 as int, y + 1) implies ans@.contains(p) by {
                assert(before_xy(p, x as int, y as int));
            }
            assert forall|i: int| 0 <= i < ans@.len() implies before_xy(#[trigger] ans@[i], x0 as int, y + 1) by {
                assert(before_xy(ans@[i], x as int, y as int));
            }
            y = y + 1;
        }
        assert forall|p: Point| #[trigger] self.image_hit(*img_in, p) implies ans@.contains(p) by {
            assert(before_xy(p, x0 as int, y as int));
        }
        ans
    }

    /// The first match of a reference image in row-major order.
    pub fn find_image_in(&self, img_in: &ImageIn) -> (r: Option<Point>)
        requires
            self.wf(),
            img_in.wf(),
        ensures
            exists|s: Seq<Point>|
                self.image_in_result(*img_in, 1, s) && r == (if s.len() > 0 {
                    Some(s[0])
                } else {
                    None
                }),
    {
        let all = self.find_all_image_in(img_in, 1);
        if all.len() > 0 {
            Some(all[0])
        } else {
            None
        }
    }
}


/// An exact color probe is found precisely when the red, green and blue
/// bytes under it equal the probe's; the alpha byte plays no part.
pub proof fn lemma_color_point_exact(shot: Screenshot, cp: ColorPoint)
    ensures
        shot.color_point_result(cp).is_some() <==> (shot.in_frame(cp.x as int, cp.y as int)
            && shot.channel(cp.x as int, cp.y as int, 0) == cp.red && shot.channel(
            cp.x as int,
            cp.y as int,
            1,
        ) == cp.green && shot.channel(cp.x as int, cp.y as int, 2) == cp.blue),
{
}

/// A larger group tolerance allows at least as large a channel threshold.
pub proof fn lemma_threshold_monotone(t1: u32, t2: u32)
    requires
        t1 <= t2,
    ensures
        channel_threshold_spec(t1) <= channel_threshold_spec(t2),
{
    if t2 < TOLERANCE_SCALE {
        vstd::arithmetic::div_mod::lemma_div_is_ordered(
            t1 * 255,
            t2 * 255,
            TOLERANCE_SCALE as int,
        );
    } else if t1 < TOLERANCE_SCALE {
        vstd::arithmetic::div_mod::lemma_div_is_ordered(
            t1 * 255,
            TOLERANCE_SCALE * 255,
            TOLERANCE_SCALE as int,
        );
        assert(TOLERANCE_SCALE * 255 / TOLERANCE_SCALE as int == 255);
    }
}

/// Raising a fixed-position group's tolerance never loses a match.
pub proof fn lemma_group_tolerance_monotone(shot: Screenshot, group: Seq<ColorPoint>, t1: u32, t2: u32)
    requires
        t1 <= t2,
    ensures
        shot.group_result(group, channel_threshold_spec(t1)).is_some() ==> shot.group_result(
            group,
            channel_threshold_spec(t2),
        ).is_some(),
{
    lemma_threshold_monotone(t1, t2);
    let a = channel_threshold_spec(t1);
    let b = channel_threshold_spec(t2);
    if shot.group_within(group, 0, 0, a) {
        assert forall|i: int| 0 <= i < group.len() implies #[trigger] shot.probe_within(group[i], 0, 0, b) by {
            assert(shot.probe_within(group[i], 0, 0, a));
        }
    }
}

/// Raising a shifted group's tolerance never turns a non-empty search
/// result into an empty one.
pub proof fn lemma_group_in_tolerance_monotone(
    shot: Screenshot,
    cpg1: ColorPointGroupIn,
    cpg2: ColorPointGroupIn,
    max_num: nat,
    r1: Seq<Point>,
    r2: Seq<Point>,
)
    requires
        shot.wf(),
        cpg1.group@ == cpg2.group@,
        cpg1.region == cpg2.region,
        cpg1.tolerance <= cpg2.tolerance,
        shot.group_in_result(cpg1, max_num, r1),
        shot.group_in_result(cpg2, max_num, r2),
    ensures
        r1.len() > 0 ==> r2.len() > 0,
        max_num == usize::MAX ==> forall|k: int| 0 <= k < r1.len() ==> r2.contains(#[trigger] r1[k]),
{
    let g = cpg1.group@;
    let a = channel_threshold_spec(cpg1.tolerance);
    let b = channel_threshold_spec(cpg2.tolerance);
    lemma_threshold_monotone(cpg1.tolerance, cpg2.tolerance);
    if max_num == usize::MAX {
        assert forall|k: int| 0 <= k < r1.len() implies r2.contains(#[trigger] r1[k]) by {
            let p = r1[k];
            assert(shot.group_hit(g, cpg1.region, a, p));
            let dx = p.x - g[0].x;
            let dy = p.y - g[0].y;
            assert forall|i: int| 0 <= i < g.len() implies #[trigger] shot.probe_within(g[i], dx, dy, b) by {
                assert(shot.probe_within(g[i], dx, dy, a));
            }
            assert(shot.group_hit(g, cpg2.region, b, p));
            lemma_region_area_fits(shot, cpg2.region);
        }
    }
    if r1.len() > 0 {
        let g = cpg1.group@;
        let p = r1[0];
        let a = channel_threshold_spec(cpg1.tolerance);
        let b = channel_threshold_spec(cpg2.tolerance);
        lemma_threshold_monotone(cpg1.tolerance, cpg2.tolerance);
        assert(shot.group_hit(g, cpg1.region, a, p));
        let dx = p.x - g[0].x;
        let dy = p.y - g[0].y;
        assert forall|i: int| 0 <= i < g.len() implies #[trigger] shot.probe_within(g[i], dx, dy, b) by {
            assert(shot.probe_within(g[i], dx, dy, a));
        }
        assert(shot.group_hit(g, cpg2.region, b, p));
        if r2.len() == 0 {
            assert(r2.contains(p));
        }
    }
}

/// A region inside a frame has fewer pixels than the largest `usize`, so a
/// search asked for `usize::MAX` results never fills up.
pub proof fn lemma_region_area_fits(shot: Screenshot, region: Region)
    requires
        shot.wf(),
        shot.region_spec().contains_spec(region),
    ensures
        region.width * region.height < usize::MAX,
{
    assert(region.width * region.height <= shot.width * shot.height) by (nonlinear_arith)
        requires
            region.width <= shot.width,
            region.height <= shot.height,
    ;
}

/// A group that matches at a displacement keeping it inside its region is
/// reported at its displaced anchor, unless the search filled up on
/// matches that all come earlier in scan order; a search asked for
/// `usize::MAX` results always reports it.
pub proof fn lemma_shift_complete(
    shot: Screenshot,
    cpg: ColorPointGroupIn,
    max_num: nat,
    r: Seq<Point>,
    dx: int,
    dy: int,
)
    requires
        shot.wf(),
        cpg.group@.len() > 0,
        shot.region_spec().contains_spec(cpg.region),
        group_in_region(cpg.group@, cpg.region, dx, dy),
        shot.group_within(cpg.group@, dx, dy, channel_threshold_spec(cpg.tolerance)),
        shot.group_in_result(cpg, max_num, r),
    ensures
        ({
            let p = Point { x: (cpg.group@[0].x + dx) as i32, y: (cpg.group@[0].y + dy) as i32 };
            r.contains(p) || (r.len() == max_num && forall|i: int| 0 <= i < r.len() ==> r[i].before(p))
        }),
        max_num == usize::MAX ==> r.contains(
            Point { x: (cpg.group@[0].x + dx) as i32, y: (cpg.group@[0].y + dy) as i32 },
        ),
{
    lemma_region_area_fits(shot, cpg.region);
    let g = cpg.group@;
    let p = Point { x: (g[0].x + dx) as i32, y: (g[0].y + dy) as i32 };
    assert(cpg.region.holds(g[0].x + dx, g[0].y + dy));
    assert(p.x == g[0].x + dx && p.y == g[0].y + dy);
    assert(shot.group_hit(g, cpg.region, channel_threshold_spec(cpg.tolerance), p));
    if !r.contains(p) {
        assert(r.len() == max_num);
        if r.len() > 0 {
            assert(r.last().before(p));
        }
        assert forall|i: int| 0 <= i < r.len() implies r[i].before(p) by {
            if i < r.len() - 1 {
                assert(r[i].before(r[r.len() - 1]));
            }
        }
    }
}

impl Screenshot {
    /// Template pixel `(jx, jy)` is visible (alpha above zero) and differs in
    /// red, green or blue from the frame pixel under it when the template's
    /// top-left corner is at `(x, y)`.
    pub open spec fn differs_visibly(&self, img: Image, x: int, y: int, jx: int, jy: int) -> bool {
        &&& 0 <= jx < img.width
        &&& 0 <= jy < img.height
        &&& img.channel(jx, jy, 3) > 0
        &&& (self.channel(x + jx, y + jy, 0) != img.channel(jx, jy, 0) || self.channel(x + jx, y + jy, 1)
            != img.channel(jx, jy, 1) || self.channel(x + jx, y + jy, 2) != img.channel(jx, jy, 2))
    }

    proof fn lemma_window_loss_nonneg(&self, img: Image, mode: Tolerance, x: int, y: int, iy: nat, ix: nat)
        ensures
            self.window_loss(img, mode, x, y, iy, ix) >= 0,
        decreases iy, ix,
    {
        if ix > 0 {
            self.lemma_window_loss_nonneg(img, mode, x, y, iy, (ix - 1) as nat);
            self.lemma_pixel_error_bounds(img, mode, x, y, ix - 1, iy as int);
        } else if iy > 0 {
            self.lemma_window_loss_nonneg(img, mode, x, y, (iy - 1) as nat, img.width as nat);
        }
    }

    /// One visibly differing pixel makes the whole window's loss positive.
    proof fn lemma_visible_difference_costs(&self, img: Image, mode: Tolerance, x: int, y: int, jx: int, jy: int)
        requires
            self.differs_visibly(img, x, y, jx, jy),
        ensures
            self.window_loss(img, mode, x, y, img.height as nat, 0) > 0,
    {
        let a = img.channel(jx, jy, 3) as int;
        let dr = abs_diff(img.channel(jx, jy, 0), self.channel(x + jx, y + jy, 0));
        let dg = abs_diff(img.channel(jx, jy, 1), self.channel(x + jx, y + jy, 1));
        let db = abs_diff(img.channel(jx, jy, 2), self.channel(x + jx, y + jy, 2));
        assert(dr + dg + db >= 1);
        assert(a * (dr + dg + db) >= 1) by (nonlinear_arith)
            requires
                a >= 1,
                dr + dg + db >= 1,
        ;
        assert(a * (dr * dr + dg * dg + db * db) >= 1) by (nonlinear_arith)
            requires
                a >= 1,
                dr >= 0,
                dg >= 0,
                db >= 0,
                dr + dg + db >= 1,
        ;
        let m = max3(dr, dg, db);
        assert(m >= 1);
        assert(a * m >= 1) by (nonlinear_arith)
            requires
                a >= 1,
                m >= 1,
        ;
        assert(self.pixel_error(img, mode, x, y, jx, jy) >= 1);
        self.lemma_window_loss_nonneg(img, mode, x, y, jy as nat, jx as nat);
        assert(self.window_loss(img, mode, x, y, jy as nat, (jx + 1) as nat) >= 1);
        self.lemma_window_monotone(img, mode, x, y, jy as nat, (jx + 1) as nat);
    }

    proof fn lemma_copy_has_zero_loss(&self, img: Image, mode: Tolerance, x: int, y: int, iy: nat, ix: nat)
        requires
            iy < img.height || (iy == img.height && ix == 0),
            ix <= img.width,
            forall|jx: int, jy: int, c: int|
                0 <= jx < img.width && 0 <= jy < img.height && 0 <= c < 3 ==> #[trigger] self.channel(
                    x + jx,
                    y + jy,
                    c,
                ) == img.channel(jx, jy, c),
        ensures
            self.window_loss(img, mode, x, y, iy, ix) == 0,
        decreases iy, ix,
    {
        if ix > 0 {
            let jx = ix - 1;
            let jy = iy as int;
            assert(self.channel(x + jx, y + jy, 0) == img.channel(jx, jy, 0));
            assert(self.channel(x + jx, y + jy, 1) == img.channel(jx, jy, 1));
            assert(self.channel(x + jx, y + jy, 2) == img.channel(jx, jy, 2));
            let a = img.channel(jx, jy, 3) as int;
            assert(a * (0int + 0 + 0) == 0 && a * (0int * 0 + 0 * 0 + 0 * 0) == 0 && a * 0 == 0) by (nonlinear_arith);
            assert(self.pixel_error(img, mode, x, y, jx, jy) == 0);
            self.lemma_copy_has_zero_loss(img, mode, x, y, iy, (ix - 1) as nat);
        } else if iy > 0 {
            self.lemma_copy_has_zero_loss(img, mode, x, y, (iy - 1) as nat, img.width as nat);
        }
    }
}

/// A reference image copied unchanged into a frame at `p`, searched for with
/// zero mean-absolute tolerance, is found exactly there when every other
/// placement inside the region differs from the frame on some visible
/// template pixel.
pub proof fn lemma_template_round_trip(
    shot: Screenshot,
    img_in: ImageIn,
    p: Point,
    max_num: nat,
    r: Seq<Point>,
)
    requires
        shot.wf(),
        img_in.wf(),
        img_in.tolerance == Tolerance::MAE(0),
        shot.region_spec().contains_spec(img_in.region),
        shot.window_in_region(img_in.img, img_in.region, p),
        forall|jx: int, jy: int, c: int|
            0 <= jx < img_in.img.width && 0 <= jy < img_in.img.height && 0 <= c < 3
                ==> #[trigger] shot.channel(p.x + jx, p.y + jy, c) == img_in.img.channel(jx, jy, c),
        forall|q: Point|
            #[trigger] shot.window_in_region(img_in.img, img_in.region, q) && q != p ==> exists|
                jx: int,
                jy: int,
            | shot.differs_visibly(img_in.img, q.x as int, q.y as int, jx, jy),
        max_num >= 1,
        shot.image_in_result(img_in, max_num, r),
    ensures
        r == seq![p],
{
    let img = img_in.img;
    let n = img.width * img.height;
    assert(0 * 195_075 * n == 0) by (nonlinear_arith);
    assert(loss_bound(img_in.tolerance, n) == 0);
    shot.lemma_copy_has_zero_loss(img, img_in.tolerance, p.x as int, p.y as int, img.height as nat, 0);
    assert(shot.image_hit(img_in, p));
    assert forall|q: Point| #[trigger] shot.image_hit(img_in, q) implies q == p by {
        if q != p {
            let (jx, jy) = choose|jx: int, jy: int| shot.differs_visibly(img, q.x as int, q.y as int, jx, jy);
            shot.lemma_visible_difference_costs(img, img_in.tolerance, q.x as int, q.y as int, jx, jy);
        }
    }
    assert forall|i: int| 0 <= i < r.len() implies r[i] == p by {
        assert(shot.image_hit(img_in, r[i]));
    }
    if r.len() >= max_num {
        assert(r.last() == p);
        assert(!p.before(p));
    }
    assert(r.contains(p));
    if r.len() > 1 {
        assert(r[0].before(r[1]));
    }
    assert(r =~= seq![p]);
}

} // verus!
