//! One detection contract over every kind of probe: find once, test for
//! presence, and the decisions of the polling loop that waits for one to
//! appear.

use vstd::prelude::*;
use crate::color::{channel_threshold_spec, ColorPoint, ColorPointGroup, ColorPointGroupIn, ImageIn};
use crate::geometry::Point;
use crate::node::{NodeSelector, Nodeshot};
use crate::screenshot::Screenshot;

verus! {

/// A search with room for one result finds something exactly when some
/// shifted-group match exists.
proof fn lemma_group_in_single(shot: Screenshot, cpg: ColorPointGroupIn, s: Seq<Point>)
    requires
        shot.group_in_result(cpg, 1, s),
    ensures
        s.len() > 0 <==> exists|p: Point|
            shot.group_hit(cpg.group@, cpg.region, channel_threshold_spec(cpg.tolerance), p),
{
    let tol = channel_threshold_spec(cpg.tolerance);
    if s.len() > 0 {
        assert(shot.group_hit(cpg.group@, cpg.region, tol, s[0]));
    }
    if exists|p: Point| shot.group_hit(cpg.group@, cpg.region, tol, p) {
        let p = choose|p: Point| shot.group_hit(cpg.group@, cpg.region, tol, p);
        if s.len() == 0 {
            assert(s.contains(p));
        }
    }
}

/// A search with room for one result finds something exactly when some
/// image match exists.
proof fn lemma_image_in_single(shot: Screenshot, img_in: ImageIn, s: Seq<Point>)
    requires
        shot.image_in_result(img_in, 1, s),
    ensures
        s.len() > 0 <==> exists|p: Point| shot.image_hit(img_in, p),
{
    if s.len() > 0 {
        assert(shot.image_hit(img_in, s[0]));
    }
    if exists|p: Point| shot.image_hit(img_in, p) {
        let p = choose|p: Point| shot.image_hit(img_in, p);
        if s.len() == 0 {
            assert(s.contains(p));
        }
    }
}

/// A probe that can be looked for in one captured frame.
pub trait Find {
    /// The probe is well formed.
    spec fn ready(&self) -> bool;

    /// The probe is present in the frame.
    spec fn present(&self, shot: Screenshot) -> bool;

    /// `p` is the position at which the probe is found in the frame: the
    /// first match in row-major order.
    spec fn found_at(&self, shot: Screenshot, p: Point) -> bool;

    /// Whether the probe is well formed.
    fn is_ready(&self) -> (r: bool)
        ensures
            r == self.ready(),
    ;

    /// One probe of the frame: the first match in scan order, if any.
    fn find(&self, shot: &Screenshot) -> (r: Option<Point>)
        requires
            shot.wf(),
            self.ready(),
        ensures
            r.is_some() <==> self.present(*shot),
            r matches Some(p) ==> self.found_at(*shot, p),
    ;

    /// Whether the probe is present in the frame.
    fn exist(&self, shot: &Screenshot) -> (r: bool)
        requires
            shot.wf(),
            self.ready(),
        ensures
            r == self.present(*shot),
    ;
}

impl Find for ColorPoint {
    open spec fn ready(&self) -> bool {
        true
    }

    fn is_ready(&self) -> (r: bool) {
        true
    }

    open spec fn present(&self, shot: Screenshot) -> bool {
        shot.color_point_result(*self).is_some()
    }

    open spec fn found_at(&self, shot: Screenshot, p: Point) -> bool {
        shot.color_point_result(*self) == Some(p)
    }

    fn find(&self, shot: &Screenshot) -> (r: Option<Point>) {
        shot.find_color_point(self)
    }

    fn exist(&self, shot: &Screenshot) -> (r: bool) {
        shot.find_color_point(self).is_some()
    }
}

impl Find for ColorPointGroup {
    open spec fn ready(&self) -> bool {
        true
    }

    fn is_ready(&self) -> (r: bool) {
        true
    }

    open spec fn present(&self, shot: Screenshot) -> bool {
        shot.group_result(self.group@, channel_threshold_spec(self.tolerance)).is_some()
    }

    open spec fn found_at(&self, shot: Screenshot, p: Point) -> bool {
        shot.group_result(self.group@, channel_threshold_spec(self.tolerance)) == Some(p)
    }

    fn find(&self, shot: &Screenshot) -> (r: Option<Point>) {
        shot.find_color_point_group(self)
    }

    fn exist(&self, shot: &Screenshot) -> (r: bool) {
        shot.find_color_point_group(self).is_some()
    }
}

impl Find for ColorPointGroupIn {
    open spec fn ready(&self) -> bool {
        true
    }

    fn is_ready(&self) -> (r: bool) {
        true
    }

    open spec fn present(&self, shot: Screenshot) -> bool {
        exists|p: Point| shot.group_hit(self.group@, self.region, channel_threshold_spec(self.tolerance), p)
    }

    open spec fn found_at(&self, shot: Screenshot, p: Point) -> bool {
        exists|s: Seq<Point>| shot.group_in_result(*self, 1, s) && s.len() > 0 && s[0] == p
    }

    fn find(&self, shot: &Screenshot) -> (r: Option<Point>) {
        let all = shot.find_all_color_point_group_in(self, 1);
        proof {
            lemma_group_in_single(*shot, *self, all@);
        }
        if all.len() > 0 {
            Some(all[0])
        } else {
            None
        }
    }

    fn exist(&self, shot: &Screenshot) -> (r: bool) {
        self.find(shot).is_some()
    }
}

impl Find for ImageIn {
    open spec fn ready(&self) -> bool {
        self.wf()
    }

    fn is_ready(&self) -> (r: bool) {
        self.img.is_wf()
    }

    open spec fn present(&self, shot: Screenshot) -> bool {
        exists|p: Point| shot.image_hit(*self, p)
    }

    open spec fn found_at(&self, shot: Screenshot, p: Point) -> bool {
        exists|s: Seq<Point>| shot.image_in_result(*self, 1, s) && s.len() > 0 && s[0] == p
    }

    fn find(&self, shot: &Screenshot) -> (r: Option<Point>) {
        let all = shot.find_all_image_in(self, 1);
        proof {
            lemma_image_in_single(*shot, *self, all@);
        }
        if all.len() > 0 {
            Some(all[0])
        } else {
            None
        }
    }

    fn exist(&self, shot: &Screenshot) -> (r: bool) {
        self.find(shot).is_some()
    }
}

/// Any probe that is looked for in a captured frame.
#[derive(Clone, Debug)]
pub enum Detector {
    ColorPoint(ColorPoint),
    ColorPointGroup(ColorPointGroup),
    ColorPointGroupIn(ColorPointGroupIn),
    ImageIn(ImageIn),
}

impl Find for Detector {
    open spec fn ready(&self) -> bool {
        match self {
            Detector::ColorPoint(d) => d.ready(),
            Detector::ColorPointGroup(d) => d.ready(),
            Detector::ColorPointGroupIn(d) => d.ready(),
            Detector::ImageIn(d) => d.ready(),
        }
    }

    open spec fn present(&self, shot: Screenshot) -> bool {
        match self {
            Detector::ColorPoint(d) => d.present(shot),
            Detector::ColorPointGroup(d) => d.present(shot),
            Detector::ColorPointGroupIn(d) => d.present(shot),
            Detector::ImageIn(d) => d.present(shot),
        }
    }

    open spec fn found_at(&self, shot: Screenshot, p: Point) -> bool {
        match self {
            Detector::ColorPoint(d) => d.found_at(shot, p),
            Detector::ColorPointGroup(d) => d.found_at(shot, p),
            Detector::ColorPointGroupIn(d) => d.found_at(shot, p),
            Detector::ImageIn(d) => d.found_at(shot, p),
        }
    }

    fn is_ready(&self) -> (r: bool) {
        match self {
            Detector::ColorPoint(d) => d.is_ready(),
            Detector::ColorPointGroup(d) => d.is_ready(),
            Detector::ColorPointGroupIn(d) => d.is_ready(),
            Detector::ImageIn(d) => d.is_ready(),
        }
    }

    fn find(&self, shot: &Screenshot) -> (r: Option<Point>) {
        match self {
            Detector::ColorPoint(d) => d.find(shot),
            Detector::ColorPointGroup(d) => d.find(shot),
            Detector::ColorPointGroupIn(d) => d.find(shot),
            Detector::ImageIn(d) => d.find(shot),
        }
    }

    fn exist(&self, shot: &Screenshot) -> (r: bool) {
        self.find(shot).is_some()
    }
}

/// Probes of one kind tested together against one frame.
pub trait GroupFindOnce {
    /// Every member is well formed.
    spec fn all_ready(&self) -> bool;

    /// Every member is present in the frame.
    spec fn all_present(&self, shot: Screenshot) -> bool;

    /// Some member is present in the frame.
    spec fn any_present(&self, shot: Screenshot) -> bool;

    /// Whether every member is well formed.
    fn all_are_ready(&self) -> (r: bool)
        ensures
            r == self.all_ready(),
    ;

    /// Whether every member is present; stops at the first absent one.
    fn all_exist(&self, shot: &Screenshot) -> (r: bool)
        requires
            shot.wf(),
            self.all_ready(),
        ensures
            r == self.all_present(*shot),
    ;

    /// Whether some member is present; stops at the first present one.
    fn any_exist(&self, shot: &Screenshot) -> (r: bool)
        requires
            shot.wf(),
            self.all_ready(),
        ensures
            r == self.any_present(*shot),
    ;
}

impl<T: Find> GroupFindOnce for Vec<T> {
    open spec fn all_ready(&self) -> bool {
        forall|i: int| 0 <= i < self@.len() ==> (#[trigger] self@[i]).ready()
    }

    open spec fn all_present(&self, shot: Screenshot) -> bool {
        forall|i: int| 0 <= i < self@.len() ==> (#[trigger] self@[i]).present(shot)
    }

    open spec fn any_present(&self, shot: Screenshot) -> bool {
        exists|i: int| 0 <= i < self@.len() && (#[trigger] self@[i]).present(shot)
    }

    fn all_are_ready(&self) -> (r: bool) {
        let mut i: usize = 0;
        while i < self.len()
            invariant
                0 <= i <= self@.len(),
                forall|k: int| 0 <= k < i ==> (#[trigger] self@[k]).ready(),
            decreases self@.len() - i,
        {
            if !self[i].is_ready() {
                return false;
            }
            i += 1;
        }
        true
    }

    fn all_exist(&self, shot: &Screenshot) -> (r: bool) {
        let mut i: usize = 0;
        while i < self.len()
            invariant
                shot.wf(),
                self.all_ready(),
                0 <= i <= self@.len(),
                forall|k: int| 0 <= k < i ==> (#[trigger] self@[k]).present(*shot),
            decreases self@.len() - i,
        {
            if !self[i].exist(shot) {
                return false;
            }
            i += 1;
        }
        true
    }

    fn any_exist(&self, shot: &Screenshot) -> (r: bool) {
        let mut i: usize = 0;
        while i < self.len()
            invariant
                shot.wf(),
                self.all_ready(),
                0 <= i <= self@.len(),
                forall|k: int| 0 <= k < i ==> !(#[trigger] self@[k]).present(*shot),
            decreases self@.len() - i,
        {
            if self[i].exist(shot) {
                return true;
            }
            i += 1;
        }
        false
    }
}

/// Every selector matches some node of the snapshot.
pub fn all_selectors_exist(selectors: &Vec<NodeSelector>, shot: &Nodeshot) -> (r: bool)
    ensures
        r == forall|i: int|
            0 <= i < selectors@.len() ==> shot.select(#[trigger] selectors@[i], shot.capture_order()).len() > 0,
{
    let mut i: usize = 0;
    while i < selectors.len()
        invariant
            0 <= i <= selectors@.len(),
            forall|k: int|
                0 <= k < i ==> shot.select(#[trigger] selectors@[k], shot.capture_order()).len() > 0,
        decreases selectors@.len() - i,
    {
        if !shot.match_selector(&selectors[i]) {
            return false;
        }
        i += 1;
    }
    true
}

/// Some selector matches some node of the snapshot.
pub fn any_selector_exists(selectors: &Vec<NodeSelector>, shot: &Nodeshot) -> (r: bool)
    ensures
        r == exists|i: int|
            0 <= i < selectors@.len() && shot.select(#[trigger] selectors@[i], shot.capture_order()).len() > 0,
{
    let mut i: usize = 0;
    while i < selectors.len()
        invariant
            0 <= i <= selectors@.len(),
            forall|k: int|
                0 <= k < i ==> shot.select(#[trigger] selectors@[k], shot.capture_order()).len() == 0,
        decreases selectors@.len() - i,
    {
        if shot.match_selector(&selectors[i]) {
            return true;
        }
        i += 1;
    }
    false
}

/// What a polling loop does after one evaluation.
#[derive(Clone, Copy, Debug, PartialEq, Eq, Structural)]
pub enum Poll {
    /// The target appeared.
    Found,
    /// The timeout has passed.
    GiveUp,
    /// Wait up to this many milliseconds for a capture newer than the one
    /// just evaluated, then evaluate again.
    WaitFor(u64),
}

/// The decision after one evaluation made `elapsed` milliseconds after the
/// loop was entered.
pub fn poll_after(found: bool, elapsed: u64, timeout: u64) -> (r: Poll)
    ensures
        found ==> r == Poll::Found,
        !found && elapsed >= timeout ==> r == Poll::GiveUp,
        !found && elapsed < timeout ==> r == Poll::WaitFor((timeout - elapsed) as u64),
{
    if found {
        Poll::Found
    } else if elapsed >= timeout {
        Poll::GiveUp
    } else {
        Poll::WaitFor(timeout - elapsed)
    }
}

} // verus!
