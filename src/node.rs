//! Accessibility-tree snapshots and the selectors that search them.
//!
//! A snapshot keeps its nodes in one vector in capture order; parent and
//! children links are indices into that vector, so dropping the snapshot
//! frees the whole tree at once.

use vstd::prelude::*;
use crate::geometry::Rect;

verus! {

/// One accessibility element as captured, with its structural indices.
#[derive(Clone, Debug, Default)]
pub struct Node {
    pub id: String,
    pub region: Rect,
    pub text: String,
    pub class: String,
    pub package: String,
    pub description: String,
    pub checkable: bool,
    pub clickable: bool,
    pub long_clickable: bool,
    pub focusable: bool,
    pub scrollable: bool,
    pub visible: bool,
    pub checked: bool,
    pub enabled: bool,
    pub focused: bool,
    pub selected: bool,
    /// Index of the parent node; not read for the root (index 0).
    pub parent_idx: usize,
    /// Indices of the children, in order.
    pub children_idx: Vec<usize>,
}

/// Node's resource id equals the text.
#[derive(Clone, Debug)]
pub struct Id(pub String);

/// Node's text equals the text.
#[derive(Clone, Debug)]
pub struct Text(pub String);

/// Node's class name equals the text.
#[derive(Clone, Debug)]
pub struct Class(pub String);

/// Node's package name equals the text.
#[derive(Clone, Debug)]
pub struct Package(pub String);

/// Node's content description equals the text.
#[derive(Clone, Debug)]
pub struct Description(pub String);

#[derive(Clone, Copy, Debug, PartialEq, Eq, Structural)]
pub struct Checkable(pub bool);

#[derive(Clone, Copy, Debug, PartialEq, Eq, Structural)]
pub struct Clickable(pub bool);

#[derive(Clone, Copy, Debug, PartialEq, Eq, Structural)]
pub struct LongClickable(pub bool);

#[derive(Clone, Copy, Debug, PartialEq, Eq, Structural)]
pub struct Focusable(pub bool);

#[derive(Clone, Copy, Debug, PartialEq, Eq, Structural)]
pub struct Scrollable(pub bool);

#[derive(Clone, Copy, Debug, PartialEq, Eq, Structural)]
pub struct Visible(pub bool);

#[derive(Clone, Copy, Debug, PartialEq, Eq, Structural)]
pub struct Checked(pub bool);

#[derive(Clone, Copy, Debug, PartialEq, Eq, Structural)]
pub struct Enabled(pub bool);

#[derive(Clone, Copy, Debug, PartialEq, Eq, Structural)]
pub struct Focused(pub bool);

#[derive(Clone, Copy, Debug, PartialEq, Eq, Structural)]
pub struct Selected(pub bool);

/// A reusable predicate over one node.
#[derive(Debug)]
pub enum NodeSelector {
    /// Every node.
    Any,
    Id(Id),
    Text(Text),
    Class(Class),
    Package(Package),
    Description(Description),
    Checkable(Checkable),
    Clickable(Clickable),
    LongClickable(LongClickable),
    Focusable(Focusable),
    Scrollable(Scrollable),
    Visible(Visible),
    Checked(Checked),
    Enabled(Enabled),
    Focused(Focused),
    Selected(Selected),
    /// The node's region lies inside the rectangle.
    Within(Rect),
    Not(Box<NodeSelector>),
    And(Box<NodeSelector>, Box<NodeSelector>),
    Or(Box<NodeSelector>, Box<NodeSelector>),
}

impl NodeSelector {
    /// Whether `node` satisfies the selector.
    pub open spec fn matches(self, node: Node) -> bool
        decreases self,
    {
        match self {
            NodeSelector::Any => true,
            NodeSelector::Id(v) => node.id@ == v.0@,
            NodeSelector::Text(v) => node.text@ == v.0@,
            NodeSelector::Class(v) => node.class@ == v.0@,
            NodeSelector::Package(v) => node.package@ == v.0@,
            NodeSelector::Description(v) => node.description@ == v.0@,
            NodeSelector::Checkable(v) => node.checkable == v.0,
            NodeSelector::Clickable(v) => node.clickable == v.0,
            NodeSelector::LongClickable(v) => node.long_clickable == v.0,
            NodeSelector::Focusable(v) => node.focusable == v.0,
            NodeSelector::Scrollable(v) => node.scrollable == v.0,
            NodeSelector::Visible(v) => node.visible == v.0,
            NodeSelector::Checked(v) => node.checked == v.0,
            NodeSelector::Enabled(v) => node.enabled == v.0,
            NodeSelector::Focused(v) => node.focused == v.0,
            NodeSelector::Selected(v) => node.selected == v.0,
            NodeSelector::Within(r) => r.contains_spec(node.region),
            NodeSelector::Not(a) => !a.matches(node),
            NodeSelector::And(a, b) => a.matches(node) && b.matches(node),
            NodeSelector::Or(a, b) => a.matches(node) || b.matches(node),
        }
    }

    /// Both selectors hold.
    pub fn and(a: NodeSelector, b: NodeSelector) -> (r: NodeSelector)
        ensures
            forall|n: Node| r.matches(n) == (a.matches(n) && b.matches(n)),
    {
        NodeSelector::And(Box::new(a), Box::new(b))
    }

    /// Either selector holds.
    pub fn or(a: NodeSelector, b: NodeSelector) -> (r: NodeSelector)
        ensures
            forall|n: Node| r.matches(n) == (a.matches(n) || b.matches(n)),
    {
        NodeSelector::Or(Box::new(a), Box::new(b))
    }

    /// The selector does not hold.
    pub fn not(a: NodeSelector) -> (r: NodeSelector)
        ensures
            forall|n: Node| r.matches(n) == !a.matches(n),
    {
        NodeSelector::Not(Box::new(a))
    }

    /// Evaluates the selector on one node.
    pub fn is_match(&self, node: &Node) -> (r: bool)
        ensures
            r == self.matches(*node),
        decreases self,
    {
        match self {
            NodeSelector::Any => true,
            NodeSelector::Id(v) => node.id == v.0,
            NodeSelector::Text(v) => node.text == v.0,
            NodeSelector::Class(v) => node.class == v.0,
            NodeSelector::Package(v) => node.package == v.0,
            NodeSelector::Description(v) => node.description == v.0,
            NodeSelector::Checkable(v) => node.checkable == v.0,
            NodeSelector::Clickable(v) => node.clickable == v.0,
            NodeSelector::LongClickable(v) => node.long_clickable == v.0,
            NodeSelector::Focusable(v) => node.focusable == v.0,
            NodeSelector::Scrollable(v) => node.scrollable == v.0,
            NodeSelector::Visible(v) => node.visible == v.0,
            NodeSelector::Checked(v) => node.checked == v.0,
            NodeSelector::Enabled(v) => node.enabled == v.0,
            NodeSelector::Focused(v) => node.focused == v.0,
            NodeSelector::Selected(v) => node.selected == v.0,
            NodeSelector::Within(r) => r.contains(&node.region),
            NodeSelector::Not(a) => !a.is_match(node),
            NodeSelector::And(a, b) => a.is_match(node) && b.is_match(node),
            NodeSelector::Or(a, b) => a.is_match(node) || b.is_match(node),
        }
    }
}


/// One capture of the whole accessibility tree. Node 0 is the root.
#[derive(Clone, Debug, Default)]
pub struct Nodeshot {
    pub data: Vec<Node>,
    /// Capture time given by the host; later captures have larger stamps.
    pub timestamp: i64,
}

impl Nodeshot {
    /// Every structural index names a node of this snapshot.
    pub open spec fn indices_valid(data: Seq<Node>) -> bool {
        &&& data.len() > 0
        &&& forall|i: int| 1 <= i < data.len() ==> (#[trigger] data[i]).parent_idx < data.len()
        &&& forall|i: int, k: int|
            0 <= i < data.len() && 0 <= k < data[i].children_idx@.len() ==> (
            #[trigger] data[i].children_idx@[k]) < data.len()
    }

    pub open spec fn wf(&self) -> bool {
        Self::indices_valid(self.data@)
    }

    /// All node indices in capture order.
    pub open spec fn capture_order(&self) -> Seq<usize> {
        Seq::new(self.data@.len(), |i: int| i as usize)
    }

    /// The indices of `idx`, in order, whose nodes satisfy `sel`.
    pub open spec fn select(&self, sel: NodeSelector, idx: Seq<usize>) -> Seq<usize>
        decreases idx.len(),
    {
        if idx.len() == 0 {
            seq![]
        } else {
            let rest = self.select(sel, idx.drop_last());
            if sel.matches(self.data@[idx.last() as int]) {
                rest.push(idx.last())
            } else {
                rest
            }
        }
    }

    /// The children of every node of `level`, level by level in order.
    pub open spec fn next_level(&self, level: Seq<usize>) -> Seq<usize>
        decreases level.len(),
    {
        if level.len() == 0 {
            seq![]
        } else {
            self.next_level(level.drop_last()) + self.data@[level.last() as int].children_idx@
        }
    }

    /// Breadth-first visiting order from `level`, for at most `depth` levels.
    pub open spec fn breadth_first(&self, level: Seq<usize>, depth: nat) -> Seq<usize>
        decreases depth,
    {
        if depth == 0 || level.len() == 0 {
            seq![]
        } else {
            level + self.breadth_first(self.next_level(level), (depth - 1) as nat)
        }
    }

    /// Breadth-first visiting order of the subtree under `root`. A tree of
    /// `n` nodes has fewer than `n` levels, so the walk stops after `n`
    /// levels even on index data that loops.
    pub open spec fn subtree_order(&self, root: usize) -> Seq<usize> {
        self.breadth_first(seq![root], self.data@.len())
    }

    /// A snapshot of the given nodes, or `None` where there is no root or a
    /// parent or child index names no node.
    pub fn new(data: Vec<Node>, timestamp: i64) -> (r: Option<Nodeshot>)
        ensures
            r.is_some() <==> Self::indices_valid(data@),
            r matches Some(s) ==> s.data@ == data@ && s.timestamp == timestamp,
    {
        let n = data.len();
        if n == 0 {
            return None;
        }
        let mut i: usize = 0;
        while i < n
            invariant
                n == data@.len(),
                0 <= i <= n,
                forall|j: int| 1 <= j < i ==> (#[trigger] data@[j]).parent_idx < n,
                forall|j: int, k: int|
                    0 <= j < i && 0 <= k < data@[j].children_idx@.len() ==> (
                    #[trigger] data@[j].children_idx@[k]) < n,
            decreases n - i,
        {
            let node = &data[i];
            if i > 0 && node.parent_idx >= n {
                return None;
            }
            let mut k: usize = 0;
            while k < node.children_idx.len()
                invariant
                    n == data@.len(),
                    0 <= i < n,
                    node == &data@[i as int],
                    0 <= k <= node.children_idx@.len(),
                    forall|q: int| 0 <= q < k ==> (#[trigger] node.children_idx@[q]) < n,
                decreases node.children_idx@.len() - k,
            {
                if node.children_idx[k] >= n {
                    return None;
                }
                k += 1;
            }
            i += 1;
        }
        Some(Nodeshot { data, timestamp })
    }

    /// Number of nodes.
    pub fn len(&self) -> (r: usize)
        ensures
            r == self.data@.len(),
    {
        self.data.len()
    }

    /// The parent of node `i`; the root has none.
    pub fn parent(&self, i: usize) -> (r: Option<usize>)
        requires
            self.wf(),
            i < self.data@.len(),
        ensures
            r == (if i == 0 {
                None
            } else {
                Some(self.data@[i as int].parent_idx)
            }),
            r matches Some(p) ==> p < self.data@.len(),
    {
        if i == 0 {
            None
        } else {
            Some(self.data[i].parent_idx)
        }
    }

    /// The children of node `i`, in order.
    pub fn children(&self, i: usize) -> (r: Vec<usize>)
        requires
            self.wf(),
            i < self.data@.len(),
        ensures
            r@ == self.data@[i as int].children_idx@,
    {
        self.data[i].children_idx.clone()
    }

    /// Every node satisfying `sel`, in capture order.
    pub fn find_all_selector(&self, sel: &NodeSelector) -> (r: Vec<usize>)
        ensures
            r@ == self.select(*sel, self.capture_order()),
    {
        let mut ans: Vec<usize> = Vec::new();
        let mut i: usize = 0;
        while i < self.data.len()
            invariant
                0 <= i <= self.data@.len(),
                ans@ == self.select(*sel, self.capture_order().take(i as int)),
            decreases self.data@.len() - i,
        {
            let ghost order = self.capture_order();
            assert(order.take(i + 1).drop_last() =~= order.take(i as int));
            if sel.is_match(&self.data[i]) {
                ans.push(i);
            }
            i += 1;
        }
        assert(self.capture_order().take(i as int) =~= self.capture_order());
        ans
    }

    /// Every node for which `pred` returns true, in capture order; every
    /// node left out is one for which it returned false.
    pub fn find_all_by<F: Fn(&Node) -> bool>(&self, pred: &F) -> (r: Vec<usize>)
        requires
            forall|i: int| 0 <= i < self.data@.len() ==> pred.requires((&self.data@[i],)),
        ensures
            forall|k: int|
                0 <= k < r@.len() ==> (#[trigger] r@[k]) < self.data@.len() && pred.ensures(
                    (&self.data@[r@[k] as int],),
                    true,
                ),
            forall|k: int, l: int| 0 <= k < l < r@.len() ==> r@[k] < r@[l],
            forall|i: int|
                0 <= i < self.data@.len() && !r@.contains(i as usize) ==> pred.ensures(
                    (&self.data@[i],),
                    false,
                ),
    {
        let mut ans: Vec<usize> = Vec::new();
        let mut i: usize = 0;
        while i < self.data.len()
            invariant
                0 <= i <= self.data@.len(),
                forall|j: int| 0 <= j < self.data@.len() ==> pred.requires((&self.data@[j],)),
                forall|k: int|
                    0 <= k < ans@.len() ==> (#[trigger] ans@[k]) < i && pred.ensures(
                        (&self.data@[ans@[k] as int],),
                        true,
                    ),
                forall|k: int, l: int| 0 <= k < l < ans@.len() ==> ans@[k] < ans@[l],
                forall|j: int|
                    0 <= j < i && !ans@.contains(j as usize) ==> pred.ensures((&self.data@[j],), false),
            decreases self.data@.len() - i,
        {
            let ghost before = ans@;
            let keep = pred(&self.data[i]);
            if keep {
                ans.push(i);
                assert forall|j: int| 0 <= j < i + 1 && !ans@.contains(j as usize) implies pred.ensures((&self.data@[j],), false) by {
                    if j < i && !before.contains(j as usize) {
                    } else if j < i {
                        let k = choose|k: int| 0 <= k < before.len() && before[k] == j as usize;
                        assert(ans@[k] == j as usize);
                    } else {
                        assert(ans@[ans@.len() - 1] == i);
                    }
                }
            } else {
                assert forall|j: int| 0 <= j < i + 1 && !ans@.contains(j as usize) implies pred.ensures((&self.data@[j],), false) by {
                }
            }
            i += 1;
        }
        ans
    }

    /// The first node in capture order for which `pred` returns true; every
    /// node before it is one for which it returned false.
    pub fn find_by<F: Fn(&Node) -> bool>(&self, pred: &F) -> (r: Option<usize>)
        requires
            forall|i: int| 0 <= i < self.data@.len() ==> pred.requires((&self.data@[i],)),
        ensures
            r matches Some(k) ==> k < self.data@.len() && pred.ensures((&self.data@[k as int],), true)
                && forall|j: int| 0 <= j < k ==> pred.ensures((&self.data@[j],), false),
            r is None ==> forall|j: int| 0 <= j < self.data@.len() ==> pred.ensures((&self.data@[j],), false),
    {
        let mut i: usize = 0;
        while i < self.data.len()
            invariant
                0 <= i <= self.data@.len(),
                forall|j: int| 0 <= j < self.data@.len() ==> pred.requires((&self.data@[j],)),
                forall|j: int| 0 <= j < i ==> pred.ensures((&self.data@[j],), false),
            decreases self.data@.len() - i,
        {
            if pred(&self.data[i]) {
                return Some(i);
            }
            i += 1;
        }
        None
    }

    /// The first node in capture order that satisfies `sel`.
    pub fn find_selector(&self, sel: &NodeSelector) -> (r: Option<usize>)
        ensures
            r == (if self.select(*sel, self.capture_order()).len() > 0 {
                Some(self.select(*sel, self.capture_order())[0])
            } else {
                None
            }),
    {
        let all = self.find_all_selector(sel);
        if all.len() > 0 {
            Some(all[0])
        } else {
            None
        }
    }

    /// Whether some node satisfies `sel`.
    pub fn match_selector(&self, sel: &NodeSelector) -> (r: bool)
        ensures
            r == (self.select(*sel, self.capture_order()).len() > 0),
    {
        self.find_selector(sel).is_some()
    }

    /// Every node of the subtree under `root` that satisfies `sel`, in
    /// breadth-first order; a matching node's own subtree is searched too.
    pub fn find_all(&self, root: usize, sel: &NodeSelector) -> (r: Vec<usize>)
        requires
            self.wf(),
            root < self.data@.len(),
        ensures
            r@ == self.select(*sel, self.subtree_order(root)),
    {
        let n = self.data.len();
        let mut ans: Vec<usize> = Vec::new();
        let mut level: Vec<usize> = Vec::new();
        level.push(root);
        let mut remaining: usize = n;
        let ghost visited: Seq<usize> = seq![];
        assert(level@ =~= seq![root]);
        assert(visited + self.breadth_first(level@, remaining as nat) =~= self.subtree_order(root));
        while remaining > 0 && level.len() > 0
            invariant
                self.wf(),
                n == self.data@.len(),
                forall|q: int| 0 <= q < level@.len() ==> (#[trigger] level@[q]) < n,
                visited + self.breadth_first(level@, remaining as nat) == self.subtree_order(root),
                ans@ == self.select(*sel, visited),
            decreases remaining,
        {
            let mut next: Vec<usize> = Vec::new();
            let mut k: usize = 0;
            while k < level.len()
                invariant
                    self.wf(),
                    n == self.data@.len(),
                    0 <= k <= level@.len(),
                    forall|q: int| 0 <= q < level@.len() ==> (#[trigger] level@[q]) < n,
                    forall|q: int| 0 <= q < next@.len() ==> (#[trigger] next@[q]) < n,
                    next@ == self.next_level(level@.take(k as int)),
                    ans@ == self.select(*sel, visited + level@.take(k as int)),
                decreases level@.len() - k,
            {
                let i = level[k];
                assert(level@.take(k + 1).drop_last() =~= level@.take(k as int));
                assert((visited + level@.take(k + 1)).drop_last() =~= visited + level@.take(k as int));
                if sel.is_match(&self.data[i]) {
                    ans.push(i);
                }
                let children = &self.data[i].children_idx;
                let ghost before = next@;
                let mut j: usize = 0;
                while j < children.len()
                    invariant
                        self.wf(),
                        n == self.data@.len(),
                        i < n,
                        children == &self.data@[i as int].children_idx,
                        0 <= j <= children@.len(),
                        forall|q: int| 0 <= q < next@.len() ==> (#[trigger] next@[q]) < n,
                        next@ == before + children@.take(j as int),
                    decreases children@.len() - j,
                {
                    assert(children@[j as int] < n);
                    next.push(children[j]);
                    assert(before + children@.take(j + 1) =~= (before + children@.take(j as int)).push(children@[j as int]));
                    j += 1;
                }
                assert(children@.take(j as int) =~= children@);
                k += 1;
            }
            assert(level@.take(k as int) =~= level@);
            proof {
                assert(visited + level@ + self.breadth_first(next@, (remaining - 1) as nat) =~= visited + (level@ + self.breadth_first(next@, (remaining - 1) as nat)));
                visited = visited + level@;
            }
            level = next;
            remaining -= 1;
        }
        assert(visited + self.breadth_first(level@, remaining as nat) =~= visited);
        ans
    }

    /// The first node of the subtree under `root`, in breadth-first order,
    /// that satisfies `sel`.
    pub fn find(&self, root: usize, sel: &NodeSelector) -> (r: Option<usize>)
        requires
            self.wf(),
            root < self.data@.len(),
        ensures
            r == (if self.select(*sel, self.subtree_order(root)).len() > 0 {
                Some(self.select(*sel, self.subtree_order(root))[0])
            } else {
                None
            }),
    {
        let all = self.find_all(root, sel);
        if all.len() > 0 {
            Some(all[0])
        } else {
            None
        }
    }
}

impl NodeSelector {
    /// The first node of the snapshot, in capture order, that satisfies the
    /// selector.
    pub fn find(&self, shot: &Nodeshot) -> (r: Option<usize>)
        ensures
            r == (if shot.select(*self, shot.capture_order()).len() > 0 {
                Some(shot.select(*self, shot.capture_order())[0])
            } else {
                None
            }),
    {
        shot.find_selector(self)
    }

    /// Every node of the snapshot that satisfies the selector, in capture order.
    pub fn find_all(&self, shot: &Nodeshot) -> (r: Vec<usize>)
        ensures
            r@ == shot.select(*self, shot.capture_order()),
    {
        shot.find_all_selector(self)
    }
}

proof fn lemma_select_prefix_single(shot: Nodeshot, sel: NodeSelector, k: int, m: int)
    requires
        0 <= k < shot.data@.len(),
        0 <= m <= shot.data@.len(),
        shot.data@.len() <= usize::MAX,
        sel.matches(shot.data@[k]),
        forall|i: int| 0 <= i < shot.data@.len() && i != k ==> !sel.matches(#[trigger] shot.data@[i]),
    ensures
        shot.select(sel, shot.capture_order().take(m)) == (if m > k {
            seq![k as usize]
        } else {
            Seq::<usize>::empty()
        }),
    decreases m,
{
    let order = shot.capture_order();
    if m > 0 {
        assert(order.take(m).drop_last() =~= order.take(m - 1));
        lemma_select_prefix_single(shot, sel, k, m - 1);
        assert(order.take(m).last() == (m - 1) as usize);
        assert(((m - 1) as usize) as int == m - 1);
        if m - 1 != k {
            assert(!sel.matches(shot.data@[m - 1]));
        }
        if m - 1 == k {
            assert(Seq::<usize>::empty().push(k as usize) =~= seq![k as usize]);
        }
    } else {
        assert(order.take(m) =~= Seq::<usize>::empty());
    }
}

/// When exactly one node of a snapshot satisfies a selector, both the
/// first-match and the all-matches search return that node alone.
pub proof fn lemma_single_match(shot: Nodeshot, sel: NodeSelector, k: int)
    requires
        0 <= k < shot.data@.len(),
        shot.data@.len() <= usize::MAX,
        sel.matches(shot.data@[k]),
        forall|i: int| 0 <= i < shot.data@.len() && i != k ==> !sel.matches(#[trigger] shot.data@[i]),
    ensures
        shot.select(sel, shot.capture_order()) == seq![k as usize],
{
    lemma_select_prefix_single(shot, sel, k, shot.data@.len() as int);
    assert(shot.capture_order().take(shot.data@.len() as int) =~= shot.capture_order());
}

/// Searching a snapshot twice with the same selector gives the same nodes in
/// the same order: the result depends on the snapshot and the selector alone.
pub proof fn lemma_selector_idempotent(shot: Nodeshot, sel: NodeSelector, r1: Seq<usize>, r2: Seq<usize>)
    requires
        r1 == shot.select(sel, shot.capture_order()),
        r2 == shot.select(sel, shot.capture_order()),
    ensures
        r1 == r2,
{
}


impl Nodeshot {
    /// `dep` gives every node its distance from the root along parent
    /// links, each below the number of nodes: the parent links have no
    /// cycle and lead every node to node 0.
    pub open spec fn depths_ok(d: Seq<Node>, dep: Seq<nat>) -> bool {
        &&& dep.len() == d.len()
        &&& dep[0] == 0
        &&& forall|i: int| 1 <= i < d.len() ==> #[trigger] dep[i] == dep[d[i].parent_idx as int] + 1
        &&& forall|i: int| 0 <= i < d.len() ==> #[trigger] dep[i] < d.len()
    }

    /// The index data form a tree rooted at node 0: parent links lead every
    /// node to the root without a cycle, each child names its parent, every
    /// non-root node is listed by its parent, and no list repeats a child.
    pub open spec fn is_tree(&self) -> bool {
        let d = self.data@;
        &&& Self::indices_valid(d)
        &&& exists|dep: Seq<nat>| Self::depths_ok(d, dep)
        &&& forall|p: int, k: int|
            0 <= p < d.len() && 0 <= k < d[p].children_idx@.len() ==> 1 <= (#[trigger] d[p].children_idx@[k])
                && d[d[p].children_idx@[k] as int].parent_idx == p
        &&& forall|i: int|
            1 <= i < d.len() ==> d[(#[trigger] d[i]).parent_idx as int].children_idx@.contains(i as usize)
        &&& forall|p: int| 0 <= p < d.len() ==> (#[trigger] d[p]).children_idx@.no_duplicates()
    }

    /// The `k`-th level of the breadth-first walk from the root.
    pub open spec fn level(&self, k: nat) -> Seq<usize>
        decreases k,
    {
        if k == 0 {
            seq![0usize]
        } else {
            self.next_level(self.level((k - 1) as nat))
        }
    }

    proof fn lemma_next_level_contains(&self, l: Seq<usize>, c: usize)
        requires
            self.is_tree(),
            forall|q: int| 0 <= q < l.len() ==> (#[trigger] l[q]) < self.data@.len(),
        ensures
            self.next_level(l).contains(c) <==> (1 <= c < self.data@.len() && l.contains(
                self.data@[c as int].parent_idx,
            )),
        decreases l.len(),
    {
        let d = self.data@;
        if l.len() > 0 {
            let init = l.drop_last();
            let p = l.last();
            self.lemma_next_level_contains(init, c);
            let ch = d[p as int].children_idx@;
            assert(self.next_level(l) == self.next_level(init) + ch);
            if ch.contains(c) {
                let k = choose|k: int| 0 <= k < ch.len() && ch[k] == c;
                assert(1 <= ch[k] && d[ch[k] as int].parent_idx == p);
                assert(l[l.len() - 1] == p);
            }
            if 1 <= c < d.len() && d[c as int].parent_idx == p {
                assert(d[d[c as int].parent_idx as int].children_idx@.contains(c));
            }
            if self.next_level(l).contains(c) {
                let k = choose|k: int| 0 <= k < self.next_level(l).len() && self.next_level(l)[k] == c;
                if k < self.next_level(init).len() {
                    assert(self.next_level(init)[k] == c);
                    assert(self.next_level(init).contains(c));
                    let j = choose|j: int| 0 <= j < init.len() && init[j] == d[c as int].parent_idx;
                    assert(l[j] == init[j]);
                } else {
                    assert(ch[k - self.next_level(init).len()] == c);
                    assert(ch.contains(c));
                }
            }
            if 1 <= c < d.len() && l.contains(d[c as int].parent_idx) {
                let j = choose|j: int| 0 <= j < l.len() && l[j] == d[c as int].parent_idx;
                if j < l.len() - 1 {
                    assert(init[j] == l[j]);
                    assert(init.contains(d[c as int].parent_idx));
                    let k = choose|k: int| 0 <= k < self.next_level(init).len() && self.next_level(init)[k] == c;
                    assert(self.next_level(l)[k] == c);
                } else {
                    let k = choose|k: int| 0 <= k < ch.len() && ch[k] == c;
                    assert(self.next_level(l)[self.next_level(init).len() + k] == c);
                }
            }
        }
    }

    proof fn lemma_next_level_distinct(&self, l: Seq<usize>)
        requires
            self.is_tree(),
            forall|q: int| 0 <= q < l.len() ==> (#[trigger] l[q]) < self.data@.len(),
            l.no_duplicates(),
        ensures
            self.next_level(l).no_duplicates(),
            forall|q: int|
                0 <= q < self.next_level(l).len() ==> (#[trigger] self.next_level(l)[q]) < self.data@.len(),
        decreases l.len(),
    {
        let d = self.data@;
        if l.len() > 0 {
            let init = l.drop_last();
            let p = l.last();
            assert forall|q: int| 0 <= q < init.len() implies (#[trigger] init[q]) < d.len() by {
                assert(init[q] == l[q]);
            }
            assert(init.no_duplicates()) by {
                assert forall|a: int, b: int| 0 <= a < init.len() && 0 <= b < init.len() && a != b implies init[a] != init[b] by {
                    assert(init[a] == l[a] && init[b] == l[b]);
                }
            }
            self.lemma_next_level_distinct(init);
            let a = self.next_level(init);
            let ch = d[p as int].children_idx@;
            let all = self.next_level(l);
            assert(all == a + ch);
            assert(ch.no_duplicates());
            assert forall|x: int, y: int| 0 <= x < all.len() && 0 <= y < all.len() && x != y implies all[x] != all[y] by {
                if x < a.len() && y >= a.len() || y < a.len() && x >= a.len() {
                    let (u, v) = if x < a.len() { (x, y) } else { (y, x) };
                    let c = all[u];
                    assert(a[u] == c);
                    assert(a.contains(c));
                    self.lemma_next_level_contains(init, c);
                    if all[v] == c {
                        assert(ch[v - a.len()] == c);
                        assert(d[c as int].parent_idx == p);
                        let j = choose|j: int| 0 <= j < init.len() && init[j] == d[c as int].parent_idx;
                        assert(l[j] == p && l[l.len() - 1] == p && j != l.len() - 1);
                    }
                } else if x < a.len() {
                    assert(all[x] == a[x] && all[y] == a[y]);
                } else {
                    assert(all[x] == ch[x - a.len()] && all[y] == ch[y - a.len()]);
                }
            }
            assert forall|q: int| 0 <= q < all.len() implies (#[trigger] all[q]) < d.len() by {
                if q < a.len() {
                    assert(all[q] == a[q]);
                } else {
                    assert(all[q] == ch[q - a.len()]);
                }
            }
        }
    }

    proof fn lemma_level(&self, k: nat, dep: Seq<nat>)
        requires
            self.is_tree(),
            Self::depths_ok(self.data@, dep),
        ensures
            self.level(k).no_duplicates(),
            forall|q: int| 0 <= q < self.level(k).len() ==> (#[trigger] self.level(k)[q]) < self.data@.len(),
            forall|c: usize| #[trigger] self.level(k).contains(c) <==> (c < self.data@.len() && dep[c as int] == k),
        decreases k,
    {
        let d = self.data@;
        if k == 0 {
            assert forall|c: usize| #[trigger] self.level(k).contains(c) <==> (c < d.len() && dep[c as int] == k) by {
                if c < d.len() && c > 0 {
                    assert(dep[c as int] == dep[d[c as int].parent_idx as int] + 1);
                }
                if self.level(k).contains(c) {
                    let j = choose|j: int| 0 <= j < self.level(k).len() && self.level(k)[j] == c;
                    assert(c == 0);
                }
                if c == 0 {
                    assert(self.level(k)[0] == c);
                }
            }
        } else {
            let prev = self.level((k - 1) as nat);
            self.lemma_level((k - 1) as nat, dep);
            self.lemma_next_level_distinct(prev);
            assert forall|c: usize| #[trigger] self.level(k).contains(c) <==> (c < d.len() && dep[c as int] == k) by {
                self.lemma_next_level_contains(prev, c);
                if 1 <= c < d.len() {
                    assert(dep[c as int] == dep[d[c as int].parent_idx as int] + 1);
                    assert(prev.contains(d[c as int].parent_idx) <==> dep[d[c as int].parent_idx as int] == k - 1);
                }
            }
        }
    }

    proof fn lemma_empty_level_stays_empty(&self, k: nat, m: nat)
        requires
            self.level(k).len() == 0,
            k <= m,
        ensures
            self.level(m).len() == 0,
        decreases m,
    {
        if k < m {
            self.lemma_empty_level_stays_empty(k, (m - 1) as nat);
            assert(self.next_level(self.level((m - 1) as nat)) =~= seq![]);
        }
    }

    proof fn lemma_walk(&self, k: nat, d: nat, dep: Seq<nat>)
        requires
            self.is_tree(),
            Self::depths_ok(self.data@, dep),
        ensures
            self.breadth_first(self.level(k), d).no_duplicates(),
            forall|c: usize|
                #[trigger] self.breadth_first(self.level(k), d).contains(c) <==> (c < self.data@.len() && k
                    <= dep[c as int] < k + d),
        decreases d,
    {
        let l = self.level(k);
        let walk = self.breadth_first(l, d);
        self.lemma_level(k, dep);
        if d == 0 || l.len() == 0 {
            assert(walk =~= seq![]);
            assert forall|c: usize| #[trigger] walk.contains(c) <==> (c < self.data@.len() && k <= dep[c as int] < k + d) by {
                if c < self.data@.len() && k <= dep[c as int] < k + d {
                    let m = dep[c as int];
                    self.lemma_level(m, dep);
                    self.lemma_empty_level_stays_empty(k, m);
                    assert(self.level(m).contains(c));
                }
            }
        } else {
            self.lemma_walk(k + 1, (d - 1) as nat, dep);
            let rest = self.breadth_first(self.level(k + 1), (d - 1) as nat);
            assert(self.level(k + 1) == self.next_level(l));
            assert(walk == l + rest);
            assert forall|c: usize| #[trigger] walk.contains(c) <==> (l.contains(c) || rest.contains(c)) by {
                if walk.contains(c) {
                    let j = choose|j: int| 0 <= j < walk.len() && walk[j] == c;
                    if j < l.len() {
                        assert(l[j] == c);
                    } else {
                        assert(rest[j - l.len()] == c);
                    }
                }
                if l.contains(c) {
                    let j = choose|j: int| 0 <= j < l.len() && l[j] == c;
                    assert(walk[j] == c);
                }
                if rest.contains(c) {
                    let j = choose|j: int| 0 <= j < rest.len() && rest[j] == c;
                    assert(walk[l.len() + j] == c);
                }
            }
            assert forall|x: int, y: int| 0 <= x < walk.len() && 0 <= y < walk.len() && x != y implies walk[x] != walk[y] by {
                if x < l.len() && y < l.len() {
                } else if x >= l.len() && y >= l.len() {
                    assert(walk[x] == rest[x - l.len()] && walk[y] == rest[y - l.len()]);
                } else {
                    let (u, v) = if x < l.len() { (x, y) } else { (y, x) };
                    assert(walk[u] == l[u]);
                    assert(l.contains(l[u]));
                    assert(walk[v] == rest[v - l.len()]);
                    assert(rest.contains(rest[v - l.len()]));
                }
            }
        }
    }
}

/// On tree-shaped index data, every non-root node is listed exactly once
/// among its parent's children, and the breadth-first walk from the root
/// starts at the root and visits every node exactly once, so a search from
/// the root with the selector that holds of every node returns them all.
pub proof fn lemma_tree_links(shot: Nodeshot)
    requires
        shot.is_tree(),
    ensures
        forall|i: int|
            1 <= i < shot.data@.len() ==> occurrences(
                shot.data@[(#[trigger] shot.data@[i]).parent_idx as int].children_idx@,
                i as usize,
            ) == 1,
        shot.subtree_order(0).no_duplicates(),
        forall|i: int| 0 <= i < shot.data@.len() ==> #[trigger] shot.subtree_order(0).contains(i as usize),
        forall|q: int|
            0 <= q < shot.subtree_order(0).len() ==> (#[trigger] shot.subtree_order(0)[q]) < shot.data@.len(),
        shot.subtree_order(0)[0] == 0,
        shot.select(NodeSelector::Any, shot.subtree_order(0)) == shot.subtree_order(0),
{
    let d = shot.data@;
    assert forall|i: int| 1 <= i < d.len() implies occurrences(
        d[(#[trigger] d[i]).parent_idx as int].children_idx@,
        i as usize,
    ) == 1 by {
        let ch = d[d[i].parent_idx as int].children_idx@;
        lemma_occurs_once(ch, i as usize);
    }
    let dep = choose|dep: Seq<nat>| Nodeshot::depths_ok(d, dep);
    assert(shot.level(0) =~= seq![0usize]);
    shot.lemma_walk(0, d.len(), dep);
    assert forall|i: int| 0 <= i < d.len() implies #[trigger] shot.subtree_order(0).contains(i as usize) by {
        assert(dep[i] < d.len());
    }
    assert forall|q: int| 0 <= q < shot.subtree_order(0).len() implies (#[trigger] shot.subtree_order(0)[q]) < d.len() by {
        assert(shot.subtree_order(0).contains(shot.subtree_order(0)[q]));
    }
    assert(shot.subtree_order(0) == seq![0usize] + shot.breadth_first(shot.next_level(seq![0usize]), (d.len() - 1) as nat));
    lemma_select_any(shot, shot.subtree_order(0));
}

/// The selector that holds of every node keeps every index, in order.
proof fn lemma_select_any(shot: Nodeshot, idx: Seq<usize>)
    ensures
        shot.select(NodeSelector::Any, idx) == idx,
    decreases idx.len(),
{
    if idx.len() > 0 {
        lemma_select_any(shot, idx.drop_last());
        assert(idx.drop_last().push(idx.last()) =~= idx);
    }
}

/// How many times `x` occurs in `s`.
pub open spec fn occurrences(s: Seq<usize>, x: usize) -> nat
    decreases s.len(),
{
    if s.len() == 0 {
        0
    } else {
        occurrences(s.drop_last(), x) + if s.last() == x {
            1nat
        } else {
            0nat
        }
    }
}

/// A sequence without repeats that holds `x` holds it exactly once.
proof fn lemma_occurs_once(s: Seq<usize>, x: usize)
    requires
        s.no_duplicates(),
        s.contains(x),
    ensures
        occurrences(s, x) == 1,
    decreases s.len(),
{
    let init = s.drop_last();
    assert(init.no_duplicates()) by {
        assert forall|a: int, b: int| 0 <= a < init.len() && 0 <= b < init.len() && a != b implies init[a] != init[b] by {
            assert(init[a] == s[a] && init[b] == s[b]);
        }
    }
    if s.last() == x {
        assert(!init.contains(x)) by {
            if init.contains(x) {
                let j = choose|j: int| 0 <= j < init.len() && init[j] == x;
                assert(s[j] == x && s[s.len() - 1] == x);
            }
        }
        lemma_occurs_never(init, x);
    } else {
        let j = choose|j: int| 0 <= j < s.len() && s[j] == x;
        assert(init[j] == x);
        lemma_occurs_once(init, x);
    }
}

proof fn lemma_occurs_never(s: Seq<usize>, x: usize)
    requires
        !s.contains(x),
    ensures
        occurrences(s, x) == 0,
    decreases s.len(),
{
    if s.len() > 0 {
        let init = s.drop_last();
        assert(!init.contains(x)) by {
            if init.contains(x) {
                let j = choose|j: int| 0 <= j < init.len() && init[j] == x;
                assert(s[j] == x);
            }
        }
        assert(s[s.len() - 1] != x);
        lemma_occurs_never(init, x);
    }
}

} // verus!
