use vstd::prelude::*;

verus! {

/// Ratios are fixed-point fractions with this denominator: `5_000` is one half.
pub const RATIO_SCALE: u32 = 10_000;

/// Ratio given to both halves of a freshly split pane.
pub const HALF_RATIO: u32 = 5_000;

/// Smallest ratio a divider can be dragged to.
pub const MIN_RATIO: u32 = 1_000;

/// Largest ratio a divider can be dragged to.
pub const MAX_RATIO: u32 = 9_000;

/// Axis along which a region is divided.
#[derive(Clone, Copy, Debug, PartialEq, Eq, Structural)]
pub enum Split {
    /// Side by side: the first child on the left, the second on the right.
    Vertical,
    /// Stacked: the first child on top, the second below.
    Horizontal,
}

/// Pixel rectangle given to one pane.
#[derive(Clone, Copy, Debug, PartialEq, Eq, Structural)]
pub struct PaneLayout {
    pub pane_id: usize,
    pub x: u32,
    pub y: u32,
    pub width: u32,
    pub height: u32,
}

/// A draggable line between the two children of one split node.
pub struct DividerInfo {
    pub split: Split,
    /// Pixel position of the line: an x for a vertical split, a y for a horizontal one.
    pub position: u32,
    /// Start of the divided extent along the split axis.
    pub origin: u32,
    /// Length of the divided extent along the split axis.
    pub span: u32,
    /// Start of the line across the split axis, for hit-testing.
    pub perp_start: u32,
    /// End of the line across the split axis, for hit-testing.
    pub perp_end: u32,
    /// Turns from the root to the split node: `false` is the first child, `true` the second.
    pub path: Vec<bool>,
}

/// Value of a [`DividerInfo`], with its path as a sequence.
pub struct DividerView {
    pub split: Split,
    pub position: u32,
    pub origin: u32,
    pub span: u32,
    pub perp_start: u32,
    pub perp_end: u32,
    pub path: Seq<bool>,
}

impl View for DividerInfo {
    type V = DividerView;

    open spec fn view(&self) -> DividerView {
        DividerView {
            split: self.split,
            position: self.position,
            origin: self.origin,
            span: self.span,
            perp_start: self.perp_start,
            perp_end: self.perp_end,
            path: self.path@,
        }
    }
}

/// A node of the split tree: one pane, or a region divided between two subtrees.
pub enum Node {
    Leaf { pane_id: usize },
    Split { split: Split, ratio: u32, left: Box<Node>, right: Box<Node> },
}

/// Length of the first child's share of `len` pixels: `len * ratio / RATIO_SCALE`, rounded down.
pub open spec fn first_share(len: u32, ratio: u32) -> u32 {
    (len as int * ratio as int / RATIO_SCALE as int) as u32
}

/// Outcome of removing a leaf from a subtree.
enum RemoveResult {
    /// The subtree was that leaf alone and is gone.
    Removed,
    /// The leaf was found; here is the subtree without it.
    Replaced(Node),
    /// The leaf was not found; here is the subtree unchanged.
    NotFound(Node),
}

/// The views of a sequence of dividers.
pub open spec fn divider_views(s: Seq<DividerInfo>) -> Seq<DividerView> {
    s.map_values(|d: DividerInfo| d@)
}

/// A concatenation without repeats has parts without repeats that share nothing.
pub proof fn lemma_concat_no_dup(a: Seq<usize>, b: Seq<usize>)
    requires
        (a + b).no_duplicates(),
    ensures
        a.no_duplicates(),
        b.no_duplicates(),
        forall|v: usize| a.contains(v) ==> !b.contains(v),
{
    assert forall|i: int, j: int| 0 <= i < a.len() && 0 <= j < a.len() && i != j implies a[i] != a[j] by {
        assert((a + b)[i] == a[i] && (a + b)[j] == a[j]);
    }
    assert forall|i: int, j: int| 0 <= i < b.len() && 0 <= j < b.len() && i != j implies b[i] != b[j] by {
        assert((a + b)[a.len() + i] == b[i] && (a + b)[a.len() + j] == b[j]);
    }
    assert forall|v: usize| a.contains(v) implies !b.contains(v) by {
        let i = choose|i: int| 0 <= i < a.len() && a[i] == v;
        if b.contains(v) {
            let j = choose|j: int| 0 <= j < b.len() && b[j] == v;
            assert((a + b)[i] == v && (a + b)[a.len() + j] == v);
        }
    }
}

/// Inserting an element that is not there keeps a sequence free of repeats.
pub proof fn lemma_insert_fresh_no_dup(s: Seq<usize>, i: int, v: usize)
    requires
        s.no_duplicates(),
        !s.contains(v),
        0 <= i <= s.len(),
    ensures
        s.insert(i, v).no_duplicates(),
{
    let t = s.insert(i, v);
    assert forall|p: int, q: int| 0 <= p < t.len() && 0 <= q < t.len() && p != q implies t[p] != t[q] by {
        if p != i && q != i {
            let sp = if p < i { p } else { p - 1 };
            let sq = if q < i { q } else { q - 1 };
            assert(t[p] == s[sp] && t[q] == s[sq]);
        } else if p == i {
            let sq = if q < i { q } else { q - 1 };
            assert(t[q] == s[sq]);
        } else {
            let sp = if p < i { p } else { p - 1 };
            assert(t[p] == s[sp]);
        }
    }
}

/// Removing an element keeps a sequence free of repeats.
pub proof fn lemma_remove_no_dup(s: Seq<usize>, i: int)
    requires
        s.no_duplicates(),
        0 <= i < s.len(),
    ensures
        s.remove(i).no_duplicates(),
        !s.remove(i).contains(s[i]),
        forall|v: usize| s.contains(v) && v != s[i] ==> s.remove(i).contains(v),
{
    let t = s.remove(i);
    assert forall|p: int, q: int| 0 <= p < t.len() && 0 <= q < t.len() && p != q implies t[p] != t[q] by {
        let sp = if p < i { p } else { p + 1 };
        let sq = if q < i { q } else { q + 1 };
        assert(t[p] == s[sp] && t[q] == s[sq]);
    }
    assert forall|p: int| 0 <= p < t.len() implies t[p] != s[i] by {
        let sp = if p < i { p } else { p + 1 };
        assert(t[p] == s[sp]);
    }
    assert forall|v: usize| s.contains(v) && v != s[i] implies t.contains(v) by {
        let k = choose|k: int| 0 <= k < s.len() && s[k] == v;
        let tk = if k < i { k } else { k - 1 };
        assert(t[tk] == v);
    }
}

/// An element lies in a concatenation exactly when it lies in one of the parts.
pub proof fn lemma_concat_contains(a: Seq<usize>, b: Seq<usize>, v: usize)
    ensures
        (a + b).contains(v) <==> a.contains(v) || b.contains(v),
{
    if a.contains(v) {
        let i = choose|i: int| 0 <= i < a.len() && a[i] == v;
        assert((a + b)[i] == v);
    } else if b.contains(v) {
        let i = choose|i: int| 0 <= i < b.len() && b[i] == v;
        assert((a + b)[a.len() + i] == v);
    } else {
        assert forall|i: int| 0 <= i < (a + b).len() implies (a + b)[i] != v by {
            if i < a.len() {
                assert((a + b)[i] == a[i]);
            } else {
                assert((a + b)[i] == b[i - a.len()]);
            }
        }
    }
}

fn copy_path(p: &Vec<bool>) -> (r: Vec<bool>)
    ensures
        r@ == p@,
{
    let mut r: Vec<bool> = Vec::new();
    let mut i: usize = 0;
    while i < p.len()
        invariant
            i <= p@.len(),
            r@ == p@.take(i as int),
        decreases p@.len() - i,
    {
        r.push(p[i]);
        i += 1;
        assert(r@ =~= p@.take(i as int));
    }
    assert(p@.take(p@.len() as int) =~= p@);
    r
}

fn share_of(len: u32, ratio: u32) -> (r: u32)
    requires
        ratio <= RATIO_SCALE,
    ensures
        r == first_share(len, ratio),
        r <= len,
{
    proof {
        assert(len as int * ratio as int <= len as int * RATIO_SCALE as int) by (nonlinear_arith)
            requires ratio <= RATIO_SCALE;
    }
    let p: u64 = len as u64 * ratio as u64;
    proof {
        assert(p as int / RATIO_SCALE as int <= len as int) by (nonlinear_arith)
            requires p as int <= len as int * RATIO_SCALE as int;
    }
    (p / (RATIO_SCALE as u64)) as u32
}

impl Node {
    /// Pane ids of the leaves, left to right.
    pub open spec fn leaves(self) -> Seq<usize>
        decreases self,
    {
        match self {
            Node::Leaf { pane_id } => seq![pane_id],
            Node::Split { left, right, .. } => left.leaves() + right.leaves(),
        }
    }

    /// Every ratio lies within the draggable range.
    pub open spec fn ratios_ok(self) -> bool
        decreases self,
    {
        match self {
            Node::Leaf { .. } => true,
            Node::Split { ratio, left, right, .. } => MIN_RATIO <= ratio <= MAX_RATIO
                && left.ratios_ok() && right.ratios_ok(),
        }
    }

    /// Ratios in range and no pane id used twice.
    pub open spec fn wf(self) -> bool {
        self.ratios_ok() && self.leaves().no_duplicates()
    }

    /// Rectangles of the leaves, left to right, when this subtree fills the given rectangle.
    pub open spec fn layouts(self, x: u32, y: u32, w: u32, h: u32) -> Seq<PaneLayout>
        decreases self,
    {
        match self {
            Node::Leaf { pane_id } => seq![PaneLayout { pane_id, x, y, width: w, height: h }],
            Node::Split { split, ratio, left, right } => match split {
                Split::Vertical => {
                    let lw = first_share(w, ratio);
                    left.layouts(x, y, lw, h) + right.layouts((x + lw) as u32, y, (w - lw) as u32, h)
                },
                Split::Horizontal => {
                    let th = first_share(h, ratio);
                    left.layouts(x, y, w, th) + right.layouts(x, (y + th) as u32, w, (h - th) as u32)
                },
            },
        }
    }

    /// The tree with leaf `target` turned into a split holding it and a new leaf `new_id`.
    pub open spec fn split_leaf(self, target: usize, split: Split, new_id: usize) -> Node
        decreases self,
    {
        match self {
            Node::Leaf { pane_id } => if pane_id == target {
                Node::Split {
                    split,
                    ratio: HALF_RATIO,
                    left: Box::new(Node::Leaf { pane_id }),
                    right: Box::new(Node::Leaf { pane_id: new_id }),
                }
            } else {
                self
            },
            Node::Split { split: s, ratio, left, right } => if left.leaves().contains(target) {
                Node::Split { split: s, ratio, left: Box::new(left.split_leaf(target, split, new_id)), right }
            } else {
                Node::Split { split: s, ratio, left, right: Box::new(right.split_leaf(target, split, new_id)) }
            },
        }
    }

    /// A tree always has at least one leaf.
    pub proof fn lemma_leaves_nonempty(self)
        ensures
            self.leaves().len() >= 1,
        decreases self,
    {
        if let Node::Split { left, .. } = self {
            left.lemma_leaves_nonempty();
        }
    }

    /// Splitting leaf `i` puts the new id right after it in leaf order, and keeps the ratios
    /// in range.
    pub proof fn lemma_split_leaves(self, i: int, split: Split, new_id: usize)
        requires
            self.leaves().no_duplicates(),
            0 <= i < self.leaves().len(),
        ensures
            self.split_leaf(self.leaves()[i], split, new_id).leaves() == self.leaves().insert(i + 1, new_id),
            self.ratios_ok() ==> self.split_leaf(self.leaves()[i], split, new_id).ratios_ok(),
        decreases self,
    {
        let t = self.leaves()[i];
        match self {
            Node::Leaf { pane_id } => {
                assert(self.leaves()[0] == pane_id);
                let a = Node::Leaf { pane_id };
                let b = Node::Leaf { pane_id: new_id };
                assert(a.leaves() == seq![pane_id] && b.leaves() == seq![new_id]);
                assert(a.ratios_ok() && b.ratios_ok());
                assert(self.leaves().insert(1, new_id) =~= seq![pane_id] + seq![new_id]);
            },
            Node::Split { left, right, .. } => {
                let (l, r) = (left.leaves(), right.leaves());
                lemma_concat_no_dup(l, r);
                if i < l.len() {
                    assert(l[i] == t);
                    assert(l.contains(t));
                    left.lemma_split_leaves(i, split, new_id);
                    assert(l.insert(i + 1, new_id) + r =~= (l + r).insert(i + 1, new_id));
                } else {
                    let j = i - l.len();
                    assert(r[j] == t);
                    assert(r.contains(t));
                    assert(!l.contains(t));
                    right.lemma_split_leaves(j, split, new_id);
                    assert(l + r.insert(j + 1, new_id) =~= (l + r).insert(i + 1, new_id));
                }
            },
        }
    }

    /// Removing leaf `i` drops it from leaf order and keeps the ratios in range; only a lone
    /// leaf disappears entirely.
    pub proof fn lemma_without_leaves(self, i: int)
        requires
            self.leaves().no_duplicates(),
            0 <= i < self.leaves().len(),
        ensures
            match self.without(self.leaves()[i]) {
                None => self.leaves().len() == 1,
                Some(n) => n.leaves() == self.leaves().remove(i) && (self.ratios_ok() ==> n.ratios_ok()),
            },
        decreases self,
    {
        let t = self.leaves()[i];
        match self {
            Node::Leaf { pane_id } => {},
            Node::Split { left, right, .. } => {
                let (l, r) = (left.leaves(), right.leaves());
                lemma_concat_no_dup(l, r);
                left.lemma_leaves_nonempty();
                right.lemma_leaves_nonempty();
                if i < l.len() {
                    assert(l[i] == t);
                    assert(l.contains(t));
                    left.lemma_without_leaves(i);
                    match left.without(t) {
                        None => {
                            assert(r =~= (l + r).remove(i));
                        },
                        Some(nl) => {
                            assert(l.remove(i) + r =~= (l + r).remove(i));
                        },
                    }
                } else {
                    let j = i - l.len();
                    assert(r[j] == t);
                    assert(r.contains(t));
                    assert(!l.contains(t));
                    right.lemma_without_leaves(j);
                    match right.without(t) {
                        None => {
                            assert(l =~= (l + r).remove(i));
                        },
                        Some(nr) => {
                            assert(l + r.remove(j) =~= (l + r).remove(i));
                        },
                    }
                }
            },
        }
    }

    /// Setting a ratio keeps the leaves, and keeps the ratios in range when the new one is.
    pub proof fn lemma_with_ratio(self, path: Seq<bool>, r: u32)
        ensures
            self.with_ratio(path, r).leaves() == self.leaves(),
            self.ratios_ok() && MIN_RATIO <= r <= MAX_RATIO ==> self.with_ratio(path, r).ratios_ok(),
        decreases self,
    {
        if let Node::Split { left, right, .. } = self {
            if path.len() > 0 {
                left.lemma_with_ratio(path.drop_first(), r);
                right.lemma_with_ratio(path.drop_first(), r);
            }
        }
    }

    /// The rectangles come in leaf order, one per leaf.
    pub proof fn lemma_layout_ids(self, x: u32, y: u32, w: u32, h: u32)
        ensures
            self.layouts(x, y, w, h).len() == self.leaves().len(),
            forall|j: int| 0 <= j < self.leaves().len() ==> #[trigger] self.layouts(x, y, w, h)[j].pane_id == self.leaves()[j],
        decreases self,
    {
        if let Node::Split { split, ratio, left, right } = self {
            match split {
                Split::Vertical => {
                    let lw = first_share(w, ratio);
                    left.lemma_layout_ids(x, y, lw, h);
                    right.lemma_layout_ids((x + lw) as u32, y, (w - lw) as u32, h);
                },
                Split::Horizontal => {
                    let th = first_share(h, ratio);
                    left.lemma_layout_ids(x, y, w, th);
                    right.lemma_layout_ids(x, (y + th) as u32, w, (h - th) as u32);
                },
            }
            let ls = self.layouts(x, y, w, h);
            let ids = self.leaves();
            assert forall|j: int| 0 <= j < ids.len() implies #[trigger] ls[j].pane_id == ids[j] by {
                let nl = left.leaves().len() as int;
                match split {
                    Split::Vertical => {
                        let lw = first_share(w, ratio);
                        if j >= nl {
                            assert(ls[j] == right.layouts((x + lw) as u32, y, (w - lw) as u32, h)[j - nl]);
                        } else {
                            assert(ls[j] == left.layouts(x, y, lw, h)[j]);
                        }
                    },
                    Split::Horizontal => {
                        let th = first_share(h, ratio);
                        if j >= nl {
                            assert(ls[j] == right.layouts(x, (y + th) as u32, w, (h - th) as u32)[j - nl]);
                        } else {
                            assert(ls[j] == left.layouts(x, y, w, th)[j]);
                        }
                    },
                }
            }
        }
    }

    /// Splitting at an id that is not a leaf leaves the tree as it is.
    pub proof fn lemma_split_absent(self, target: usize, split: Split, new_id: usize)
        requires
            !self.leaves().contains(target),
        ensures
            self.split_leaf(target, split, new_id) == self,
        decreases self,
    {
        match self {
            Node::Leaf { pane_id } => {
                assert(self.leaves()[0] == pane_id);
            },
            Node::Split { left, right, .. } => {
                lemma_concat_contains(left.leaves(), right.leaves(), target);
                left.lemma_split_absent(target, split, new_id);
                right.lemma_split_absent(target, split, new_id);
            },
        }
    }

    /// The subtree with leaf `target` taken out: its parent split is replaced by its sibling.
    /// `None` when the subtree is that leaf alone.
    pub open spec fn without(self, target: usize) -> Option<Node>
        decreases self,
    {
        match self {
            Node::Leaf { pane_id } => if pane_id == target {
                None
            } else {
                Some(self)
            },
            Node::Split { split, ratio, left, right } => if left.leaves().contains(target) {
                match left.without(target) {
                    None => Some(*right),
                    Some(nl) => Some(Node::Split { split, ratio, left: Box::new(nl), right }),
                }
            } else if right.leaves().contains(target) {
                match right.without(target) {
                    None => Some(*left),
                    Some(nr) => Some(Node::Split { split, ratio, left, right: Box::new(nr) }),
                }
            } else {
                Some(self)
            },
        }
    }

    /// The tree with the ratio of the split node at `path` set to `r`; unchanged when `path`
    /// does not lead to a split node.
    pub open spec fn with_ratio(self, path: Seq<bool>, r: u32) -> Node
        decreases self,
    {
        match self {
            Node::Leaf { .. } => self,
            Node::Split { split, ratio, left, right } => if path.len() == 0 {
                Node::Split { split, ratio: r, left, right }
            } else if path[0] {
                Node::Split { split, ratio, left, right: Box::new(right.with_ratio(path.drop_first(), r)) }
            } else {
                Node::Split { split, ratio, left: Box::new(left.with_ratio(path.drop_first(), r)), right }
            },
        }
    }

    /// Dividers of the split nodes, parent before children and first child before second,
    /// when this subtree, reached by `path`, fills the given rectangle.
    pub open spec fn dividers(self, x: u32, y: u32, w: u32, h: u32, path: Seq<bool>) -> Seq<DividerView>
        decreases self,
    {
        match self {
            Node::Leaf { .. } => seq![],
            Node::Split { split, ratio, left, right } => match split {
                Split::Vertical => {
                    let lw = first_share(w, ratio);
                    seq![DividerView {
                        split: Split::Vertical,
                        position: (x + lw) as u32,
                        origin: x,
                        span: w,
                        perp_start: y,
                        perp_end: (y + h) as u32,
                        path,
                    }] + left.dividers(x, y, lw, h, path.push(false))
                        + right.dividers((x + lw) as u32, y, (w - lw) as u32, h, path.push(true))
                },
                Split::Horizontal => {
                    let th = first_share(h, ratio);
                    seq![DividerView {
                        split: Split::Horizontal,
                        position: (y + th) as u32,
                        origin: y,
                        span: h,
                        perp_start: x,
                        perp_end: (x + w) as u32,
                        path,
                    }] + left.dividers(x, y, w, th, path.push(false))
                        + right.dividers(x, (y + th) as u32, w, (h - th) as u32, path.push(true))
                },
            },
        }
    }

    /// The node reached from here by `path` (`false` the first child, `true` the second),
    /// if the path stays inside the tree.
    pub open spec fn subtree(self, path: Seq<bool>) -> Option<Node>
        decreases path.len(),
    {
        if path.len() == 0 {
            Some(self)
        } else {
            match self {
                Node::Leaf { .. } => None,
                Node::Split { left, right, .. } => if path[0] {
                    right.subtree(path.drop_first())
                } else {
                    left.subtree(path.drop_first())
                },
            }
        }
    }

    fn remove_pane(self, target_id: usize) -> (r: RemoveResult)
        ensures
            match r {
                RemoveResult::Removed => self.leaves().contains(target_id) && self.without(target_id) == None::<Node>,
                RemoveResult::Replaced(n) => self.leaves().contains(target_id) && self.without(target_id) == Some(n),
                RemoveResult::NotFound(n) => !self.leaves().contains(target_id) && n == self,
            },
        decreases self,
    {
        proof {
            if let Node::Leaf { pane_id } = &self {
                assert(self.leaves()[0] == pane_id);
                assert(self.leaves().contains(target_id) <==> pane_id == target_id);
            }
            if let Node::Split { left, right, .. } = &self {
                lemma_concat_contains(left.leaves(), right.leaves(), target_id);
            }
        }
        match self {
            Node::Leaf { pane_id } => {
                if pane_id == target_id {
                    RemoveResult::Removed
                } else {
                    RemoveResult::NotFound(Node::Leaf { pane_id })
                }
            },
            Node::Split { split, ratio, left, right } => {
                match (*left).remove_pane(target_id) {
                    RemoveResult::Removed => RemoveResult::Replaced(*right),
                    RemoveResult::Replaced(new_left) => RemoveResult::Replaced(
                        Node::Split { split, ratio, left: Box::new(new_left), right },
                    ),
                    RemoveResult::NotFound(left) => {
                        match (*right).remove_pane(target_id) {
                            RemoveResult::Removed => RemoveResult::Replaced(left),
                            RemoveResult::Replaced(new_right) => RemoveResult::Replaced(
                                Node::Split { split, ratio, left: Box::new(left), right: Box::new(new_right) },
                            ),
                            RemoveResult::NotFound(right) => RemoveResult::NotFound(
                                Node::Split { split, ratio, left: Box::new(left), right: Box::new(right) },
                            ),
                        }
                    },
                }
            },
        }
    }

    fn set_ratio_at(&mut self, path: &[bool], from: usize, ratio: u32)
        requires
            from <= path@.len(),
        ensures
            *final(self) == old(self).with_ratio(path@.subrange(from as int, path@.len() as int), ratio),
        decreases *old(self),
    {
        let ghost rest = path@.subrange(from as int, path@.len() as int);
        if let Node::Split { ratio: r, left, right, .. } = self {
            if from == path.len() {
                *r = ratio;
            } else {
                assert(path@.subrange(from + 1, path@.len() as int) =~= rest.drop_first());
                if path[from] {
                    right.set_ratio_at(path, from + 1, ratio);
                } else {
                    left.set_ratio_at(path, from + 1, ratio);
                }
            }
        }
    }

    fn collect_dividers(
        &self,
        x: u32,
        y: u32,
        w: u32,
        h: u32,
        path: &mut Vec<bool>,
        dividers: &mut Vec<DividerInfo>,
    )
        requires
            self.ratios_ok(),
            x + w <= u32::MAX,
            y + h <= u32::MAX,
        ensures
            final(path)@ == old(path)@,
            divider_views(final(dividers)@) == divider_views(old(dividers)@) + self.dividers(
                x,
                y,
                w,
                h,
                old(path)@,
            ),
        decreases self,
    {
        let ghost start_path = path@;
        let ghost d0 = dividers@;
        if let Node::Split { split, ratio, left, right } = self {
            let here = copy_path(path);
            match split {
                Split::Vertical => {
                    let left_w = share_of(w, *ratio);
                    dividers.push(DividerInfo {
                        split: Split::Vertical,
                        position: x + left_w,
                        origin: x,
                        span: w,
                        perp_start: y,
                        perp_end: y + h,
                        path: here,
                    });
                    let ghost d1 = dividers@;
                    assert(divider_views(d1) =~= divider_views(d0) + self.dividers(x, y, w, h, start_path).take(1));
                    path.push(false);
                    left.collect_dividers(x, y, left_w, h, path, dividers);
                    path.pop();
                    assert(path@ =~= start_path);
                    path.push(true);
                    right.collect_dividers(x + left_w, y, w - left_w, h, path, dividers);
                    path.pop();
                    assert(path@ =~= start_path);
                },
                Split::Horizontal => {
                    let top_h = share_of(h, *ratio);
                    dividers.push(DividerInfo {
                        split: Split::Horizontal,
                        position: y + top_h,
                        origin: y,
                        span: h,
                        perp_start: x,
                        perp_end: x + w,
                        path: here,
                    });
                    let ghost d1 = dividers@;
                    assert(divider_views(d1) =~= divider_views(d0) + self.dividers(x, y, w, h, start_path).take(1));
                    path.push(false);
                    left.collect_dividers(x, y, w, top_h, path, dividers);
                    path.pop();
                    assert(path@ =~= start_path);
                    path.push(true);
                    right.collect_dividers(x, y + top_h, w, h - top_h, path, dividers);
                    path.pop();
                    assert(path@ =~= start_path);
                },
            }
            assert(divider_views(dividers@) =~= divider_views(d0) + self.dividers(x, y, w, h, start_path));
        } else {
            assert(divider_views(dividers@) =~= divider_views(d0) + self.dividers(x, y, w, h, start_path));
        }
    }

    fn collect_pane_ids(&self, ids: &mut Vec<usize>)
        ensures
            final(ids)@ == old(ids)@ + self.leaves(),
        decreases self,
    {
        match self {
            Node::Leaf { pane_id } => {
                ids.push(*pane_id);
                assert(final(ids)@ =~= old(ids)@ + self.leaves());
            },
            Node::Split { left, right, .. } => {
                left.collect_pane_ids(ids);
                right.collect_pane_ids(ids);
                assert(final(ids)@ =~= old(ids)@ + self.leaves());
            },
        }
    }

    fn calculate_layouts(&self, x: u32, y: u32, w: u32, h: u32, layouts: &mut Vec<PaneLayout>)
        requires
            self.ratios_ok(),
            x + w <= u32::MAX,
            y + h <= u32::MAX,
        ensures
            final(layouts)@ == old(layouts)@ + self.layouts(x, y, w, h),
        decreases self,
    {
        match self {
            Node::Leaf { pane_id } => {
                layouts.push(PaneLayout { pane_id: *pane_id, x, y, width: w, height: h });
                assert(final(layouts)@ =~= old(layouts)@ + self.layouts(x, y, w, h));
            },
            Node::Split { split, ratio, left, right } => {
                match split {
                    Split::Vertical => {
                        let left_w = share_of(w, *ratio);
                        left.calculate_layouts(x, y, left_w, h, layouts);
                        right.calculate_layouts(x + left_w, y, w - left_w, h, layouts);
                    },
                    Split::Horizontal => {
                        let top_h = share_of(h, *ratio);
                        left.calculate_layouts(x, y, w, top_h, layouts);
                        right.calculate_layouts(x, y + top_h, w, h - top_h, layouts);
                    },
                }
                assert(final(layouts)@ =~= old(layouts)@ + self.layouts(x, y, w, h));
            },
        }
    }

    /// Splits the leaf `target_id`; returns whether it was found.
    fn split_pane(&mut self, target_id: usize, split: Split, new_id: usize) -> (found: bool)
        ensures
            found == old(self).leaves().contains(target_id),
            *final(self) == old(self).split_leaf(target_id, split, new_id),
        decreases *old(self),
    {
        let is_target = match &*self {
            Node::Leaf { pane_id } => *pane_id == target_id,
            Node::Split { .. } => false,
        };
        if let Node::Leaf { pane_id } = &*self {
            assert(self.leaves() =~= seq![*pane_id]);
            assert(self.leaves()[0] == *pane_id);
        }
        if is_target {
            let old_leaf = Node::Leaf { pane_id: target_id };
            let new_leaf = Node::Leaf { pane_id: new_id };
            *self = Node::Split {
                split,
                ratio: HALF_RATIO,
                left: Box::new(old_leaf),
                right: Box::new(new_leaf),
            };
            return true;
        }
        if let Node::Split { left, right, .. } = self {
            proof {
                lemma_concat_contains(left.leaves(), right.leaves(), target_id);
                if !left.leaves().contains(target_id) {
                    left.lemma_split_absent(target_id, split, new_id);
                }
            }
            if left.split_pane(target_id, split, new_id) {
                return true;
            }
            return right.split_pane(target_id, split, new_id);
        }
        false
    }
}

/// Finds `id` in a sequence without repeats.
fn position_of(ids: &Vec<usize>, id: usize) -> (r: usize)
    requires
        ids@.contains(id),
        ids@.no_duplicates(),
    ensures
        r < ids@.len(),
        ids@[r as int] == id,
        r == ids@.index_of(id),
{
    let mut i: usize = 0;
    while i < ids.len()
        invariant
            i <= ids@.len(),
            ids@.contains(id),
            ids@.no_duplicates(),
            forall|k: int| 0 <= k < i ==> ids@[k] != id,
        decreases ids@.len() - i,
    {
        if ids[i] == id {
            let ghost j = ids@.index_of(id);
            assert(0 <= j < ids@.len() && ids@[j] == id);
            assert(ids@[j] == ids@[i as int]);
            return i;
        }
        i += 1;
    }
    i
}

fn contains_id(ids: &Vec<usize>, id: usize) -> (r: bool)
    ensures
        r == ids@.contains(id),
{
    let mut i: usize = 0;
    while i < ids.len()
        invariant
            i <= ids@.len(),
            forall|k: int| 0 <= k < i ==> ids@[k] != id,
        decreases ids@.len() - i,
    {
        if ids[i] == id {
            assert(ids@[i as int] == id);
            return true;
        }
        i += 1;
    }
    false
}

/// `r` clamped to the draggable range.
pub open spec fn clamp_ratio(r: u32) -> u32 {
    if r < MIN_RATIO {
        MIN_RATIO
    } else if r > MAX_RATIO {
        MAX_RATIO
    } else {
        r
    }
}

/// Value of a [`PaneTree`].
pub struct PaneTreeView {
    pub root: Node,
    pub active: usize,
    pub zoomed: bool,
}

impl PaneTreeView {
    /// A tree of the single pane `pane_id`, active and not zoomed.
    pub open spec fn single(pane_id: usize) -> PaneTreeView {
        PaneTreeView { root: Node::Leaf { pane_id }, active: pane_id, zoomed: false }
    }

    /// Ratios in range, pane ids unique, and the active pane one of the leaves.
    pub open spec fn wf(self) -> bool {
        self.root.wf() && self.root.leaves().contains(self.active)
    }

    /// Pane ids, left to right.
    pub open spec fn ids(self) -> Seq<usize> {
        self.root.leaves()
    }

    /// Position of the active pane in leaf order.
    pub open spec fn active_index(self) -> int {
        self.ids().index_of(self.active)
    }

    /// Position of the active pane's rectangle among [`PaneTreeView::layouts`].
    pub open spec fn active_layout_index(self) -> int {
        if self.zoomed {
            0
        } else {
            self.active_index()
        }
    }

    /// Rectangles shown in a `w` by `h` viewport: the active pane alone when zoomed,
    /// else every pane, left to right.
    pub open spec fn layouts(self, w: u32, h: u32) -> Seq<PaneLayout> {
        if self.zoomed {
            seq![PaneLayout { pane_id: self.active, x: 0, y: 0, width: w, height: h }]
        } else {
            self.root.layouts(0, 0, w, h)
        }
    }

    /// The state after closing the active pane of a tree with two or more panes: the pane
    /// before it in leaf order becomes active, or the new first pane if it was first.
    pub open spec fn after_close(self) -> PaneTreeView {
        let ids = self.ids();
        let i = self.active_index();
        PaneTreeView {
            root: self.root.without(self.active).unwrap(),
            active: if i > 0 { ids[i - 1] } else { ids[1] },
            zoomed: false,
        }
    }

    /// The state after splitting the active pane: a new pane `new_id` after it, active,
    /// and zoom off.
    pub open spec fn after_split(self, split: Split, new_id: usize) -> PaneTreeView {
        PaneTreeView { root: self.root.split_leaf(self.active, split, new_id), active: new_id, zoomed: false }
    }

    /// The state after closing pane `id` of a tree with two or more panes. The active pane is
    /// closed as by [`PaneTreeView::after_close`]; another pane is taken out and the active pane
    /// kept.
    pub open spec fn after_close_of(self, id: usize) -> PaneTreeView {
        if id == self.active {
            self.after_close()
        } else {
            PaneTreeView { root: self.root.without(id).unwrap(), active: self.active, zoomed: false }
        }
    }

    /// The state after flipping the zoom flag.
    pub open spec fn after_toggle_zoom(self) -> PaneTreeView {
        PaneTreeView { root: self.root, active: self.active, zoomed: !self.zoomed }
    }

    /// The state after moving focus to the next pane in leaf order, wrapping around.
    pub open spec fn after_focus_next(self) -> PaneTreeView {
        let ids = self.ids();
        if ids.len() <= 1 {
            self
        } else {
            PaneTreeView {
                root: self.root,
                active: ids[(self.active_index() + 1) % (ids.len() as int)],
                zoomed: false,
            }
        }
    }

    /// The state after moving focus to the previous pane in leaf order, wrapping around.
    pub open spec fn after_focus_prev(self) -> PaneTreeView {
        let ids = self.ids();
        if ids.len() <= 1 {
            self
        } else {
            PaneTreeView {
                root: self.root,
                active: if self.active_index() == 0 {
                    ids[ids.len() - 1]
                } else {
                    ids[self.active_index() - 1]
                },
                zoomed: false,
            }
        }
    }
}

/// Binary split tree of the panes of one tab, with one active pane and a zoom flag.
pub struct PaneTree {
    root: Node,
    active: usize,
    zoomed: bool,
}

impl View for PaneTree {
    type V = PaneTreeView;

    closed spec fn view(&self) -> PaneTreeView {
        PaneTreeView { root: self.root, active: self.active, zoomed: self.zoomed }
    }
}

impl PaneTree {
    /// A tree of the single pane `pane_id`, active and not zoomed.
    pub fn new(pane_id: usize) -> (r: Self)
        ensures
            r@ == PaneTreeView::single(pane_id),
            r@.wf(),
    {
        let r = PaneTree { root: Node::Leaf { pane_id }, active: pane_id, zoomed: false };
        assert(r@.root.leaves()[0] == pane_id);
        r
    }

    pub fn pane_count(&self) -> (r: usize)
        ensures
            r == self@.ids().len(),
    {
        self.pane_ids().len()
    }

    pub fn active_pane_id(&self) -> (r: usize)
        ensures
            r == self@.active,
    {
        self.active
    }

    /// Makes `pane_id` active if it is a pane of this tree; otherwise does nothing.
    pub fn set_active(&mut self, pane_id: usize)
        ensures
            final(self)@ == if old(self)@.ids().contains(pane_id) {
                PaneTreeView { root: old(self)@.root, active: pane_id, zoomed: old(self)@.zoomed }
            } else {
                old(self)@
            },
            old(self)@.wf() ==> final(self)@.wf(),
    {
        let ids = self.pane_ids();
        if contains_id(&ids, pane_id) {
            self.active = pane_id;
        }
    }

    pub fn toggle_zoom(&mut self)
        ensures
            final(self)@ == old(self)@.after_toggle_zoom(),
    {
        self.zoomed = !self.zoomed;
    }

    /// Splits the active pane: it becomes the first child, a new pane `new_id` the second
    /// child and the active pane. Zoom is turned off.
    pub fn split_active(&mut self, split: Split, new_id: usize)
        requires
            old(self)@.wf(),
            !old(self)@.ids().contains(new_id),
        ensures
            final(self)@.wf(),
            final(self)@ == old(self)@.after_split(split, new_id),
            final(self)@.ids() == old(self)@.ids().insert(old(self)@.active_index() + 1, new_id),
    {
        proof {
            let ids = self@.ids();
            let i = self@.active_index();
            assert(ids[i] == self.active);
            self.root.lemma_split_leaves(i, split, new_id);
            lemma_insert_fresh_no_dup(ids, i + 1, new_id);
            assert(ids.insert(i + 1, new_id)[i + 1] == new_id);
        }
        self.root.split_pane(self.active, split, new_id);
        self.active = new_id;
        self.zoomed = false;
    }

    /// Closes the active pane. Returns `true`, changing nothing, when it is the last pane:
    /// the caller then closes the whole tab.
    pub fn close_active(&mut self) -> (last: bool)
        requires
            old(self)@.wf(),
        ensures
            final(self)@.wf(),
            last == (old(self)@.ids().len() <= 1),
            last ==> final(self)@ == old(self)@,
            !last ==> final(self)@ == old(self)@.after_close(),
            !last ==> final(self)@.ids() == old(self)@.ids().remove(old(self)@.active_index()),
    {
        if self.pane_count() <= 1 {
            return true;
        }
        let ids = self.pane_ids();
        let current_idx = position_of(&ids, self.active);
        let ghost v0 = self@;
        proof {
            self.root.lemma_without_leaves(current_idx as int);
            lemma_remove_no_dup(ids@, current_idx as int);
        }
        let mut old_root = Node::Leaf { pane_id: 0 };
        std::mem::swap(&mut self.root, &mut old_root);
        match old_root.remove_pane(self.active) {
            RemoveResult::Replaced(new_root) => {
                self.root = new_root;
            },
            RemoveResult::Removed => {
                return true;
            },
            RemoveResult::NotFound(root) => {
                self.root = root;
                return false;
            },
        }
        let new_ids = self.pane_ids();
        assert(new_ids@ == ids@.remove(current_idx as int));
        self.active = if current_idx > 0 && current_idx <= new_ids.len() {
            new_ids[current_idx - 1]
        } else {
            new_ids[0]
        };
        self.zoomed = false;
        proof {
            let k: int = if current_idx > 0 { current_idx - 1 } else { 0 };
            assert(new_ids@[k] == self.active);
        }
        false
    }

    /// Moves focus to the next pane in leaf order, wrapping around; turns zoom off when
    /// there is more than one pane.
    pub fn focus_next(&mut self)
        requires
            old(self)@.wf(),
        ensures
            final(self)@ == old(self)@.after_focus_next(),
            final(self)@.wf(),
    {
        let ids = self.pane_ids();
        if ids.len() <= 1 {
            return;
        }
        let idx = position_of(&ids, self.active);
        self.active = ids[(idx + 1) % ids.len()];
        self.zoomed = false;
        assert(ids@[(idx as int + 1) % (ids@.len() as int)] == self.active);
    }

    /// Moves focus to the previous pane in leaf order, wrapping around; turns zoom off when
    /// there is more than one pane.
    pub fn focus_prev(&mut self)
        requires
            old(self)@.wf(),
        ensures
            final(self)@ == old(self)@.after_focus_prev(),
            final(self)@.wf(),
    {
        let ids = self.pane_ids();
        if ids.len() <= 1 {
            return;
        }
        let idx = position_of(&ids, self.active);
        self.active = if idx == 0 { ids[ids.len() - 1] } else { ids[idx - 1] };
        self.zoomed = false;
        let ghost k: int = if idx == 0 { ids@.len() - 1 } else { idx - 1 };
        assert(ids@[k] == self.active);
    }

    /// Pane ids, left to right.
    pub fn pane_ids(&self) -> (r: Vec<usize>)
        ensures
            r@ == self@.ids(),
    {
        let mut ids = Vec::new();
        self.root.collect_pane_ids(&mut ids);
        assert(ids@ =~= self@.ids());
        ids
    }

    /// The dividers of a `width` by `height` viewport, one per split node.
    pub fn collect_dividers(&self, width: u32, height: u32) -> (r: Vec<DividerInfo>)
        requires
            self@.wf(),
        ensures
            divider_views(r@) == self@.root.dividers(0, 0, width, height, seq![]),
    {
        let mut dividers = Vec::new();
        let mut path = Vec::new();
        assert(divider_views(dividers@) =~= seq![]);
        self.root.collect_dividers(0, 0, width, height, &mut path, &mut dividers);
        assert(path@ =~= seq![]);
        assert(divider_views(dividers@) =~= self@.root.dividers(0, 0, width, height, seq![]));
        dividers
    }

    /// Sets the ratio of the split node at `path`, clamped to the draggable range; a path that
    /// leads to no split node changes nothing.
    pub fn set_ratio_at(&mut self, path: &[bool], ratio: u32)
        requires
            old(self)@.wf(),
        ensures
            final(self)@ == (PaneTreeView {
                root: old(self)@.root.with_ratio(path@, clamp_ratio(ratio)),
                active: old(self)@.active,
                zoomed: old(self)@.zoomed,
            }),
            final(self)@.wf(),
    {
        let r = if ratio < MIN_RATIO {
            MIN_RATIO
        } else if ratio > MAX_RATIO {
            MAX_RATIO
        } else {
            ratio
        };
        proof {
            self.root.lemma_with_ratio(path@, r);
            assert(path@.subrange(0, path@.len() as int) =~= path@);
        }
        self.root.set_ratio_at(path, 0, r);
    }

    /// Pane rectangles for a `width` by `height` viewport.
    pub fn calculate_layouts(&self, width: u32, height: u32) -> (r: Vec<PaneLayout>)
        requires
            self@.wf(),
        ensures
            r@ == self@.layouts(width, height),
    {
        if self.zoomed {
            let v = vec![PaneLayout { pane_id: self.active, x: 0, y: 0, width, height }];
            assert(v@ =~= self@.layouts(width, height));
            return v;
        }
        let mut layouts = Vec::new();
        self.root.calculate_layouts(0, 0, width, height, &mut layouts);
        assert(layouts@ =~= self@.layouts(width, height));
        layouts
    }
}

} // verus!
