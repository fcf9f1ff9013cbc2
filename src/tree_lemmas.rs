use vstd::prelude::*;
use vstd::arithmetic::div_mod::{lemma_add_mod_noop_right, lemma_mod_add_multiples_vanish, lemma_small_mod};
use crate::panes::{
    DividerView, lemma_concat_contains, lemma_concat_no_dup, first_share, Node, PaneLayout, PaneTreeView, Split,
    RATIO_SCALE,
};

verus! {

/// Sum of `width * height` over a sequence of rectangles.
pub open spec fn total_area(s: Seq<PaneLayout>) -> int
    decreases s.len(),
{
    if s.len() == 0 {
        0
    } else {
        total_area(s.drop_last()) + s.last().width as int * s.last().height as int
    }
}

/// Every ratio is at most one.
pub open spec fn ratios_fit(n: Node) -> bool
    decreases n,
{
    match n {
        Node::Leaf { .. } => true,
        Node::Split { ratio, left, right, .. } => ratio <= RATIO_SCALE && ratios_fit(*left) && ratios_fit(*right),
    }
}

proof fn lemma_ratios_fit(n: Node)
    requires
        n.ratios_ok(),
    ensures
        ratios_fit(n),
    decreases n,
{
    if let Node::Split { left, right, .. } = n {
        lemma_ratios_fit(*left);
        lemma_ratios_fit(*right);
    }
}

proof fn lemma_total_area_concat(a: Seq<PaneLayout>, b: Seq<PaneLayout>)
    ensures
        total_area(a + b) == total_area(a) + total_area(b),
    decreases b.len(),
{
    if b.len() > 0 {
        assert((a + b).drop_last() =~= a + b.drop_last());
        assert((a + b).last() == b.last());
        lemma_total_area_concat(a, b.drop_last());
    } else {
        assert(a + b =~= a);
    }
}

proof fn lemma_node_area(n: Node, x: u32, y: u32, w: u32, h: u32)
    requires
        ratios_fit(n),
    ensures
        total_area(n.layouts(x, y, w, h)) == w as int * h as int,
    decreases n,
{
    match n {
        Node::Leaf { pane_id } => {
            let s = n.layouts(x, y, w, h);
            assert(s.drop_last() =~= seq![]);
            assert(total_area(s.drop_last()) == 0);
            assert(s.last() == PaneLayout { pane_id, x, y, width: w, height: h });
        },
        Node::Split { split, ratio, left, right } => {
            match split {
                Split::Vertical => {
                    let lw = first_share(w, ratio);
                    assert(w as int * ratio as int / RATIO_SCALE as int <= w as int) by (nonlinear_arith)
                        requires ratio <= RATIO_SCALE;
                    assert(0 <= w as int * ratio as int / RATIO_SCALE as int) by (nonlinear_arith);
                    lemma_node_area(*left, x, y, lw, h);
                    lemma_node_area(*right, (x + lw) as u32, y, (w - lw) as u32, h);
                    lemma_total_area_concat(
                        left.layouts(x, y, lw, h),
                        right.layouts((x + lw) as u32, y, (w - lw) as u32, h),
                    );
                    assert(lw as int * h as int + (w - lw) as int * h as int == w as int * h as int)
                        by (nonlinear_arith);
                },
                Split::Horizontal => {
                    let th = first_share(h, ratio);
                    assert(h as int * ratio as int / RATIO_SCALE as int <= h as int) by (nonlinear_arith)
                        requires ratio <= RATIO_SCALE;
                    assert(0 <= h as int * ratio as int / RATIO_SCALE as int) by (nonlinear_arith);
                    lemma_node_area(*left, x, y, w, th);
                    lemma_node_area(*right, x, (y + th) as u32, w, (h - th) as u32);
                    lemma_total_area_concat(
                        left.layouts(x, y, w, th),
                        right.layouts(x, (y + th) as u32, w, (h - th) as u32),
                    );
                    assert(w as int * th as int + w as int * (h - th) as int == w as int * h as int)
                        by (nonlinear_arith);
                },
            }
        },
    }
}

/// The pane rectangles tile the viewport: their areas add up to the viewport's, zoomed or not.
pub proof fn lemma_layouts_tile(t: PaneTreeView, w: u32, h: u32)
    requires
        t.wf(),
    ensures
        total_area(t.layouts(w, h)) == w as int * h as int,
{
    if t.zoomed {
        let s = t.layouts(w, h);
        assert(s.drop_last() =~= seq![]);
        assert(total_area(s.drop_last()) == 0);
        assert(s.last() == PaneLayout { pane_id: t.active, x: 0, y: 0, width: w, height: h });
    } else {
        lemma_ratios_fit(t.root);
        lemma_node_area(t.root, 0, 0, w, h);
    }
}

/// Splitting the active pane adds exactly one pane; closing the active pane of a tree with
/// two or more panes removes exactly one.
pub proof fn lemma_pane_count_steps(t: PaneTreeView, split: Split, new_id: usize)
    requires
        t.wf(),
        !t.ids().contains(new_id),
    ensures
        t.root.split_leaf(t.active, split, new_id).leaves().len() == t.ids().len() + 1,
        t.ids().len() > 1 ==> t.after_close().ids().len() == t.ids().len() - 1,
{
    let i = t.active_index();
    assert(t.ids()[i] == t.active);
    t.root.lemma_split_leaves(i, split, new_id);
    t.root.lemma_without_leaves(i);
}

/// Zooming shows the active pane alone over the whole viewport, and zooming again brings
/// back the rectangles shown before.
pub proof fn lemma_zoom_round_trip(t: PaneTreeView, w: u32, h: u32)
    requires
        !t.zoomed,
    ensures
        t.after_toggle_zoom().layouts(w, h) == seq![
            PaneLayout { pane_id: t.active, x: 0, y: 0, width: w, height: h },
        ],
        t.after_toggle_zoom().after_toggle_zoom().layouts(w, h) == t.layouts(w, h),
        t.after_toggle_zoom().after_toggle_zoom() == t,
{
}

/// `t` after `k` moves of focus to the next pane.
pub open spec fn focus_next_times(t: PaneTreeView, k: nat) -> PaneTreeView
    decreases k,
{
    if k == 0 {
        t
    } else {
        focus_next_times(t, (k - 1) as nat).after_focus_next()
    }
}

proof fn lemma_index_of_unique(s: Seq<usize>, i: int)
    requires
        s.no_duplicates(),
        0 <= i < s.len(),
    ensures
        s.index_of(s[i]) == i,
{
    assert(s.contains(s[i]));
    let j = s.index_of(s[i]);
    assert(0 <= j < s.len() && s[j] == s[i]);
}

proof fn lemma_focus_next_steps(t: PaneTreeView, k: nat)
    requires
        t.wf(),
        t.ids().len() > 1,
    ensures
        focus_next_times(t, k).root == t.root,
        focus_next_times(t, k).wf(),
        focus_next_times(t, k).active_index() == (t.active_index() + k) % (t.ids().len() as int),
    decreases k,
{
    let n = t.ids().len() as int;
    let i = t.active_index();
    assert(t.ids()[i] == t.active);
    if k == 0 {
        lemma_small_mod(i as nat, n as nat);
    } else {
        lemma_focus_next_steps(t, (k - 1) as nat);
        let p = focus_next_times(t, (k - 1) as nat);
        let j = (i + k - 1) % n;
        assert(p.ids()[j] == p.active);
        lemma_add_mod_noop_right(1, i + k - 1, n);
        let q = (j + 1) % n;
        assert(0 <= q < n);
        lemma_index_of_unique(t.ids(), q);
        assert(p.ids().contains(t.ids()[q]));
    }
}

/// Moving focus to the next pane as many times as there are panes comes back to the pane
/// that was active; moving to the previous pane undoes a move to the next one, and the other
/// way round.
pub proof fn lemma_focus_cycles(t: PaneTreeView)
    requires
        t.wf(),
    ensures
        focus_next_times(t, t.ids().len()).active == t.active,
        focus_next_times(t, t.ids().len()).root == t.root,
        t.after_focus_next().after_focus_prev().active == t.active,
        t.after_focus_next().after_focus_prev().root == t.root,
        t.after_focus_prev().after_focus_next().active == t.active,
        t.after_focus_prev().after_focus_next().root == t.root,
{
    let ids = t.ids();
    let n = ids.len() as int;
    let i = t.active_index();
    assert(ids[i] == t.active);
    t.root.lemma_leaves_nonempty();
    if n == 1 {
        lemma_focus_one(t, n as nat);
    } else {
        lemma_focus_next_steps(t, n as nat);
        lemma_mod_add_multiples_vanish(i, n);
        assert((n + i) % n == (i + n) % n);
        lemma_small_mod(i as nat, n as nat);
        let f = focus_next_times(t, n as nat);
        assert(f.ids().contains(f.active));
        assert(f.ids()[f.active_index()] == f.active);
        let nx = t.after_focus_next();
        let q = (i + 1) % n;
        if i + 1 < n {
            lemma_small_mod((i + 1) as nat, n as nat);
        } else {
            assert(q == 0) by (nonlinear_arith) requires i + 1 == n, q == (i + 1) % n, n > 0;
        }
        lemma_index_of_unique(ids, q);
        assert(ids.contains(ids[q]));
        let pv = t.after_focus_prev();
        let r = if i == 0 { n - 1 } else { i - 1 };
        lemma_index_of_unique(ids, r);
        assert(ids.contains(ids[r]));
        if r + 1 < n {
            lemma_small_mod((r + 1) as nat, n as nat);
        } else {
            assert((r + 1) % n == 0) by (nonlinear_arith) requires r + 1 == n, n > 0;
        }
    }
}

proof fn lemma_focus_one(t: PaneTreeView, k: nat)
    requires
        t.ids().len() == 1,
    ensures
        focus_next_times(t, k) == t,
    decreases k,
{
    if k > 0 {
        lemma_focus_one(t, (k - 1) as nat);
    }
}

/// The leaves under the node at a path are leaves of the whole tree.
pub proof fn lemma_subtree_leaves(n: Node, path: Seq<bool>, m: Node, v: usize)
    requires
        n.subtree(path) == Some(m),
        m.leaves().contains(v),
    ensures
        n.leaves().contains(v),
    decreases path.len(),
{
    if path.len() > 0 {
        if let Node::Split { left, right, .. } = n {
            lemma_concat_contains(left.leaves(), right.leaves(), v);
            if path[0] {
                lemma_subtree_leaves(*right, path.drop_first(), m, v);
            } else {
                lemma_subtree_leaves(*left, path.drop_first(), m, v);
            }
        }
    }
}

/// Splitting a pane changes no path: the node that a path reached before is reached by the
/// same path after, with the split applied inside it, and unchanged when the pane lies
/// elsewhere.
pub proof fn lemma_split_keeps_paths(n: Node, path: Seq<bool>, m: Node, target: usize, split: Split, new_id: usize)
    requires
        n.leaves().no_duplicates(),
        n.subtree(path) == Some(m),
    ensures
        n.split_leaf(target, split, new_id).subtree(path) == Some(m.split_leaf(target, split, new_id)),
        !m.leaves().contains(target) ==> n.split_leaf(target, split, new_id).subtree(path) == Some(m),
    decreases path.len(),
{
    if !m.leaves().contains(target) {
        m.lemma_split_absent(target, split, new_id);
    }
    if path.len() > 0 {
        if let Node::Split { left, right, .. } = n {
            let (l, r) = (left.leaves(), right.leaves());
            lemma_concat_no_dup(l, r);
            let rest = path.drop_first();
            if path[0] {
                if l.contains(target) {
                    if m.leaves().contains(target) {
                        lemma_subtree_leaves(*right, rest, m, target);
                    }
                } else {
                    lemma_split_keeps_paths(*right, rest, m, target, split, new_id);
                }
            } else {
                if l.contains(target) {
                    lemma_split_keeps_paths(*left, rest, m, target, split, new_id);
                } else if m.leaves().contains(target) {
                    lemma_subtree_leaves(*left, rest, m, target);
                }
            }
        }
    }
}

/// Each divider found from a subtree reached by `prefix` carries `prefix` followed by the path,
/// inside that subtree, of a split node along the divider's axis.
pub proof fn lemma_divider_paths(n: Node, x: u32, y: u32, w: u32, h: u32, prefix: Seq<bool>, i: int)
    requires
        0 <= i < n.dividers(x, y, w, h, prefix).len(),
    ensures
        ({
            let d = n.dividers(x, y, w, h, prefix)[i];
            &&& prefix.len() <= d.path.len()
            &&& d.path.take(prefix.len() as int) == prefix
            &&& n.subtree(d.path.skip(prefix.len() as int)) is Some
            &&& n.subtree(d.path.skip(prefix.len() as int)).unwrap() is Split
            &&& n.subtree(d.path.skip(prefix.len() as int)).unwrap()->split == d.split
        }),
    decreases n,
{
    if let Node::Split { split, ratio, left, right } = n {
        let (ld, rd, lp, rp) = match split {
            Split::Vertical => {
                let lw = first_share(w, ratio);
                (
                    left.dividers(x, y, lw, h, prefix.push(false)),
                    right.dividers((x + lw) as u32, y, (w - lw) as u32, h, prefix.push(true)),
                    (x, y, lw, h),
                    ((x + lw) as u32, y, (w - lw) as u32, h),
                )
            },
            Split::Horizontal => {
                let th = first_share(h, ratio);
                (
                    left.dividers(x, y, w, th, prefix.push(false)),
                    right.dividers(x, (y + th) as u32, w, (h - th) as u32, prefix.push(true)),
                    (x, y, w, th),
                    (x, (y + th) as u32, w, (h - th) as u32),
                )
            },
        };
        let all = n.dividers(x, y, w, h, prefix);
        let d = all[i];
        if i == 0 {
            assert(d.path == prefix);
            assert(prefix.skip(prefix.len() as int) =~= Seq::<bool>::empty());
            assert(prefix.take(prefix.len() as int) =~= prefix);
        } else if i < 1 + ld.len() {
            assert(d == ld[i - 1]);
            lemma_divider_paths(*left, lp.0, lp.1, lp.2, lp.3, prefix.push(false), i - 1);
            let q = d.path.skip(prefix.len() as int);
            assert(d.path.take(prefix.len() as int + 1) == prefix.push(false));
            assert(d.path.take(prefix.len() as int) =~= prefix.push(false).take(prefix.len() as int));
            assert(prefix.push(false).take(prefix.len() as int) =~= prefix);
            assert(q[0] == d.path.take(prefix.len() as int + 1)[prefix.len() as int]);
            assert(q.drop_first() =~= d.path.skip(prefix.len() as int + 1));
        } else {
            assert(d == rd[i - 1 - ld.len()]);
            lemma_divider_paths(*right, rp.0, rp.1, rp.2, rp.3, prefix.push(true), i - 1 - ld.len());
            let q = d.path.skip(prefix.len() as int);
            assert(d.path.take(prefix.len() as int + 1) == prefix.push(true));
            assert(d.path.take(prefix.len() as int) =~= prefix.push(true).take(prefix.len() as int));
            assert(prefix.push(true).take(prefix.len() as int) =~= prefix);
            assert(q[0] == d.path.take(prefix.len() as int + 1)[prefix.len() as int]);
            assert(q.drop_first() =~= d.path.skip(prefix.len() as int + 1));
        }
    }
}

/// Splitting the active pane keeps every divider's path valid: the path of a divider listed
/// before the split reaches, after it, a split node of the same axis and ratio, and the very
/// same node when the split pane lies outside that node's subtree.
pub proof fn lemma_divider_path_stable(t: PaneTreeView, w: u32, h: u32, i: int, split: Split, new_id: usize)
    requires
        t.wf(),
        0 <= i < t.root.dividers(0, 0, w, h, seq![]).len(),
    ensures
        ({
            let d = t.root.dividers(0, 0, w, h, seq![])[i];
            let m = t.root.subtree(d.path).unwrap();
            let after = t.after_split(split, new_id).root.subtree(d.path);
            &&& m is Split
            &&& m->split == d.split
            &&& after is Some
            &&& after.unwrap() is Split
            &&& after.unwrap()->split == m->split
            &&& after.unwrap()->ratio == m->ratio
            &&& !m.leaves().contains(t.active) ==> after == Some(m)
        }),
{
    let d = t.root.dividers(0, 0, w, h, seq![])[i];
    lemma_divider_paths(t.root, 0, 0, w, h, seq![], i);
    assert(d.path.skip(0) =~= d.path);
    let m = t.root.subtree(d.path).unwrap();
    lemma_split_keeps_paths(t.root, d.path, m, t.active, split, new_id);
    if let Node::Split { left, right, .. } = m {
        lemma_concat_contains(left.leaves(), right.leaves(), t.active);
    }
}

/// The divider that splitting leaf `target` adds: its path runs from the subtree reached by
/// `prefix` to that leaf, and it divides along `split`.
pub open spec fn is_added_divider(n: Node, prefix: Seq<bool>, target: usize, split: Split, d: DividerView) -> bool {
    &&& prefix.len() <= d.path.len()
    &&& d.path.take(prefix.len() as int) == prefix
    &&& n.subtree(d.path.skip(prefix.len() as int)) == Some(Node::Leaf { pane_id: target })
    &&& d.split == split
}

proof fn lemma_leaf_split_divider(
    pane_id: usize,
    x: u32,
    y: u32,
    w: u32,
    h: u32,
    prefix: Seq<bool>,
    split: Split,
    new_id: usize,
)
    ensures
        ({
            let n = Node::Leaf { pane_id };
            let new = n.split_leaf(pane_id, split, new_id).dividers(x, y, w, h, prefix);
            &&& new.len() == 1
            &&& new == n.dividers(x, y, w, h, prefix).insert(0, new[0])
            &&& is_added_divider(n, prefix, pane_id, split, new[0])
        }),
{
    reveal_with_fuel(Node::dividers, 2);
    let n = Node::Leaf { pane_id };
    let new = n.split_leaf(pane_id, split, new_id).dividers(x, y, w, h, prefix);
    let plen = prefix.len() as int;
    assert(new.len() == 1);
    assert(new =~= n.dividers(x, y, w, h, prefix).insert(0, new[0]));
    assert(new[0].path == prefix);
    assert(prefix.skip(plen) =~= Seq::<bool>::empty());
    assert(prefix.take(plen) =~= prefix);
}

/// Splitting leaf `target` of a subtree inserts exactly one divider into its list, and leaves
/// every other divider as it was: same path, axis, position and extents.
#[verifier::rlimit(60)]
pub proof fn lemma_split_adds_one_divider(
    n: Node,
    x: u32,
    y: u32,
    w: u32,
    h: u32,
    prefix: Seq<bool>,
    target: usize,
    split: Split,
    new_id: usize,
)
    requires
        n.leaves().contains(target),
    ensures
        exists|k: int, d: DividerView|
            0 <= k <= n.dividers(x, y, w, h, prefix).len()
            && #[trigger] n.split_leaf(target, split, new_id).dividers(x, y, w, h, prefix)
                == n.dividers(x, y, w, h, prefix).insert(k, d)
            && is_added_divider(n, prefix, target, split, d),
    decreases n,
{
    let old = n.dividers(x, y, w, h, prefix);
    let new = n.split_leaf(target, split, new_id).dividers(x, y, w, h, prefix);
    let plen = prefix.len() as int;
    match n {
        Node::Leaf { pane_id } => {
            assert(n.leaves()[0] == pane_id);
            lemma_leaf_split_divider(pane_id, x, y, w, h, prefix, split, new_id);
        },
        Node::Split { split: sp, ratio, left, right } => {
            lemma_concat_contains(left.leaves(), right.leaves(), target);
            let (lx, ly, lw2, lh, rx, ry, rw, rh) = match sp {
                Split::Vertical => {
                    let lw = first_share(w, ratio);
                    (x, y, lw, h, (x + lw) as u32, y, (w - lw) as u32, h)
                },
                Split::Horizontal => {
                    let th = first_share(h, ratio);
                    (x, y, w, th, x, (y + th) as u32, w, (h - th) as u32)
                },
            };
            let ld = left.dividers(lx, ly, lw2, lh, prefix.push(false));
            let rd = right.dividers(rx, ry, rw, rh, prefix.push(true));
            assert(old == seq![old[0]] + ld + rd);
            if left.leaves().contains(target) {
                let nl = left.split_leaf(target, split, new_id);
                lemma_split_adds_one_divider(*left, lx, ly, lw2, lh, prefix.push(false), target, split, new_id);
                let (k, d) = choose|k: int, d: DividerView|
                    0 <= k <= ld.len() && #[trigger] nl.dividers(lx, ly, lw2, lh, prefix.push(false)) == ld.insert(k, d)
                        && is_added_divider(*left, prefix.push(false), target, split, d);
                assert(new == seq![old[0]] + ld.insert(k, d) + rd);
                assert(new =~= old.insert(1 + k, d));
                let q = d.path.skip(plen);
                assert(d.path.take(plen) =~= prefix.push(false).take(plen));
                assert(prefix.push(false).take(plen) =~= prefix);
                assert(q[0] == d.path.take(plen + 1)[plen]);
                assert(q.drop_first() =~= d.path.skip(plen + 1));
                assert(is_added_divider(n, prefix, target, split, d));
            } else {
                let nr = right.split_leaf(target, split, new_id);
                lemma_split_adds_one_divider(*right, rx, ry, rw, rh, prefix.push(true), target, split, new_id);
                let (k, d) = choose|k: int, d: DividerView|
                    0 <= k <= rd.len() && #[trigger] nr.dividers(rx, ry, rw, rh, prefix.push(true)) == rd.insert(k, d)
                        && is_added_divider(*right, prefix.push(true), target, split, d);
                assert(new == seq![old[0]] + ld + rd.insert(k, d));
                assert(new =~= old.insert(1 + ld.len() + k, d));
                let q = d.path.skip(plen);
                assert(d.path.take(plen) =~= prefix.push(true).take(plen));
                assert(prefix.push(true).take(plen) =~= prefix);
                assert(q[0] == d.path.take(plen + 1)[plen]);
                assert(q.drop_first() =~= d.path.skip(plen + 1));
                assert(is_added_divider(n, prefix, target, split, d));
            }
        },
    }
}

/// Splitting the active pane adds exactly one divider, whose path leads to where the active
/// pane was, and keeps every other divider of the viewport as it was: same path, axis,
/// position, origin, span and extent across.
pub proof fn lemma_split_dividers(t: PaneTreeView, w: u32, h: u32, split: Split, new_id: usize)
    requires
        t.wf(),
    ensures
        exists|k: int, d: DividerView|
            0 <= k <= t.root.dividers(0, 0, w, h, seq![]).len()
            && #[trigger] t.after_split(split, new_id).root.dividers(0, 0, w, h, seq![])
                == t.root.dividers(0, 0, w, h, seq![]).insert(k, d)
            && t.root.subtree(d.path) == Some(Node::Leaf { pane_id: t.active })
            && d.split == split,
{
    lemma_split_adds_one_divider(t.root, 0, 0, w, h, seq![], t.active, split, new_id);
    let (k, d) = choose|k: int, d: DividerView|
        0 <= k <= t.root.dividers(0, 0, w, h, seq![]).len()
        && #[trigger] t.root.split_leaf(t.active, split, new_id).dividers(0, 0, w, h, seq![])
            == t.root.dividers(0, 0, w, h, seq![]).insert(k, d)
        && is_added_divider(t.root, seq![], t.active, split, d);
    assert(d.path.skip(0) =~= d.path);
    assert(t.after_split(split, new_id).root.dividers(0, 0, w, h, seq![]) == t.root.dividers(0, 0, w, h, seq![]).insert(k, d));
}

/// Closing a pane whose parent split holds it and a sibling subtree puts that sibling, exactly,
/// where the parent was.
pub proof fn lemma_close_promotes_sibling(
    n: Node,
    path: Seq<bool>,
    split: Split,
    ratio: u32,
    target: usize,
    sibling: Node,
    leaf_first: bool,
)
    requires
        n.leaves().no_duplicates(),
        n.subtree(path) == Some(
            if leaf_first {
                Node::Split { split, ratio, left: Box::new(Node::Leaf { pane_id: target }), right: Box::new(sibling) }
            } else {
                Node::Split { split, ratio, left: Box::new(sibling), right: Box::new(Node::Leaf { pane_id: target }) }
            },
        ),
    ensures
        n.without(target) is Some,
        n.without(target).unwrap().subtree(path) == Some(sibling),
    decreases path.len(),
{
    let leaf = Node::Leaf { pane_id: target };
    let parent = n.subtree(path).unwrap();
    assert(leaf.leaves()[0] == target);
    assert(leaf.leaves().contains(target));
    assert(leaf.without(target) == None::<Node>);
    if path.len() == 0 {
        let (l, r) = (sibling.leaves(), leaf.leaves());
        if leaf_first {
            lemma_concat_contains(r, l, target);
        } else {
            lemma_concat_no_dup(l, r);
        }
    } else {
        if let Node::Split { left, right, .. } = n {
            let (l, r) = (left.leaves(), right.leaves());
            lemma_concat_no_dup(l, r);
            let rest = path.drop_first();
            lemma_concat_contains(leaf.leaves(), sibling.leaves(), target);
            lemma_concat_contains(sibling.leaves(), leaf.leaves(), target);
            if path[0] {
                lemma_subtree_leaves(*right, rest, parent, target);
                lemma_close_promotes_sibling(*right, rest, split, ratio, target, sibling, leaf_first);
            } else {
                lemma_subtree_leaves(*left, rest, parent, target);
                lemma_close_promotes_sibling(*left, rest, split, ratio, target, sibling, leaf_first);
            }
        }
    }
}

} // verus!
