use vstd::prelude::*;
use crate::panes::{divider_views, DividerInfo, DividerView, PaneLayout, Split, MAX_RATIO, MIN_RATIO, RATIO_SCALE};

verus! {

/// How far, in pixels, from a divider's line a press still grabs it.
pub const DIVIDER_GRAB_DISTANCE: i64 = 4;

/// Direction of spatial focus movement.
#[derive(Clone, Copy, Debug, PartialEq, Eq, Structural)]
pub enum Direction {
    Left,
    Right,
    Up,
    Down,
}

/// The point lies within grabbing distance of the divider's line and between its ends.
pub open spec fn grabs(d: DividerView, px: int, py: int) -> bool {
    let (along, across) = match d.split {
        Split::Vertical => (px, py),
        Split::Horizontal => (py, px),
    };
    &&& d.position - DIVIDER_GRAB_DISTANCE <= along <= d.position + DIVIDER_GRAB_DISTANCE
    &&& d.perp_start <= across <= d.perp_end
}

/// Index of the first divider that a press at (`px`, `py`) grabs.
pub fn divider_at(dividers: &Vec<DividerInfo>, px: i64, py: i64) -> (r: Option<usize>)
    ensures
        match r {
            Some(i) => i < dividers@.len() && grabs(divider_views(dividers@)[i as int], px as int, py as int)
                && forall|k: int| 0 <= k < i ==> !grabs(#[trigger] divider_views(dividers@)[k], px as int, py as int),
            None => forall|k: int|
                0 <= k < dividers@.len() ==> !grabs(#[trigger] divider_views(dividers@)[k], px as int, py as int),
        },
{
    let mut i: usize = 0;
    while i < dividers.len()
        invariant
            i <= dividers@.len(),
            forall|k: int| 0 <= k < i ==> !grabs(#[trigger] divider_views(dividers@)[k], px as int, py as int),
        decreases dividers@.len() - i,
    {
        let d = &dividers[i];
        let (along, across) = match d.split {
            Split::Vertical => (px, py),
            Split::Horizontal => (py, px),
        };
        let pos = d.position as i64;
        assert(divider_views(dividers@)[i as int] == d@);
        if pos - DIVIDER_GRAB_DISTANCE <= along && along <= pos + DIVIDER_GRAB_DISTANCE
            && d.perp_start as i64 <= across && across <= d.perp_end as i64 {
            return Some(i);
        }
        i += 1;
    }
    None
}

/// Ratio for a divider dragged to `cursor` along its axis, whose divided extent starts at
/// `origin` and is `span` long: `floor((cursor - origin) / span)` in ratio units, clamped to
/// the draggable range.
pub open spec fn dragged_ratio(cursor: int, origin: int, span: int) -> u32 {
    let raw = (cursor - origin) * RATIO_SCALE as int / span;
    if raw < MIN_RATIO {
        MIN_RATIO
    } else if raw > MAX_RATIO {
        MAX_RATIO
    } else {
        raw as u32
    }
}

/// The ratio a divider takes when dragged to `cursor`; `None` for an empty extent.
pub fn drag_ratio(cursor: i64, origin: u32, span: u32) -> (r: Option<u32>)
    ensures
        span == 0 ==> r is None,
        span > 0 ==> r == Some(dragged_ratio(cursor as int, origin as int, span as int)),
{
    if span == 0 {
        return None;
    }
    let o = origin as i64;
    if cursor <= o {
        proof {
            let d = cursor as int - origin as int;
            assert(d * RATIO_SCALE as int <= 0) by (nonlinear_arith) requires d <= 0;
            assert(d * RATIO_SCALE as int / span as int <= 0) by (nonlinear_arith)
                requires d * RATIO_SCALE as int <= 0, span > 0;
        }
        return Some(MIN_RATIO);
    }
    let d: i64 = cursor - o;
    if d >= span as i64 {
        proof {
            assert(d as int * RATIO_SCALE as int >= span as int * RATIO_SCALE as int) by (nonlinear_arith)
                requires d >= span;
            assert(d as int * RATIO_SCALE as int / span as int >= RATIO_SCALE as int) by (nonlinear_arith)
                requires d as int * RATIO_SCALE as int >= span as int * RATIO_SCALE as int, span > 0;
        }
        return Some(MAX_RATIO);
    }
    proof {
        assert(d as int * RATIO_SCALE as int <= span as int * RATIO_SCALE as int) by (nonlinear_arith)
            requires d < span;
    }
    let raw: u64 = (d as u64) * (RATIO_SCALE as u64) / (span as u64);
    let r = if raw < MIN_RATIO as u64 {
        MIN_RATIO
    } else if raw > MAX_RATIO as u64 {
        MAX_RATIO
    } else {
        raw as u32
    };
    Some(r)
}

/// The point lies in the rectangle, right and bottom edges excluded.
pub open spec fn contains_point(l: PaneLayout, px: int, py: int) -> bool {
    l.x <= px < l.x + l.width && l.y <= py < l.y + l.height
}

/// Index of the first rectangle that holds the point (`px`, `py`).
pub fn pane_at(layouts: &Vec<PaneLayout>, px: i64, py: i64) -> (r: Option<usize>)
    ensures
        match r {
            Some(i) => i < layouts@.len() && contains_point(layouts@[i as int], px as int, py as int)
                && forall|k: int| 0 <= k < i ==> !contains_point(#[trigger] layouts@[k], px as int, py as int),
            None => forall|k: int|
                0 <= k < layouts@.len() ==> !contains_point(#[trigger] layouts@[k], px as int, py as int),
        },
{
    let mut i: usize = 0;
    while i < layouts.len()
        invariant
            i <= layouts@.len(),
            forall|k: int| 0 <= k < i ==> !contains_point(#[trigger] layouts@[k], px as int, py as int),
        decreases layouts@.len() - i,
    {
        let l = layouts[i];
        if l.x as i64 <= px && px < l.x as i64 + l.width as i64 && l.y as i64 <= py && py < l.y as i64
            + l.height as i64 {
            return Some(i);
        }
        i += 1;
    }
    None
}

/// Twice the x of a rectangle's center.
pub open spec fn center2_x(l: PaneLayout) -> int {
    2 * l.x + l.width
}

/// Twice the y of a rectangle's center.
pub open spec fn center2_y(l: PaneLayout) -> int {
    2 * l.y + l.height
}

/// The center of `l` lies strictly in direction `dir` from the center of `from`.
pub open spec fn lies_toward(l: PaneLayout, from: PaneLayout, dir: Direction) -> bool {
    match dir {
        Direction::Left => center2_x(l) < center2_x(from),
        Direction::Right => center2_x(l) > center2_x(from),
        Direction::Up => center2_y(l) < center2_y(from),
        Direction::Down => center2_y(l) > center2_y(from),
    }
}

/// Four times the squared distance between the two centers.
pub open spec fn center_distance4(a: PaneLayout, b: PaneLayout) -> int {
    (center2_x(a) - center2_x(b)) * (center2_x(a) - center2_x(b)) + (center2_y(a) - center2_y(b)) * (
    center2_y(a) - center2_y(b))
}

/// Rectangle `k` is another pane whose center lies in direction `dir` from that of rectangle
/// `from`.
pub open spec fn is_candidate(s: Seq<PaneLayout>, from: int, k: int, dir: Direction) -> bool {
    0 <= k < s.len() && s[k].pane_id != s[from].pane_id && lies_toward(s[k], s[from], dir)
}

/// Rectangle `i` is the pane to move to from rectangle `from` in direction `dir`: a candidate
/// whose center is nearest, and the first such.
pub open spec fn is_nearest(s: Seq<PaneLayout>, from: int, i: int, dir: Direction) -> bool {
    &&& is_candidate(s, from, i, dir)
    &&& forall|k: int| #[trigger] is_candidate(s, from, k, dir)
        ==> center_distance4(s[i], s[from]) <= center_distance4(s[k], s[from])
    &&& forall|k: int| 0 <= k < i && #[trigger] is_candidate(s, from, k, dir)
        ==> center_distance4(s[i], s[from]) < center_distance4(s[k], s[from])
}

/// Some other pane lies in direction `dir` from rectangle `from`.
pub open spec fn has_candidate(s: Seq<PaneLayout>, from: int, dir: Direction) -> bool {
    exists|k: int| is_candidate(s, from, k, dir)
}

fn distance4(a: PaneLayout, b: PaneLayout) -> (r: u128)
    ensures
        r as int == center_distance4(a, b),
{
    let dx: i128 = (2 * a.x as i128 + a.width as i128) - (2 * b.x as i128 + b.width as i128);
    let dy: i128 = (2 * a.y as i128 + a.height as i128) - (2 * b.y as i128 + b.height as i128);
    proof {
        assert(dx * dx <= 0x4_0000_0000i128 * 0x4_0000_0000i128) by (nonlinear_arith)
            requires -0x4_0000_0000i128 <= dx <= 0x4_0000_0000i128;
        assert(dy * dy <= 0x4_0000_0000i128 * 0x4_0000_0000i128) by (nonlinear_arith)
            requires -0x4_0000_0000i128 <= dy <= 0x4_0000_0000i128;
        assert(dx * dx >= 0) by (nonlinear_arith);
        assert(dy * dy >= 0) by (nonlinear_arith);
    }
    (dx * dx + dy * dy) as u128
}

/// The pane to move focus to from rectangle `from` in direction `dir`: among the other panes
/// whose centers lie strictly that way, the one whose center is nearest, the first of them on
/// a tie. `None` when there is none.
pub fn nearest_in_direction(layouts: &Vec<PaneLayout>, from: usize, dir: Direction) -> (r: Option<usize>)
    requires
        from < layouts@.len(),
    ensures
        match r {
            Some(i) => is_nearest(layouts@, from as int, i as int, dir),
            None => !has_candidate(layouts@, from as int, dir),
        },
{
    let a = layouts[from];
    let ax: i64 = 2 * a.x as i64 + a.width as i64;
    let ay: i64 = 2 * a.y as i64 + a.height as i64;
    let mut best: Option<usize> = None;
    let mut best_d: u128 = 0;
    let mut i: usize = 0;
    while i < layouts.len()
        invariant
            from < layouts@.len(),
            a == layouts@[from as int],
            ax == center2_x(a),
            ay == center2_y(a),
            i <= layouts@.len(),
            match best {
                Some(b) => {
                    &&& b < i
                    &&& is_candidate(layouts@, from as int, b as int, dir)
                    &&& best_d == center_distance4(layouts@[b as int], a)
                    &&& forall|k: int| 0 <= k < i && #[trigger] is_candidate(layouts@, from as int, k, dir)
                        ==> best_d <= center_distance4(layouts@[k], a)
                    &&& forall|k: int| 0 <= k < b && #[trigger] is_candidate(layouts@, from as int, k, dir)
                        ==> best_d < center_distance4(layouts@[k], a)
                },
                None => forall|k: int| 0 <= k < i ==> !#[trigger] is_candidate(layouts@, from as int, k, dir),
            },
        decreases layouts@.len() - i,
    {
        let l = layouts[i];
        let lx: i64 = 2 * l.x as i64 + l.width as i64;
        let ly: i64 = 2 * l.y as i64 + l.height as i64;
        let toward = match dir {
            Direction::Left => lx < ax,
            Direction::Right => lx > ax,
            Direction::Up => ly < ay,
            Direction::Down => ly > ay,
        };
        if l.pane_id != a.pane_id && toward {
            let d = distance4(l, a);
            match best {
                Some(_) => {
                    if d < best_d {
                        best = Some(i);
                        best_d = d;
                    }
                },
                None => {
                    best = Some(i);
                    best_d = d;
                },
            }
        }
        i += 1;
    }
    best
}

} // verus!
