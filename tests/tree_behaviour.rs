use koi::panes::{PaneTree, Split};

#[test]
fn viewport_scenario_split_and_close() {
    let mut tree = PaneTree::new(0);
    let one = tree.calculate_layouts(800, 600);
    assert_eq!(one.len(), 1);
    assert_eq!((one[0].x, one[0].y, one[0].width, one[0].height), (0, 0, 800, 600));

    tree.split_active(Split::Vertical, 1);
    let two = tree.calculate_layouts(800, 600);
    assert_eq!(two.len(), 2);
    assert_eq!(two[0].width + two[1].width, 800);
    assert!(two.iter().all(|l| l.height == 600));

    tree.split_active(Split::Horizontal, 2);
    assert_eq!(tree.calculate_layouts(800, 600).len(), 3);
    assert_eq!(tree.active_pane_id(), 2);
    assert!(!tree.close_active());
    let after = tree.calculate_layouts(800, 600);
    assert_eq!(after.len(), 2);
    assert_eq!(after[0].width + after[1].width, 800);
}

#[test]
fn divider_path_scenario() {
    let mut tree = PaneTree::new(0);
    tree.split_active(Split::Vertical, 1);
    tree.split_active(Split::Horizontal, 2);
    let dividers = tree.collect_dividers(800, 600);
    assert_eq!(dividers.len(), 2);
    assert_eq!(dividers[0].split, Split::Vertical);
    assert!(dividers[0].path.is_empty());
    assert_eq!(dividers[1].split, Split::Horizontal);
    assert_eq!(dividers[1].path, vec![true]);
    assert_eq!(dividers[1].position, 300);
    assert_eq!((dividers[1].perp_start, dividers[1].perp_end), (400, 800));
    tree.set_ratio_at(&dividers[1].path, 2_500);
    let layouts = tree.calculate_layouts(800, 600);
    let top_right = layouts.iter().find(|l| l.pane_id == 1).unwrap();
    assert_eq!(top_right.height, 150);
    let bottom_right = layouts.iter().find(|l| l.pane_id == 2).unwrap();
    assert_eq!((bottom_right.y, bottom_right.height), (150, 450));
}

#[test]
fn splitting_a_sibling_keeps_divider_paths() {
    let mut tree = PaneTree::new(0);
    tree.split_active(Split::Vertical, 1);
    tree.split_active(Split::Horizontal, 2);
    tree.set_active(0);
    tree.split_active(Split::Horizontal, 3);
    let dividers = tree.collect_dividers(800, 600);
    assert_eq!(dividers.len(), 3);
    let paths: Vec<Vec<bool>> = dividers.iter().map(|d| d.path.clone()).collect();
    assert_eq!(paths, vec![vec![], vec![false], vec![true]]);
    assert_eq!(dividers[2].split, Split::Horizontal);
    assert_eq!(dividers[2].position, 300);
}

#[test]
fn closing_promotes_the_sibling() {
    let mut tree = PaneTree::new(0);
    tree.split_active(Split::Vertical, 1);
    tree.split_active(Split::Horizontal, 2);
    tree.set_active(1);
    assert!(!tree.close_active());
    let layouts = tree.calculate_layouts(800, 600);
    assert_eq!(layouts.len(), 2);
    let right = layouts.iter().find(|l| l.pane_id == 2).unwrap();
    assert_eq!((right.x, right.y, right.width, right.height), (400, 0, 400, 600));
    let dividers = tree.collect_dividers(800, 600);
    assert_eq!(dividers.len(), 1);
    assert_eq!(dividers[0].split, Split::Vertical);
}

#[test]
fn closing_focuses_the_previous_pane() {
    let mut tree = PaneTree::new(0);
    tree.split_active(Split::Vertical, 1);
    tree.split_active(Split::Vertical, 2);
    assert_eq!(tree.pane_ids(), vec![0, 1, 2]);
    tree.set_active(1);
    tree.close_active();
    assert_eq!(tree.active_pane_id(), 0);
    assert_eq!(tree.pane_ids(), vec![0, 2]);
    tree.close_active();
    assert_eq!(tree.active_pane_id(), 2);
    assert_eq!(tree.pane_ids(), vec![2]);
    assert!(tree.close_active());
    assert_eq!(tree.pane_ids(), vec![2]);
}

#[test]
fn split_and_close_change_count_by_one() {
    let mut tree = PaneTree::new(0);
    for id in 1..6 {
        let before = tree.pane_count();
        tree.split_active(if id % 2 == 0 { Split::Vertical } else { Split::Horizontal }, id);
        assert_eq!(tree.pane_count(), before + 1);
    }
    while tree.pane_count() > 1 {
        let before = tree.pane_count();
        assert!(!tree.close_active());
        assert_eq!(tree.pane_count(), before - 1);
    }
}

#[test]
fn focus_next_returns_after_a_full_cycle() {
    let mut tree = PaneTree::new(0);
    tree.split_active(Split::Vertical, 1);
    tree.split_active(Split::Horizontal, 2);
    tree.split_active(Split::Vertical, 3);
    tree.set_active(1);
    let n = tree.pane_count();
    let mut seen = Vec::new();
    for _ in 0..n {
        tree.focus_next();
        seen.push(tree.active_pane_id());
    }
    assert_eq!(tree.active_pane_id(), 1);
    assert_eq!(seen, vec![2, 3, 0, 1]);
    tree.focus_next();
    tree.focus_prev();
    assert_eq!(tree.active_pane_id(), 1);
    tree.focus_prev();
    tree.focus_next();
    assert_eq!(tree.active_pane_id(), 1);
}

#[test]
fn zoom_twice_restores_layouts() {
    let mut tree = PaneTree::new(0);
    tree.split_active(Split::Vertical, 1);
    tree.split_active(Split::Horizontal, 2);
    let before = tree.calculate_layouts(1000, 700);
    tree.toggle_zoom();
    let zoomed = tree.calculate_layouts(1000, 700);
    assert_eq!(zoomed.len(), 1);
    assert_eq!((zoomed[0].pane_id, zoomed[0].x, zoomed[0].y, zoomed[0].width, zoomed[0].height), (2, 0, 0, 1000, 700));
    tree.toggle_zoom();
    assert_eq!(tree.calculate_layouts(1000, 700), before);
}

#[test]
fn split_and_focus_turn_zoom_off() {
    let mut tree = PaneTree::new(0);
    tree.split_active(Split::Vertical, 1);
    tree.toggle_zoom();
    tree.focus_next();
    assert_eq!(tree.calculate_layouts(800, 600).len(), 2);
    tree.toggle_zoom();
    tree.split_active(Split::Vertical, 2);
    assert_eq!(tree.calculate_layouts(800, 600).len(), 3);
}

#[test]
fn ratio_is_clamped_and_floored() {
    let mut tree = PaneTree::new(0);
    tree.split_active(Split::Vertical, 1);
    tree.set_ratio_at(&[], 0);
    assert_eq!(tree.calculate_layouts(800, 600)[0].width, 80);
    tree.set_ratio_at(&[], 10_000);
    assert_eq!(tree.calculate_layouts(800, 600)[0].width, 720);
    tree.set_ratio_at(&[], 3_333);
    let layouts = tree.calculate_layouts(101, 50);
    assert_eq!(layouts[0].width, 33);
    assert_eq!(layouts[1].width, 68);
    assert_eq!(layouts[1].x, 33);
}

#[test]
fn stale_path_changes_nothing() {
    let mut tree = PaneTree::new(0);
    tree.split_active(Split::Vertical, 1);
    let before = tree.calculate_layouts(800, 600);
    tree.set_ratio_at(&[true], 2_000);
    tree.set_ratio_at(&[false, true, true], 2_000);
    assert_eq!(tree.calculate_layouts(800, 600), before);
}

#[test]
fn unknown_pane_cannot_become_active() {
    let mut tree = PaneTree::new(0);
    tree.split_active(Split::Vertical, 1);
    tree.set_active(99);
    assert_eq!(tree.active_pane_id(), 1);
    tree.set_active(0);
    assert_eq!(tree.active_pane_id(), 0);
}

#[test]
fn odd_sizes_still_tile_exactly() {
    let mut tree = PaneTree::new(0);
    tree.split_active(Split::Vertical, 1);
    tree.split_active(Split::Horizontal, 2);
    tree.split_active(Split::Vertical, 3);
    tree.set_active(0);
    tree.split_active(Split::Horizontal, 4);
    tree.set_ratio_at(&[], 3_333);
    tree.set_ratio_at(&[true], 6_667);
    tree.set_ratio_at(&[false], 1_234);
    for (w, h) in [(1001u32, 777u32), (3, 1), (0, 500), (4_000_000_000, 3)] {
        let layouts = tree.calculate_layouts(w, h);
        assert_eq!(layouts.len(), 5);
        let area: u128 = layouts.iter().map(|l| l.width as u128 * l.height as u128).sum();
        assert_eq!(area, w as u128 * h as u128);
    }
}

#[test]
fn split_adds_one_divider_and_keeps_the_rest() {
    let mut tree = PaneTree::new(0);
    tree.split_active(Split::Vertical, 1);
    tree.split_active(Split::Horizontal, 2);
    tree.set_ratio_at(&[true], 3_000);
    let key = |d: &koi::panes::DividerInfo| (d.path.clone(), d.split, d.position, d.origin, d.span, d.perp_start, d.perp_end);
    let before: Vec<_> = tree.collect_dividers(1000, 700).iter().map(key).collect();
    tree.set_active(0);
    tree.split_active(Split::Horizontal, 3);
    let after: Vec<_> = tree.collect_dividers(1000, 700).iter().map(key).collect();
    assert_eq!(after.len(), before.len() + 1);
    for d in &before {
        assert!(after.contains(d));
    }
    let added: Vec<_> = after.iter().filter(|d| !before.contains(d)).collect();
    assert_eq!(added.len(), 1);
    assert_eq!(added[0].0, vec![false]);
    assert_eq!(added[0].1, Split::Horizontal);
}
