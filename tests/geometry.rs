use koi::atlas::{grown_size, Atlas, AtlasSlot};
use koi::navigation::{divider_at, drag_ratio, nearest_in_direction, pane_at, Direction};
use koi::palette::{cube_component, xterm_rgb};
use koi::panes::{PaneLayout, PaneTree, Split};

#[test]
fn divider_grab_uses_four_pixels() {
    let mut tree = PaneTree::new(0);
    tree.split_active(Split::Vertical, 1);
    tree.split_active(Split::Horizontal, 2);
    let dividers = tree.collect_dividers(800, 600);
    assert_eq!(divider_at(&dividers, 404, 10), Some(0));
    assert_eq!(divider_at(&dividers, 396, 600), Some(0));
    assert_eq!(divider_at(&dividers, 405, 10), None);
    assert_eq!(divider_at(&dividers, 400, -1), None);
    assert_eq!(divider_at(&dividers, 600, 297), Some(1));
    assert_eq!(divider_at(&dividers, 300, 300), None);
}

#[test]
fn drag_ratio_follows_the_cursor() {
    assert_eq!(drag_ratio(600, 0, 800), Some(7_500));
    assert_eq!(drag_ratio(500, 400, 400), Some(2_500));
    assert_eq!(drag_ratio(-50, 0, 800), Some(1_000));
    assert_eq!(drag_ratio(10, 0, 800), Some(1_000));
    assert_eq!(drag_ratio(790, 0, 800), Some(9_000));
    assert_eq!(drag_ratio(5_000, 0, 800), Some(9_000));
    assert_eq!(drag_ratio(100, 0, 0), None);
}

#[test]
fn pane_at_finds_the_clicked_rectangle() {
    let mut tree = PaneTree::new(0);
    tree.split_active(Split::Vertical, 1);
    let layouts = tree.calculate_layouts(800, 600);
    assert_eq!(pane_at(&layouts, 0, 0), Some(0));
    assert_eq!(pane_at(&layouts, 399, 599), Some(0));
    assert_eq!(pane_at(&layouts, 400, 0), Some(1));
    assert_eq!(pane_at(&layouts, 800, 0), None);
    assert_eq!(pane_at(&layouts, 10, -3), None);
}

#[test]
fn nearest_in_direction_breaks_ties_by_order() {
    let l = |pane_id, x, y, width, height| PaneLayout { pane_id, x, y, width, height };
    let layouts = vec![l(0, 100, 100, 100, 100), l(1, 0, 0, 100, 100), l(2, 0, 200, 100, 100), l(3, 0, 100, 50, 100)];
    assert_eq!(nearest_in_direction(&layouts, 0, Direction::Left), Some(3));
    assert_eq!(nearest_in_direction(&layouts, 0, Direction::Right), None);
    assert_eq!(nearest_in_direction(&layouts, 0, Direction::Down), Some(2));
    // Panes 1 and 2 are equally near: the first one wins.
    assert_eq!(nearest_in_direction(&layouts, 3, Direction::Right), Some(1));
}

#[test]
fn atlas_packs_rows() {
    let mut atlas = Atlas::new(7, 100);
    assert_eq!(atlas.tex_id(), 7);
    assert_eq!(atlas.width(), 100);
    assert_eq!(atlas.insert(60, 10), Some(AtlasSlot { x: 0, y: 0, width: 60, height: 10 }));
    assert_eq!(atlas.insert(30, 25), Some(AtlasSlot { x: 60, y: 0, width: 30, height: 25 }));
    assert_eq!(atlas.insert(0, 40), Some(AtlasSlot { x: 0, y: 0, width: 0, height: 0 }));
    assert_eq!(atlas.insert(20, 30), Some(AtlasSlot { x: 0, y: 25, width: 20, height: 30 }));
    assert_eq!(atlas.insert(90, 50), None);
    atlas.regrow(9, 200);
    assert_eq!(atlas.tex_id(), 9);
    assert_eq!(atlas.width(), 200);
    assert_eq!(atlas.insert(90, 50), Some(AtlasSlot { x: 0, y: 0, width: 90, height: 50 }));
}

#[test]
fn atlas_growth_doubles_up_to_the_cap() {
    assert_eq!(grown_size(2048), Some(4096));
    assert_eq!(grown_size(5000), Some(8192));
    assert_eq!(grown_size(8192), None);
}

#[test]
fn xterm_palette_levels() {
    assert_eq!(cube_component(0), 0);
    assert_eq!(cube_component(1), 95);
    assert_eq!(cube_component(5), 255);
    assert_eq!(xterm_rgb(15), None);
    assert_eq!(xterm_rgb(16), Some((0, 0, 0)));
    assert_eq!(xterm_rgb(196), Some((255, 0, 0)));
    assert_eq!(xterm_rgb(110), Some((135, 175, 215)));
    assert_eq!(xterm_rgb(231), Some((255, 255, 255)));
    assert_eq!(xterm_rgb(232), Some((8, 8, 8)));
    assert_eq!(xterm_rgb(255), Some((238, 238, 238)));
}
