use std::cell::RefCell;
use std::rc::Rc;

use koi::navigation::Direction;
use koi::panes::Split;
use koi::tabs::{grid_cells, PaneSize, TabManager};

struct Session {
    id: usize,
    ended: Rc<RefCell<Vec<usize>>>,
}

impl Drop for Session {
    fn drop(&mut self) {
        self.ended.borrow_mut().push(self.id);
    }
}

fn session(mgr: Option<&TabManager<Session>>, ended: &Rc<RefCell<Vec<usize>>>) -> Session {
    let id = mgr.map(|m| m.next_pane_id()).unwrap_or(0);
    Session { id, ended: ended.clone() }
}

#[test]
fn new_manager_has_one_tab() {
    let ended = Rc::new(RefCell::new(Vec::new()));
    let mgr = TabManager::new(session(None, &ended));
    assert_eq!(mgr.count(), 1);
    assert_eq!(mgr.active_index(), 0);
    assert_eq!(mgr.next_pane_id(), 1);
    let tab = mgr.active_tab().unwrap();
    assert_eq!(tab.title(), "Tab 1");
    assert_eq!(tab.pane_tree().pane_ids(), vec![0]);
    assert_eq!(mgr.active_pane().unwrap().id, 0);
}

#[test]
fn add_tab_numbers_titles_and_ids() {
    let ended = Rc::new(RefCell::new(Vec::new()));
    let mut mgr = TabManager::new(session(None, &ended));
    let s = session(Some(&mgr), &ended);
    assert_eq!(mgr.add_tab(s), 1);
    assert_eq!(mgr.active_index(), 1);
    assert_eq!(mgr.active_tab().unwrap().title(), "Tab 2");
    assert_eq!(mgr.active_pane().unwrap().id, 1);
    for _ in 0..9 {
        let s = session(Some(&mgr), &ended);
        mgr.add_tab(s);
    }
    assert_eq!(mgr.count(), 11);
    assert_eq!(mgr.active_tab().unwrap().title(), "Tab 11");
    assert_eq!(mgr.next_pane_id(), 11);
}

#[test]
fn split_reports_every_pane_size() {
    let ended = Rc::new(RefCell::new(Vec::new()));
    let mut mgr = TabManager::new(session(None, &ended));
    let s = session(Some(&mgr), &ended);
    let sizes = mgr.split_active(Split::Vertical, s, 800, 600, 10, 20);
    assert_eq!(
        sizes,
        vec![PaneSize { pane_id: 0, columns: 40, rows: 30 }, PaneSize { pane_id: 1, columns: 40, rows: 30 }]
    );
    let s = session(Some(&mgr), &ended);
    let sizes = mgr.split_active(Split::Horizontal, s, 800, 600, 10, 20);
    assert_eq!(
        sizes,
        vec![
            PaneSize { pane_id: 0, columns: 40, rows: 30 },
            PaneSize { pane_id: 1, columns: 40, rows: 15 },
            PaneSize { pane_id: 2, columns: 40, rows: 15 },
        ]
    );
    assert_eq!(mgr.active_pane().unwrap().id, 2);
}

#[test]
fn closing_a_pane_ends_only_its_session() {
    let ended = Rc::new(RefCell::new(Vec::new()));
    let mut mgr = TabManager::new(session(None, &ended));
    let s = session(Some(&mgr), &ended);
    mgr.split_active(Split::Vertical, s, 800, 600, 10, 20);
    assert!(!mgr.close_active_pane());
    assert_eq!(*ended.borrow(), vec![1]);
    assert_eq!(mgr.active_pane().unwrap().id, 0);
    assert!(mgr.close_active_pane());
    assert_eq!(*ended.borrow(), vec![1]);
    assert_eq!(mgr.count(), 1);
}

#[test]
fn closing_the_active_tab_clamps_the_index() {
    let ended = Rc::new(RefCell::new(Vec::new()));
    let mut mgr = TabManager::new(session(None, &ended));
    let s = session(Some(&mgr), &ended);
    mgr.add_tab(s);
    let s = session(Some(&mgr), &ended);
    mgr.split_active(Split::Vertical, s, 800, 600, 10, 20);
    assert!(!mgr.close_active());
    let mut gone = ended.borrow().clone();
    gone.sort();
    assert_eq!(gone, vec![1, 2]);
    assert_eq!(mgr.count(), 1);
    assert_eq!(mgr.active_index(), 0);
    assert!(mgr.close_active());
    assert_eq!(mgr.count(), 1);
}

#[test]
fn out_of_band_close_of_an_inactive_pane() {
    let ended = Rc::new(RefCell::new(Vec::new()));
    let mut mgr = TabManager::new(session(None, &ended));
    let s = session(Some(&mgr), &ended);
    mgr.split_active(Split::Vertical, s, 800, 600, 10, 20);
    let s = session(Some(&mgr), &ended);
    mgr.split_active(Split::Vertical, s, 800, 600, 10, 20);
    let s = session(Some(&mgr), &ended);
    mgr.add_tab(s);
    assert!(!mgr.close_pane_by_id(1));
    assert_eq!(*ended.borrow(), vec![1]);
    assert_eq!(mgr.active_index(), 1);
    let first = mgr.tab(0).unwrap();
    assert_eq!(first.pane_tree().pane_ids(), vec![0, 2]);
    assert_eq!(first.pane_tree().active_pane_id(), 2);
    assert!(first.pane(1).is_none());
    assert!(!mgr.close_pane_by_id(42));
    assert_eq!(mgr.count(), 2);
}

#[test]
fn out_of_band_close_of_an_active_pane() {
    let ended = Rc::new(RefCell::new(Vec::new()));
    let mut mgr = TabManager::new(session(None, &ended));
    let s = session(Some(&mgr), &ended);
    mgr.split_active(Split::Vertical, s, 800, 600, 10, 20);
    let s = session(Some(&mgr), &ended);
    mgr.add_tab(s);
    assert!(!mgr.close_pane_by_id(1));
    assert_eq!(mgr.active_index(), 1);
    assert_eq!(mgr.tab(0).unwrap().pane_tree().active_pane_id(), 0);
}

#[test]
fn out_of_band_close_of_a_whole_tab_keeps_the_active_tab() {
    let ended = Rc::new(RefCell::new(Vec::new()));
    let mut mgr = TabManager::new(session(None, &ended));
    let s = session(Some(&mgr), &ended);
    mgr.add_tab(s);
    let s = session(Some(&mgr), &ended);
    mgr.add_tab(s);
    assert_eq!(mgr.active_index(), 2);
    assert!(!mgr.close_pane_by_id(0));
    assert_eq!(mgr.count(), 2);
    assert_eq!(mgr.active_index(), 1);
    assert_eq!(mgr.active_pane().unwrap().id, 2);
    assert!(!mgr.close_pane_by_id(2));
    assert_eq!(mgr.active_index(), 0);
    assert_eq!(mgr.active_pane().unwrap().id, 1);
    assert!(mgr.close_pane_by_id(1));
    assert_eq!(mgr.count(), 1);
}

#[test]
fn title_goes_to_the_tab_of_the_pane() {
    let ended = Rc::new(RefCell::new(Vec::new()));
    let mut mgr = TabManager::new(session(None, &ended));
    let s = session(Some(&mgr), &ended);
    mgr.add_tab(s);
    mgr.set_tab_title_by_pane(0, String::from("vim"));
    assert_eq!(mgr.tab(0).unwrap().title(), "vim");
    assert_eq!(mgr.tab(1).unwrap().title(), "Tab 2");
    mgr.set_tab_title_by_pane(7, String::from("none"));
    assert_eq!(mgr.tab(1).unwrap().title(), "Tab 2");
}

#[test]
fn tab_cycling_wraps() {
    let ended = Rc::new(RefCell::new(Vec::new()));
    let mut mgr = TabManager::new(session(None, &ended));
    for _ in 0..2 {
        let s = session(Some(&mgr), &ended);
        mgr.add_tab(s);
    }
    assert_eq!(mgr.active_index(), 2);
    mgr.next_tab();
    assert_eq!(mgr.active_index(), 0);
    mgr.prev_tab();
    assert_eq!(mgr.active_index(), 2);
    mgr.goto_tab(1);
    assert_eq!(mgr.active_index(), 1);
    mgr.goto_tab(3);
    assert_eq!(mgr.active_index(), 1);
}

#[test]
fn resize_all_covers_every_tab_with_minimums() {
    let ended = Rc::new(RefCell::new(Vec::new()));
    let mut mgr = TabManager::new(session(None, &ended));
    let s = session(Some(&mgr), &ended);
    mgr.add_tab(s);
    let s = session(Some(&mgr), &ended);
    mgr.split_active(Split::Horizontal, s, 15, 15, 10, 20);
    let sizes = mgr.resize_all(15, 15, 10, 20);
    assert_eq!(
        sizes,
        vec![
            PaneSize { pane_id: 0, columns: 2, rows: 1 },
            PaneSize { pane_id: 1, columns: 2, rows: 1 },
            PaneSize { pane_id: 2, columns: 2, rows: 1 },
        ]
    );
    assert_eq!(mgr.resize_active_tab(100, 100, 10, 20).len(), 2);
    assert_eq!(grid_cells(805, 610, 10, 20), (80, 30));
    assert_eq!(grid_cells(0, 0, 10, 20), (2, 1));
}

#[test]
fn directional_focus_picks_the_nearest_pane() {
    let ended = Rc::new(RefCell::new(Vec::new()));
    let mut mgr = TabManager::new(session(None, &ended));
    let s = session(Some(&mgr), &ended);
    mgr.split_active(Split::Vertical, s, 800, 600, 10, 20);
    let s = session(Some(&mgr), &ended);
    mgr.split_active(Split::Horizontal, s, 800, 600, 10, 20);
    // Pane 0 fills the left half, pane 1 the top right, pane 2 the bottom right.
    mgr.focus_direction(Direction::Right, 800, 600);
    assert_eq!(mgr.active_pane().unwrap().id, 2);
    mgr.focus_direction(Direction::Up, 800, 600);
    assert_eq!(mgr.active_pane().unwrap().id, 1);
    mgr.focus_direction(Direction::Left, 800, 600);
    assert_eq!(mgr.active_pane().unwrap().id, 0);
    mgr.focus_direction(Direction::Right, 800, 600);
    assert_eq!(mgr.active_pane().unwrap().id, 1);
    mgr.focus_direction(Direction::Up, 800, 600);
    assert_eq!(mgr.active_pane().unwrap().id, 1);
}

#[test]
fn manager_commands_reach_the_active_tree() {
    let ended = Rc::new(RefCell::new(Vec::new()));
    let mut mgr = TabManager::new(session(None, &ended));
    let s = session(Some(&mgr), &ended);
    mgr.split_active(Split::Vertical, s, 800, 600, 10, 20);
    mgr.toggle_zoom();
    assert_eq!(mgr.active_layouts(800, 600).len(), 1);
    mgr.toggle_zoom();
    assert_eq!(mgr.active_layouts(800, 600).len(), 2);
    mgr.focus_pane(0);
    assert_eq!(mgr.active_pane().unwrap().id, 0);
    mgr.focus_next_pane();
    assert_eq!(mgr.active_pane().unwrap().id, 1);
    mgr.focus_prev_pane();
    assert_eq!(mgr.active_pane().unwrap().id, 0);
    let dividers = mgr.active_dividers(800, 600);
    assert_eq!(dividers.len(), 1);
    mgr.set_split_ratio(&dividers[0].path, 2_500);
    assert_eq!(mgr.active_layouts(800, 600)[0].width, 200);
}

#[test]
fn iter_walks_the_tabs_in_order() {
    let ended = Rc::new(RefCell::new(Vec::new()));
    let mut mgr = TabManager::new(session(None, &ended));
    let s = session(Some(&mgr), &ended);
    mgr.add_tab(s);
    mgr.set_tab_title_by_pane(1, String::from("logs"));
    let titles: Vec<&str> = mgr.iter().map(|t| t.title()).collect();
    assert_eq!(titles, vec!["Tab 1", "logs"]);
}
