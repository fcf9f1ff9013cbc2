use std::collections::HashMap;
use vstd::prelude::*;
use vstd::std_specs::iter::IteratorSpec;
use crate::navigation::{has_candidate, is_candidate, is_nearest, nearest_in_direction, Direction};
use crate::panes::{
    clamp_ratio, divider_views, lemma_remove_no_dup, DividerInfo, DividerView, PaneLayout, PaneTree, PaneTreeView,
    Split,
};

verus! {

broadcast use vstd::std_specs::hash::group_hash_axioms;

/// Decimal digit `d` as a character.
pub open spec fn digit_char(d: nat) -> char {
    if d == 0 {
        '0'
    } else if d == 1 {
        '1'
    } else if d == 2 {
        '2'
    } else if d == 3 {
        '3'
    } else if d == 4 {
        '4'
    } else if d == 5 {
        '5'
    } else if d == 6 {
        '6'
    } else if d == 7 {
        '7'
    } else if d == 8 {
        '8'
    } else {
        '9'
    }
}

/// Decimal digits of `n`, most significant first, without leading zeros.
pub open spec fn decimal(n: nat) -> Seq<char>
    decreases n,
{
    if n < 10 {
        seq![digit_char(n)]
    } else {
        decimal(n / 10).push(digit_char(n % 10))
    }
}

/// Title of the tab numbered `n`: `Tab n`.
pub open spec fn default_title(n: nat) -> Seq<char> {
    seq!['T', 'a', 'b', ' '] + decimal(n)
}

/// Relies on `<usize as ToString>::to_string`, which writes the decimal digits through
/// `Display`: no sign, padding or leading zeros.
#[verifier::external_body]
fn decimal_string(number: usize) -> (r: String)
    ensures
        r@ == decimal(number as nat),
{
    number.to_string()
}

/// The default title of the tab numbered `number`.
fn tab_title(number: usize) -> (r: String)
    ensures
        r@ == default_title(number as nat),
{
    let digits = decimal_string(number);
    let mut title = "Tab ".to_owned();
    proof {
        reveal_strlit("Tab ");
    }
    title.append(digits.as_str());
    assert(title@ =~= default_title(number as nat));
    title
}

/// Grid size that one pane should be given.
#[derive(Clone, Copy, Debug, PartialEq, Eq, Structural)]
pub struct PaneSize {
    pub pane_id: usize,
    pub columns: usize,
    pub rows: usize,
}

/// Whole cells of `cell` pixels in `len` pixels, but at least `min`.
pub open spec fn cells_in(len: u32, cell: u32, min: usize) -> usize {
    if (len / cell) as usize >= min {
        (len / cell) as usize
    } else {
        min
    }
}

/// Grid size for a rectangle: whole cells, at least two columns and one row.
pub open spec fn size_of_layout(l: PaneLayout, cell_width: u32, cell_height: u32) -> PaneSize {
    PaneSize {
        pane_id: l.pane_id,
        columns: cells_in(l.width, cell_width, 2),
        rows: cells_in(l.height, cell_height, 1),
    }
}

/// Grid sizes for a sequence of rectangles, in the same order.
pub open spec fn sizes_of_layouts(s: Seq<PaneLayout>, cell_width: u32, cell_height: u32) -> Seq<PaneSize> {
    s.map_values(|l: PaneLayout| size_of_layout(l, cell_width, cell_height))
}

/// Columns and rows of whole `cell_width` by `cell_height` cells in a `width` by `height`
/// pixel area, with at least two columns and one row.
pub fn grid_cells(width: u32, height: u32, cell_width: u32, cell_height: u32) -> (r: (usize, usize))
    requires
        cell_width > 0,
        cell_height > 0,
    ensures
        r.0 == cells_in(width, cell_width, 2),
        r.1 == cells_in(height, cell_height, 1),
{
    let cols = (width / cell_width) as usize;
    let rows = (height / cell_height) as usize;
    (if cols >= 2 { cols } else { 2 }, if rows >= 1 { rows } else { 1 })
}

fn sizes_for(layouts: &Vec<PaneLayout>, cell_width: u32, cell_height: u32, out: &mut Vec<PaneSize>)
    requires
        cell_width > 0,
        cell_height > 0,
    ensures
        final(out)@ == old(out)@ + sizes_of_layouts(layouts@, cell_width, cell_height),
{
    let ghost start = out@;
    let mut i: usize = 0;
    while i < layouts.len()
        invariant
            i <= layouts@.len(),
            cell_width > 0,
            cell_height > 0,
            out@ == start + sizes_of_layouts(layouts@.take(i as int), cell_width, cell_height),
        decreases layouts@.len() - i,
    {
        let l = layouts[i];
        let (columns, rows) = grid_cells(l.width, l.height, cell_width, cell_height);
        out.push(PaneSize { pane_id: l.pane_id, columns, rows });
        i += 1;
        assert(sizes_of_layouts(layouts@.take(i as int), cell_width, cell_height) =~= sizes_of_layouts(
            layouts@.take(i - 1),
            cell_width,
            cell_height,
        ).push(size_of_layout(l, cell_width, cell_height)));
        assert(out@ =~= start + sizes_of_layouts(layouts@.take(i as int), cell_width, cell_height));
    }
    assert(layouts@.take(layouts@.len() as int) =~= layouts@);
}

/// Value of a [`Tab`].
pub struct TabView<S> {
    pub title: Seq<char>,
    pub tree: PaneTreeView,
    pub panes: Map<usize, S>,
}

impl<S> TabView<S> {
    /// The tree is well formed and has a session for each of its panes and for nothing else.
    pub open spec fn wf(self) -> bool {
        self.tree.wf() && self.panes.dom() == self.tree.ids().to_set()
    }
}

/// One tab: a title, a tree of panes, and the session behind each pane.
#[verifier::reject_recursive_types(S)]
pub struct Tab<S> {
    title: String,
    pane_tree: PaneTree,
    panes: HashMap<usize, S>,
}

impl<S> View for Tab<S> {
    type V = TabView<S>;

    closed spec fn view(&self) -> TabView<S> {
        TabView { title: self.title@, tree: self.pane_tree@, panes: self.panes@ }
    }
}

impl<S> Tab<S> {
    pub fn title(&self) -> (r: &str)
        ensures
            r@ == self@.title,
    {
        self.title.as_str()
    }

    pub fn pane_tree(&self) -> (r: &PaneTree)
        ensures
            r@ == self@.tree,
    {
        &self.pane_tree
    }

    /// The session of pane `pane_id`, if this tab has it.
    pub fn pane(&self, pane_id: usize) -> (r: Option<&S>)
        ensures
            match r {
                Some(s) => self@.panes.contains_key(pane_id) && *s == self@.panes[pane_id],
                None => !self@.panes.contains_key(pane_id),
            },
    {
        self.panes.get(&pane_id)
    }
}

/// Value of a [`TabManager`].
pub struct TabManagerView<S> {
    pub tabs: Seq<TabView<S>>,
    pub active: usize,
    pub next_pane_id: usize,
}

impl<S> TabManagerView<S> {
    /// At least one tab, the active index in range, every tab well formed, no pane id in two
    /// tabs, and every pane id below the next one to be handed out.
    pub open spec fn wf(self) -> bool {
        &&& 1 <= self.tabs.len() <= self.next_pane_id
        &&& self.active < self.tabs.len()
        &&& forall|i: int| 0 <= i < self.tabs.len() ==> #[trigger] self.tabs[i].wf()
        &&& forall|i: int, id: usize|
            0 <= i < self.tabs.len() && #[trigger] self.tabs[i].panes.contains_key(id) ==> id
                < self.next_pane_id
        &&& forall|i: int, j: int, id: usize|
            0 <= i < self.tabs.len() && 0 <= j < self.tabs.len() && i != j
                && #[trigger] self.tabs[i].panes.contains_key(id) ==> !#[trigger] self.tabs[j].panes.contains_key(id)
    }

    pub open spec fn active_tab(self) -> TabView<S> {
        self.tabs[self.active as int]
    }

    /// Active index after the tab at `removed` is taken out of `len` tabs.
    pub open spec fn index_after_removal(active: usize, removed: int, len: int) -> usize {
        if active > removed {
            (active - 1) as usize
        } else if active >= len - 1 {
            (len - 2) as usize
        } else {
            active
        }
    }

    /// The state after closing the active tab of two or more.
    pub open spec fn after_tab_close(self) -> TabManagerView<S> {
        TabManagerView {
            tabs: self.tabs.remove(self.active as int),
            active: if self.active >= self.tabs.len() - 1 {
                (self.tabs.len() - 2) as usize
            } else {
                self.active
            },
            next_pane_id: self.next_pane_id,
        }
    }

    /// The state after closing pane `id` in tab `i`, where that tab has two or more panes.
    pub open spec fn after_pane_close(self, i: int, id: usize) -> TabManagerView<S> {
        let t = self.tabs[i];
        TabManagerView {
            tabs: self.tabs.update(
                i,
                TabView { title: t.title, tree: t.tree.after_close_of(id), panes: t.panes.remove(id) },
            ),
            active: self.active,
            next_pane_id: self.next_pane_id,
        }
    }

    /// The state after splitting the active pane of the active tab, with `session` behind the
    /// new pane, which gets the next pane id.
    pub open spec fn after_split(self, split: Split, session: S) -> TabManagerView<S> {
        let t = self.active_tab();
        TabManagerView {
            tabs: self.tabs.update(
                self.active as int,
                TabView {
                    title: t.title,
                    tree: t.tree.after_split(split, self.next_pane_id),
                    panes: t.panes.insert(self.next_pane_id, session),
                },
            ),
            active: self.active,
            next_pane_id: (self.next_pane_id + 1) as usize,
        }
    }

    /// The state with the tree of the active tab replaced by `tree`.
    pub open spec fn with_active_tree(self, tree: PaneTreeView) -> TabManagerView<S> {
        let t = self.active_tab();
        TabManagerView {
            tabs: self.tabs.update(self.active as int, TabView { title: t.title, tree, panes: t.panes }),
            active: self.active,
            next_pane_id: self.next_pane_id,
        }
    }

    /// Index of the tab that holds pane `id`, if any.
    pub open spec fn tab_of(self, id: usize) -> Option<int> {
        if exists|i: int| 0 <= i < self.tabs.len() && #[trigger] self.tabs[i].panes.contains_key(id) {
            Some(choose|i: int| 0 <= i < self.tabs.len() && #[trigger] self.tabs[i].panes.contains_key(id))
        } else {
            None
        }
    }
}

/// Grid sizes for the panes of every tab, tab by tab.
pub open spec fn sizes_of_tabs<S>(tabs: Seq<TabView<S>>, width: u32, height: u32, cell_width: u32, cell_height: u32) -> Seq<PaneSize>
    decreases tabs.len(),
{
    if tabs.len() == 0 {
        seq![]
    } else {
        sizes_of_tabs(tabs.drop_last(), width, height, cell_width, cell_height) + sizes_of_layouts(
            tabs.last().tree.layouts(width, height),
            cell_width,
            cell_height,
        )
    }
}

/// The tabs of the window, the active one, and the allocator of pane ids. `S` is the session
/// behind a pane; dropping it ends the session.
#[verifier::reject_recursive_types(S)]
pub struct TabManager<S> {
    tabs: Vec<Tab<S>>,
    active: usize,
    next_pane_id: usize,
}

impl<S> View for TabManager<S> {
    type V = TabManagerView<S>;

    closed spec fn view(&self) -> TabManagerView<S> {
        TabManagerView {
            tabs: self.tabs@.map_values(|t: Tab<S>| t@),
            active: self.active,
            next_pane_id: self.next_pane_id,
        }
    }
}

impl<S> TabManager<S> {
    /// A manager with one tab, `Tab 1`, whose single pane has id 0 and runs `session`.
    pub fn new(session: S) -> (r: Self)
        ensures
            r@.wf(),
            r@.tabs.len() == 1,
            r@.active == 0,
            r@.next_pane_id == 1,
            r@.tabs[0].title == default_title(1),
            r@.tabs[0].tree == PaneTreeView::single(0),
            r@.tabs[0].panes == map![0usize => session],
    {
        let mut mgr = TabManager { tabs: Vec::new(), active: 0, next_pane_id: 0 };
        let tree = PaneTree::new(0);
        let mut panes = HashMap::new();
        panes.insert(0, session);
        let tab = Tab { title: tab_title(1), pane_tree: tree, panes };
        mgr.tabs.push(tab);
        mgr.next_pane_id = 1;
        proof {
            assert(mgr@.tabs[0] == tab@);
            assert(tab@.tree.ids() =~= seq![0usize]);
            assert(tab@.panes.dom() =~= tab@.tree.ids().to_set());
            assert(tab@.panes =~= map![0usize => session]);
        }
        mgr
    }

    /// The id that the next session added will get.
    pub fn next_pane_id(&self) -> (r: usize)
        ensures
            r == self@.next_pane_id,
    {
        self.next_pane_id
    }

    /// Adds a tab whose single pane runs `session`, under the next pane id, and makes it
    /// active. Returns its index.
    pub fn add_tab(&mut self, session: S) -> (r: usize)
        requires
            old(self)@.wf(),
            old(self)@.next_pane_id < usize::MAX,
        ensures
            final(self)@.wf(),
            r == old(self)@.tabs.len(),
            final(self)@.active == r,
            final(self)@.next_pane_id == old(self)@.next_pane_id + 1,
            final(self)@.tabs.len() == old(self)@.tabs.len() + 1,
            final(self)@.tabs.take(r as int) == old(self)@.tabs,
            final(self)@.tabs[r as int].title == default_title((r + 1) as nat),
            final(self)@.tabs[r as int].tree == PaneTreeView::single(old(self)@.next_pane_id),
            final(self)@.tabs[r as int].panes == map![old(self)@.next_pane_id => session],
    {
        let id = self.next_pane_id;
        self.next_pane_id = id + 1;
        let tree = PaneTree::new(id);
        let mut panes = HashMap::new();
        panes.insert(id, session);
        let tab = Tab { title: tab_title(self.tabs.len() + 1), pane_tree: tree, panes };
        let ghost old_tabs = self@.tabs;
        self.tabs.push(tab);
        let idx = self.tabs.len() - 1;
        self.active = idx;
        proof {
            assert(self@.tabs =~= old_tabs.push(tab@));
            assert(tab@.tree.ids() =~= seq![id]);
            assert(tab@.panes.dom() =~= tab@.tree.ids().to_set());
            assert(tab@.panes =~= map![id => session]);
            assert(self@.tabs.take(idx as int) =~= old_tabs);
        }
        idx
    }

    /// Closes the active tab, ending its sessions. Returns `true`, changing nothing, when it is
    /// the last tab: the application should then exit.
    pub fn close_active(&mut self) -> (last: bool)
        requires
            old(self)@.wf(),
        ensures
            final(self)@.wf(),
            last == (old(self)@.tabs.len() <= 1),
            last ==> final(self)@ == old(self)@,
            !last ==> final(self)@ == old(self)@.after_tab_close(),
    {
        if self.tabs.len() <= 1 {
            return true;
        }
        let ghost old_view = self@;
        let _closed = self.tabs.remove(self.active);
        if self.active >= self.tabs.len() {
            self.active = self.tabs.len() - 1;
        }
        proof {
            assert(self@.tabs =~= old_view.tabs.remove(old_view.active as int));
            lemma_wf_after_removal(old_view, old_view.active as int, self@);
        }
        false
    }

    /// Makes the next tab active, wrapping around.
    pub fn next_tab(&mut self)
        requires
            old(self)@.wf(),
        ensures
            final(self)@.wf(),
            final(self)@.tabs == old(self)@.tabs,
            final(self)@.next_pane_id == old(self)@.next_pane_id,
            final(self)@.active == (old(self)@.active + 1) % (old(self)@.tabs.len() as int),
    {
        if self.tabs.len() > 1 {
            self.active = (self.active + 1) % self.tabs.len();
        } else {
            assert(self.active == 0);
        }
    }

    /// Makes the previous tab active, wrapping around.
    pub fn prev_tab(&mut self)
        requires
            old(self)@.wf(),
        ensures
            final(self)@.wf(),
            final(self)@.tabs == old(self)@.tabs,
            final(self)@.next_pane_id == old(self)@.next_pane_id,
            final(self)@.active == if old(self)@.active == 0 {
                old(self)@.tabs.len() - 1
            } else {
                old(self)@.active - 1
            },
    {
        if self.tabs.len() > 1 {
            self.active = if self.active == 0 {
                self.tabs.len() - 1
            } else {
                self.active - 1
            };
        }
    }

    /// Makes tab `index` active; an index past the last tab changes nothing.
    pub fn goto_tab(&mut self, index: usize)
        requires
            old(self)@.wf(),
        ensures
            final(self)@.wf(),
            final(self)@.tabs == old(self)@.tabs,
            final(self)@.next_pane_id == old(self)@.next_pane_id,
            final(self)@.active == if index < old(self)@.tabs.len() {
                index
            } else {
                old(self)@.active
            },
    {
        if index < self.tabs.len() {
            self.active = index;
        }
    }

    pub fn active_tab(&self) -> (r: Option<&Tab<S>>)
        requires
            self@.wf(),
        ensures
            r is Some,
            r.unwrap()@ == self@.active_tab(),
    {
        Some(&self.tabs[self.active])
    }

    /// The tabs, first to last.
    pub fn iter(&self) -> (r: std::slice::Iter<'_, Tab<S>>)
        ensures
            r.remaining().unref().map_values(|t: Tab<S>| t@) == self@.tabs,
    {
        let r = self.tabs.as_slice().iter();
        proof {
            broadcast use vstd::std_specs::slice::axiom_spec_slice_iter;
            assert(r.remaining().unref() =~= self.tabs@);
            assert(r.remaining().unref().map_values(|t: Tab<S>| t@) =~= self@.tabs);
        }
        r
    }

    /// Tab `index`, if there is one.
    pub fn tab(&self, index: usize) -> (r: Option<&Tab<S>>)
        ensures
            match r {
                Some(t) => index < self@.tabs.len() && t@ == self@.tabs[index as int],
                None => index >= self@.tabs.len(),
            },
    {
        if index < self.tabs.len() {
            Some(&self.tabs[index])
        } else {
            None
        }
    }

    /// Renames the tab that holds pane `pane_id`; changes nothing when no tab holds it.
    pub fn set_tab_title_by_pane(&mut self, pane_id: usize, title: String)
        requires
            old(self)@.wf(),
        ensures
            final(self)@.wf(),
            final(self)@.active == old(self)@.active,
            final(self)@.next_pane_id == old(self)@.next_pane_id,
            final(self)@.tabs.len() == old(self)@.tabs.len(),
            forall|i: int|
                0 <= i < old(self)@.tabs.len() ==> #[trigger] final(self)@.tabs[i] == if old(
                    self,
                )@.tabs[i].panes.contains_key(pane_id) {
                    TabView { title: title@, tree: old(self)@.tabs[i].tree, panes: old(self)@.tabs[i].panes }
                } else {
                    old(self)@.tabs[i]
                },
    {
        let ghost old_view = self@;
        let mut i: usize = 0;
        while i < self.tabs.len()
            invariant
                old_view.wf(),
                old_view == old(self)@,
                self@ == old_view,
                i <= old_view.tabs.len(),
                forall|k: int| 0 <= k < i ==> !(#[trigger] old_view.tabs[k].panes.contains_key(pane_id)),
            decreases old_view.tabs.len() - i,
        {
            if self.tabs[i].panes.contains_key(&pane_id) {
                let tab = &mut self.tabs[i];
                tab.title = title;
                proof {
                    assert forall|k: int| 0 <= k < old_view.tabs.len() implies #[trigger] self@.tabs[k]
                        == if old_view.tabs[k].panes.contains_key(pane_id) {
                        TabView { title: title@, tree: old_view.tabs[k].tree, panes: old_view.tabs[k].panes }
                    } else {
                        old_view.tabs[k]
                    } by {
                        if k != i {
                            assert(self@.tabs[k] == old_view.tabs[k]);
                            if k > i {
                                assert(old_view.tabs[i as int].panes.contains_key(pane_id));
                            }
                        }
                    }
                    assert forall|k: int| 0 <= k < self@.tabs.len() implies #[trigger] self@.tabs[k].wf() by {
                        assert(old_view.tabs[k].wf());
                    }
                    assert forall|k: int, id: usize| 0 <= k < self@.tabs.len() && #[trigger] self@.tabs[k].panes.contains_key(id)
                        implies id < self@.next_pane_id by {
                        assert(old_view.tabs[k].panes.contains_key(id));
                    }
                    assert forall|k: int, j: int, id: usize|
                        0 <= k < self@.tabs.len() && 0 <= j < self@.tabs.len() && k != j
                            && #[trigger] self@.tabs[k].panes.contains_key(id)
                        implies !#[trigger] self@.tabs[j].panes.contains_key(id) by {
                        assert(old_view.tabs[k].panes.contains_key(id));
                    }
                }
                return;
            }
            i += 1;
        }
    }

    pub fn active_index(&self) -> (r: usize)
        ensures
            r == self@.active,
    {
        self.active
    }

    pub fn count(&self) -> (r: usize)
        ensures
            r == self@.tabs.len(),
    {
        self.tabs.len()
    }

    /// The session of the active pane of the active tab.
    pub fn active_pane(&self) -> (r: Option<&S>)
        requires
            self@.wf(),
        ensures
            r is Some,
            *r.unwrap() == self@.active_tab().panes[self@.active_tab().tree.active],
    {
        let tab = &self.tabs[self.active];
        let pane_id = tab.pane_tree.active_pane_id();
        proof {
            let t = self@.active_tab();
            assert(t.wf());
            assert(t.tree.ids().to_set().contains(pane_id));
        }
        tab.panes.get(&pane_id)
    }

    /// Grid sizes of the panes of `tab` in a `width` by `height` viewport.
    fn resize_tab_panes(
        tab: &Tab<S>,
        width: u32,
        height: u32,
        cell_width: u32,
        cell_height: u32,
        out: &mut Vec<PaneSize>,
    )
        requires
            tab@.wf(),
            cell_width > 0,
            cell_height > 0,
        ensures
            final(out)@ == old(out)@ + sizes_of_layouts(tab@.tree.layouts(width, height), cell_width, cell_height),
    {
        let layouts = tab.pane_tree.calculate_layouts(width, height);
        sizes_for(&layouts, cell_width, cell_height, out);
    }

    /// Splits the active pane of the active tab; `session` runs in the new pane, which gets
    /// the next pane id. Returns the grid size of every pane of that tab in a `width` by
    /// `height` viewport, for the sessions to be resized.
    pub fn split_active(
        &mut self,
        split: Split,
        session: S,
        width: u32,
        height: u32,
        cell_width: u32,
        cell_height: u32,
    ) -> (r: Vec<PaneSize>)
        requires
            old(self)@.wf(),
            old(self)@.next_pane_id < usize::MAX,
            cell_width > 0,
            cell_height > 0,
        ensures
            final(self)@.wf(),
            final(self)@ == old(self)@.after_split(split, session),
            r@ == sizes_of_layouts(final(self)@.active_tab().tree.layouts(width, height), cell_width, cell_height),
    {
        let ghost v = self@;
        let id = self.next_pane_id;
        self.next_pane_id = id + 1;
        let active = self.active;
        proof {
            let t = v.active_tab();
            assert(v.tabs[active as int].wf());
            assert(!t.panes.contains_key(id));
            assert(!t.tree.ids().to_set().contains(id));
            let i = t.tree.active_index();
            assert(t.tree.ids()[i] == t.tree.active);
        }
        let tab = &mut self.tabs[active];
        tab.pane_tree.split_active(split, id);
        tab.panes.insert(id, session);
        proof {
            let t = v.active_tab();
            let nt = TabView {
                title: t.title,
                tree: t.tree.after_split(split, id),
                panes: t.panes.insert(id, session),
            };
            lemma_insert_to_set(t.tree.ids(), t.tree.active_index() + 1, id);
            assert(nt.panes.dom() =~= nt.tree.ids().to_set());
            assert(self@.tabs =~= v.tabs.update(active as int, nt));
            lemma_wf_after_update(v, active as int, nt, self@);
        }
        let mut sizes = Vec::new();
        Self::resize_tab_panes(&self.tabs[active], width, height, cell_width, cell_height, &mut sizes);
        assert(sizes@ =~= sizes_of_layouts(self@.active_tab().tree.layouts(width, height), cell_width, cell_height));
        sizes
    }

    /// Closes the active pane of the active tab, ending its session. When it is the tab's last
    /// pane the tab is closed as by [`TabManager::close_active`], and `true` means the
    /// application should exit.
    pub fn close_active_pane(&mut self) -> (r: bool)
        requires
            old(self)@.wf(),
        ensures
            final(self)@.wf(),
            old(self)@.active_tab().tree.ids().len() <= 1 ==> {
                &&& r == (old(self)@.tabs.len() <= 1)
                &&& r ==> final(self)@ == old(self)@
                &&& !r ==> final(self)@ == old(self)@.after_tab_close()
            },
            old(self)@.active_tab().tree.ids().len() > 1 ==> !r && final(self)@ == old(self)@.after_pane_close(
                old(self)@.active as int,
                old(self)@.active_tab().tree.active,
            ),
    {
        let active = self.active;
        proof {
            assert(self@.tabs[active as int].wf());
        }
        if self.tabs[active].pane_tree.pane_count() <= 1 {
            return self.close_active();
        }
        let ghost v = self@;
        let tab = &mut self.tabs[active];
        let pane_id = tab.pane_tree.active_pane_id();
        tab.pane_tree.close_active();
        let _closed = tab.panes.remove(&pane_id);
        proof {
            let t = v.active_tab();
            let nt = TabView { title: t.title, tree: t.tree.after_close_of(pane_id), panes: t.panes.remove(pane_id) };
            let i = t.tree.active_index();
            assert(t.tree.ids()[i] == t.tree.active);
            lemma_remove_to_set(t.tree.ids(), i);
            assert(nt.panes.dom() =~= nt.tree.ids().to_set());
            assert(self@.tabs =~= v.tabs.update(active as int, nt));
            lemma_wf_after_update(v, active as int, nt, self@);
        }
        false
    }

    /// Closes pane `pane_id` wherever it is, as when its process has exited, and ends its
    /// session. The pane need not be active, nor its tab. When it is its tab's last pane the tab
    /// is closed, the same tab staying active if it was another; `true` means it was the last
    /// pane of the last tab and the application should exit. An unknown id changes nothing.
    pub fn close_pane_by_id(&mut self, pane_id: usize) -> (r: bool)
        requires
            old(self)@.wf(),
        ensures
            final(self)@.wf(),
            match old(self)@.tab_of(pane_id) {
                None => !r && final(self)@ == old(self)@,
                Some(i) => if old(self)@.tabs[i].tree.ids().len() <= 1 {
                    &&& r == (old(self)@.tabs.len() <= 1)
                    &&& r ==> final(self)@ == old(self)@
                    &&& !r ==> final(self)@ == (TabManagerView {
                        tabs: old(self)@.tabs.remove(i),
                        active: TabManagerView::<S>::index_after_removal(old(self)@.active, i, old(self)@.tabs.len() as int),
                        next_pane_id: old(self)@.next_pane_id,
                    })
                } else {
                    !r && final(self)@ == old(self)@.after_pane_close(i, pane_id)
                },
            },
    {
        let ghost v = self@;
        let tab_idx = match self.find_tab(pane_id) {
            Some(i) => i,
            None => {
                return false;
            },
        };
        proof {
            assert(v.tabs[tab_idx as int].panes.contains_key(pane_id));
            assert(v.tabs[tab_idx as int].wf());
            assert(v.tabs[tab_idx as int].tree.ids().to_set().contains(pane_id));
        }
        if self.tabs[tab_idx].pane_tree.pane_count() <= 1 {
            if self.tabs.len() <= 1 {
                return true;
            }
            let _closed = self.tabs.remove(tab_idx);
            if self.active > tab_idx {
                self.active = self.active - 1;
            } else if self.active >= self.tabs.len() {
                self.active = self.tabs.len() - 1;
            }
            proof {
                assert(self@.tabs =~= v.tabs.remove(tab_idx as int));
                lemma_wf_after_removal(v, tab_idx as int, self@);
            }
            return false;
        }
        let tab = &mut self.tabs[tab_idx];
        let ghost t = v.tabs[tab_idx as int];
        let ghost i = t.tree.ids().index_of(pane_id);
        proof {
            assert(t.tree.ids()[i] == pane_id);
            lemma_remove_no_dup(t.tree.ids(), i);
        }
        if tab.pane_tree.active_pane_id() == pane_id {
            tab.pane_tree.close_active();
        } else {
            let saved_active = tab.pane_tree.active_pane_id();
            tab.pane_tree.set_active(pane_id);
            tab.pane_tree.close_active();
            tab.pane_tree.set_active(saved_active);
        }
        let _closed = tab.panes.remove(&pane_id);
        proof {
            let nt = TabView { title: t.title, tree: t.tree.after_close_of(pane_id), panes: t.panes.remove(pane_id) };
            lemma_remove_to_set(t.tree.ids(), i);
            assert(nt.panes.dom() =~= nt.tree.ids().to_set());
            assert(self@.tabs =~= v.tabs.update(tab_idx as int, nt));
            lemma_wf_after_update(v, tab_idx as int, nt, self@);
        }
        false
    }

    /// Index of the tab that holds pane `pane_id`.
    fn find_tab(&self, pane_id: usize) -> (r: Option<usize>)
        requires
            self@.wf(),
        ensures
            r == match self@.tab_of(pane_id) {
                Some(i) => Some(i as usize),
                None => None::<usize>,
            },
    {
        let ghost v = self@;
        let mut i: usize = 0;
        while i < self.tabs.len()
            invariant
                self@ == v,
                v.wf(),
                i <= v.tabs.len(),
                forall|k: int| 0 <= k < i ==> !(#[trigger] v.tabs[k].panes.contains_key(pane_id)),
            decreases v.tabs.len() - i,
        {
            if self.tabs[i].panes.contains_key(&pane_id) {
                proof {
                    assert(v.tabs[i as int].panes.contains_key(pane_id));
                    let j = choose|j: int| 0 <= j < v.tabs.len() && #[trigger] v.tabs[j].panes.contains_key(pane_id);
                    assert(j == i);
                }
                return Some(i);
            }
            i += 1;
        }
        None
    }

    pub fn toggle_zoom(&mut self)
        requires
            old(self)@.wf(),
        ensures
            final(self)@.wf(),
            final(self)@ == old(self)@.with_active_tree(old(self)@.active_tab().tree.after_toggle_zoom()),
    {
        let ghost v = self@;
        let active = self.active;
        proof {
            assert(v.tabs[active as int].wf());
        }
        self.tabs[active].pane_tree.toggle_zoom();
        proof {
            self.lemma_active_tree_changed(v);
        }
    }

    /// Makes pane `pane_id` of the active tab active; an id not in that tab changes nothing.
    pub fn focus_pane(&mut self, pane_id: usize)
        requires
            old(self)@.wf(),
        ensures
            final(self)@.wf(),
            final(self)@ == old(self)@.with_active_tree(
                if old(self)@.active_tab().tree.ids().contains(pane_id) {
                    PaneTreeView {
                        root: old(self)@.active_tab().tree.root,
                        active: pane_id,
                        zoomed: old(self)@.active_tab().tree.zoomed,
                    }
                } else {
                    old(self)@.active_tab().tree
                },
            ),
    {
        let ghost v = self@;
        let active = self.active;
        proof {
            assert(v.tabs[active as int].wf());
        }
        self.tabs[active].pane_tree.set_active(pane_id);
        proof {
            self.lemma_active_tree_changed(v);
        }
    }

    pub fn focus_next_pane(&mut self)
        requires
            old(self)@.wf(),
        ensures
            final(self)@.wf(),
            final(self)@ == old(self)@.with_active_tree(old(self)@.active_tab().tree.after_focus_next()),
    {
        let ghost v = self@;
        let active = self.active;
        proof {
            assert(v.tabs[active as int].wf());
        }
        self.tabs[active].pane_tree.focus_next();
        proof {
            self.lemma_active_tree_changed(v);
        }
    }

    pub fn focus_prev_pane(&mut self)
        requires
            old(self)@.wf(),
        ensures
            final(self)@.wf(),
            final(self)@ == old(self)@.with_active_tree(old(self)@.active_tab().tree.after_focus_prev()),
    {
        let ghost v = self@;
        let active = self.active;
        proof {
            assert(v.tabs[active as int].wf());
        }
        self.tabs[active].pane_tree.focus_prev();
        proof {
            self.lemma_active_tree_changed(v);
        }
    }

    /// Sets the ratio of the split node at `path` in the active tab, as
    /// [`PaneTree::set_ratio_at`] does.
    pub fn set_split_ratio(&mut self, path: &[bool], ratio: u32)
        requires
            old(self)@.wf(),
        ensures
            final(self)@.wf(),
            final(self)@ == old(self)@.with_active_tree(
                PaneTreeView {
                    root: old(self)@.active_tab().tree.root.with_ratio(path@, clamp_ratio(ratio)),
                    active: old(self)@.active_tab().tree.active,
                    zoomed: old(self)@.active_tab().tree.zoomed,
                },
            ),
    {
        let ghost v = self@;
        let active = self.active;
        proof {
            assert(v.tabs[active as int].wf());
            v.active_tab().tree.root.lemma_with_ratio(path@, clamp_ratio(ratio));
        }
        self.tabs[active].pane_tree.set_ratio_at(path, ratio);
        proof {
            self.lemma_active_tree_changed(v);
        }
    }

    /// Moves focus in the active tab to the nearest pane in direction `dir`, judged by the pane
    /// rectangles of a `width` by `height` viewport; changes nothing when no pane lies that way.
    pub fn focus_direction(&mut self, dir: Direction, width: u32, height: u32)
        requires
            old(self)@.wf(),
        ensures
            final(self)@.wf(),
            ({
                let t = old(self)@.active_tab().tree;
                let ls = t.layouts(width, height);
                let from = t.active_layout_index();
                &&& !has_candidate(ls, from, dir) ==> final(self)@ == old(self)@
                &&& has_candidate(ls, from, dir) ==> exists|i: int| #[trigger] is_nearest(ls, from, i, dir)
                &&& forall|i: int| #[trigger] is_nearest(ls, from, i, dir) ==> final(self)@ == old(self)@.with_active_tree(
                    PaneTreeView { root: t.root, active: ls[i].pane_id, zoomed: t.zoomed },
                )
            }),
    {
        let ghost v = self@;
        let ghost t = v.active_tab().tree;
        let active = self.active;
        proof {
            assert(v.tabs[active as int].wf());
        }
        let layouts = self.tabs[active].pane_tree.calculate_layouts(width, height);
        let current = self.tabs[active].pane_tree.active_pane_id();
        let ghost from: int = t.active_layout_index();
        proof {
            t.root.lemma_layout_ids(0, 0, width, height);
            assert(t.ids()[t.active_index()] == t.active);
        }
        let mut f: usize = 0;
        while f < layouts.len() && layouts[f].pane_id != current
            invariant
                layouts@ == t.layouts(width, height),
                current == t.active,
                0 <= from < layouts@.len(),
                layouts@[from].pane_id == current,
                f <= from,
            decreases layouts@.len() - f,
        {
            proof {
                if !t.zoomed && f + 1 > from {
                    assert(t.ids()[f as int] == layouts@[f as int].pane_id);
                    assert(t.ids()[from] == layouts@[from].pane_id);
                    assert(t.root.wf());
                }
            }
            f += 1;
        }
        proof {
            if !t.zoomed && f < from {
                assert(layouts@[f as int].pane_id == current);
                assert(t.ids()[f as int] == layouts@[f as int].pane_id);
                assert(t.ids()[from] == layouts@[from].pane_id);
                assert(t.root.wf());
            }
        }
        if let Some(i) = nearest_in_direction(&layouts, f, dir) {
            let target = layouts[i].pane_id;
            proof {
                assert(is_nearest(t.layouts(width, height), from, i as int, dir));
                if !t.zoomed {
                    assert(t.ids()[i as int] == target);
                    assert(t.ids().contains(target));
                }
            }
            self.tabs[active].pane_tree.set_active(target);
            proof {
                self.lemma_active_tree_changed(v);
                assert forall|k: int| #[trigger] is_nearest(t.layouts(width, height), from, k, dir) implies k == i by {
                    if k < i {
                        assert(is_candidate(layouts@, from, k, dir));
                    } else if k > i {
                        assert(is_candidate(layouts@, from, i as int, dir));
                    }
                }
            }
        }
    }

    /// Pane rectangles of the active tab in a `width` by `height` viewport.
    pub fn active_layouts(&self, width: u32, height: u32) -> (r: Vec<PaneLayout>)
        requires
            self@.wf(),
        ensures
            r@ == self@.active_tab().tree.layouts(width, height),
    {
        proof {
            assert(self@.tabs[self.active as int].wf());
        }
        self.tabs[self.active].pane_tree.calculate_layouts(width, height)
    }

    /// Dividers of the active tab in a `width` by `height` viewport.
    pub fn active_dividers(&self, width: u32, height: u32) -> (r: Vec<DividerInfo>)
        requires
            self@.wf(),
        ensures
            divider_views(r@) == self@.active_tab().tree.root.dividers(0, 0, width, height, seq![]),
    {
        proof {
            assert(self@.tabs[self.active as int].wf());
        }
        self.tabs[self.active].pane_tree.collect_dividers(width, height)
    }

    /// Grid sizes of the panes of the active tab in a `width` by `height` viewport.
    pub fn resize_active_tab(&self, width: u32, height: u32, cell_width: u32, cell_height: u32) -> (r: Vec<PaneSize>)
        requires
            self@.wf(),
            cell_width > 0,
            cell_height > 0,
        ensures
            r@ == sizes_of_layouts(self@.active_tab().tree.layouts(width, height), cell_width, cell_height),
    {
        proof {
            assert(self@.tabs[self.active as int].wf());
        }
        let mut sizes = Vec::new();
        Self::resize_tab_panes(&self.tabs[self.active], width, height, cell_width, cell_height, &mut sizes);
        assert(sizes@ =~= sizes_of_layouts(self@.active_tab().tree.layouts(width, height), cell_width, cell_height));
        sizes
    }

    /// Grid sizes of the panes of every tab in a `width` by `height` viewport, tab by tab.
    pub fn resize_all(&self, width: u32, height: u32, cell_width: u32, cell_height: u32) -> (r: Vec<PaneSize>)
        requires
            self@.wf(),
            cell_width > 0,
            cell_height > 0,
        ensures
            r@ == sizes_of_tabs(self@.tabs, width, height, cell_width, cell_height),
    {
        let mut sizes = Vec::new();
        let mut i: usize = 0;
        while i < self.tabs.len()
            invariant
                self@.wf(),
                cell_width > 0,
                cell_height > 0,
                i <= self@.tabs.len(),
                sizes@ == sizes_of_tabs(self@.tabs.take(i as int), width, height, cell_width, cell_height),
            decreases self@.tabs.len() - i,
        {
            proof {
                assert(self@.tabs[i as int].wf());
                assert(self@.tabs.take(i + 1).drop_last() =~= self@.tabs.take(i as int));
            }
            Self::resize_tab_panes(&self.tabs[i], width, height, cell_width, cell_height, &mut sizes);
            i += 1;
        }
        assert(self@.tabs.take(self@.tabs.len() as int) =~= self@.tabs);
        sizes
    }

    /// After a change to the tree of the active tab that keeps its panes, the manager is the old
    /// one with that tree, and well formed.
    proof fn lemma_active_tree_changed(&self, v: TabManagerView<S>)
        requires
            v.wf(),
            self.active == v.active,
            self.next_pane_id == v.next_pane_id,
            self.tabs@.len() == v.tabs.len(),
            forall|k: int| 0 <= k < v.tabs.len() && k != v.active ==> #[trigger] self.tabs@[k]@ == v.tabs[k],
            self.tabs@[v.active as int]@.title == v.active_tab().title,
            self.tabs@[v.active as int]@.panes == v.active_tab().panes,
            self.tabs@[v.active as int]@.tree.wf(),
            self.tabs@[v.active as int]@.tree.ids().to_set() == v.active_tab().tree.ids().to_set(),
        ensures
            self@ == v.with_active_tree(self.tabs@[v.active as int]@.tree),
            self@.wf(),
    {
        let nt = self.tabs@[v.active as int]@;
        assert(v.tabs[v.active as int].wf());
        assert(self@.tabs =~= v.tabs.update(v.active as int, nt));
        lemma_wf_after_update(v, v.active as int, nt, self@);
    }
}

/// Inserting an element adds it to the set of elements.
proof fn lemma_insert_to_set(s: Seq<usize>, i: int, v: usize)
    requires
        0 <= i <= s.len(),
    ensures
        s.insert(i, v).to_set() == s.to_set().insert(v),
{
    let t = s.insert(i, v);
    assert forall|x: usize| t.contains(x) <==> s.contains(x) || x == v by {
        if t.contains(x) {
            let k = choose|k: int| 0 <= k < t.len() && t[k] == x;
            if k < i {
                assert(s[k] == x);
            } else if k > i {
                assert(s[k - 1] == x);
            }
        }
        if s.contains(x) {
            let k = choose|k: int| 0 <= k < s.len() && s[k] == x;
            if k < i {
                assert(t[k] == x);
            } else {
                assert(t[k + 1] == x);
            }
        }
        if x == v {
            assert(t[i] == v);
        }
    }
    assert(t.to_set() =~= s.to_set().insert(v));
}

/// Removing an element of a sequence without repeats takes it out of the set of elements.
proof fn lemma_remove_to_set(s: Seq<usize>, i: int)
    requires
        s.no_duplicates(),
        0 <= i < s.len(),
    ensures
        s.remove(i).to_set() == s.to_set().remove(s[i]),
{
    let t = s.remove(i);
    lemma_remove_no_dup(s, i);
    assert forall|x: usize| t.contains(x) implies s.contains(x) by {
        let k = choose|k: int| 0 <= k < t.len() && t[k] == x;
        if k < i {
            assert(s[k] == x);
        } else {
            assert(s[k + 1] == x);
        }
    }
    assert(t.to_set() =~= s.to_set().remove(s[i]));
}

/// Replacing tab `i` by a well formed tab whose panes are its old panes or fresh ids keeps the
/// manager well formed.
proof fn lemma_wf_after_update<S>(v: TabManagerView<S>, i: int, t: TabView<S>, w: TabManagerView<S>)
    requires
        v.wf(),
        0 <= i < v.tabs.len(),
        t.wf(),
        w.tabs == v.tabs.update(i, t),
        w.active == v.active,
        w.next_pane_id >= v.next_pane_id,
        forall|id: usize| #[trigger] t.panes.contains_key(id) ==> v.tabs[i].panes.contains_key(id) || (
            v.next_pane_id <= id < w.next_pane_id),
    ensures
        w.wf(),
{
    assert forall|k: int| 0 <= k < w.tabs.len() implies #[trigger] w.tabs[k].wf() by {
        if k != i {
            assert(w.tabs[k] == v.tabs[k]);
        }
    }
    assert forall|k: int, id: usize| 0 <= k < w.tabs.len() && #[trigger] w.tabs[k].panes.contains_key(id)
        implies id < w.next_pane_id by {
        if k != i {
            assert(w.tabs[k] == v.tabs[k]);
            assert(v.tabs[k].panes.contains_key(id));
        } else {
            assert(t.panes.contains_key(id));
        }
    }
    assert forall|k: int, j: int, id: usize|
        0 <= k < w.tabs.len() && 0 <= j < w.tabs.len() && k != j && #[trigger] w.tabs[k].panes.contains_key(id)
        implies !#[trigger] w.tabs[j].panes.contains_key(id) by {
        if k == i {
            assert(w.tabs[j] == v.tabs[j]);
            assert(t.panes.contains_key(id));
            if v.tabs[j].panes.contains_key(id) {
                assert(id < v.next_pane_id);
            }
        } else if j == i {
            assert(w.tabs[k] == v.tabs[k]);
            assert(v.tabs[k].panes.contains_key(id));
            assert(id < v.next_pane_id);
            if t.panes.contains_key(id) {
                assert(v.tabs[i].panes.contains_key(id));
            }
        } else {
            assert(w.tabs[k] == v.tabs[k]);
            assert(w.tabs[j] == v.tabs[j]);
        }
    }
}

/// Taking a tab out keeps the manager well formed, with the active index clamped.
proof fn lemma_wf_after_removal<S>(v: TabManagerView<S>, i: int, w: TabManagerView<S>)
    requires
        v.wf(),
        v.tabs.len() >= 2,
        0 <= i < v.tabs.len(),
        w.tabs == v.tabs.remove(i),
        w.next_pane_id == v.next_pane_id,
        w.active < w.tabs.len(),
    ensures
        w.wf(),
{
    assert forall|k: int| 0 <= k < w.tabs.len() implies #[trigger] w.tabs[k].wf() by {
        let ok = if k < i { k } else { k + 1 };
        assert(w.tabs[k] == v.tabs[ok]);
    }
    assert forall|k: int, id: usize| 0 <= k < w.tabs.len() && #[trigger] w.tabs[k].panes.contains_key(id)
        implies id < w.next_pane_id by {
        let ok = if k < i { k } else { k + 1 };
        assert(w.tabs[k] == v.tabs[ok]);
    }
    assert forall|k: int, j: int, id: usize|
        0 <= k < w.tabs.len() && 0 <= j < w.tabs.len() && k != j && #[trigger] w.tabs[k].panes.contains_key(id)
        implies !#[trigger] w.tabs[j].panes.contains_key(id) by {
        let ok = if k < i { k } else { k + 1 };
        let oj = if j < i { j } else { j + 1 };
        assert(w.tabs[k] == v.tabs[ok]);
        assert(w.tabs[j] == v.tabs[oj]);
    }
}

} // verus!
