use vstd::prelude::*;

verus! {

/// Side of a newly made glyph atlas, in pixels.
pub const INITIAL_ATLAS_SIZE: i32 = 2048;

/// Largest side an atlas is grown to.
pub const MAX_ATLAS_SIZE: i32 = 8192;

/// Where a glyph's bitmap goes in the atlas texture, in pixels.
#[derive(Clone, Copy, Debug, PartialEq, Eq, Structural)]
pub struct AtlasSlot {
    pub x: i32,
    pub y: i32,
    pub width: i32,
    pub height: i32,
}

/// Value of an [`Atlas`].
pub struct AtlasView {
    pub tex_id: u32,
    pub width: i32,
    pub height: i32,
    /// Pixels used so far in the current row.
    pub row_extent: i32,
    /// Top of the current row.
    pub row_baseline: i32,
    /// Height of the tallest glyph in the current row.
    pub row_tallest: i32,
}

impl AtlasView {
    /// Sizes and offsets are not negative, and the current row lies within the texture.
    pub open spec fn wf(self) -> bool {
        &&& 0 <= self.width
        &&& 0 <= self.height
        &&& 0 <= self.row_extent
        &&& 0 <= self.row_baseline
        &&& 0 <= self.row_tallest
        &&& self.row_baseline + self.row_tallest <= self.height
    }

    /// An empty atlas of `size` by `size` pixels on texture `tex_id`.
    pub open spec fn empty(tex_id: u32, size: i32) -> AtlasView {
        AtlasView { tex_id, width: size, height: size, row_extent: 0, row_baseline: 0, row_tallest: 0 }
    }

    /// The state after packing a `w` by `h` glyph, and the slot it gets: a glyph of no area
    /// takes no room; one that does not fit in the rest of the row starts a new row below the
    /// tallest glyph of this one; one that does not fit below the last row gets no slot.
    pub open spec fn after_insert(self, w: i32, h: i32) -> (AtlasView, Option<AtlasSlot>) {
        if w == 0 || h == 0 {
            (self, Some(AtlasSlot { x: 0, y: 0, width: 0, height: 0 }))
        } else {
            let s = if self.row_extent + w > self.width {
                AtlasView {
                    row_baseline: (self.row_baseline + self.row_tallest) as i32,
                    row_extent: 0,
                    row_tallest: 0,
                    ..self
                }
            } else {
                self
            };
            if s.row_baseline + h > s.height {
                (s, None)
            } else {
                (
                    AtlasView {
                        row_extent: (s.row_extent + w) as i32,
                        row_tallest: if h > s.row_tallest { h } else { s.row_tallest },
                        ..s
                    },
                    Some(AtlasSlot { x: s.row_extent, y: s.row_baseline, width: w, height: h }),
                )
            }
        }
    }
}

/// Row-by-row packing of glyph bitmaps into one square texture.
pub struct Atlas {
    tex_id: u32,
    width: i32,
    height: i32,
    row_extent: i32,
    row_baseline: i32,
    row_tallest: i32,
}

impl View for Atlas {
    type V = AtlasView;

    closed spec fn view(&self) -> AtlasView {
        AtlasView {
            tex_id: self.tex_id,
            width: self.width,
            height: self.height,
            row_extent: self.row_extent,
            row_baseline: self.row_baseline,
            row_tallest: self.row_tallest,
        }
    }
}

impl Atlas {
    /// An empty atlas of `size` by `size` pixels on the texture `tex_id`.
    pub fn new(tex_id: u32, size: i32) -> (r: Self)
        requires
            size >= 0,
        ensures
            r@ == AtlasView::empty(tex_id, size),
            r@.wf(),
    {
        Atlas { tex_id, width: size, height: size, row_extent: 0, row_baseline: 0, row_tallest: 0 }
    }

    pub fn tex_id(&self) -> (r: u32)
        ensures
            r == self@.tex_id,
    {
        self.tex_id
    }

    pub fn width(&self) -> (r: i32)
        ensures
            r == self@.width,
    {
        self.width
    }

    /// Starts over, empty, on the texture `tex_id` of `new_size` by `new_size` pixels; slots
    /// handed out before no longer hold.
    pub fn regrow(&mut self, tex_id: u32, new_size: i32)
        requires
            new_size >= 0,
        ensures
            final(self)@ == AtlasView::empty(tex_id, new_size),
            final(self)@.wf(),
    {
        self.tex_id = tex_id;
        self.width = new_size;
        self.height = new_size;
        self.row_extent = 0;
        self.row_baseline = 0;
        self.row_tallest = 0;
    }

    /// Finds room for a `glyph_width` by `glyph_height` bitmap; `None` when the atlas is full.
    pub fn insert(&mut self, glyph_width: i32, glyph_height: i32) -> (r: Option<AtlasSlot>)
        requires
            old(self)@.wf(),
            glyph_width >= 0,
            glyph_height >= 0,
        ensures
            final(self)@.wf(),
            (final(self)@, r) == old(self)@.after_insert(glyph_width, glyph_height),
    {
        if glyph_width == 0 || glyph_height == 0 {
            return Some(AtlasSlot { x: 0, y: 0, width: 0, height: 0 });
        }
        if self.row_extent as i64 + glyph_width as i64 > self.width as i64 {
            self.row_baseline = self.row_baseline + self.row_tallest;
            self.row_extent = 0;
            self.row_tallest = 0;
        }
        if self.row_baseline as i64 + glyph_height as i64 > self.height as i64 {
            return None;
        }
        let x = self.row_extent;
        let y = self.row_baseline;
        self.row_extent = x + glyph_width;
        if glyph_height > self.row_tallest {
            self.row_tallest = glyph_height;
        }
        Some(AtlasSlot { x, y, width: glyph_width, height: glyph_height })
    }
}

/// Side to grow a full atlas of side `current` to: double, up to the largest size; `None`
/// once it is that large.
pub fn grown_size(current: i32) -> (r: Option<i32>)
    ensures
        current >= MAX_ATLAS_SIZE ==> r is None,
        current < MAX_ATLAS_SIZE ==> r == Some(
            if 2 * current <= MAX_ATLAS_SIZE {
                (2 * current) as i32
            } else {
                MAX_ATLAS_SIZE
            },
        ),
{
    if current >= MAX_ATLAS_SIZE {
        return None;
    }
    let doubled: i64 = 2 * current as i64;
    Some(if doubled <= MAX_ATLAS_SIZE as i64 { doubled as i32 } else { MAX_ATLAS_SIZE })
}

} // verus!
