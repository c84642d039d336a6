//! The glyph atlas's bookkeeping: where each rasterized glyph goes on a
//! shelf-packed square of texels, and the cache of glyphs already placed.
//!
//! The texture itself, and the upload into it, belong to the GPU side of the
//! application; this module decides only *where*. The promise it keeps is the
//! one the text renderer relies on when it writes into the atlas without ever
//! clearing it: since the last reset, no two glyphs are given overlapping
//! texels, and no glyph is given a texel outside the atlas.

use vstd::prelude::*;
use std::collections::HashMap;
use std::hash::Hash;

verus! {

/// Where a glyph's bitmap lives in the atlas, in texels, together with the
/// offset from the pen position to the bitmap's top-left corner.
#[derive(Clone, Copy, Debug, PartialEq, Eq, Structural)]
pub struct Slot {
    pub x: u32,
    pub y: u32,
    pub width: u32,
    pub height: u32,
    pub left: i32,
    pub top: i32,
}

/// A rectangle of texels handed out by the atlas: `x, y, width, height`.
pub type Region = (int, int, int, int);

/// Two regions share no texel.
pub open spec fn disjoint(a: Region, b: Region) -> bool {
    ||| a.0 + a.2 <= b.0
    ||| b.0 + b.2 <= a.0
    ||| a.1 + a.3 <= b.1
    ||| b.1 + b.3 <= a.1
}

/// A region lies wholly inside a `size` × `size` atlas.
pub open spec fn inside(r: Region, size: int) -> bool {
    0 <= r.0 && 0 <= r.1 && r.0 + r.2 <= size && r.1 + r.3 <= size
}

/// The packer's state: the atlas edge, the pen on the current shelf, the top
/// of the current shelf, and the tallest glyph on it so far.
pub struct ShelfState {
    pub size: int,
    pub cursor_x: int,
    pub cursor_y: int,
    pub shelf_height: int,
}

/// One allocation, as the packer makes it: a request that cannot fit at all
/// is refused outright; one that runs off the right edge first opens the next
/// shelf (one texel below the tallest glyph of this one); and a request that
/// still runs off the bottom is refused, leaving the new shelf open.
pub open spec fn shelf_step(s: ShelfState, width: int, height: int) -> (ShelfState, Option<(int, int)>) {
    if width == 0 || height == 0 || width > s.size || height > s.size {
        (s, None)
    } else {
        let opened = if s.cursor_x + width > s.size {
            ShelfState { size: s.size, cursor_x: 0, cursor_y: s.cursor_y + s.shelf_height + 1, shelf_height: 0 }
        } else {
            s
        };
        if opened.cursor_y + height > s.size {
            (opened, None)
        } else {
            (
                ShelfState {
                    size: s.size,
                    cursor_x: opened.cursor_x + width + 1,
                    cursor_y: opened.cursor_y,
                    shelf_height: if opened.shelf_height >= height { opened.shelf_height } else { height },
                },
                Some((opened.cursor_x, opened.cursor_y)),
            )
        }
    }
}

/// A corner handed out by [`Atlas::allocate`], as integers.
pub open spec fn corner(slot: Option<(u32, u32)>) -> Option<(int, int)> {
    match slot {
        Some(p) => Some((p.0 as int, p.1 as int)),
        None => None,
    }
}

/// A shelf-packed square of texels: glyphs are laid left to right along a
/// shelf, a one-texel gap between them, and a new shelf opens under the
/// tallest glyph of the last one when a glyph no longer fits beside it.
pub struct Atlas {
    size: u32,
    cursor_x: u32,
    cursor_y: u32,
    shelf_height: u32,
    /// Every region handed out since the atlas was made or last reset.
    placed: Ghost<Seq<Region>>,
}

impl View for Atlas {
    type V = ShelfState;

    closed spec fn view(&self) -> ShelfState {
        ShelfState {
            size: self.size as int,
            cursor_x: self.cursor_x as int,
            cursor_y: self.cursor_y as int,
            shelf_height: self.shelf_height as int,
        }
    }
}

impl Atlas {
    /// The atlas edge, in texels.
    pub const SIZE: u32 = 1024;

    /// The regions handed out since the atlas was made or last reset, oldest
    /// first.
    pub closed spec fn placed(&self) -> Seq<Region> {
        self.placed@
    }

    /// The packer's own consistency: every region handed out lies inside the
    /// atlas, on a finished shelf above the pen or to the left of the pen on
    /// the current one, and no two of them overlap.
    pub closed spec fn wf(&self) -> bool {
        let placed = self.placed@;
        &&& self.size == Self::SIZE
        &&& self.cursor_x <= self.size + 1
        &&& self.cursor_y <= self.size + 1
        &&& self.cursor_x == 0 ==> self.shelf_height == 0
        &&& self.cursor_x > 0 ==> self.cursor_y + self.shelf_height <= self.size
        &&& forall|i: int| 0 <= i < placed.len() ==> {
            let r = #[trigger] placed[i];
            &&& r.2 >= 1 && r.3 >= 1
            &&& inside(r, self.size as int)
            &&& {
                ||| r.1 + r.3 < self.cursor_y
                ||| (r.1 == self.cursor_y && r.0 + r.2 < self.cursor_x && r.3 <= self.shelf_height)
            }
        }
        &&& forall|i: int, j: int|
            0 <= i < placed.len() && 0 <= j < placed.len() && i != j ==> disjoint(
                #[trigger] placed[i],
                #[trigger] placed[j],
            )
    }

    /// An empty atlas of [`Atlas::SIZE`] texels a side.
    pub fn new() -> (atlas: Atlas)
        ensures
            atlas.wf(),
            atlas@ == (ShelfState { size: Self::SIZE as int, cursor_x: 0, cursor_y: 0, shelf_height: 0 }),
            atlas.placed() == Seq::<Region>::empty(),
    {
        Atlas { size: Self::SIZE, cursor_x: 0, cursor_y: 0, shelf_height: 0, placed: Ghost(Seq::empty()) }
    }

    /// The atlas edge, in texels.
    pub fn size(&self) -> (size: u32)
        ensures
            size == self@.size,
    {
        self.size
    }

    /// Reserve a shelf slot for a bitmap of `width` × `height` texels and
    /// return its top-left corner. `None` means the atlas is full and the
    /// caller should reset its cache.
    pub fn allocate(&mut self, width: u32, height: u32) -> (slot: Option<(u32, u32)>)
        requires
            old(self).wf(),
        ensures
            final(self).wf(),
            (final(self)@, corner(slot)) == shelf_step(
                old(self)@,
                width as int,
                height as int,
            ),
            slot matches Some(p) ==> {
                let r = (p.0 as int, p.1 as int, width as int, height as int);
                &&& inside(r, Self::SIZE as int)
                &&& forall|i: int|
                    0 <= i < old(self).placed().len() ==> disjoint(
                        #[trigger] old(self).placed()[i],
                        r,
                    )
                &&& final(self).placed() == old(self).placed().push(r)
            },
            slot is None ==> final(self).placed() == old(self).placed(),
    {
        if width == 0 || height == 0 || width > self.size || height > self.size {
            return None;
        }
        if self.cursor_x + width > self.size {
            // Next shelf.
            self.cursor_x = 0;
            self.cursor_y = self.cursor_y + self.shelf_height + 1;
            self.shelf_height = 0;
        }
        if self.cursor_y + height > self.size {
            return None;
        }
        let x = self.cursor_x;
        let y = self.cursor_y;
        let ghost r: Region = (x as int, y as int, width as int, height as int);
        let ghost before = self.placed@;
        proof {
            assert forall|i: int| 0 <= i < before.len() implies disjoint(#[trigger] before[i], r) by {
                let q = before[i];
                if q.1 + q.3 < y {
                } else {
                    assert(q.0 + q.2 < x);
                }
            }
        }
        self.cursor_x = self.cursor_x + width + 1;
        if height > self.shelf_height {
            self.shelf_height = height;
        }
        self.placed = Ghost(before.push(r));
        proof {
            let placed = self.placed@;
            assert forall|i: int, j: int|
                0 <= i < placed.len() && 0 <= j < placed.len() && i != j implies disjoint(
                #[trigger] placed[i],
                #[trigger] placed[j],
            ) by {
                if i == before.len() as int {
                    assert(disjoint(before[j], r));
                } else if j == before.len() as int {
                    assert(disjoint(before[i], r));
                } else {
                    assert(placed[i] == before[i] && placed[j] == before[j]);
                }
            }
            assert forall|i: int| 0 <= i < placed.len() implies {
                let q = #[trigger] placed[i];
                &&& q.2 >= 1 && q.3 >= 1
                &&& inside(q, self.size as int)
                &&& {
                    ||| q.1 + q.3 < self.cursor_y
                    ||| (q.1 == self.cursor_y && q.0 + q.2 < self.cursor_x && q.3 <= self.shelf_height)
                }
            } by {
                if i < before.len() {
                    assert(placed[i] == before[i]);
                }
            }
        }
        Some((x, y))
    }

    /// Start over: the whole atlas is free again. Old texels are left in
    /// place; every glyph placed from now on writes into the region it is
    /// given, and nothing ever samples the gaps.
    pub fn reset(&mut self)
        requires
            old(self).wf(),
        ensures
            final(self).wf(),
            final(self)@ == (ShelfState { size: old(self)@.size, cursor_x: 0, cursor_y: 0, shelf_height: 0 }),
            final(self).placed() == Seq::<Region>::empty(),
    {
        self.cursor_x = 0;
        self.cursor_y = 0;
        self.shelf_height = 0;
        self.placed = Ghost(Seq::empty());
    }
}

/// Everything the atlas has handed out since it was made or last reset lies
/// inside it, and no two of those regions share a texel: a glyph written into
/// its own region never lands on another glyph's bitmap.
pub proof fn lemma_placed_regions_are_disjoint(atlas: &Atlas)
    requires
        atlas.wf(),
    ensures
        forall|i: int|
            0 <= i < atlas.placed().len() ==> inside(#[trigger] atlas.placed()[i], Atlas::SIZE as int),
        forall|i: int, j: int|
            0 <= i < atlas.placed().len() && 0 <= j < atlas.placed().len() && i != j ==> disjoint(
                #[trigger] atlas.placed()[i],
                #[trigger] atlas.placed()[j],
            ),
{
}

/// The packer wastes no room it can use: a glyph that fits beside the pen on
/// the current shelf goes exactly there, so an empty atlas takes any glyph no
/// larger than itself at its top-left corner; and a refusal of a glyph that
/// fits the atlas at all means even a fresh shelf would run off the bottom.
pub proof fn lemma_the_packer_uses_the_room_it_has(s: ShelfState, width: int, height: int)
    requires
        1 <= width <= s.size,
        1 <= height <= s.size,
    ensures
        s.cursor_x + width <= s.size && s.cursor_y + height <= s.size ==> shelf_step(
            s,
            width,
            height,
        ).1 == Some((s.cursor_x, s.cursor_y)),
        s.cursor_x == 0 && s.cursor_y == 0 ==> shelf_step(s, width, height).1 == Some((0int, 0int)),
        shelf_step(s, width, height).1 is None ==> (if s.cursor_x + width > s.size {
            s.cursor_y + s.shelf_height + 1
        } else {
            s.cursor_y
        }) + height > s.size,
{
}

/// The glyph bitmap cache, keyed by whatever identifies a rasterized glyph
/// (the text renderer keys it by the shaper's glyph cache key).
pub struct GlyphCache<K> {
    slots: HashMap<K, Slot>,
}

impl<K> View for GlyphCache<K> {
    type V = Map<K, Slot>;

    closed spec fn view(&self) -> Map<K, Slot> {
        self.slots@
    }
}

impl<K: Eq + Hash> GlyphCache<K> {
    /// An empty cache.
    pub fn new() -> (cache: Self)
        ensures
            cache@ == Map::<K, Slot>::empty(),
    {
        GlyphCache { slots: HashMap::new() }
    }

    /// The slot a glyph was placed in, if it has been placed.
    pub fn get(&self, key: &K) -> (slot: Option<Slot>)
        ensures
            vstd::std_specs::hash::obeys_key_model::<K>() ==> slot == (if self@.contains_key(*key) {
                Some(self@[*key])
            } else {
                None
            }),
    {
        match self.slots.get(key) {
            Some(slot) => Some(*slot),
            None => None,
        }
    }

    /// Remember where a glyph was placed.
    pub fn insert(&mut self, key: K, slot: Slot)
        ensures
            vstd::std_specs::hash::obeys_key_model::<K>() ==> final(self)@ == old(self)@.insert(key, slot),
    {
        self.slots.insert(key, slot);
    }

    /// Forget every glyph.
    pub fn clear(&mut self)
        ensures
            final(self)@ == Map::<K, Slot>::empty(),
    {
        self.slots.clear();
    }

    /// How many glyphs are cached.
    pub fn len(&self) -> (n: usize)
        ensures
            vstd::std_specs::hash::obeys_key_model::<K>() ==> n == self@.len(),
    {
        self.slots.len()
    }

    /// Whether no glyph is cached.
    pub fn is_empty(&self) -> (empty: bool)
        ensures
            empty == self@.is_empty(),
    {
        self.slots.is_empty()
    }
}

} // verus!
