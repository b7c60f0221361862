//! The active falling piece: a rectangular binary layout plus a
//! board-relative anchor, with translation, rotation, boundary correction
//! and derived occupied-cell queries.

use vstd::prelude::*;

use rand::Rng;

use crate::control::{Direction, Rotation};
use crate::utils;
use crate::variant::{layout_spec, variant_at, Variant};

verus! {

/// A rectangular, non-empty binary matrix: every row has the width of the
/// first, and every cell is 0 or 1.
pub open spec fn layout_wf(m: Seq<Seq<u8>>) -> bool {
    &&& m.len() >= 1
    &&& m[0].len() >= 1
    &&& forall|i: int| 0 <= i < m.len() ==> (#[trigger] m[i]).len() == m[0].len()
    &&& forall|i: int, j: int|
        0 <= i < m.len() && 0 <= j < m[i].len() ==> (#[trigger] m[i][j]) == 0 || m[i][j] == 1
}

/// The number of filled cells in one layout row.
pub open spec fn row_ones(r: Seq<u8>) -> int
    decreases r.len(),
{
    if r.len() == 0 {
        0
    } else {
        row_ones(r.drop_last()) + if r.last() == 1 {
            1int
        } else {
            0int
        }
    }
}

/// The number of filled cells in a layout.
pub open spec fn count_ones(m: Seq<Seq<u8>>) -> int
    decreases m.len(),
{
    if m.len() == 0 {
        0
    } else {
        count_ones(m.drop_last()) + row_ones(m.last())
    }
}

/// The quarter-turn clockwise transform of a layout: an n-row, m-column
/// matrix becomes m-row, n-column, with `new[j][n - 1 - i] == old[i][j]`.
pub open spec fn rotated(m: Seq<Seq<u8>>) -> Seq<Seq<u8>> {
    Seq::new(m[0].len(), |j: int| Seq::new(m.len(), |k: int| m[m.len() - 1 - k][j]))
}

/// A set of absolute board cells, each written `(row, column)`.
#[derive(Debug)]
pub struct Coords {
    pub coords: Vec<(usize, usize)>,
}

impl Coords {
    /// For every column that has a cell, the cell of greatest row: the
    /// cells a descending piece would land on first.
    ///
    /// The cells must come in scan order: within a column, rows strictly
    /// increase.
    #[verifier::loop_isolation(false)]
    pub fn bottoms(&self) -> (r: Vec<(usize, usize)>)
        requires
            forall|i: int, j: int|
                0 <= i < j < self.coords@.len() && (#[trigger] self.coords@[i]).1 == (
                #[trigger] self.coords@[j]).1 ==> self.coords@[i].0 < self.coords@[j].0,
        ensures
            forall|p: (usize, usize)|
                #[trigger] r@.contains(p) <==> (self.coords@.contains(p) && forall|q: (
                    usize,
                    usize,
                )|
                    #[trigger] self.coords@.contains(q) && q.1 == p.1 ==> q.0 <= p.0),
    {
        let groups = utils::group_by(&self.coords, true);
        let mut r: Vec<(usize, usize)> = Vec::new();
        let mut g: usize = 0;
        while g < groups.len()
            invariant
                g <= groups@.len(),
                r@.len() == g,
                forall|j: int| 0 <= j < g ==> #[trigger] r@[j] == groups@[j].1@.last(),
            decreases groups@.len() - g,
        {
            let m = groups[g].1.len();
            let cell = groups[g].1[m - 1];
            r.push(cell);
            g = g + 1;
        }
        proof {
            let s = self.coords@;
            assert forall|p: (usize, usize)| #[trigger] r@.contains(p) implies (s.contains(p)
                && forall|q: (usize, usize)|
                    #[trigger] s.contains(q) && q.1 == p.1 ==> q.0 <= p.0) by {
                let j = choose|j: int| 0 <= j < r@.len() && r@[j] == p;
                let k = groups@[j].0;
                let w = utils::with_key(s, true, k);
                assert(p == w.last());
                utils::lemma_with_key_elems(s, true, k);
                assert(s.contains(p) && utils::key_of(p, true) == k);
                utils::lemma_with_key_last_max(s, true, k);
                assert forall|q: (usize, usize)|
                    #[trigger] s.contains(q) && q.1 == p.1 implies q.0 <= p.0 by {
                    let qi = choose|qi: int| 0 <= qi < s.len() && s[qi] == q;
                    assert(utils::key_of(s[qi], true) == k);
                    assert(utils::ord_of(s[qi], true) <= utils::ord_of(w.last(), true));
                }
            }
            assert forall|p: (usize, usize)|
                s.contains(p) && (forall|q: (usize, usize)|
                    #[trigger] s.contains(q) && q.1 == p.1 ==> q.0 <= p.0) implies #[trigger] r@
                .contains(p) by {
                let i = choose|i: int| 0 <= i < s.len() && s[i] == p;
                assert(utils::has_key(groups@, utils::key_of(s[i], true)));
                let gi = choose|gi: int|
                    0 <= gi < groups@.len() && (#[trigger] groups@[gi]).0 == utils::key_of(
                        s[i],
                        true,
                    );
                let k = groups@[gi].0;
                let w = utils::with_key(s, true, k);
                utils::lemma_with_key_elems(s, true, k);
                utils::lemma_with_key_last_max(s, true, k);
                assert(w.len() > 0);
                let m = w.last();
                assert(r@[gi] == m);
                assert(s.contains(m) && utils::key_of(m, true) == k);
                assert(m.1 == p.1);
                assert(m.0 <= p.0);
                assert(utils::ord_of(s[i], true) <= utils::ord_of(m, true));
                assert(p.0 <= m.0);
                assert(p == m);
                assert(r@.contains(p));
            }
        }
        r
    }

    /// For every row that has a cell, the cell of least column: the cells
    /// that meet a wall or terrain when the piece moves left.
    ///
    /// The cells must come in scan order: within a row, columns strictly
    /// increase.
    #[verifier::loop_isolation(false)]
    pub fn lefts(&self) -> (r: Vec<(usize, usize)>)
        requires
            forall|i: int, j: int|
                0 <= i < j < self.coords@.len() && (#[trigger] self.coords@[i]).0 == (
                #[trigger] self.coords@[j]).0 ==> self.coords@[i].1 < self.coords@[j].1,
        ensures
            forall|p: (usize, usize)|
                #[trigger] r@.contains(p) <==> (self.coords@.contains(p) && forall|q: (
                    usize,
                    usize,
                )|
                    #[trigger] self.coords@.contains(q) && q.0 == p.0 ==> p.1 <= q.1),
    {
        let groups = utils::group_by(&self.coords, false);
        let mut r: Vec<(usize, usize)> = Vec::new();
        let mut g: usize = 0;
        while g < groups.len()
            invariant
                g <= groups@.len(),
                r@.len() == g,
                forall|j: int| 0 <= j < g ==> #[trigger] r@[j] == groups@[j].1@.first(),
            decreases groups@.len() - g,
        {
            let cell = groups[g].1[0];
            r.push(cell);
            g = g + 1;
        }
        proof {
            let s = self.coords@;
            assert forall|p: (usize, usize)| #[trigger] r@.contains(p) implies (s.contains(p)
                && forall|q: (usize, usize)|
                    #[trigger] s.contains(q) && q.0 == p.0 ==> p.1 <= q.1) by {
                let j = choose|j: int| 0 <= j < r@.len() && r@[j] == p;
                let k = groups@[j].0;
                let w = utils::with_key(s, false, k);
                assert(p == w.first());
                utils::lemma_with_key_elems(s, false, k);
                assert(w.contains(w[0]));
                assert(s.contains(p) && utils::key_of(p, false) == k);
                utils::lemma_with_key_first_min(s, false, k);
                assert forall|q: (usize, usize)|
                    #[trigger] s.contains(q) && q.0 == p.0 implies p.1 <= q.1 by {
                    let qi = choose|qi: int| 0 <= qi < s.len() && s[qi] == q;
                    assert(utils::key_of(s[qi], false) == k);
                    assert(utils::ord_of(w.first(), false) <= utils::ord_of(s[qi], false));
                }
            }
            assert forall|p: (usize, usize)|
                s.contains(p) && (forall|q: (usize, usize)|
                    #[trigger] s.contains(q) && q.0 == p.0 ==> p.1 <= q.1) implies #[trigger] r@
                .contains(p) by {
                let i = choose|i: int| 0 <= i < s.len() && s[i] == p;
                assert(utils::has_key(groups@, utils::key_of(s[i], false)));
                let gi = choose|gi: int|
                    0 <= gi < groups@.len() && (#[trigger] groups@[gi]).0 == utils::key_of(
                        s[i],
                        false,
                    );
                let k = groups@[gi].0;
                let w = utils::with_key(s, false, k);
                utils::lemma_with_key_elems(s, false, k);
                utils::lemma_with_key_first_min(s, false, k);
                assert(w.len() > 0);
                let m = w.first();
                assert(r@[gi] == m);
                assert(w.contains(w[0]));
                assert(s.contains(m) && utils::key_of(m, false) == k);
                assert(m.0 == p.0);
                assert(p.1 <= m.1);
                assert(utils::ord_of(w.first(), false) <= utils::ord_of(s[i], false));
                assert(m.1 <= p.1);
                assert(p == m);
                assert(r@.contains(p));
            }
        }
        r
    }

    /// For every row that has a cell, the cell of greatest column: the
    /// cells that meet a wall or terrain when the piece moves right.
    ///
    /// The cells must come in scan order: within a row, columns strictly
    /// increase.
    #[verifier::loop_isolation(false)]
    pub fn rights(&self) -> (r: Vec<(usize, usize)>)
        requires
            forall|i: int, j: int|
                0 <= i < j < self.coords@.len() && (#[trigger] self.coords@[i]).0 == (
                #[trigger] self.coords@[j]).0 ==> self.coords@[i].1 < self.coords@[j].1,
        ensures
            forall|p: (usize, usize)|
                #[trigger] r@.contains(p) <==> (self.coords@.contains(p) && forall|q: (
                    usize,
                    usize,
                )|
                    #[trigger] self.coords@.contains(q) && q.0 == p.0 ==> q.1 <= p.1),
    {
        let groups = utils::group_by(&self.coords, false);
        let mut r: Vec<(usize, usize)> = Vec::new();
        let mut g: usize = 0;
        while g < groups.len()
            invariant
                g <= groups@.len(),
                r@.len() == g,
                forall|j: int| 0 <= j < g ==> #[trigger] r@[j] == groups@[j].1@.last(),
            decreases groups@.len() - g,
        {
            let m = groups[g].1.len();
            let cell = groups[g].1[m - 1];
            r.push(cell);
            g = g + 1;
        }
        proof {
            let s = self.coords@;
            assert forall|p: (usize, usize)| #[trigger] r@.contains(p) implies (s.contains(p)
                && forall|q: (usize, usize)|
                    #[trigger] s.contains(q) && q.0 == p.0 ==> q.1 <= p.1) by {
                let j = choose|j: int| 0 <= j < r@.len() && r@[j] == p;
                let k = groups@[j].0;
                let w = utils::with_key(s, false, k);
                assert(p == w.last());
                utils::lemma_with_key_elems(s, false, k);
                assert(s.contains(p) && utils::key_of(p, false) == k);
                utils::lemma_with_key_last_max(s, false, k);
                assert forall|q: (usize, usize)|
                    #[trigger] s.contains(q) && q.0 == p.0 implies q.1 <= p.1 by {
                    let qi = choose|qi: int| 0 <= qi < s.len() && s[qi] == q;
                    assert(utils::key_of(s[qi], false) == k);
                    assert(utils::ord_of(s[qi], false) <= utils::ord_of(w.last(), false));
                }
            }
            assert forall|p: (usize, usize)|
                s.contains(p) && (forall|q: (usize, usize)|
                    #[trigger] s.contains(q) && q.0 == p.0 ==> q.1 <= p.1) implies #[trigger] r@
                .contains(p) by {
                let i = choose|i: int| 0 <= i < s.len() && s[i] == p;
                assert(utils::has_key(groups@, utils::key_of(s[i], false)));
                let gi = choose|gi: int|
                    0 <= gi < groups@.len() && (#[trigger] groups@[gi]).0 == utils::key_of(
                        s[i],
                        false,
                    );
                let k = groups@[gi].0;
                let w = utils::with_key(s, false, k);
                utils::lemma_with_key_elems(s, false, k);
                utils::lemma_with_key_last_max(s, false, k);
                assert(w.len() > 0);
                let m = w.last();
                assert(r@[gi] == m);
                assert(s.contains(m) && utils::key_of(m, false) == k);
                assert(m.0 == p.0);
                assert(m.1 <= p.1);
                assert(utils::ord_of(s[i], false) <= utils::ord_of(w.last(), false));
                assert(p.1 <= m.1);
                assert(p == m);
                assert(r@.contains(p));
            }
        }
        r
    }
}

/// The active falling block: a binary layout (replaced wholesale on
/// rotation) plus an anchor locating the layout's top-left corner on the
/// board, `x` the column offset and `y` the row offset.
#[derive(Debug, PartialEq)]
pub struct Tetramino {
    pub coors: Vec<Vec<u8>>,
    pub x: usize,
    pub y: usize,
}

impl Tetramino {
    /// The layout as a mathematical matrix.
    pub open spec fn layout(self) -> Seq<Seq<u8>> {
        self.coors.deep_view()
    }

    /// A piece is well formed when its layout is.
    pub open spec fn wf(self) -> bool {
        layout_wf(self.layout())
    }

    /// Whether the piece covers the absolute board cell `(rr, cc)`.
    pub open spec fn occupies(self, rr: int, cc: int) -> bool {
        &&& self.y <= rr < self.y + self.layout().len()
        &&& self.x <= cc < self.x + self.layout()[0].len()
        &&& self.layout()[rr - self.y][cc - self.x] == 1
    }

    /// A piece whose layout is the catalog layout of `variant`, anchored
    /// at the board origin.
    pub fn init(variant: Variant) -> (t: Tetramino)
        ensures
            t.layout() == layout_spec(variant),
            t.x == 0 && t.y == 0,
            t.wf(),
    {
        let t = Tetramino { coors: variant.default_layout(), x: 0, y: 0 };
        proof {
            crate::variant::lemma_layout_for_properties(variant);
        }
        t
    }

    /// A piece with the catalog layout of `variant`, anchored at
    /// `(offset.0, offset.1)` = (row, column).
    pub fn init_with_offset(variant: Variant, offset: (usize, usize)) -> (t: Tetramino)
        ensures
            t.layout() == layout_spec(variant),
            t.y == offset.0 && t.x == offset.1,
            t.wf(),
    {
        let t = Tetramino { coors: variant.default_layout(), y: offset.0, x: offset.1 };
        proof {
            crate::variant::lemma_layout_for_properties(variant);
        }
        t
    }

    /// A piece with the catalog layout of a uniformly drawn variant,
    /// anchored at `(offset.0, offset.1)` = (row, column).
    pub fn init_random(offset: (usize, usize)) -> (t: Tetramino)
        ensures
            t.y == offset.0 && t.x == offset.1,
            t.wf(),
            exists|i: int| 0 <= i < 7 && t.layout() == layout_spec(#[trigger] variant_at(i)),
    {
        let seed = random_below(7);
        let variant = Variant::from_index(seed);
        let t = Tetramino { coors: variant.default_layout(), y: offset.0, x: offset.1 };
        proof {
            crate::variant::lemma_layout_for_properties(variant);
            assert(t.layout() == layout_spec(variant_at(seed as int)));
        }
        t
    }

    /// Shifts the anchor by exactly one cell; no bounds or collision
    /// checking is done here, legality is the board's concern.
    pub fn mv(&mut self, dir: &Direction)
        requires
            *dir == Direction::LEFT ==> old(self).x >= 1,
            *dir == Direction::RIGHT ==> old(self).x < usize::MAX,
            *dir == Direction::DOWN ==> old(self).y < usize::MAX,
        ensures
            final(self).coors == old(self).coors,
            *dir == Direction::LEFT ==> final(self).x == old(self).x - 1 && final(self).y == old(
                self,
            ).y,
            *dir == Direction::RIGHT ==> final(self).x == old(self).x + 1 && final(self).y == old(
                self,
            ).y,
            *dir == Direction::DOWN ==> final(self).y == old(self).y + 1 && final(self).x == old(
                self,
            ).x,
    {
        match dir {
            Direction::LEFT => self.x = self.x - 1,
            Direction::RIGHT => self.x = self.x + 1,
            Direction::DOWN => self.y = self.y + 1,
        }
    }

    /// Pulls the anchor back by each positive component of `offset`, the
    /// measured overflow past the board's far edges.  When both components
    /// are negative nothing moves: correction past the near edges is not
    /// handled.
    pub fn wall_kick(&mut self, offset: (i8, i8))
        requires
            offset.0 > 0 ==> old(self).x <= 127 && offset.0 as int <= old(self).x as int,
            offset.1 > 0 ==> old(self).y <= 127 && offset.1 as int <= old(self).y as int,
        ensures
            final(self).coors == old(self).coors,
            offset.0 < 0 && offset.1 < 0 ==> *final(self) == *old(self),
            !(offset.0 < 0 && offset.1 < 0) ==> final(self).x as int == (if offset.0 > 0 {
                old(self).x - offset.0
            } else {
                old(self).x as int
            }) && final(self).y as int == (if offset.1 > 0 {
                old(self).y - offset.1
            } else {
                old(self).y as int
            }),
    {
        let (x_offset, y_offset) = offset;

        if x_offset < 0 && y_offset < 0 {
            return ;
        }
        // Apply the horizontal offset
        if x_offset > 0 {
            self.x = (self.x as i8 - x_offset) as usize;
        }
        // Apply the vertical offset
        if y_offset > 0 {
            self.y = (self.y as i8 - y_offset) as usize;
        }
    }

    /// Replaces the layout with its quarter-turn clockwise transform; the
    /// anchor is untouched.  A counterclockwise request does nothing.
    pub fn rotate(&mut self, rot: &Rotation)
        requires
            old(self).wf(),
        ensures
            final(self).x == old(self).x && final(self).y == old(self).y,
            *rot == Rotation::CLOCKWISE ==> final(self).layout() == rotated(old(self).layout())
                && final(self).wf(),
            *rot == Rotation::COUNTERCLOCKWISE ==> *final(self) == *old(self),
    {
        match rot {
            Rotation::CLOCKWISE => {
                let t = self.transpose();
                self.coors = t;
            },
            Rotation::COUNTERCLOCKWISE => {},
        }
    }

    /// The number of layout rows.
    pub fn height(&self) -> (r: usize)
        ensures
            r == self.layout().len(),
    {
        self.coors.len()
    }

    /// The number of layout columns.
    pub fn length(&self) -> (r: usize)
        requires
            self.coors@.len() >= 1,
        ensures
            r == self.layout()[0].len(),
    {
        self.coors[0].len()
    }

    /// The absolute board cells the piece covers, in scan order: row by
    /// row, left to right.
    #[verifier::loop_isolation(false)]
    pub fn to_coords(&self) -> (r: Coords)
        requires
            self.wf(),
            self.y + self.layout().len() <= usize::MAX,
            self.x + self.layout()[0].len() <= usize::MAX,
        ensures
            forall|p: (usize, usize)|
                #[trigger] r.coords@.contains(p) <==> self.occupies(p.0 as int, p.1 as int),
            forall|i: int, j: int|
                0 <= i < j < r.coords@.len() ==> (#[trigger] r.coords@[i]).0 < (
                #[trigger] r.coords@[j]).0 || (r.coords@[i].0 == r.coords@[j].0 && r.coords@[i].1
                    < r.coords@[j].1),
    {
        let mut cs: Vec<(usize, usize)> = Vec::new();
        let mut i: usize = 0;
        while i < self.coors.len()
            invariant
                i <= self.coors@.len(),
                forall|p: (usize, usize)|
                    #[trigger] cs@.contains(p) <==> (self.occupies(p.0 as int, p.1 as int) && p.0
                        < self.y + i),
                forall|k: int| 0 <= k < cs@.len() ==> (#[trigger] cs@[k]).0 < self.y + i,
                forall|a: int, b: int|
                    0 <= a < b < cs@.len() ==> (#[trigger] cs@[a]).0 < (#[trigger] cs@[b]).0 || (
                    cs@[a].0 == cs@[b].0 && cs@[a].1 < cs@[b].1),
            decreases self.coors@.len() - i,
        {
            let row_len = self.coors[i].len();
            let mut j: usize = 0;
            while j < row_len
                invariant
                    i < self.coors@.len(),
                    j <= row_len,
                    row_len == self.layout()[i as int].len(),
                    forall|p: (usize, usize)|
                        #[trigger] cs@.contains(p) <==> (self.occupies(p.0 as int, p.1 as int) && (
                        p.0 < self.y + i || (p.0 == self.y + i && p.1 < self.x + j))),
                    forall|k: int|
                        0 <= k < cs@.len() ==> (#[trigger] cs@[k]).0 < self.y + i || (cs@[k].0
                            == self.y + i && cs@[k].1 < self.x + j),
                    forall|a: int, b: int|
                        0 <= a < b < cs@.len() ==> (#[trigger] cs@[a]).0 < (#[trigger] cs@[b]).0
                            || (cs@[a].0 == cs@[b].0 && cs@[a].1 < cs@[b].1),
                decreases row_len - j,
            {
                if self.coors[i][j] == 1 {
                    let ghost cs0 = cs@;
                    cs.push((i + self.y, j + self.x));
                    proof {
                        assert(self.layout()[i as int][j as int] == 1);
                        assert forall|p: (usize, usize)| #[trigger] cs@.contains(p) implies (
                        self.occupies(p.0 as int, p.1 as int) && (p.0 < self.y + i || (p.0
                            == self.y + i && p.1 < self.x + j + 1))) by {
                            if p != ((i + self.y) as usize, (j + self.x) as usize) {
                                assert(cs0.contains(p));
                            }
                        }
                        assert forall|p: (usize, usize)|
                            self.occupies(p.0 as int, p.1 as int) && (p.0 < self.y + i || (p.0
                                == self.y + i && p.1 < self.x + j + 1)) implies #[trigger] cs@
                            .contains(p) by {
                            if p.0 < self.y + i || (p.0 == self.y + i && p.1 < self.x + j) {
                                assert(cs0.contains(p));
                                let k = choose|k: int| 0 <= k < cs0.len() && cs0[k] == p;
                                assert(cs@[k] == p);
                            } else {
                                assert(p == ((i + self.y) as usize, (j + self.x) as usize));
                                assert(cs@[cs@.len() - 1] == p);
                            }
                        }
                    }
                } else {
                    proof {
                        assert(self.layout()[i as int][j as int] == self.coors@[i as int]@[j as int]);
                        assert forall|p: (usize, usize)|
                            self.occupies(p.0 as int, p.1 as int) && (p.0 < self.y + i || (p.0
                                == self.y + i && p.1 < self.x + j + 1)) implies #[trigger] cs@
                            .contains(p) by {
                            if !(p.0 < self.y + i || (p.0 == self.y + i && p.1 < self.x + j)) {
                                assert(p.0 == self.y + i && p.1 == self.x + j);
                                assert(self.layout()[p.0 - self.y][p.1 - self.x] != 1);
                            }
                        }
                    }
                }
                j = j + 1;
            }
            i = i + 1;
        }
        proof {
            assert forall|p: (usize, usize)|
                self.occupies(p.0 as int, p.1 as int) implies #[trigger] cs@.contains(p) by {
                assert(p.0 < self.y + self.coors@.len());
            }
        }
        Coords { coords: cs }
    }

    /// A newly allocated quarter-turn clockwise transform of the layout;
    /// the piece itself is untouched.
    #[verifier::loop_isolation(false)]
    pub fn transpose(&self) -> (r: Vec<Vec<u8>>)
        requires
            self.wf(),
        ensures
            r.deep_view() == rotated(self.layout()),
    {
        let n = self.coors.len();
        let m = self.coors[0].len();

        let mut transposed: Vec<Vec<u8>> = Vec::new();
        let mut j: usize = 0;
        while j < m
            invariant
                j <= m,
                transposed@.len() == j,
                forall|a: int|
                    0 <= a < j ==> #[trigger] transposed.deep_view()[a] == rotated(
                        self.layout(),
                    )[a],
            decreases m - j,
        {
            let mut row: Vec<u8> = Vec::new();
            let mut k: usize = 0;
            while k < n
                invariant
                    j < m,
                    k <= n,
                    row@.len() == k,
                    forall|b: int|
                        0 <= b < k ==> #[trigger] row@[b] == self.layout()[n - 1 - b][j as int],
                decreases n - k,
            {
                proof {
                    assert(self.layout()[n - 1 - k].len() == self.layout()[0].len());
                }
                row.push(self.coors[n - 1 - k][j]);
                k = k + 1;
            }
            let ghost t0 = transposed.deep_view();
            transposed.push(row);
            proof {
                assert(row.deep_view() =~= rotated(self.layout())[j as int]);
                assert forall|a: int|
                    0 <= a < j + 1 implies #[trigger] transposed.deep_view()[a] == rotated(
                    self.layout(),
                )[a] by {
                    if a < j {
                        assert(transposed.deep_view()[a] == t0[a]);
                    } else {
                        assert(transposed.deep_view()[a] == row.deep_view());
                    }
                }
            }
            j = j + 1;
        }
        proof {
            assert(transposed.deep_view() =~= rotated(self.layout()));
        }
        transposed
    }
}

/// Relies on rand's `thread_rng` and `Rng::gen_range`: a sample from the
/// non-empty range `0..n` lies below `n`.
#[verifier::external_body]
fn random_below(n: usize) -> (r: usize)
    requires
        n >= 1,
    ensures
        r < n,
{
    rand::thread_rng().gen_range(0..n)
}

/// A cell of the piece with no piece cell below it in its column.
pub open spec fn is_bottom(t: Tetramino, p: (usize, usize)) -> bool {
    &&& t.occupies(p.0 as int, p.1 as int)
    &&& forall|rr: int| p.0 < rr ==> !t.occupies(rr, p.1 as int)
}

/// A cell of the piece with no piece cell to its left in its row.
pub open spec fn is_leftmost(t: Tetramino, p: (usize, usize)) -> bool {
    &&& t.occupies(p.0 as int, p.1 as int)
    &&& forall|cc: int| cc < p.1 ==> !t.occupies(p.0 as int, cc)
}

/// A cell of the piece with no piece cell to its right in its row.
pub open spec fn is_rightmost(t: Tetramino, p: (usize, usize)) -> bool {
    &&& t.occupies(p.0 as int, p.1 as int)
    &&& forall|cc: int| p.1 < cc ==> !t.occupies(p.0 as int, cc)
}

/// A quarter turn swaps the layout's dimensions and preserves its
/// well-formedness: an n-row, m-column layout turns into an m-row,
/// n-column one.
pub proof fn lemma_rotated_dims(m: Seq<Seq<u8>>)
    requires
        layout_wf(m),
    ensures
        rotated(m).len() == m[0].len(),
        rotated(m)[0].len() == m.len(),
        layout_wf(rotated(m)),
{
    let r = rotated(m);
    assert forall|i: int, j: int| 0 <= i < r.len() && 0 <= j < r[i].len() implies (
    #[trigger] r[i][j]) == 0 || r[i][j] == 1 by {
        assert(r[i][j] == m[m.len() - 1 - j][i]);
        assert(m[m.len() - 1 - j].len() == m[0].len());
    }
}

/// Four quarter turns return any layout to itself.
pub proof fn lemma_rotated_four(m: Seq<Seq<u8>>)
    requires
        layout_wf(m),
    ensures
        rotated(rotated(rotated(rotated(m)))) == m,
{
    let n = m.len();
    let w = m[0].len();
    let r1 = rotated(m);
    lemma_rotated_dims(m);
    let r2 = rotated(r1);
    lemma_rotated_dims(r1);
    let r3 = rotated(r2);
    lemma_rotated_dims(r2);
    let r4 = rotated(r3);
    lemma_rotated_dims(r3);
    assert forall|a: int, b: int| 0 <= a < n && 0 <= b < w implies #[trigger] r2[a][b] == m[n - 1
        - a][w - 1 - b] by {
        assert(r2[a][b] == r1[w - 1 - b][a]);
        assert(r1[w - 1 - b][a] == m[n - 1 - a][w - 1 - b]);
    }
    assert forall|a: int, b: int| 0 <= a < n && 0 <= b < w implies #[trigger] r4[a][b]
        == m[a][b] by {
        assert(r4[a][b] == r3[w - 1 - b][a]);
        assert(r3[w - 1 - b][a] == r2[n - 1 - a][w - 1 - b]);
        assert(r2[n - 1 - a][w - 1 - b] == m[a][b]);
    }
    assert forall|a: int| 0 <= a < n implies #[trigger] r4[a] == m[a] by {
        assert(m[a].len() == w);
        assert(r4[a] =~= m[a]);
    }
    assert(r4 =~= m);
}

/// Two quarter turns return the I layout to itself, while a single one
/// changes it: its rotation alternates between two dimension-swapped
/// states.
pub proof fn lemma_rotate_period_two_i()
    ensures
        rotated(rotated(layout_spec(Variant::I))) == layout_spec(Variant::I),
        rotated(layout_spec(Variant::I)) != layout_spec(Variant::I),
{
    let m = layout_spec(Variant::I);
    crate::variant::lemma_layout_for_properties(Variant::I);
    let r1 = rotated(m);
    lemma_rotated_dims(m);
    let r2 = rotated(r1);
    lemma_rotated_dims(r1);
    assert(r1.len() == 4 && m.len() == 1);
    assert forall|b: int| 0 <= b < 4 implies #[trigger] r2[0][b] == m[0][b] by {
        assert(r2[0][b] == r1[4 - 1 - b][0]);
        assert(r1[4 - 1 - b][0] == m[0][4 - 1 - b]);
        assert(m[0][4 - 1 - b] == 1 && m[0][b] == 1);
    }
    assert(r2[0] =~= m[0]);
    assert(r2 =~= m);
}

} // verus!
