//! The board: a fixed 20 x 10 occupancy matrix owning at most one active
//! piece, with collision predicates, movement validation, locking and
//! line clearing.

use vstd::prelude::*;

use crate::control::{Control, Direction, Rotation};
use crate::variant::{layout_spec, lemma_layout_spec_dims, variant_at};
use crate::tetramino::{is_bottom, is_leftmost, is_rightmost, rotated, Tetramino};

verus! {

/// The number of board rows.
pub const HEIGHT: usize = 20;

/// The number of board columns.
pub const WIDTH: usize = 10;

/// Whether every cell of a row is filled.
pub open spec fn row_full(r: Seq<u8>) -> bool {
    forall|j: int| 0 <= j < r.len() ==> r[j] == 1
}

/// The number of full rows of a board.
pub open spec fn num_full(g: Seq<Seq<u8>>) -> int
    decreases g.len(),
{
    if g.len() == 0 {
        0
    } else {
        num_full(g.drop_last()) + if row_full(g.last()) {
            1int
        } else {
            0int
        }
    }
}

/// An all-empty board row.
pub open spec fn zero_row() -> Seq<u8> {
    Seq::new(WIDTH as nat, |j: int| 0u8)
}

/// The board after line clearing: every full row is emptied, every row is
/// then shifted downward by the number of full rows, and the vacated rows
/// at the top are empty.
pub open spec fn cleared_grid(g: Seq<Seq<u8>>) -> Seq<Seq<u8>> {
    Seq::new(
        g.len(),
        |i: int|
            if i < num_full(g) {
                zero_row()
            } else if row_full(g[i - num_full(g)]) {
                zero_row()
            } else {
                g[i - num_full(g)]
            },
    )
}

/// Counting full rows of a one-row-longer prefix adds the new row's
/// contribution.
proof fn lemma_num_full_step(g: Seq<Seq<u8>>, n: int)
    requires
        0 <= n < g.len(),
    ensures
        num_full(g.take(n + 1)) == num_full(g.take(n)) + if row_full(g[n]) {
            1int
        } else {
            0int
        },
{
    assert(g.take(n + 1).drop_last() =~= g.take(n));
    assert(g.take(n + 1).last() == g[n]);
}

/// A board has between zero and `len` full rows.
proof fn lemma_num_full_bounds(g: Seq<Seq<u8>>)
    ensures
        0 <= num_full(g) <= g.len(),
    decreases g.len(),
{
    if g.len() > 0 {
        lemma_num_full_bounds(g.drop_last());
    }
}

/// An all-empty board row as a vector.
fn zero_row_vec() -> (r: Vec<u8>)
    ensures
        r@ == zero_row(),
{
    let mut r: Vec<u8> = Vec::new();
    let mut j: usize = 0;
    while j < WIDTH
        invariant
            j <= WIDTH,
            r@.len() == j,
            forall|k: int| 0 <= k < j ==> r@[k] == 0,
        decreases WIDTH - j,
    {
        r.push(0);
        j = j + 1;
    }
    proof {
        assert(r@ =~= zero_row());
    }
    r
}

/// A fresh copy of a board row.
fn copy_row(src: &Vec<u8>) -> (r: Vec<u8>)
    ensures
        r@ == src@,
{
    let mut r: Vec<u8> = Vec::new();
    let mut j: usize = 0;
    while j < src.len()
        invariant
            j <= src@.len(),
            r@.len() == j,
            forall|k: int| 0 <= k < j ==> r@[k] == src@[k],
        decreases src@.len() - j,
    {
        r.push(src[j]);
        j = j + 1;
    }
    proof {
        assert(r@ =~= src@);
    }
    r
}

/// Whether every cell of a row is filled.
fn row_is_full(r: &Vec<u8>) -> (b: bool)
    ensures
        b == row_full(r@),
{
    let mut j: usize = 0;
    while j < r.len()
        invariant
            j <= r@.len(),
            forall|k: int| 0 <= k < j ==> r@[k] == 1,
        decreases r@.len() - j,
    {
        if r[j] != 1 {
            return false;
        }
        j = j + 1;
    }
    true
}

/// Replaces one row of the matrix, stated over the deep view.
fn set_row(grid: &mut Vec<Vec<u8>>, i: usize, row: Vec<u8>)
    requires
        i < old(grid)@.len(),
    ensures
        final(grid).deep_view().len() == old(grid).deep_view().len(),
        forall|k: int|
            0 <= k < old(grid)@.len() && k != i ==> #[trigger] final(grid).deep_view()[k] == old(
                grid,
            ).deep_view()[k],
        final(grid).deep_view()[i as int] == row@,
{
    let ghost r0 = row@;
    grid.set(i, row);
    proof {
        assert(grid.deep_view()[i as int] =~= r0);
    }
}

/// The board: occupancy matrix, its dimensions, and the active piece.
pub struct Grid {
    pub grid: Vec<Vec<u8>>,
    pub h: usize,
    pub l: usize,
    pub current: Option<Tetramino>,
}

impl Grid {
    /// The occupancy matrix as a mathematical matrix.
    pub open spec fn cells(self) -> Seq<Seq<u8>> {
        self.grid.deep_view()
    }

    /// The active piece; meaningful only while one is attached.
    pub open spec fn piece(self) -> Tetramino {
        match self.current {
            Some(t) => t,
            None => arbitrary(),
        }
    }

    /// Dimensions pinned at 20 x 10, every cell 0 or 1, and a well-formed
    /// active piece if one is attached.
    pub open spec fn wf(self) -> bool {
        &&& self.h == HEIGHT
        &&& self.l == WIDTH
        &&& self.cells().len() == HEIGHT
        &&& forall|i: int| 0 <= i < HEIGHT ==> (#[trigger] self.cells()[i]).len() == WIDTH
        &&& forall|i: int, j: int|
            0 <= i < HEIGHT && 0 <= j < WIDTH ==> (#[trigger] self.cells()[i][j]) == 0
                || self.cells()[i][j] == 1
        &&& match self.current {
            None => true,
            Some(t) => t.wf(),
        }
    }

    /// The active piece, if any, lies within the board, and its height
    /// stays within the board's width, so the correction that precedes a
    /// rotation cannot push the anchor past the near edge.
    pub open spec fn piece_fits(self) -> bool {
        match self.current {
            None => true,
            Some(t) => {
                &&& t.y + t.layout().len() <= HEIGHT
                &&& t.x + t.layout()[0].len() <= WIDTH
                &&& t.layout().len() <= WIDTH
            },
        }
    }

    /// An empty 20 x 10 board with no active piece.
    pub fn init() -> (g: Grid)
        ensures
            g.wf(),
            g.h == HEIGHT && g.l == WIDTH,
            g.current == None::<Tetramino>,
            forall|i: int| 0 <= i < HEIGHT ==> #[trigger] g.cells()[i] == zero_row(),
    {
        let width = WIDTH;
        let height = HEIGHT;

        let mut grid: Vec<Vec<u8>> = Vec::new();
        let mut i: usize = 0;
        while i < height
            invariant
                height == HEIGHT,
                i <= HEIGHT,
                grid@.len() == i,
                forall|k: int| 0 <= k < i ==> #[trigger] grid.deep_view()[k] == zero_row(),
            decreases HEIGHT - i,
        {
            let ghost g0 = grid.deep_view();
            let z = zero_row_vec();
            let ghost z0 = z@;
            grid.push(z);
            proof {
                assert forall|k: int| 0 <= k < i + 1 implies #[trigger] grid.deep_view()[k]
                    == zero_row() by {
                    if k < i {
                        assert(grid.deep_view()[k] == g0[k]);
                    } else {
                        assert(grid.deep_view()[k] =~= z0);
                    }
                }
            }
            i = i + 1;
        }
        Grid { grid, h: height, l: width, current: None }
    }

    /// Makes `t` the active piece; the terrain is untouched.  No overlap
    /// check against existing terrain is made at spawn.
    pub fn attach(&mut self, t: Tetramino)
        requires
            old(self).wf(),
            t.wf(),
        ensures
            final(self).current == Some(t),
            final(self).grid == old(self).grid,
            final(self).h == old(self).h && final(self).l == old(self).l,
            final(self).wf(),
    {
        self.current = Some(t)
    }

    /// Drops the active piece reference and performs line clearing on the
    /// terrain.
    pub fn detach(&mut self)
        requires
            old(self).wf(),
        ensures
            final(self).current == None::<Tetramino>,
            final(self).h == old(self).h && final(self).l == old(self).l,
            final(self).cells() == cleared_grid(old(self).cells()),
            final(self).wf(),
    {
        self.current = None;
        self.clear_and_shift();
    }

    /// Line clearing: empties every full row, shifts all rows downward by
    /// the full-row count, and blanks the vacated rows at the top.
    #[verifier::loop_isolation(false)]
    fn clear_and_shift(&mut self)
        requires
            old(self).wf(),
        ensures
            final(self).cells() == cleared_grid(old(self).cells()),
            final(self).h == old(self).h && final(self).l == old(self).l,
            final(self).current == old(self).current,
            final(self).wf(),
    {
        let ghost g0 = self.cells();
        let mut cleared: usize = 0;

        let mut row: usize = 0;
        while row < HEIGHT
            invariant
                row <= HEIGHT,
                cleared as int == num_full(g0.take(row as int)),
                cleared <= row,
                self.cells().len() == HEIGHT,
                self.h == old(self).h && self.l == old(self).l,
                self.current == old(self).current,
                forall|k: int| row <= k < HEIGHT ==> #[trigger] self.cells()[k] == g0[k],
                forall|k: int|
                    0 <= k < row ==> #[trigger] self.cells()[k] == (if row_full(g0[k]) {
                        zero_row()
                    } else {
                        g0[k]
                    }),
            decreases HEIGHT - row,
        {
            proof {
                lemma_num_full_step(g0, row as int);
                assert(self.cells()[row as int] =~= self.grid@[row as int]@);
            }
            let full = row_is_full(&self.grid[row]);
            if full {
                let z = zero_row_vec();
                set_row(&mut self.grid, row, z);
                cleared = cleared + 1;
            }
            row = row + 1;
        }
        proof {
            assert(g0.take(HEIGHT as int) =~= g0);
            lemma_num_full_bounds(g0);
        }

        let ghost erased = self.cells();
        let mut r2: usize = HEIGHT - cleared;
        while r2 > 0
            invariant
                r2 <= HEIGHT - cleared,
                self.cells().len() == HEIGHT,
                self.h == old(self).h && self.l == old(self).l,
                self.current == old(self).current,
                forall|k: int| 0 <= k < r2 + cleared ==> #[trigger] self.cells()[k] == erased[k],
                forall|k: int|
                    r2 + cleared <= k < HEIGHT ==> #[trigger] self.cells()[k] == erased[k - cleared],
            decreases r2,
        {
            r2 = r2 - 1;
            let copied = copy_row(&self.grid[r2]);
            proof {
                assert(copied@ =~= self.cells()[r2 as int]);
            }
            set_row(&mut self.grid, r2 + cleared, copied);
        }

        let mut i2: usize = 0;
        while i2 < cleared
            invariant
                i2 <= cleared,
                self.cells().len() == HEIGHT,
                self.h == old(self).h && self.l == old(self).l,
                self.current == old(self).current,
                forall|k: int| 0 <= k < i2 ==> #[trigger] self.cells()[k] == zero_row(),
                forall|k: int| i2 <= k < cleared ==> #[trigger] self.cells()[k] == erased[k],
                forall|k: int|
                    cleared <= k < HEIGHT ==> #[trigger] self.cells()[k] == erased[k - cleared],
            decreases cleared - i2,
        {
            let z = zero_row_vec();
            set_row(&mut self.grid, i2, z);
            i2 = i2 + 1;
        }

        proof {
            assert(self.cells() =~= cleared_grid(g0));
        }
    }
}

/// Whether one of the first `n` cells of `s` is the board cell `(i, j)`.
spec fn covered(s: Seq<(usize, usize)>, n: int, i: int, j: int) -> bool {
    exists|k: int| 0 <= k < n && #[trigger] s[k] == ((i as usize), (j as usize))
}

impl Grid {
    /// Writes `value` into every cell the active piece covers.
    #[verifier::loop_isolation(false)]
    fn paint(&mut self, value: u8)
        requires
            old(self).wf(),
            old(self).current.is_some(),
            old(self).piece_fits(),
            value == 0 || value == 1,
        ensures
            final(self).h == old(self).h && final(self).l == old(self).l,
            final(self).current == old(self).current,
            final(self).wf(),
            forall|i: int, j: int|
                0 <= i < HEIGHT && 0 <= j < WIDTH ==> #[trigger] final(self).cells()[i][j] == (
                if old(self).piece().occupies(i, j) {
                    value
                } else {
                    old(self).cells()[i][j]
                }),
    {
        let ghost g0 = self.cells();
        let ghost t = self.piece();
        let coords = match &self.current {
            Some(tt) => tt.to_coords(),
            None => unreached(),
        };
        let ghost s = coords.coords@;
        let mut k: usize = 0;
        while k < coords.coords.len()
            invariant
                k <= s.len(),
                coords.coords@ == s,
                self.h == old(self).h && self.l == old(self).l,
                self.current == old(self).current,
                self.cells().len() == HEIGHT,
                forall|i2: int| 0 <= i2 < HEIGHT ==> (#[trigger] self.cells()[i2]).len() == WIDTH,
                forall|i2: int, j2: int|
                    0 <= i2 < HEIGHT && 0 <= j2 < WIDTH ==> #[trigger] self.cells()[i2][j2] == (
                    if covered(s, k as int, i2, j2) {
                        value
                    } else {
                        g0[i2][j2]
                    }),
            decreases s.len() - k,
        {
            let p = coords.coords[k];
            proof {
                assert(s.contains(p));
                assert(t.occupies(p.0 as int, p.1 as int));
            }
            let mut rowv = copy_row(&self.grid[p.0]);
            proof {
                assert(rowv@ =~= self.cells()[p.0 as int]);
            }
            rowv.set(p.1, value);
            set_row(&mut self.grid, p.0, rowv);
            proof {
                assert forall|i2: int, j2: int|
                    0 <= i2 < HEIGHT && 0 <= j2 < WIDTH implies #[trigger] self.cells()[i2][j2]
                    == (if covered(s, k + 1, i2, j2) {
                    value
                } else {
                    g0[i2][j2]
                }) by {
                    if i2 == p.0 && j2 == p.1 {
                        assert(s[k as int] == ((i2 as usize), (j2 as usize)));
                        assert(covered(s, k + 1, i2, j2));
                        assert(self.cells()[i2][j2] == value);
                    } else {
                        if covered(s, k + 1, i2, j2) && !covered(s, k as int, i2, j2) {
                            let w = choose|w: int|
                                0 <= w < k + 1 && #[trigger] s[w] == ((i2 as usize), (
                                j2 as usize));
                            assert(w == k as int);
                            assert(false);
                        }
                        if i2 == p.0 {
                            assert(self.cells()[i2][j2] == rowv@[j2]);
                        }
                    }
                }
            }
            k = k + 1;
        }
        proof {
            assert forall|i: int, j: int|
                0 <= i < HEIGHT && 0 <= j < WIDTH implies #[trigger] self.cells()[i][j] == (
            if t.occupies(i, j) {
                value
            } else {
                g0[i][j]
            }) by {
                if covered(s, s.len() as int, i, j) {
                    let w = choose|w: int|
                        0 <= w < s.len() && #[trigger] s[w] == ((i as usize), (j as usize));
                    assert(s.contains(s[w]));
                    assert(t.occupies(i, j));
                }
                if t.occupies(i, j) {
                    assert(s.contains(((i as usize), (j as usize))));
                    let w = choose|w: int|
                        0 <= w < s.len() && s[w] == ((i as usize), (j as usize));
                    assert(covered(s, s.len() as int, i, j));
                }
            }
        }
    }

    /// Bakes the active piece: writes every cell it covers into the
    /// occupancy matrix as locked.
    pub fn snapshot(&mut self)
        requires
            old(self).wf(),
            old(self).current.is_some(),
            old(self).piece_fits(),
        ensures
            final(self).h == old(self).h && final(self).l == old(self).l,
            final(self).current == old(self).current,
            final(self).wf(),
            forall|i: int, j: int|
                0 <= i < HEIGHT && 0 <= j < WIDTH ==> #[trigger] final(self).cells()[i][j] == (
                if old(self).piece().occupies(i, j) {
                    1u8
                } else {
                    old(self).cells()[i][j]
                }),
    {
        self.paint(1)
    }

    /// Erases the active piece from the occupancy matrix: writes every
    /// cell it covers back to empty.
    pub fn clear(&mut self)
        requires
            old(self).wf(),
            old(self).current.is_some(),
            old(self).piece_fits(),
        ensures
            final(self).h == old(self).h && final(self).l == old(self).l,
            final(self).current == old(self).current,
            final(self).wf(),
            forall|i: int, j: int|
                0 <= i < HEIGHT && 0 <= j < WIDTH ==> #[trigger] final(self).cells()[i][j] == (
                if old(self).piece().occupies(i, j) {
                    0u8
                } else {
                    old(self).cells()[i][j]
                }),
    {
        self.paint(0)
    }

    /// Moves the active piece one row down, without any bounds or
    /// collision check: the caller must have confirmed `is_not_collide`
    /// first.  With no active piece nothing happens.
    pub fn gravitate(&mut self)
        requires
            old(self).wf(),
            old(self).piece_fits(),
        ensures
            final(self).grid == old(self).grid,
            final(self).h == old(self).h && final(self).l == old(self).l,
            final(self).wf(),
            match old(self).current {
                None => *final(self) == *old(self),
                Some(t) => final(self).current == Some(
                    Tetramino { y: (t.y + 1) as usize, ..t },
                ),
            },
    {
        match &mut self.current {
            None => {},
            Some(t) => t.mv(&Direction::DOWN),
        }
    }
}

impl Grid {
    /// Whether a bottom cell of the piece cannot move down: it sits in
    /// the final row, or the cell directly beneath it is locked.
    pub open spec fn cell_blocks(self, p: (usize, usize)) -> bool {
        p.0 + 1 == HEIGHT || self.cells()[p.0 + 1][p.1 as int] == 1
    }

    /// Whether the active piece can descend one row: no bottom cell sits
    /// in the final row or has a locked cell directly beneath it.  With
    /// no active piece, descent is free.
    pub open spec fn descent_free(self) -> bool {
        match self.current {
            None => true,
            Some(t) => forall|p: (usize, usize)| #[trigger] is_bottom(t, p) ==> !self.cell_blocks(p),
        }
    }

    /// True exactly when the active piece can descend one more row; true
    /// when no piece is active.
    #[verifier::loop_isolation(false)]
    pub fn is_not_collide(&self) -> (r: bool)
        requires
            self.wf(),
            self.piece_fits(),
        ensures
            r == self.descent_free(),
    {
        match &self.current {
            None => true,
            Some(t) => {
                let coords = t.to_coords();
                let ghost s = coords.coords@;
                let bots = coords.bottoms();
                let ghost bs = bots@;
                proof {
                    assert forall|p: (usize, usize)| #[trigger] bs.contains(p) implies is_bottom(
                        *t,
                        p,
                    ) by {
                        assert(s.contains(p));
                        assert(t.occupies(p.0 as int, p.1 as int));
                        assert forall|rr: int| p.0 < rr implies !t.occupies(rr, p.1 as int) by {
                            if t.occupies(rr, p.1 as int) {
                                assert(rr < t.y + t.layout().len());
                                let q = ((rr as usize), p.1);
                                assert(t.occupies(q.0 as int, q.1 as int));
                                assert(s.contains(q));
                                assert(q.0 <= p.0);
                            }
                        }
                    }
                    assert forall|p: (usize, usize)| #[trigger] is_bottom(*t, p) implies bs
                        .contains(p) by {
                        assert(s.contains(p));
                        assert forall|q: (usize, usize)|
                            #[trigger] s.contains(q) && q.1 == p.1 implies q.0 <= p.0 by {
                            if q.0 > p.0 {
                                assert(t.occupies(q.0 as int, q.1 as int));
                                assert(!t.occupies(q.0 as int, p.1 as int));
                            }
                        }
                    }
                }
                let mut k: usize = 0;
                while k < bots.len()
                    invariant
                        k <= bs.len(),
                        forall|k2: int| 0 <= k2 < k ==> (#[trigger] bs[k2]).0 + 1 != HEIGHT,
                    decreases bs.len() - k,
                {
                    let p = bots[k];
                    proof {
                        assert(bs.contains(p));
                        assert(is_bottom(*t, p));
                        assert(t.occupies(p.0 as int, p.1 as int));
                        assert(p.0 < HEIGHT);
                    }
                    if p.0 + 1 == self.h {
                        proof {
                            assert(self.cell_blocks(p));
                        }
                        return false;
                    }
                    k = k + 1;
                }
                let mut k2: usize = 0;
                while k2 < bots.len()
                    invariant
                        k2 <= bs.len(),
                        forall|k3: int| 0 <= k3 < bs.len() ==> (#[trigger] bs[k3]).0 + 1 != HEIGHT,
                        forall|k3: int| 0 <= k3 < k2 ==> !self.cell_blocks(#[trigger] bs[k3]),
                    decreases bs.len() - k2,
                {
                    let p = bots[k2];
                    proof {
                        assert(bs.contains(p));
                        assert(is_bottom(*t, p));
                        assert(t.occupies(p.0 as int, p.1 as int));
                        assert(p.0 + 1 < HEIGHT);
                        assert(p.1 < WIDTH);
                        assert(self.cells()[p.0 + 1] =~= self.grid@[p.0 + 1]@);
                    }
                    if self.grid[p.0 + 1][p.1] == 1 {
                        proof {
                            assert(self.cell_blocks(p));
                        }
                        return false;
                    }
                    k2 = k2 + 1;
                }
                proof {
                    assert forall|p: (usize, usize)| #[trigger] is_bottom(*t, p) implies !self
                        .cell_blocks(p) by {
                        assert(bs.contains(p));
                        let w = choose|w: int| 0 <= w < bs.len() && bs[w] == p;
                        assert(!self.cell_blocks(bs[w]));
                    }
                }
                true
            },
        }
    }
}

/// The anchor column after the boundary correction that precedes a
/// rotation: a positive column overflow, measured against the prospective
/// width, pulls the anchor left.
pub open spec fn kicked_x(t: Tetramino) -> int {
    let xo = t.x + t.layout().len() - WIDTH;
    let yo = t.y + t.layout()[0].len() - HEIGHT;
    if xo < 0 && yo < 0 {
        t.x as int
    } else if xo > 0 {
        t.x - xo
    } else {
        t.x as int
    }
}

/// The anchor row after the boundary correction that precedes a rotation.
pub open spec fn kicked_y(t: Tetramino) -> int {
    let xo = t.x + t.layout().len() - WIDTH;
    let yo = t.y + t.layout()[0].len() - HEIGHT;
    if xo < 0 && yo < 0 {
        t.y as int
    } else if yo > 0 {
        t.y - yo
    } else {
        t.y as int
    }
}

impl Grid {
    /// Whether a move one column left is permitted: the piece is not
    /// flush against the left wall, and no leftmost cell has a locked
    /// neighbour one column over.
    pub open spec fn can_move_left(self) -> bool {
        match self.current {
            None => false,
            Some(t) => t.x != 0 && forall|p: (usize, usize)|
                #[trigger] is_leftmost(t, p) ==> self.cells()[p.0 as int][p.1 - 1] != 1,
        }
    }

    /// Whether a move one column right is permitted: the piece is not
    /// flush against the right wall, and no rightmost cell has a locked
    /// neighbour one column over.
    pub open spec fn can_move_right(self) -> bool {
        match self.current {
            None => false,
            Some(t) => t.x + t.layout()[0].len() != WIDTH && forall|p: (usize, usize)|
                #[trigger] is_rightmost(t, p) ==> self.cells()[p.0 as int][p.1 + 1] != 1,
        }
    }
}

impl Grid {
    /// Applies one player command to the active piece.  LEFT and RIGHT
    /// move only when permitted and are silent no-ops otherwise; UP
    /// corrects the anchor against the far edges and then rotates
    /// clockwise, with no collision re-check against locked terrain;
    /// DOWN forces one row of descent, unchecked.
    #[verifier::loop_isolation(false)]
    pub fn mv(&mut self, con: Control)
        requires
            old(self).wf(),
            old(self).current.is_some(),
            old(self).piece_fits(),
        ensures
            final(self).grid == old(self).grid,
            final(self).h == old(self).h && final(self).l == old(self).l,
            final(self).wf(),
            final(self).current.is_some(),
            con == Control::LEFT ==> {
                &&& final(self).piece().coors == old(self).piece().coors
                &&& final(self).piece().y == old(self).piece().y
                &&& final(self).piece().x as int == (if old(self).can_move_left() {
                    old(self).piece().x - 1
                } else {
                    old(self).piece().x as int
                })
                &&& final(self).piece_fits()
            },
            con == Control::RIGHT ==> {
                &&& final(self).piece().coors == old(self).piece().coors
                &&& final(self).piece().y == old(self).piece().y
                &&& final(self).piece().x as int == (if old(self).can_move_right() {
                    old(self).piece().x + 1
                } else {
                    old(self).piece().x as int
                })
                &&& final(self).piece_fits()
            },
            con == Control::UP ==> {
                &&& final(self).piece().layout() == rotated(old(self).piece().layout())
                &&& final(self).piece().x as int == kicked_x(old(self).piece())
                &&& final(self).piece().y as int == kicked_y(old(self).piece())
                &&& final(self).piece_fits()
            },
            con == Control::DOWN ==> {
                &&& final(self).piece().coors == old(self).piece().coors
                &&& final(self).piece().x == old(self).piece().x
                &&& final(self).piece().y == old(self).piece().y + 1
            },
            con == Control::LEFT && old(self).piece().x == 0 ==> final(self).current == old(
                self,
            ).current,
            con == Control::RIGHT && old(self).piece().x + old(self).piece().layout()[0].len()
                == WIDTH ==> final(self).current == old(self).current,
    {
        match con {
            Control::LEFT => {
                let mut allowed: bool = false;
                match &self.current {
                    None => {
                        proof {
                            assert(false);
                        }
                    },
                    Some(t) => {
                        if t.x != 0 {
                            let coords = t.to_coords();
                            let ghost s = coords.coords@;
                            let ls = coords.lefts();
                            let ghost lss = ls@;
                            proof {
                                assert forall|p: (usize, usize)|
                                    #[trigger] lss.contains(p) implies is_leftmost(*t, p) by {
                                    assert(s.contains(p));
                                    assert(t.occupies(p.0 as int, p.1 as int));
                                    assert forall|cc: int| cc < p.1 implies !t.occupies(
                                        p.0 as int,
                                        cc,
                                    ) by {
                                        if t.occupies(p.0 as int, cc) {
                                            assert(cc >= t.x);
                                            let q = (p.0, (cc as usize));
                                            assert(t.occupies(q.0 as int, q.1 as int));
                                            assert(s.contains(q));
                                            assert(p.1 <= q.1);
                                        }
                                    }
                                }
                                assert forall|p: (usize, usize)|
                                    #[trigger] is_leftmost(*t, p) implies lss.contains(p) by {
                                    assert(s.contains(p));
                                    assert forall|q: (usize, usize)|
                                        #[trigger] s.contains(q) && q.0 == p.0 implies p.1
                                        <= q.1 by {
                                        if q.1 < p.1 {
                                            assert(t.occupies(q.0 as int, q.1 as int));
                                            assert(!t.occupies(p.0 as int, q.1 as int));
                                        }
                                    }
                                }
                            }
                            allowed = true;
                            let mut k: usize = 0;
                            while k < ls.len()
                                invariant
                                    k <= lss.len(),
                                    allowed == (forall|k2: int|
                                        0 <= k2 < k ==> self.cells()[(
                                        #[trigger] lss[k2]).0 as int][lss[k2].1 - 1] != 1),
                                decreases lss.len() - k,
                            {
                                let c = ls[k];
                                proof {
                                    assert(lss.contains(c));
                                    assert(is_leftmost(*t, c));
                                    assert(t.occupies(c.0 as int, c.1 as int));
                                    assert(c.0 < HEIGHT && c.1 < WIDTH && c.1 >= 1);
                                    assert(self.cells()[c.0 as int] =~= self.grid@[c.0 as int]@);
                                }
                                if self.grid[c.0][c.1 - 1] == 1 {
                                    allowed = false;
                                }
                                k = k + 1;
                            }
                            proof {
                                if allowed {
                                    assert forall|p: (usize, usize)|
                                        #[trigger] is_leftmost(*t, p) implies self.cells()[p.0 as int][p.1
                                        - 1] != 1 by {
                                        assert(lss.contains(p));
                                        let w = choose|w: int| 0 <= w < lss.len() && lss[w] == p;
                                        assert(self.cells()[(lss[w]).0 as int][lss[w].1 - 1] != 1);
                                    }
                                    assert(self.can_move_left());
                                } else {
                                    let w = choose|w: int|
                                        0 <= w < lss.len() && !(self.cells()[(
                                        #[trigger] lss[w]).0 as int][lss[w].1 - 1] != 1);
                                    assert(lss.contains(lss[w]));
                                    assert(is_leftmost(*t, lss[w]));
                                    assert(!self.can_move_left());
                                }
                            }
                        } else {
                            proof {
                                assert(!self.can_move_left());
                            }
                        }
                    },
                }
                if allowed {
                    match &mut self.current {
                        None => {
                            proof {
                                assert(false);
                            }
                        },
                        Some(t) => {
                            proof {
                                assert(t.x >= 1);
                            }
                            t.mv(&Direction::LEFT);
                        },
                    }
                }
            },
            Control::RIGHT => {
                let mut allowed: bool = false;
                match &self.current {
                    None => {
                        proof {
                            assert(false);
                        }
                    },
                    Some(t) => {
                        if self.l - t.length() != t.x {
                            let coords = t.to_coords();
                            let ghost s = coords.coords@;
                            let rs = coords.rights();
                            let ghost rss = rs@;
                            proof {
                                assert forall|p: (usize, usize)|
                                    #[trigger] rss.contains(p) implies is_rightmost(*t, p) by {
                                    assert(s.contains(p));
                                    assert(t.occupies(p.0 as int, p.1 as int));
                                    assert forall|cc: int| p.1 < cc implies !t.occupies(
                                        p.0 as int,
                                        cc,
                                    ) by {
                                        if t.occupies(p.0 as int, cc) {
                                            assert(cc < t.x + t.layout()[0].len());
                                            let q = (p.0, (cc as usize));
                                            assert(t.occupies(q.0 as int, q.1 as int));
                                            assert(s.contains(q));
                                            assert(q.1 <= p.1);
                                        }
                                    }
                                }
                                assert forall|p: (usize, usize)|
                                    #[trigger] is_rightmost(*t, p) implies rss.contains(p) by {
                                    assert(s.contains(p));
                                    assert forall|q: (usize, usize)|
                                        #[trigger] s.contains(q) && q.0 == p.0 implies q.1
                                        <= p.1 by {
                                        if p.1 < q.1 {
                                            assert(t.occupies(q.0 as int, q.1 as int));
                                            assert(!t.occupies(p.0 as int, q.1 as int));
                                        }
                                    }
                                }
                            }
                            allowed = true;
                            let mut k: usize = 0;
                            while k < rs.len()
                                invariant
                                    k <= rss.len(),
                                    allowed == (forall|k2: int|
                                        0 <= k2 < k ==> self.cells()[(
                                        #[trigger] rss[k2]).0 as int][rss[k2].1 + 1] != 1),
                                decreases rss.len() - k,
                            {
                                let c = rs[k];
                                proof {
                                    assert(rss.contains(c));
                                    assert(is_rightmost(*t, c));
                                    assert(t.occupies(c.0 as int, c.1 as int));
                                    assert(c.0 < HEIGHT);
                                    assert(c.1 + 1 < WIDTH);
                                    assert(self.cells()[c.0 as int] =~= self.grid@[c.0 as int]@);
                                }
                                if self.grid[c.0][c.1 + 1] == 1 {
                                    allowed = false;
                                }
                                k = k + 1;
                            }
                            proof {
                                if allowed {
                                    assert forall|p: (usize, usize)|
                                        #[trigger] is_rightmost(*t, p) implies self.cells()[p.0 as int][p.1
                                        + 1] != 1 by {
                                        assert(rss.contains(p));
                                        let w = choose|w: int| 0 <= w < rss.len() && rss[w] == p;
                                        assert(self.cells()[(rss[w]).0 as int][rss[w].1 + 1] != 1);
                                    }
                                    assert(self.can_move_right());
                                } else {
                                    let w = choose|w: int|
                                        0 <= w < rss.len() && !(self.cells()[(
                                        #[trigger] rss[w]).0 as int][rss[w].1 + 1] != 1);
                                    assert(rss.contains(rss[w]));
                                    assert(is_rightmost(*t, rss[w]));
                                    assert(!self.can_move_right());
                                }
                            }
                        } else {
                            proof {
                                assert(!self.can_move_right());
                            }
                        }
                    },
                }
                if allowed {
                    match &mut self.current {
                        None => {
                            proof {
                                assert(false);
                            }
                        },
                        Some(t) => {
                            t.mv(&Direction::RIGHT);
                        },
                    }
                }
            },
            Control::UP => {
                let l = self.l;
                let h = self.h;
                match &mut self.current {
                    None => {
                        proof {
                            assert(false);
                        }
                    },
                    Some(t) => {
                        let x_offset = (t.x + t.height()) as i8 - l as i8;
                        let y_offset = (t.y + t.length()) as i8 - h as i8;

                        t.wall_kick((x_offset, y_offset));
                        t.rotate(&Rotation::CLOCKWISE);
                        proof {
                            let t0 = old(self).piece();
                            assert(t.layout() == rotated(t0.layout()));
                            assert(t.x as int == kicked_x(t0));
                            assert(t.y as int == kicked_y(t0));
                            assert(rotated(t0.layout()).len() == t0.layout()[0].len());
                            assert(rotated(t0.layout())[0].len() == t0.layout().len());
                        }
                    },
                }
            },
            Control::DOWN => {
                match &mut self.current {
                    None => {
                        proof {
                            assert(false);
                        }
                    },
                    Some(t) => {
                        t.mv(&Direction::DOWN);
                    },
                }
            },
        }
    }
}

/// With no active piece, descent is free.
pub proof fn lemma_no_piece_descends(g: Grid)
    requires
        g.current == None::<Tetramino>,
    ensures
        g.descent_free(),
{
}

/// Where the piece has a bottom cell and its bottom cells agree (either
/// every one of them is blocked or none is), descent is denied exactly
/// when every bottom cell sits in the final row or has a locked cell
/// directly beneath it.
pub proof fn lemma_blocked_iff_every_bottom_blocked(g: Grid)
    requires
        g.wf(),
        g.piece_fits(),
        g.current.is_some(),
        exists|p: (usize, usize)| #[trigger] is_bottom(g.piece(), p),
        (exists|p: (usize, usize)| #[trigger] is_bottom(g.piece(), p) && g.cell_blocks(p)) ==> (
        forall|p: (usize, usize)| #[trigger] is_bottom(g.piece(), p) ==> g.cell_blocks(p)),
    ensures
        (!g.descent_free()) <==> (forall|p: (usize, usize)|
            #[trigger] is_bottom(g.piece(), p) ==> g.cell_blocks(p)),
{
    if !g.descent_free() {
        let p = choose|p: (usize, usize)| is_bottom(g.piece(), p) && g.cell_blocks(p);
        assert(is_bottom(g.piece(), p) && g.cell_blocks(p));
    }
    if forall|p: (usize, usize)| #[trigger] is_bottom(g.piece(), p) ==> g.cell_blocks(p) {
        let w = choose|p: (usize, usize)| #[trigger] is_bottom(g.piece(), p);
        assert(g.cell_blocks(w));
        assert(!g.descent_free());
    }
}

/// Relies on std's `String::push`: it appends exactly the given character
/// to the end of the string.
pub assume_specification[ String::push ](s: &mut String, ch: char)
    ensures
        final(s)@ == old(s)@.push(ch),
;

/// The two-character rendering of one occupancy cell.
pub open spec fn render_cell(v: u8) -> Seq<char> {
    if v == 0 {
        seq![' ', '0']
    } else {
        seq!['[', ']']
    }
}

/// The rendering of one board row, two characters per cell.
pub open spec fn render_row(r: Seq<u8>) -> Seq<char>
    decreases r.len(),
{
    if r.len() == 0 {
        Seq::empty()
    } else {
        render_row(r.drop_last()) + render_cell(r.last())
    }
}

/// The rendering of a whole board, one line per row.
pub open spec fn render_grid(g: Seq<Seq<u8>>) -> Seq<char>
    decreases g.len(),
{
    if g.len() == 0 {
        Seq::empty()
    } else {
        render_grid(g.drop_last()) + render_row(g.last()) + seq!['\n']
    }
}

/// Rendering one more cell appends its two characters.
proof fn lemma_render_row_step(r: Seq<u8>, j: int)
    requires
        0 <= j < r.len(),
    ensures
        render_row(r.take(j + 1)) == render_row(r.take(j)) + render_cell(r[j]),
{
    assert(r.take(j + 1).drop_last() =~= r.take(j));
    assert(r.take(j + 1).last() == r[j]);
}

/// Rendering one more row appends its line.
proof fn lemma_render_grid_step(g: Seq<Seq<u8>>, i: int)
    requires
        0 <= i < g.len(),
    ensures
        render_grid(g.take(i + 1)) == render_grid(g.take(i)) + render_row(g[i]) + seq!['\n'],
{
    assert(g.take(i + 1).drop_last() =~= g.take(i));
    assert(g.take(i + 1).last() == g[i]);
}

impl Grid {
    /// A read-only textual rendering of the occupancy matrix, two
    /// characters per cell and one line per row, with a blank line at the
    /// end; a rendering aid, never used for logic.
    #[verifier::loop_isolation(false)]
    pub fn render(&self) -> (r: String)
        requires
            self.wf(),
        ensures
            r@ == render_grid(self.cells()) + seq!['\n'],
    {
        let mut out = String::new();
        let mut i: usize = 0;
        while i < HEIGHT
            invariant
                i <= HEIGHT,
                out@ == render_grid(self.cells().take(i as int)),
            decreases HEIGHT - i,
        {
            let ghost row = self.cells()[i as int];
            proof {
                assert(self.cells()[i as int] =~= self.grid@[i as int]@);
            }
            let mut j: usize = 0;
            while j < WIDTH
                invariant
                    i < HEIGHT,
                    j <= WIDTH,
                    row == self.cells()[i as int],
                    row.len() == WIDTH,
                    out@ == render_grid(self.cells().take(i as int)) + render_row(
                        row.take(j as int),
                    ),
                decreases WIDTH - j,
            {
                let ghost out0 = out@;
                let v = self.grid[i][j];
                if v == 0 {
                    out.push(' ');
                    out.push('0');
                } else {
                    out.push('[');
                    out.push(']');
                }
                proof {
                    lemma_render_row_step(row, j as int);
                    assert(out@ =~= out0 + render_cell(row[j as int]));
                }
                j = j + 1;
            }
            let ghost out1 = out@;
            out.push('\n');
            proof {
                lemma_render_grid_step(self.cells(), i as int);
                assert(row.take(WIDTH as int) =~= row);
                assert(out@ =~= render_grid(self.cells().take(i as int)) + render_row(row)
                    + seq!['\n']);
            }
            i = i + 1;
        }
        let ghost out2 = out@;
        out.push('\n');
        proof {
            assert(self.cells().take(HEIGHT as int) =~= self.cells());
            assert(out@ =~= render_grid(self.cells()) + seq!['\n']);
        }
        out
    }
}

impl Grid {
    /// Creates a piece with a uniformly drawn catalog shape, anchored at
    /// row 0 and the top-centre column, and makes it the active piece.
    /// No collision check against existing terrain is made at spawn.
    pub fn spawn_and_attach(&mut self)
        requires
            old(self).wf(),
        ensures
            final(self).grid == old(self).grid,
            final(self).h == old(self).h && final(self).l == old(self).l,
            final(self).wf(),
            final(self).current.is_some(),
            final(self).piece().y == 0,
            final(self).piece().x == WIDTH / 2 - 1,
            exists|i: int|
                0 <= i < 7 && final(self).piece().layout() == layout_spec(
                    #[trigger] variant_at(i),
                ),
            final(self).piece_fits(),
    {
        let column = self.l / 2 - 1;
        let t = Tetramino::init_random((0, column));
        proof {
            let i = choose|i: int|
                0 <= i < 7 && t.layout() == layout_spec(#[trigger] variant_at(i));
            lemma_layout_spec_dims(variant_at(i));
        }
        self.attach(t);
    }
}

} // verus!
