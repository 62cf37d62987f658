use vstd::prelude::*;

verus! {

/// What a cell of the grid holds.
#[derive(Clone, Copy, Debug, PartialEq, Eq, Structural)]
pub enum Tile {
    Empty,
    Snake,
    Food,
}

/// A row-major snapshot of a grid: the cell `(x, y)` is `tiles[y * width + x]`.
pub struct Board {
    pub tiles: Vec<Tile>,
    pub width: usize,
}

/// The flat index of the cell `(x, y)` on a grid of the given width.
pub open spec fn cell_index(width: int, x: int, y: int) -> int {
    y * width + x
}

impl Board {
    /// A board of `width * height` cells, each holding `tile`.
    pub fn fill(tile: Tile, width: usize, height: usize) -> (r: Board)
        requires
            width * height <= usize::MAX,
        ensures
            r.width == width,
            r.tiles@.len() == width * height,
            forall|i: int| 0 <= i < r.tiles@.len() ==> r.tiles@[i] == tile,
    {
        let n: usize = width * height;
        let mut tiles: Vec<Tile> = Vec::with_capacity(n);
        let mut i: usize = 0;
        while i < n
            invariant
                i <= n,
                tiles@.len() == i,
                forall|j: int| 0 <= j < i ==> tiles@[j] == tile,
            decreases n - i,
        {
            tiles.push(tile);
            i = i + 1;
        }
        Board { tiles, width }
    }

    /// The number of whole rows.
    pub fn height(&self) -> (r: usize)
        requires
            self.width > 0,
        ensures
            r == self.tiles@.len() as int / (self.width as int),
    {
        self.tiles.len() / self.width
    }

    /// The tile at flat index `y * width + x`, if that index lies within the board.
    pub fn get(&self, x: usize, y: usize) -> (r: Option<&Tile>)
        ensures
            match r {
                Some(t) => cell_index(self.width as int, x as int, y as int) < self.tiles@.len()
                    && *t == self.tiles@[cell_index(self.width as int, x as int, y as int)],
                None => cell_index(self.width as int, x as int, y as int) >= self.tiles@.len(),
            },
    {
        match self.index_of(x, y) {
            Some(i) => Some(&self.tiles[i]),
            None => None,
        }
    }

    /// A mutable reference to the tile at flat index `y * width + x`, if that index
    /// lies within the board.
    pub fn get_mut(&mut self, x: usize, y: usize) -> (r: Option<&mut Tile>)
        ensures
            final(self).width == old(self).width,
            match r {
                Some(t) => {
                    let i = cell_index(old(self).width as int, x as int, y as int);
                    &&& i < old(self).tiles@.len()
                    &&& *t == old(self).tiles@[i]
                    &&& final(self).tiles@ == old(self).tiles@.update(i, *final(t))
                },
                None => {
                    &&& cell_index(old(self).width as int, x as int, y as int)
                        >= old(self).tiles@.len()
                    &&& final(self).tiles@ == old(self).tiles@
                },
            },
    {
        match self.index_of(x, y) {
            Some(i) => Some(&mut self.tiles[i]),
            None => None,
        }
    }

    /// The flat index of `(x, y)`, when it is below the number of tiles.
    fn index_of(&self, x: usize, y: usize) -> (r: Option<usize>)
        ensures
            match r {
                Some(i) => i == cell_index(self.width as int, x as int, y as int) && i
                    < self.tiles@.len(),
                None => cell_index(self.width as int, x as int, y as int) >= self.tiles@.len(),
            },
    {
        let len = self.tiles.len();
        let ghost idx = cell_index(self.width as int, x as int, y as int);
        proof {
            assert(0 <= y * self.width) by (nonlinear_arith);
            assert(idx == y * self.width + x);
        }
        match y.checked_mul(self.width) {
            Some(row) => {
                assert(row == y * self.width);
                match row.checked_add(x) {
                    Some(i) => {
                        if i < len {
                            Some(i)
                        } else {
                            None
                        }
                    },
                    None => {
                        assert(idx > usize::MAX);
                        None
                    },
                }
            },
            None => {
                assert(y * self.width > usize::MAX);
                assert(idx > usize::MAX);
                None
            },
        }
    }

    /// The whole rows of the board, top to bottom as stored.
    pub fn rows(&self) -> (r: Vec<Vec<Tile>>)
        requires
            self.width > 0,
        ensures
            r@.len() == self.tiles@.len() as int / (self.width as int),
            forall|y: int|
                0 <= y < r@.len() ==> (#[trigger] r@[y])@ == self.tiles@.subrange(
                    y * self.width,
                    y * self.width + self.width,
                ),
    {
        let w = self.width;
        let len = self.tiles.len();
        let n = len / w;
        let mut rows: Vec<Vec<Tile>> = Vec::with_capacity(n);
        let mut y: usize = 0;
        while y < n
            invariant
                w == self.width,
                w > 0,
                len == self.tiles@.len(),
                n == self.tiles@.len() as int / (w as int),
                y <= n,
                rows@.len() == y,
                forall|k: int|
                    0 <= k < y ==> (#[trigger] rows@[k])@ == self.tiles@.subrange(
                        k * w,
                        k * w + w,
                    ),
            decreases n - y,
        {
            proof {
                lemma_next_row_fits(y as int, n as int, w as int, self.tiles@.len() as int);
            }
            let start: usize = y * w;
            let mut row: Vec<Tile> = Vec::with_capacity(w);
            let mut x: usize = 0;
            while x < w
                invariant
                    w == self.width,
                    len == self.tiles@.len(),
                    start == y * w,
                    start + w <= self.tiles@.len(),
                    x <= w,
                    row@ == self.tiles@.subrange(start as int, start + x),
                decreases w - x,
            {
                row.push(self.tiles[start + x]);
                x = x + 1;
                assert(row@ =~= self.tiles@.subrange(start as int, start + x));
            }
            rows.push(row);
            y = y + 1;
        }
        rows
    }
}

proof fn lemma_next_row_fits(y: int, n: int, w: int, len: int)
    requires
        0 <= y < n,
        w > 0,
        len >= 0,
        n == len / w,
    ensures
        0 <= y * w,
        y * w + w <= len,
        (y + 1) * w == y * w + w,
{
    assert(0 <= y * w) by (nonlinear_arith)
        requires
            0 <= y,
            w > 0,
    ;
    assert((y + 1) * w <= n * w) by (nonlinear_arith)
        requires
            y < n,
            w > 0,
    ;
    assert(n * w <= len) by (nonlinear_arith)
        requires
            n == len / w,
            w > 0,
            len >= 0,
    ;
    assert((y + 1) * w == y * w + w) by (nonlinear_arith);
}

} // verus!
