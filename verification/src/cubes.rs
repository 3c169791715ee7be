//! A grid of cubes in space that switch on and off with their neighbours.

use vstd::prelude::*;
use crate::text::{chars_of, line_texts};

verus! {

/// A grid of cubes, `width` by `height` by `depth`, with a second grid of
/// the same size in which the next frame is made.
pub struct Grid3 {
    pub cells: Vec<bool>,
    pub next_cells: Vec<bool>,
    pub width: usize,
    pub height: usize,
    pub depth: usize,
}

/// The place of the cube `(x, y, z)` in a grid of the given width and height.
pub open spec fn place(width: int, height: int, x: int, y: int, z: int) -> int {
    ((z * height) + y) * width + x
}

/// 1 for a cube that is on, 0 for one that is off.
pub open spec fn bit(b: bool) -> nat {
    if b {
        1
    } else {
        0
    }
}

/// The number of cubes that are on among the first `k` of the 27 cubes
/// around and including `(x, y, z)`, counted layer by layer and row by row.
pub open spec fn around(cells: Seq<bool>, width: int, height: int, x: int, y: int, z: int, k: int) -> nat
    decreases k,
{
    if k <= 0 {
        0
    } else {
        let j = k - 1;
        around(cells, width, height, x, y, z, j) + bit(
            cells[place(width, height, x + j % 3 - 1, y + (j / 3) % 3 - 1, z + j / 9 - 1)],
        )
    }
}

/// Whether the cube at `(x, y, z)` is on in the next frame: a cube that is
/// on stays on with 2 or 3 neighbours on, and a cube that is off goes on
/// with exactly 3.
pub open spec fn on_next(cells: Seq<bool>, width: int, height: int, x: int, y: int, z: int) -> bool {
    let is_active = cells[place(width, height, x, y, z)];
    let count = around(cells, width, height, x, y, z, 27) - bit(is_active);
    if is_active {
        count == 2 || count == 3
    } else {
        count == 3
    }
}

/// The number of the first `k` cells that are on.
pub open spec fn active_among(cells: Seq<bool>, k: int) -> nat
    decreases k,
{
    if k <= 0 {
        0
    } else {
        active_among(cells, k - 1) + bit(cells[k - 1])
    }
}

/// A cube inside the grid has its place inside the cells.
pub proof fn lemma_place_inside(width: int, height: int, depth: int, x: int, y: int, z: int)
    requires
        0 <= x < width,
        0 <= y < height,
        0 <= z < depth,
    ensures
        0 <= place(width, height, x, y, z) < width * height * depth,
        0 <= z * height + y < height * depth,
        0 <= z * height <= height * depth,
{
    assert(0 <= z * height && z * height + height <= depth * height) by (nonlinear_arith)
        requires
            0 <= z < depth,
            0 <= height,
    ;
    let row = z * height + y;
    assert(0 <= row * width && row * width + width <= height * depth * width) by (nonlinear_arith)
        requires
            0 <= row < height * depth,
            0 <= width,
    ;
    assert(height * depth * width == width * height * depth) by (nonlinear_arith);
    assert(depth * height == height * depth) by (nonlinear_arith);
}

/// Different cubes have different places.
pub proof fn lemma_place_apart(
    width: int,
    height: int,
    x: int,
    y: int,
    z: int,
    x2: int,
    y2: int,
    z2: int,
)
    requires
        0 <= x < width,
        0 <= y < height,
        0 <= x2 < width,
        0 <= y2 < height,
        0 <= z,
        0 <= z2,
        place(width, height, x, y, z) == place(width, height, x2, y2, z2),
    ensures
        x == x2 && y == y2 && z == z2,
{
    let r = z * height + y;
    let r2 = z2 * height + y2;
    assert(r == r2 && x == x2) by (nonlinear_arith)
        requires
            r * width + x == r2 * width + x2,
            0 <= x < width,
            0 <= x2 < width,
    ;
    assert(z == z2 && y == y2) by (nonlinear_arith)
        requires
            z * height + y == z2 * height + y2,
            0 <= y < height,
            0 <= y2 < height,
    ;
}

impl Grid3 {
    /// Both grids have a cell for each cube.
    pub open spec fn wf(&self) -> bool {
        &&& self.cells@.len() == self.width * self.height * self.depth
        &&& self.next_cells@.len() == self.cells@.len()
    }

    /// The cube `(x, y, z)` is not at the edge of the grid.
    pub open spec fn inner(&self, x: int, y: int, z: int) -> bool {
        &&& 1 <= x < self.width - 1
        &&& 1 <= y < self.height - 1
        &&& 1 <= z < self.depth - 1
    }

    /// A grid with all cubes off.
    pub fn new(width: usize, height: usize, depth: usize) -> (g: Grid3)
        requires
            width * height * depth <= usize::MAX,
        ensures
            g.wf(),
            g.width == width && g.height == height && g.depth == depth,
            forall|i: int| 0 <= i < g.cells@.len() ==> !g.cells@[i] && !g.next_cells@[i],
    {
        let size = if width == 0 || height == 0 || depth == 0 {
            proof {
                assert(width * height * depth == 0) by (nonlinear_arith)
                    requires
                        width == 0 || height == 0 || depth == 0,
                ;
            }
            0
        } else {
            proof {
                assert(width * height <= width * height * depth) by (nonlinear_arith)
                    requires
                        width >= 1,
                        height >= 1,
                        depth >= 1,
                ;
            }
            width * height * depth
        };
        let mut cells: Vec<bool> = Vec::new();
        let mut next_cells: Vec<bool> = Vec::new();
        while cells.len() < size
            invariant
                cells@.len() <= size,
                next_cells@.len() == cells@.len(),
                forall|i: int| 0 <= i < cells@.len() ==> !cells@[i] && !next_cells@[i],
            decreases size - cells@.len(),
        {
            cells.push(false);
            next_cells.push(false);
        }
        Grid3 { cells, next_cells, width, height, depth }
    }

    /// The place of the cube `(x, y, z)` in the cells.
    pub fn index(&self, x: usize, y: usize, z: usize) -> (i: usize)
        requires
            place(self.width as int, self.height as int, x as int, y as int, z as int)
                <= usize::MAX,
        ensures
            i == place(self.width as int, self.height as int, x as int, y as int, z as int),
    {
        proof {
            let row = z * self.height + y;
            assert(z * self.height <= row * self.width + x || self.width == 0) by (nonlinear_arith)
                requires
                    row == z * self.height + y,
                    0 <= z * self.height,
                    y >= 0,
                    x >= 0,
                    self.width >= 0,
                    row >= 0,
            ;
            assert(row <= row * self.width + x || self.width == 0) by (nonlinear_arith)
                requires
                    row >= 0,
                    x >= 0,
                    self.width >= 0,
            ;
            assert(0 <= z * self.height) by (nonlinear_arith)
                requires
                    z >= 0,
                    self.height >= 0,
            ;
        }
        if self.width == 0 {
            // Every row is empty: the place is `x`.
            proof {
                assert((z * self.height + y) * self.width == 0) by (nonlinear_arith)
                    requires
                        self.width == 0,
                ;
            }
            return x;
        }
        (((z * self.height) + y) * self.width) + x
    }

    /// Switches the cube `(x, y, z)`.
    pub fn set(&mut self, x: usize, y: usize, z: usize, value: bool)
        requires
            place(old(self).width as int, old(self).height as int, x as int, y as int, z as int)
                < old(self).cells@.len(),
        ensures
            final(self).cells@ == old(self).cells@.update(
                place(
                    old(self).width as int,
                    old(self).height as int,
                    x as int,
                    y as int,
                    z as int,
                ),
                value,
            ),
            final(self).next_cells == old(self).next_cells,
            final(self).width == old(self).width,
            final(self).height == old(self).height,
            final(self).depth == old(self).depth,
    {
        let n = self.cells.len();
        let i = self.index(x, y, z);
        self.cells.set(i, value);
    }

    /// Whether the cube `(x, y, z)` is on.
    pub fn test(&self, x: usize, y: usize, z: usize) -> (b: bool)
        requires
            place(self.width as int, self.height as int, x as int, y as int, z as int)
                < self.cells@.len(),
        ensures
            b == self.cells@[place(
                self.width as int,
                self.height as int,
                x as int,
                y as int,
                z as int,
            )],
    {
        let n = self.cells.len();
        let i = self.index(x, y, z);
        self.cells[i]
    }

    /// Makes the next frame: each cube that is not at the edge of the grid
    /// switches with its neighbours. The cubes at the edge take on what the
    /// second grid held for them, and the second grid takes the old frame.
    pub fn next_frame(&mut self)
        requires
            old(self).wf(),
            old(self).width >= 1,
            old(self).height >= 1,
            old(self).depth >= 1,
        ensures
            final(self).wf(),
            final(self).width == old(self).width,
            final(self).height == old(self).height,
            final(self).depth == old(self).depth,
            final(self).next_cells@ == old(self).cells@,
            forall|x: int, y: int, z: int|
                0 <= x < old(self).width && 0 <= y < old(self).height && 0 <= z < old(self).depth
                    ==> #[trigger] final(self).cells@[place(
                    old(self).width as int,
                    old(self).height as int,
                    x,
                    y,
                    z,
                )] == if old(self).inner(x, y, z) {
                    on_next(old(self).cells@, old(self).width as int, old(self).height as int, x, y, z)
                } else {
                    old(self).next_cells@[place(
                        old(self).width as int,
                        old(self).height as int,
                        x,
                        y,
                        z,
                    )]
                },
    {
        let ghost w = self.width as int;
        let ghost h = self.height as int;
        let ghost d = self.depth as int;
        let ghost before = self.cells@;
        let ghost spare = self.next_cells@;
        let mut z: usize = 1;
        while z < self.depth - 1
            invariant
                self.wf(),
                w == self.width && h == self.height && d == self.depth,
                w >= 1 && h >= 1 && d >= 1,
                self.cells@ == before,
                1 <= z,
                forall|x: int, y: int, c: int|
                    0 <= x < w && 0 <= y < h && 0 <= c < d ==> #[trigger] self.next_cells@[place(
                        w,
                        h,
                        x,
                        y,
                        c,
                    )] == if self.inner(x, y, c) && c < z {
                        on_next(before, w, h, x, y, c)
                    } else {
                        spare[place(w, h, x, y, c)]
                    },
            decreases d - z,
        {
            let mut y: usize = 1;
            while y < self.height - 1
                invariant
                    self.wf(),
                    w == self.width && h == self.height && d == self.depth,
                    w >= 1 && h >= 1 && d >= 1,
                    self.cells@ == before,
                    1 <= z < d - 1,
                    1 <= y,
                    forall|x: int, b: int, c: int|
                        0 <= x < w && 0 <= b < h && 0 <= c < d ==> #[trigger] self.next_cells@[place(
                            w,
                            h,
                            x,
                            b,
                            c,
                        )] == if self.inner(x, b, c) && (c < z || (c == z && b < y)) {
                            on_next(before, w, h, x, b, c)
                        } else {
                            spare[place(w, h, x, b, c)]
                        },
                decreases h - y,
            {
                let mut x: usize = 1;
                while x < self.width - 1
                    invariant
                        self.wf(),
                        w == self.width && h == self.height && d == self.depth,
                        w >= 1 && h >= 1 && d >= 1,
                        self.cells@ == before,
                        1 <= z < d - 1,
                        1 <= y < h - 1,
                        1 <= x,
                        forall|a: int, b: int, c: int|
                            0 <= a < w && 0 <= b < h && 0 <= c < d
                                ==> #[trigger] self.next_cells@[place(w, h, a, b, c)] == if self.inner(
                                a,
                                b,
                                c,
                            ) && (c < z || (c == z && (b < y || (b == y && a < x)))) {
                                on_next(before, w, h, a, b, c)
                            } else {
                                spare[place(w, h, a, b, c)]
                            },
                    decreases w - x,
                {
                    proof {
                        lemma_place_inside(w, h, d, x as int, y as int, z as int);
                    }
                    let n = self.cells.len();
                    let i = self.index(x, y, z);
                    let is_active = self.cells[i];
                    let around = self.count_neighbors_and_self(x, y, z);
                    proof {
                        lemma_self_counted(before, w, h, x as int, y as int, z as int);
                    }
                    let count = around - (if is_active {
                        1usize
                    } else {
                        0usize
                    });
                    let value = if is_active {
                        count == 2 || count == 3
                    } else {
                        count == 3
                    };
                    let ghost prior = self.next_cells@;
                    self.next_cells.set(i, value);
                    proof {
                        assert forall|a: int, b: int, c: int|
                            0 <= a < w && 0 <= b < h && 0 <= c < d
                                implies #[trigger] self.next_cells@[place(w, h, a, b, c)] == if self.inner(
                            a,
                            b,
                            c,
                        ) && (c < z || (c == z && (b < y || (b == y && a < x + 1)))) {
                            on_next(before, w, h, a, b, c)
                        } else {
                            spare[place(w, h, a, b, c)]
                        } by {
                            lemma_place_inside(w, h, d, a, b, c);
                            if place(w, h, a, b, c) == i {
                                lemma_place_apart(w, h, a, b, c, x as int, y as int, z as int);
                            } else {
                                assert(self.next_cells@[place(w, h, a, b, c)] == prior[place(
                                    w,
                                    h,
                                    a,
                                    b,
                                    c,
                                )]);
                            }
                        }
                    }
                    x += 1;
                }
                y += 1;
            }
            z += 1;
        }
        std::mem::swap(&mut self.cells, &mut self.next_cells);
    }

    /// The number of cubes that are on among the cube `(x, y, z)` and its
    /// 26 neighbours.
    pub fn count_neighbors_and_self(&self, x: usize, y: usize, z: usize) -> (count: usize)
        requires
            self.wf(),
            self.inner(x as int, y as int, z as int),
        ensures
            count == around(
                self.cells@,
                self.width as int,
                self.height as int,
                x as int,
                y as int,
                z as int,
                27,
            ),
            count <= 27,
    {
        let ghost w = self.width as int;
        let ghost h = self.height as int;
        let ghost d = self.depth as int;
        let ghost px = x as int;
        let ghost py = y as int;
        let ghost pz = z as int;
        let mut count: usize = 0;
        let mut dz: usize = 0;
        while dz < 3
            invariant
                self.wf(),
                w == self.width && h == self.height && d == self.depth,
                px == x && py == y && pz == z,
                self.inner(px, py, pz),
                dz <= 3,
                count == around(self.cells@, w, h, px, py, pz, dz * 9),
                count <= dz * 9,
            decreases 3 - dz,
        {
            let mut dy: usize = 0;
            while dy < 3
                invariant
                    self.wf(),
                    w == self.width && h == self.height && d == self.depth,
                    px == x && py == y && pz == z,
                    self.inner(px, py, pz),
                    dz < 3,
                    dy <= 3,
                    count == around(self.cells@, w, h, px, py, pz, dz * 9 + dy * 3),
                    count <= dz * 9 + dy * 3,
                decreases 3 - dy,
            {
                let mut dx: usize = 0;
                while dx < 3
                    invariant
                        self.wf(),
                        w == self.width && h == self.height && d == self.depth,
                        px == x && py == y && pz == z,
                        self.inner(px, py, pz),
                        dz < 3,
                        dy < 3,
                        dx <= 3,
                        count == around(self.cells@, w, h, px, py, pz, dz * 9 + dy * 3 + dx),
                        count <= dz * 9 + dy * 3 + dx,
                    decreases 3 - dx,
                {
                    let ghost j = (dz * 9 + dy * 3 + dx) as int;
                    proof {
                        assert(j % 3 == dx && (j / 3) % 3 == dy && j / 9 == dz);
                        lemma_place_inside(w, h, d, px + dx - 1, py + dy - 1, pz + dz - 1);
                    }
                    if self.test(x + dx - 1, y + dy - 1, z + dz - 1) {
                        count += 1;
                    }
                    dx += 1;
                }
                dy += 1;
            }
            dz += 1;
        }
        count
    }

    /// The number of cubes that are on.
    pub fn count_active_cells(&self) -> (count: usize)
        ensures
            count == active_among(self.cells@, self.cells@.len() as int),
    {
        let mut count: usize = 0;
        let mut i: usize = 0;
        while i < self.cells.len()
            invariant
                i <= self.cells@.len(),
                count == active_among(self.cells@, i as int),
                count <= i,
            decreases self.cells@.len() - i,
        {
            if self.cells[i] {
                count += 1;
            }
            i += 1;
        }
        count
    }
}

/// The cube itself is one of the 27 that are counted.
pub proof fn lemma_self_counted(cells: Seq<bool>, w: int, h: int, x: int, y: int, z: int)
    ensures
        around(cells, w, h, x, y, z, 27) >= bit(cells[place(w, h, x, y, z)]),
{
    lemma_around_grows(cells, w, h, x, y, z, 14, 27);
    assert(13int % 3 == 1 && (13int / 3) % 3 == 1 && 13int / 9 == 1);
    assert(around(cells, w, h, x, y, z, 14) == around(cells, w, h, x, y, z, 13) + bit(
        cells[place(w, h, x, y, z)],
    ));
}

/// Counting more cubes does not give less.
pub proof fn lemma_around_grows(cells: Seq<bool>, w: int, h: int, x: int, y: int, z: int, k: int, m: int)
    requires
        k <= m,
    ensures
        around(cells, w, h, x, y, z, k) <= around(cells, w, h, x, y, z, m),
    decreases m - k,
{
    if k < m {
        lemma_around_grows(cells, w, h, x, y, z, k, m - 1);
    }
}

/// The index of the first empty line from `from` on, or the number of lines.
pub open spec fn rows_end(lines: Seq<Seq<char>>, from: int) -> int
    decreases lines.len() - from,
{
    if from < 0 || from >= lines.len() {
        lines.len() as int
    } else if lines[from].len() == 0 {
        from
    } else {
        rows_end(lines, from + 1)
    }
}

/// The rows of a slice of cubes: the lines before the first empty one.
pub open spec fn rows_of(lines: Seq<Seq<char>>) -> Seq<Seq<char>> {
    lines.take(rows_end(lines, 0))
}

/// All rows are as long as the first.
pub open spec fn even(rows: Seq<Seq<char>>) -> bool {
    forall|i: int| 0 <= i < rows.len() ==> (#[trigger] rows[i]).len() == rows[0].len()
}

/// The cubes of a row: those at a `#` are on.
pub open spec fn row_cubes(row: Seq<char>) -> Seq<bool> {
    Seq::new(row.len(), |j: int| row[j] == '#')
}

/// The cubes of the rows, row after row.
pub open spec fn cubes_of(rows: Seq<Seq<char>>) -> Seq<bool>
    decreases rows.len(),
{
    if rows.len() == 0 {
        Seq::empty()
    } else {
        cubes_of(rows.drop_last()) + row_cubes(rows.last())
    }
}

/// The width of the rows: the length of the first, or 0 without any.
pub open spec fn width_of(rows: Seq<Seq<char>>) -> nat {
    if rows.len() == 0 {
        0
    } else {
        rows[0].len()
    }
}

/// The end of the rows lies at or behind `from`, and is `from` where the
/// lines end or an empty line stands.
pub proof fn lemma_rows_end(lines: Seq<Seq<char>>, from: int)
    requires
        0 <= from <= lines.len(),
    ensures
        from <= rows_end(lines, from) <= lines.len(),
        from < lines.len() && lines[from].len() > 0 ==> rows_end(lines, from) > from,
    decreases lines.len() - from,
{
    if from < lines.len() && lines[from].len() > 0 {
        lemma_rows_end(lines, from + 1);
    }
}

/// Reads a slice of cubes from the lines before the first empty one: the
/// width of the rows and the cubes row after row. There is no result if a
/// row is not as long as the first.
pub fn slice_of_lines(lines: &Vec<String>) -> (r: Option<(usize, Vec<bool>)>)
    ensures
        r is Some <==> even(rows_of(line_texts(lines@))),
        match r {
            Some((width, cubes)) => width == width_of(rows_of(line_texts(lines@))) && cubes@
                == cubes_of(rows_of(line_texts(lines@))),
            None => true,
        },
{
    let ghost all = line_texts(lines@);
    let mut width: usize = 0;
    let mut v: Vec<bool> = Vec::new();
    let mut i: usize = 0;
    proof {
        assert(all.take(0) =~= Seq::<Seq<char>>::empty());
        lemma_rows_end(all, 0);
    }
    while i < lines.len()
        invariant_except_break
            rows_end(all, 0) == rows_end(all, i as int),
        invariant
            all == line_texts(lines@),
            i <= lines@.len(),
            i <= rows_end(all, 0) <= all.len(),
            forall|j: int| 0 <= j < i ==> (#[trigger] all[j]).len() == width && width > 0,
            i == 0 ==> width == 0,
            v@ == cubes_of(all.take(i as int)),
        ensures
            i <= lines@.len(),
            rows_end(all, 0) == i,
            forall|j: int| 0 <= j < i ==> (#[trigger] all[j]).len() == width,
            i == 0 ==> width == 0,
            v@ == cubes_of(all.take(i as int)),
        decreases lines@.len() - i,
    {
        let ghost line = all[i as int];
        let ghost before = v@;
        let chars = chars_of(lines[i].as_str());
        proof {
            lemma_rows_end(all, i as int);
            lemma_rows_end(all, i + 1);
        }
        if chars.len() == 0 {
            break;
        }
        let mut k: usize = 0;
        while k < chars.len()
            invariant
                k <= chars@.len(),
                chars@ == line,
                v@ == before + row_cubes(line).take(k as int),
            decreases chars@.len() - k,
        {
            v.push(chars[k] == '#');
            proof {
                assert(row_cubes(line).take(k + 1) =~= row_cubes(line).take(k as int).push(
                    line[k as int] == '#',
                ));
            }
            k += 1;
        }
        proof {
            assert(row_cubes(line).take(line.len() as int) =~= row_cubes(line));
            assert(all.take(i + 1).drop_last() =~= all.take(i as int));
            assert(all.take(i + 1).last() == line);
        }
        if width == 0 {
            width = chars.len();
        } else if chars.len() != width {
            proof {
                let rows = rows_of(all);
                assert(rows[i as int] == all[i as int]);
                assert(rows[0] == all[0]);
                assert(rows[i as int].len() != rows[0].len());
            }
            return None;
        }
        i += 1;
    }
    proof {
        let rows = rows_of(all);
        assert forall|j: int| 0 <= j < rows.len() implies (#[trigger] rows[j]).len()
            == rows[0].len() by {
            assert(rows[j] == all[j]);
            assert(rows[0] == all[0]);
        }
        if rows.len() > 0 {
            assert(rows[0] == all[0]);
        }
    }
    Some((width, v))
}

} // verus!
