//! A waiting area: seats fill and empty with the seats around them, until
//! nothing changes any more.

use vstd::prelude::*;
use crate::text::chars_of;

verus! {

/// A place of the waiting area: floor, an empty seat or a full seat.
#[derive(Clone, Copy, Debug, PartialEq, Eq, Structural)]
pub enum Cell {
    Space,
    Empty,
    Full,
}

/// Which seats count for a seat. By either rule four full ones are too many.
#[derive(Clone, Copy, Debug, PartialEq, Eq, Structural)]
pub enum Rule {
    /// The seats next to the seat.
    Adjacent,
    /// The first seat in each of the eight directions.
    Visible,
}

/// The number of full seats among the cells `from..to`.
pub open spec fn full_in(v: Seq<Cell>, from: int, to: int) -> nat
    decreases to - from,
{
    if to <= from {
        0
    } else {
        full_in(v, from, to - 1) + if v[to - 1] == Cell::Full {
            1nat
        } else {
            0nat
        }
    }
}

/// The number of full seats.
pub fn count_full_cells(v: &[Cell]) -> (n: usize)
    ensures
        n == full_in(v@, 0, v@.len() as int),
{
    count_full_between(v, 0, v.len())
}

/// The number of full seats among the cells `from..to`.
fn count_full_between(v: &[Cell], from: usize, to: usize) -> (n: usize)
    requires
        from <= to <= v@.len(),
    ensures
        n == full_in(v@, from as int, to as int),
        n <= to - from,
{
    let mut n: usize = 0;
    let mut i: usize = from;
    while i < to
        invariant
            from <= i <= to <= v@.len(),
            n == full_in(v@, from as int, i as int),
            n <= i - from,
        decreases to - i,
    {
        if v[i] == Cell::Full {
            n += 1;
        }
        i += 1;
    }
    n
}

/// What becomes of a cell with `count` full seats that count for it, where
/// `limit` of them are too many: an empty seat fills if none is full, and a
/// full seat empties if too many are.
pub open spec fn cell_after(cell: Cell, count: int, limit: int) -> Cell {
    match cell {
        Cell::Space => Cell::Space,
        Cell::Empty => if count == 0 {
            Cell::Full
        } else {
            Cell::Empty
        },
        Cell::Full => if count < limit {
            Cell::Full
        } else {
            Cell::Empty
        },
    }
}

/// The place of the cell `(x, y)` in an area of the given width.
pub open spec fn at(width: int, x: int, y: int) -> int {
    y * width + x
}

/// The number of full seats in the block of three rows and three columns
/// around the cell `(x, y)`, as far as the block lies in the area; the cell
/// itself is counted.
pub open spec fn full_in_block(v: Seq<Cell>, width: int, height: int, x: int, y: int) -> nat {
    let i = y * width;
    let left = if x > 0 {
        x - 1
    } else {
        x
    };
    let right = if x + 1 < width {
        x + 2
    } else {
        x + 1
    };
    full_in(v, i + left, i + right) + (if y > 0 {
        full_in(v, i - width + left, i - width + right)
    } else {
        0
    }) + (if y + 1 < height {
        full_in(v, i + width + left, i + width + right)
    } else {
        0
    })
}

/// The cell `(x, y)` in the next frame, by the seats next to it. A full
/// seat counts itself, so five full seats in its block are too many.
pub open spec fn adjacent_after(v: Seq<Cell>, width: int, height: int, x: int, y: int) -> Cell {
    cell_after(v[at(width, x, y)], full_in_block(v, width, height, x, y) as int, 5)
}

/// The rows up to `y` times the width lie within the area.
pub proof fn lemma_row_inside(width: int, height: int, y: int)
    requires
        0 <= y < height,
        0 <= width,
    ensures
        0 <= y * width,
        y * width + width <= width * height,
        (y + 1) * width == y * width + width,
        (y - 1) * width == y * width - width,
{
    assert(0 <= y * width && y * width + width <= width * height && (y + 1) * width == y * width
        + width && (y - 1) * width == y * width - width) by (nonlinear_arith)
        requires
            0 <= y < height,
            0 <= width,
    ;
}

/// The number of full seats in the block around the cell `(x, y)`.
fn count_block(v: &[Cell], width: usize, height: usize, x: usize, y: usize) -> (count: usize)
    requires
        width * height == v@.len(),
        x < width,
        y < height,
    ensures
        count == full_in_block(v@, width as int, height as int, x as int, y as int),
        y * width + x < v@.len(),
{
    let n = v.len();
    proof {
        lemma_row_inside(width as int, height as int, y as int);
        if y + 1 < height {
            lemma_row_inside(width as int, height as int, y + 1);
        }
    }
    let i = y * width;
    let left = if x > 0 {
        x - 1
    } else {
        x
    };
    let right = if x + 1 < width {
        x + 2
    } else {
        x + 1
    };
    let mut count = count_full_between(v, i + left, i + right);
    if y > 0 {
        count += count_full_between(v, i - width + left, i - width + right);
    }
    if y + 1 < height {
        count += count_full_between(v, i + width + left, i + width + right);
    }
    count
}

/// Makes the next frame by the seats next to each seat.
pub fn next_frame1(v: &[Cell], width: usize, height: usize, next: &mut Vec<Cell>)
    requires
        width * height == v@.len(),
        old(next)@.len() >= v@.len(),
    ensures
        final(next)@.len() == old(next)@.len(),
        forall|x: int, y: int|
            0 <= x < width && 0 <= y < height ==> #[trigger] final(next)@[at(width as int, x, y)]
                == adjacent_after(v@, width as int, height as int, x, y),
        forall|j: int| v@.len() <= j < old(next)@.len() ==> final(next)@[j] == old(next)@[j],
{
    let ghost w = width as int;
    let ghost h = height as int;
    let ghost start = next@;
    let mut y: usize = 0;
    while y < height
        invariant
            w == width && h == height,
            w * h == v@.len(),
            next@.len() == start.len(),
            start.len() >= v@.len(),
            y <= height,
            forall|a: int, b: int|
                0 <= a < w && 0 <= b < y ==> #[trigger] next@[at(w, a, b)] == adjacent_after(
                    v@,
                    w,
                    h,
                    a,
                    b,
                ),
            forall|j: int| v@.len() <= j < start.len() ==> next@[j] == start[j],
        decreases height - y,
    {
        let mut x: usize = 0;
        while x < width
            invariant
                w == width && h == height,
                w * h == v@.len(),
                next@.len() == start.len(),
                start.len() >= v@.len(),
                y < height,
                x <= width,
                forall|a: int, b: int|
                    0 <= a < w && 0 <= b < h && (b < y || (b == y && a < x))
                        ==> #[trigger] next@[at(w, a, b)] == adjacent_after(v@, w, h, a, b),
                forall|j: int| v@.len() <= j < start.len() ==> next@[j] == start[j],
            decreases width - x,
        {
            let n = v.len();
            let count = count_block(v, width, height, x, y);
            proof {
                lemma_row_inside(w, h, y as int);
            }
            let i = y * width + x;
            let value = match v[i] {
                Cell::Space => Cell::Space,
                Cell::Empty => if count == 0 {
                    Cell::Full
                } else {
                    Cell::Empty
                },
                Cell::Full => if count < 5 {
                    Cell::Full
                } else {
                    Cell::Empty
                },
            };
            let ghost prior = next@;
            next.set(i, value);
            proof {
                assert(i == at(w, x as int, y as int));
                assert(value == adjacent_after(v@, w, h, x as int, y as int));
                assert forall|a: int, b: int|
                    0 <= a < w && 0 <= b < h && (b < y || (b == y && a < x + 1))
                        implies #[trigger] next@[at(w, a, b)] == adjacent_after(v@, w, h, a, b) by {
                    lemma_at_inside(w, h, a, b);
                    if b == y && a == x {
                    } else {
                        lemma_cell_apart(w, a, b, x as int, y as int);
                        assert(next@[at(w, a, b)] == prior[at(w, a, b)]);
                    }
                }
            }
            x += 1;
        }
        y += 1;
    }
}

/// A cell of the area has its place in the area.
pub proof fn lemma_at_inside(width: int, height: int, x: int, y: int)
    requires
        0 <= x < width,
        0 <= y < height,
    ensures
        0 <= at(width, x, y) < width * height,
{
    lemma_row_inside(width, height, y);
}

/// Different cells of the area have different places.
pub proof fn lemma_cell_apart(width: int, x: int, y: int, x2: int, y2: int)
    requires
        0 <= x < width,
        0 <= x2 < width,
        0 <= y,
        0 <= y2,
        x != x2 || y != y2,
    ensures
        at(width, x, y) != at(width, x2, y2),
        0 <= at(width, x, y),
{
    assert(y * width + x != y2 * width + x2 && 0 <= y * width + x) by (nonlinear_arith)
        requires
            0 <= x < width,
            0 <= x2 < width,
            0 <= y,
            0 <= y2,
            x != x2 || y != y2,
    ;
}

/// The place of the cell `(x, y)` in an area of the given width.
pub fn get_cell_index(width: usize, x: isize, y: isize) -> (i: usize)
    requires
        0 <= x,
        0 <= y,
        y * width + x <= usize::MAX,
    ensures
        i == y * width + x,
{
    proof {
        assert(y * width <= y * width + x && 0 <= y * width) by (nonlinear_arith)
            requires
                0 <= x,
                0 <= y,
                0 <= width,
        ;
    }
    (y as usize) * width + (x as usize)
}

/// The number of steps from `(x, y)` in the direction `(dx, dy)` that can
/// stay in the area at most.
pub open spec fn steps_left(width: int, height: int, x: int, y: int, dx: int, dy: int) -> nat {
    if 0 <= x < width && 0 <= y < height {
        ((if dx > 0 {
            width - x
        } else if dx < 0 {
            x + 1
        } else {
            0
        }) + (if dy > 0 {
            height - y
        } else if dy < 0 {
            y + 1
        } else {
            0
        })) as nat
    } else {
        0
    }
}

/// The first seat from `(x, y)` on in the direction `(dx, dy)` is full.
pub open spec fn sees_full(v: Seq<Cell>, width: int, height: int, x: int, y: int, dx: int, dy: int) -> bool
    decreases steps_left(width, height, x, y, dx, dy),
{
    if !(0 <= x < width && 0 <= y < height) || (dx == 0 && dy == 0) {
        false
    } else if v[at(width, x, y)] != Cell::Space {
        v[at(width, x, y)] == Cell::Full
    } else {
        sees_full(v, width, height, x + dx, y + dy, dx, dy)
    }
}

/// The eight directions, row by row.
pub open spec fn direction(k: int) -> (int, int) {
    if k == 0 {
        (-1, -1)
    } else if k == 1 {
        (0, -1)
    } else if k == 2 {
        (1, -1)
    } else if k == 3 {
        (-1, 0)
    } else if k == 4 {
        (1, 0)
    } else if k == 5 {
        (-1, 1)
    } else if k == 6 {
        (0, 1)
    } else {
        (1, 1)
    }
}

/// The number of the first `k` directions in which a full seat is seen
/// from `(x, y)`.
pub open spec fn seen_full(v: Seq<Cell>, width: int, height: int, x: int, y: int, k: int) -> nat
    decreases k,
{
    if k <= 0 {
        0
    } else {
        seen_full(v, width, height, x, y, k - 1) + if sees_full(
            v,
            width,
            height,
            x + direction(k - 1).0,
            y + direction(k - 1).1,
            direction(k - 1).0,
            direction(k - 1).1,
        ) {
            1nat
        } else {
            0nat
        }
    }
}

/// The cell `(x, y)` in the next frame, by the seats seen from it.
pub open spec fn visible_after(v: Seq<Cell>, width: int, height: int, x: int, y: int) -> Cell {
    cell_after(v[at(width, x, y)], seen_full(v, width, height, x, y, 8) as int, 4)
}

/// The direction with the number `k`.
fn direction_at(k: usize) -> (d: (isize, isize))
    requires
        k < 8,
    ensures
        d.0 == direction(k as int).0,
        d.1 == direction(k as int).1,
{
    if k == 0 {
        (-1, -1)
    } else if k == 1 {
        (0, -1)
    } else if k == 2 {
        (1, -1)
    } else if k == 3 {
        (-1, 0)
    } else if k == 4 {
        (1, 0)
    } else if k == 5 {
        (-1, 1)
    } else if k == 6 {
        (0, 1)
    } else {
        (1, 1)
    }
}

/// Makes the next frame by the seats seen from each seat.
pub fn next_frame2(v: &[Cell], width: usize, height: usize, next: &mut Vec<Cell>)
    requires
        width * height == v@.len(),
        old(next)@.len() >= v@.len(),
        width < isize::MAX,
        height < isize::MAX,
    ensures
        final(next)@.len() == old(next)@.len(),
        forall|x: int, y: int|
            0 <= x < width && 0 <= y < height ==> #[trigger] final(next)@[at(width as int, x, y)]
                == visible_after(v@, width as int, height as int, x, y),
        forall|j: int| v@.len() <= j < old(next)@.len() ==> final(next)@[j] == old(next)@[j],
{
    let ghost wi = width as int;
    let ghost hi = height as int;
    let ghost start = next@;
    let w = width as isize;
    let h = height as isize;
    let n = v.len();
    let mut y: isize = 0;
    while y < h
        invariant
            wi == width && hi == height && w == wi && h == hi,
            n == v@.len(),
            wi * hi == v@.len(),
            next@.len() == start.len(),
            start.len() >= v@.len(),
            0 <= y <= h,
            forall|a: int, b: int|
                0 <= a < wi && 0 <= b < y ==> #[trigger] next@[at(wi, a, b)] == visible_after(
                    v@,
                    wi,
                    hi,
                    a,
                    b,
                ),
            forall|j: int| v@.len() <= j < start.len() ==> next@[j] == start[j],
        decreases h - y,
    {
        let mut x: isize = 0;
        while x < w
            invariant
                wi == width && hi == height && w == wi && h == hi,
                n == v@.len(),
                wi * hi == v@.len(),
                next@.len() == start.len(),
                start.len() >= v@.len(),
                0 <= y < h,
                0 <= x <= w,
                forall|a: int, b: int|
                    0 <= a < wi && 0 <= b < hi && (b < y || (b == y && a < x))
                        ==> #[trigger] next@[at(wi, a, b)] == visible_after(v@, wi, hi, a, b),
                forall|j: int| v@.len() <= j < start.len() ==> next@[j] == start[j],
            decreases w - x,
        {
            let mut count: usize = 0;
            let mut k: usize = 0;
            while k < 8
                invariant
                    wi == width && hi == height && w == wi && h == hi,
                    n == v@.len(),
                    wi * hi == v@.len(),
                    0 <= y < h,
                    0 <= x < w,
                    k <= 8,
                    count == seen_full(v@, wi, hi, x as int, y as int, k as int),
                    count <= k,
                decreases 8 - k,
            {
                let (dx, dy) = direction_at(k);
                let mut x1 = x + dx;
                let mut y1 = y + dy;
                let ghost goal = sees_full(v@, wi, hi, x + dx, y + dy, dx as int, dy as int);
                let mut found = false;
                while x1 >= 0 && x1 < w && y1 >= 0 && y1 < h
                    invariant_except_break
                        !found,
                        goal == sees_full(v@, wi, hi, x1 as int, y1 as int, dx as int, dy as int),
                    invariant
                        wi == width && hi == height && w == wi && h == hi,
                        n == v@.len(),
                        wi * hi == v@.len(),
                        -1 <= dx <= 1,
                        -1 <= dy <= 1,
                        dx != 0 || dy != 0,
                        -1 <= x1 <= w,
                        -1 <= y1 <= h,
                    ensures
                        found == goal,
                    decreases steps_left(wi, hi, x1 as int, y1 as int, dx as int, dy as int),
                {
                    proof {
                        lemma_row_inside(wi, hi, y1 as int);
                    }
                    let cell = v[get_cell_index(width, x1, y1)];
                    if cell != Cell::Space {
                        if cell == Cell::Full {
                            found = true;
                        }
                        break;
                    }
                    x1 += dx;
                    y1 += dy;
                }
                if found {
                    count += 1;
                }
                k += 1;
            }
            proof {
                lemma_row_inside(wi, hi, y as int);
            }
            let i = get_cell_index(width, x, y);
            let value = match v[i] {
                Cell::Space => Cell::Space,
                Cell::Empty => if count == 0 {
                    Cell::Full
                } else {
                    Cell::Empty
                },
                Cell::Full => if count < 4 {
                    Cell::Full
                } else {
                    Cell::Empty
                },
            };
            let ghost prior = next@;
            next.set(i, value);
            proof {
                assert forall|a: int, b: int|
                    0 <= a < wi && 0 <= b < hi && (b < y || (b == y && a < x + 1))
                        implies #[trigger] next@[at(wi, a, b)] == visible_after(v@, wi, hi, a, b) by {
                    lemma_row_inside(wi, hi, b);
                    if b == y && a == x {
                    } else {
                        lemma_cell_apart(wi, a, b, x as int, y as int);
                        assert(next@[at(wi, a, b)] == prior[at(wi, a, b)]);
                    }
                }
            }
            x += 1;
        }
        y += 1;
    }
}

/// The next frame of the whole area by the given rule.
pub open spec fn frame_after(v: Seq<Cell>, width: int, height: int, rule: Rule) -> Seq<Cell> {
    Seq::new(
        v.len(),
        |j: int|
            match rule {
                Rule::Adjacent => adjacent_after(v, width, height, j % width, j / width),
                Rule::Visible => visible_after(v, width, height, j % width, j / width),
            },
    )
}

/// The frame after `k` steps.
pub open spec fn frame_at(v: Seq<Cell>, width: int, height: int, rule: Rule, k: nat) -> Seq<Cell>
    decreases k,
{
    if k == 0 {
        v
    } else {
        frame_after(frame_at(v, width, height, rule, (k - 1) as nat), width, height, rule)
    }
}

/// After `k` steps, and not before, a frame is the same as the one before it.
pub open spec fn settles_at(v: Seq<Cell>, width: int, height: int, rule: Rule, k: nat) -> bool {
    &&& frame_at(v, width, height, rule, k + 1) == frame_at(v, width, height, rule, k)
    &&& forall|j: nat|
        j < k ==> #[trigger] frame_at(v, width, height, rule, j + 1) != frame_at(
            v,
            width,
            height,
            rule,
            j,
        )
}

/// The number of rows of an area of the given width.
pub open spec fn rows_of(v: Seq<Cell>, width: usize) -> int {
    (v.len() as int) / (width as int)
}

/// Makes the next frame by the given rule.
pub fn next_frame(v: &Vec<Cell>, width: usize, height: usize, rule: Rule, next: &mut Vec<Cell>)
    requires
        width > 0,
        width * height == v@.len(),
        old(next)@.len() == v@.len(),
        width < isize::MAX,
        height < isize::MAX,
    ensures
        final(next)@ == frame_after(v@, width as int, height as int, rule),
{
    match rule {
        Rule::Adjacent => next_frame1(v.as_slice(), width, height, next),
        Rule::Visible => next_frame2(v.as_slice(), width, height, next),
    }
    proof {
        let w = width as int;
        let h = height as int;
        let goal = frame_after(v@, w, h, rule);
        assert forall|j: int| 0 <= j < v@.len() implies next@[j] == goal[j] by {
            let x = j % w;
            let y = j / w;
            vstd::arithmetic::div_mod::lemma_fundamental_div_mod(j, w);
            assert(w * y == y * w) by (nonlinear_arith);
            assert(0 <= y < h) by (nonlinear_arith)
                requires
                    j == y * w + x,
                    0 <= x < w,
                    0 <= j < w * h,
            ;
            assert(at(w, x, y) == j);
            assert(next@[at(w, x, y)] == goal[j]);
        }
        assert(next@ =~= goal);
    }
}

/// Whether the two areas hold the same cells.
fn same_cells(a: &Vec<Cell>, b: &Vec<Cell>) -> (r: bool)
    ensures
        r == (a@ == b@),
{
    if a.len() != b.len() {
        return false;
    }
    let mut i: usize = 0;
    while i < a.len()
        invariant
            a@.len() == b@.len(),
            i <= a@.len(),
            forall|j: int| 0 <= j < i ==> a@[j] == b@[j],
        decreases a@.len() - i,
    {
        if a[i] != b[i] {
            return false;
        }
        i += 1;
    }
    proof {
        assert(a@ =~= b@);
    }
    true
}

/// A copy of the cells.
fn copy_cells(v: &[Cell]) -> (c: Vec<Cell>)
    ensures
        c@ == v@,
{
    let mut c: Vec<Cell> = Vec::new();
    let mut i: usize = 0;
    while i < v.len()
        invariant
            i <= v@.len(),
            c@ == v@.take(i as int),
        decreases v@.len() - i,
    {
        c.push(v[i]);
        proof {
            assert(v@.take(i + 1) =~= v@.take(i as int).push(v@[i as int]));
        }
        i += 1;
    }
    proof {
        assert(v@.take(v@.len() as int) =~= v@);
    }
    c
}

/// Makes frame after frame, at most `limit` of them, until a frame is the
/// same as the one before it, and counts the full seats then. `None` if no
/// frame within the limit is the same as the one before it.
pub fn run_for(input: &[Cell], width: usize, rule: Rule, limit: usize) -> (r: Option<usize>)
    requires
        width > 0,
        (input@.len() as int) % (width as int) == 0,
        width < isize::MAX,
        rows_of(input@, width) < isize::MAX,
    ensures
        match r {
            Some(n) => exists|k: nat|
                k <= limit && #[trigger] settles_at(
                    input@,
                    width as int,
                    rows_of(input@, width),
                    rule,
                    k,
                ) && n == full_in(
                    frame_at(input@, width as int, rows_of(input@, width), rule, k),
                    0,
                    input@.len() as int,
                ),
            None => forall|k: nat|
                k <= limit ==> !#[trigger] settles_at(
                    input@,
                    width as int,
                    rows_of(input@, width),
                    rule,
                    k,
                ),
        },
{
    let height = input.len() / width;
    let ghost w = width as int;
    let ghost h = height as int;
    proof {
        vstd::arithmetic::div_mod::lemma_fundamental_div_mod(input@.len() as int, w);
    }
    let mut current = copy_cells(input);
    let mut next = copy_cells(input);
    next_frame(&current, width, height, rule, &mut next);
    proof {
        reveal_with_fuel(frame_at, 2);
        assert(frame_at(input@, w, h, rule, 0) == input@);
        assert(frame_at(input@, w, h, rule, 1) == frame_after(input@, w, h, rule));
    }
    let mut steps: usize = 0;
    while !same_cells(&next, &current)
        invariant
            w == width && h == height,
            h == rows_of(input@, width),
            w > 0,
            w * h == input@.len(),
            width < isize::MAX,
            height < isize::MAX,
            steps <= limit,
            current@ == frame_at(input@, w, h, rule, steps as nat),
            next@ == frame_at(input@, w, h, rule, (steps + 1) as nat),
            current@.len() == input@.len(),
            forall|j: nat|
                j < steps ==> #[trigger] frame_at(input@, w, h, rule, j + 1) != frame_at(
                    input@,
                    w,
                    h,
                    rule,
                    j,
                ),
        decreases limit - steps,
    {
        if steps == limit {
            proof {
                assert forall|k: nat| k <= limit implies !#[trigger] settles_at(
                    input@,
                    w,
                    h,
                    rule,
                    k,
                ) by {
                    if k < steps {
                        assert(frame_at(input@, w, h, rule, k + 1) != frame_at(
                            input@,
                            w,
                            h,
                            rule,
                            k,
                        ));
                    } else {
                        assert(next@ != current@);
                    }
                }
            }
            return None;
        }
        std::mem::swap(&mut current, &mut next);
        next_frame(&current, width, height, rule, &mut next);
        steps += 1;
    }
    proof {
        assert(settles_at(input@, w, h, rule, steps as nat));
    }
    Some(count_full_cells(current.as_slice()))
}

/// Makes frame after frame until a frame is the same as the one before
/// it, and counts the full seats then.
pub fn run(input: &[Cell], width: usize, rule: Rule) -> (n: usize)
    requires
        width > 0,
        (input@.len() as int) % (width as int) == 0,
        width < isize::MAX,
        rows_of(input@, width) < isize::MAX,
        exists|k: nat|
            k < usize::MAX && #[trigger] settles_at(
                input@,
                width as int,
                rows_of(input@, width),
                rule,
                k,
            ),
    ensures
        exists|k: nat|
            #[trigger] settles_at(input@, width as int, rows_of(input@, width), rule, k) && n
                == full_in(
                frame_at(input@, width as int, rows_of(input@, width), rule, k),
                0,
                input@.len() as int,
            ),
{
    match run_for(input, width, rule, usize::MAX) {
        Some(n) => n,
        None => 0,
    }
}

/// Why an area could not be read.
#[derive(Clone, Copy, Debug, PartialEq, Eq, Structural)]
pub enum CellError {
    /// A character is none of `.`, `L` and `#`.
    InvalidCharacter,
    /// A line is neither empty nor as wide as the first line.
    MismatchedWidths,
}

impl CellError {
    /// The error in words.
    pub fn message(&self) -> (m: &'static str)
        ensures
            m@ == match *self {
                CellError::InvalidCharacter => "invalid character."@,
                CellError::MismatchedWidths => "mismatched line widths."@,
            },
    {
        match self {
            CellError::InvalidCharacter => "invalid character.",
            CellError::MismatchedWidths => "mismatched line widths.",
        }
    }
}

/// The cell that a character stands for.
pub open spec fn cell_of(c: char) -> Option<Cell> {
    if c == '.' {
        Some(Cell::Space)
    } else if c == 'L' {
        Some(Cell::Empty)
    } else if c == '#' {
        Some(Cell::Full)
    } else {
        None
    }
}

/// Every character of the line stands for a cell.
pub open spec fn row_ok(line: Seq<char>) -> bool {
    forall|i: int| 0 <= i < line.len() ==> cell_of(#[trigger] line[i]) is Some
}

/// The cells that the characters stand for.
pub open spec fn row_cells(line: Seq<char>) -> Seq<Cell> {
    Seq::new(line.len(), |i: int| cell_of(line[i])->0)
}

/// What has been read of an area: its cells, and its width, which is 0
/// until a line with cells has been read.
pub struct Area {
    pub cells: Seq<Cell>,
    pub width: nat,
}

/// The area after the lines `lines`, or why they are no area: each line is
/// a row of cells, as wide as the first row; empty lines are passed over.
pub open spec fn area_after(lines: Seq<Seq<char>>) -> Result<Area, CellError>
    decreases lines.len(),
{
    if lines.len() == 0 {
        Ok(Area { cells: Seq::empty(), width: 0 })
    } else {
        match area_after(lines.drop_last()) {
            Ok(area) => {
                let line = lines.last();
                if !row_ok(line) {
                    Err(CellError::InvalidCharacter)
                } else if area.width == 0 {
                    Ok(Area { cells: area.cells + row_cells(line), width: area.cells.len() + line.len() })
                } else if line.len() != 0 && line.len() != area.width {
                    Err(CellError::MismatchedWidths)
                } else {
                    Ok(Area { cells: area.cells + row_cells(line), width: area.width })
                }
            },
            Err(e) => Err(e),
        }
    }
}

/// Once the first lines are no area, neither are all.
pub proof fn lemma_area_fails(lines: Seq<Seq<char>>, k: int)
    requires
        0 <= k <= lines.len(),
        area_after(lines.take(k)) is Err,
    ensures
        area_after(lines) == area_after(lines.take(k)),
    decreases lines.len(),
{
    if k == lines.len() {
        assert(lines.take(k) =~= lines);
    } else {
        assert(lines.drop_last().take(k) =~= lines.take(k));
        lemma_area_fails(lines.drop_last(), k);
    }
}

/// Reads an area: its cells and its width.
pub fn cells_of(lines: &Vec<String>) -> (r: Result<(Vec<Cell>, usize), CellError>)
    ensures
        match r {
            Ok((v, width)) => area_after(crate::text::line_texts(lines@)) == Ok::<Area, CellError>(
                Area { cells: v@, width: width as nat },
            ),
            Err(e) => area_after(crate::text::line_texts(lines@)) == Err::<Area, CellError>(e),
        },
{
    let ghost all = crate::text::line_texts(lines@);
    let mut v: Vec<Cell> = Vec::new();
    let mut width: usize = 0;
    let mut i: usize = 0;
    proof {
        assert(all.take(0) =~= Seq::<Seq<char>>::empty());
    }
    while i < lines.len()
        invariant
            all == crate::text::line_texts(lines@),
            i <= lines@.len(),
            area_after(all.take(i as int)) == Ok::<Area, CellError>(
                Area { cells: v@, width: width as nat },
            ),
        decreases lines@.len() - i,
    {
        let ghost before = v@;
        let ghost line = lines@[i as int]@;
        proof {
            assert(all.take(i + 1).drop_last() =~= all.take(i as int));
            assert(all.take(i + 1).last() == line);
        }
        let size = v.len();
        let chars = chars_of(lines[i].as_str());
        let mut k: usize = 0;
        while k < chars.len()
            invariant
                all == crate::text::line_texts(lines@),
                i < lines@.len(),
                area_after(all.take(i as int)) == Ok::<Area, CellError>(
                    Area { cells: before, width: width as nat },
                ),
                all.take(i + 1).drop_last() == all.take(i as int),
                all.take(i + 1).last() == line,
                chars@ == line,
                k <= chars@.len(),
                size == before.len(),
                forall|j: int| 0 <= j < k ==> cell_of(#[trigger] line[j]) is Some,
                v@ == before + Seq::new(k as nat, |j: int| cell_of(line[j])->0),
            decreases chars@.len() - k,
        {
            let ch = chars[k];
            let cell = if ch == '.' {
                Cell::Space
            } else if ch == 'L' {
                Cell::Empty
            } else if ch == '#' {
                Cell::Full
            } else {
                proof {
                    assert(!row_ok(line));
                    lemma_area_fails(all, i + 1);
                }
                return Err(CellError::InvalidCharacter);
            };
            v.push(cell);
            proof {
                assert(v@ =~= before + Seq::new((k + 1) as nat, |j: int| cell_of(line[j])->0));
            }
            k += 1;
        }
        proof {
            assert(v@ =~= before + row_cells(line));
        }
        if width == 0 {
            width = v.len();
        } else if v.len() != size && v.len() - size != width {
            proof {
                lemma_area_fails(all, i + 1);
            }
            return Err(CellError::MismatchedWidths);
        }
        i += 1;
    }
    proof {
        assert(all.take(lines@.len() as int) =~= all);
    }
    Ok((v, width))
}

} // verus!
