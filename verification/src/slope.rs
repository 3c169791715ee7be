//! Counts the trees on the way down a slope that repeats to the right.

use vstd::prelude::*;
use crate::text::chars_of;

verus! {

/// The width of the map before it repeats.
pub const MAP_WIDTH: u32 = 31;

/// A tree stands in the row `bits` at column `x`.
pub open spec fn tree_at(bits: u32, x: u32) -> bool {
    (bits & (1u32 << x)) != 0
}

/// The number of rows from row `y` on.
pub open spec fn rows_left(map: Seq<u32>, y: int) -> nat {
    if y < map.len() {
        (map.len() - y) as nat
    } else {
        0
    }
}

/// The number of trees that are met from column `x` of row `y` on, going
/// `dx` to the right and `dy` down at each step.
pub open spec fn trees_from(map: Seq<u32>, dx: u32, dy: u32, x: u32, y: int) -> nat
    decreases rows_left(map, y),
{
    if y < 0 || y >= map.len() || dy == 0 {
        0
    } else {
        trees_from(map, dx, dy, ((x + dx) % (MAP_WIDTH as int)) as u32, y + dy) + if tree_at(
            map[y],
            x,
        ) {
            1nat
        } else {
            0nat
        }
    }
}

/// No more trees are met than there are rows left.
pub proof fn lemma_trees_bound(map: Seq<u32>, dx: u32, dy: u32, x: u32, y: int)
    requires
        0 <= y,
    ensures
        trees_from(map, dx, dy, x, y) <= if y < map.len() {
            map.len() - y
        } else {
            0
        },
    decreases rows_left(map, y),
{
    if y < map.len() && dy != 0 {
        lemma_trees_bound(map, dx, dy, ((x + dx) % (MAP_WIDTH as int)) as u32, y + dy);
    }
}

/// The number of trees that are met on the way from the top left corner.
pub fn count_trees(map: &[u32], dx: u32, dy: u32) -> (tree_count: i32)
    requires
        dy > 0,
        dx <= u32::MAX - 30,
        map@.len() <= i32::MAX,
        map@.len() + dy <= usize::MAX,
    ensures
        tree_count == trees_from(map@, dx, dy, 0, 0),
{
    let mut x: u32 = 0;
    let mut y: usize = 0;
    let mut tree_count: i32 = 0;
    proof {
        lemma_trees_bound(map@, dx, dy, 0, 0);
    }
    while y < map.len()
        invariant
            dy > 0,
            dx <= u32::MAX - 30,
            map@.len() <= i32::MAX,
            map@.len() + dy <= usize::MAX,
            x < MAP_WIDTH,
            tree_count >= 0,
            tree_count + trees_from(map@, dx, dy, x, y as int) == trees_from(map@, dx, dy, 0, 0),
            trees_from(map@, dx, dy, 0, 0) <= map@.len(),
        decreases rows_left(map@, y as int),
    {
        if (map[y] & (1u32 << x)) != 0 {
            tree_count += 1;
        }
        x = (x + dx) % MAP_WIDTH;
        y += dy as usize;
    }
    tree_count
}

/// The number of cells, `#` or `.`, among the characters `s`.
pub open spec fn cells_in(s: Seq<char>) -> nat
    decreases s.len(),
{
    if s.len() == 0 {
        0
    } else {
        cells_in(s.drop_last()) + if s.last() == '#' || s.last() == '.' {
            1nat
        } else {
            0nat
        }
    }
}

/// The row that the characters `s` draw: bit `x` is set where the cell
/// number `x` is a tree, `#`. Characters that are no cells are passed over.
pub open spec fn row_of(s: Seq<char>) -> u32
    decreases s.len(),
{
    if s.len() == 0 {
        0
    } else if s.last() == '#' {
        row_of(s.drop_last()) | (1u32 << (cells_in(s.drop_last()) as u32))
    } else {
        row_of(s.drop_last())
    }
}

/// No more cells than characters.
pub proof fn lemma_cells_bound(s: Seq<char>, k: int)
    requires
        0 <= k <= s.len(),
    ensures
        cells_in(s.take(k)) <= cells_in(s),
    decreases s.len(),
{
    if k == s.len() {
        assert(s.take(k) =~= s);
    } else {
        lemma_cells_bound(s.drop_last(), k);
        assert(s.drop_last().take(k) =~= s.take(k));
    }
}

/// Reads one row of the map: its bits, and the number of its cells.
pub fn parse_row(line: &str) -> (r: (u32, u32))
    requires
        cells_in(line@) <= 32,
    ensures
        r.0 == row_of(line@),
        r.1 == cells_in(line@),
{
    let chars = chars_of(line);
    let mut bits: u32 = 0;
    let mut x: u32 = 0;
    let mut i: usize = 0;
    proof {
        assert(chars@.take(0) =~= Seq::<char>::empty());
    }
    while i < chars.len()
        invariant
            chars@ == line@,
            cells_in(chars@) <= 32,
            i <= chars@.len(),
            bits == row_of(chars@.take(i as int)),
            x == cells_in(chars@.take(i as int)),
        decreases chars@.len() - i,
    {
        proof {
            assert(chars@.take(i + 1).drop_last() =~= chars@.take(i as int));
            assert(chars@.take(i + 1).last() == chars@[i as int]);
            lemma_cells_bound(chars@, i + 1);
        }
        let ch = chars[i];
        if ch == '#' {
            bits |= 1u32 << x;
            x += 1;
        } else if ch == '.' {
            x += 1;
        }
        i += 1;
    }
    proof {
        assert(chars@.take(chars@.len() as int) =~= chars@);
    }
    (bits, x)
}

} // verus!
