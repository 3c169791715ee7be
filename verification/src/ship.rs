//! A ship that follows directions, by its heading or by a waypoint.

use vstd::prelude::*;
use crate::text::{all_digits, chars_of, digit_of, digits_value, is_digit};

verus! {

/// One direction: a move of the ship or of its waypoint, a turn to the
/// right by so many degrees, or a move forward.
#[derive(Copy, Clone, Debug, PartialEq, Eq, Structural)]
pub enum Direction {
    Translate { dx: i32, dy: i32 },
    Rotate { degrees: i32 },
    Forward { distance: i32 },
}

/// A place: so far east and so far south.
#[derive(Copy, Clone, Debug, PartialEq, Eq, Structural)]
pub struct Point {
    pub x: i32,
    pub y: i32,
}

/// A ship with a heading: 0 is east, 90 is south, and so on.
#[derive(Copy, Clone, Debug, PartialEq, Eq, Structural)]
pub struct Ship {
    pub position: Point,
    pub heading: i32,
}

/// A ship with a waypoint, which is a place relative to the ship.
#[derive(Copy, Clone, Debug, PartialEq, Eq, Structural)]
pub struct Ship2 {
    pub position: Point,
    pub waypoint: Point,
}

/// `n` fits in an `i32`.
pub open spec fn fits(n: int) -> bool {
    i32::MIN <= n <= i32::MAX
}

/// The angle from 0 to 359 that is the same direction as `angle`.
pub open spec fn normal_angle(angle: int) -> int {
    angle % 360
}

/// The angle from 0 to 359 that is the same direction as `angle`.
pub fn normalize_angle(angle: i32) -> (a: i32)
    ensures
        a == normal_angle(angle as int),
{
    let a = angle % 360;
    if a >= 0 {
        a
    } else {
        a + 360
    }
}

/// The distance from the origin along the axes.
pub open spec fn manhattan(x: int, y: int) -> int {
    (if x >= 0 {
        x
    } else {
        -x
    }) + (if y >= 0 {
        y
    } else {
        -y
    })
}

/// The distance of `pt` from the origin along the axes.
pub fn distance(pt: Point) -> (d: i32)
    requires
        pt.x > i32::MIN,
        pt.y > i32::MIN,
        fits(manhattan(pt.x as int, pt.y as int)),
    ensures
        d == manhattan(pt.x as int, pt.y as int),
{
    let ax = if pt.x >= 0 {
        pt.x
    } else {
        -pt.x
    };
    let ay = if pt.y >= 0 {
        pt.y
    } else {
        -pt.y
    };
    ax + ay
}

/// Where the ship is and heads after the direction, as integers: a
/// shift moves the ship, a rotation turns it, and forward it moves
/// along its heading if that is one of 0, 90, 180 and 270, and else not at all.
pub open spec fn ship_after(ship: Ship, dir: Direction) -> (int, int, int) {
    match dir {
        Direction::Translate { dx, dy } => (
            ship.position.x + dx,
            ship.position.y + dy,
            ship.heading as int,
        ),
        Direction::Rotate { degrees } => (
            ship.position.x as int,
            ship.position.y as int,
            normal_angle(ship.heading + degrees),
        ),
        Direction::Forward { distance } => if ship.heading == 0 {
            (ship.position.x + distance, ship.position.y as int, ship.heading as int)
        } else if ship.heading == 90 {
            (ship.position.x as int, ship.position.y + distance, ship.heading as int)
        } else if ship.heading == 180 {
            (ship.position.x - distance, ship.position.y as int, ship.heading as int)
        } else if ship.heading == 270 {
            (ship.position.x as int, ship.position.y - distance, ship.heading as int)
        } else {
            (ship.position.x as int, ship.position.y as int, ship.heading as int)
        },
    }
}

/// The direction can be followed within the range of `i32`.
pub open spec fn ship_can(ship: Ship, dir: Direction) -> bool {
    &&& fits(ship_after(ship, dir).0)
    &&& fits(ship_after(ship, dir).1)
    &&& dir matches Direction::Rotate { degrees } ==> fits(ship.heading + degrees)
}

impl Ship {
    /// A ship at the origin that heads east.
    pub fn new() -> (s: Ship)
        ensures
            s == (Ship { position: Point { x: 0, y: 0 }, heading: 0 }),
    {
        Ship { position: Point { x: 0, y: 0 }, heading: 0 }
    }

    /// Whether the direction can be followed within the range of `i32`.
    pub fn can_navigate(&self, dir: Direction) -> (b: bool)
        ensures
            b == ship_can(*self, dir),
    {
        match dir {
            Direction::Translate { dx, dy } => {
                self.position.x.checked_add(dx).is_some() && self.position.y.checked_add(
                    dy,
                ).is_some()
            },
            Direction::Rotate { degrees } => self.heading.checked_add(degrees).is_some(),
            Direction::Forward { distance } => {
                if self.heading == 0 {
                    self.position.x.checked_add(distance).is_some()
                } else if self.heading == 90 {
                    self.position.y.checked_add(distance).is_some()
                } else if self.heading == 180 {
                    self.position.x.checked_sub(distance).is_some()
                } else if self.heading == 270 {
                    self.position.y.checked_sub(distance).is_some()
                } else {
                    true
                }
            },
        }
    }

    /// Follows the direction.
    pub fn navigate(&mut self, dir: Direction)
        requires
            ship_can(*old(self), dir),
        ensures
            final(self).position.x == ship_after(*old(self), dir).0,
            final(self).position.y == ship_after(*old(self), dir).1,
            final(self).heading == ship_after(*old(self), dir).2,
    {
        match dir {
            Direction::Translate { dx, dy } => {
                self.position.x = self.position.x + dx;
                self.position.y = self.position.y + dy;
            },
            Direction::Rotate { degrees } => {
                self.heading = normalize_angle(self.heading + degrees);
            },
            Direction::Forward { distance } => {
                if self.heading == 0 {
                    self.position.x = self.position.x + distance;
                } else if self.heading == 90 {
                    self.position.y = self.position.y + distance;
                } else if self.heading == 180 {
                    self.position.x = self.position.x - distance;
                } else if self.heading == 270 {
                    self.position.y = self.position.y - distance;
                }
            },
        };
    }
}

/// The sine and the cosine of a quarter turn; for any other angle those of
/// no turn at all.
pub open spec fn sin_cos(degrees: i32) -> (int, int) {
    if degrees == 90 {
        (1, 0)
    } else if degrees == 180 {
        (0, -1)
    } else if degrees == 270 {
        (-1, 0)
    } else {
        (0, 1)
    }
}

/// Where the ship and its waypoint are after the direction, as integers: a
/// shift moves the waypoint, a rotation turns it around the ship, and
/// forward the ship moves so many times to the waypoint.
pub open spec fn ship2_after(ship: Ship2, dir: Direction) -> (int, int, int, int) {
    match dir {
        Direction::Translate { dx, dy } => (
            ship.position.x as int,
            ship.position.y as int,
            ship.waypoint.x + dx,
            ship.waypoint.y + dy,
        ),
        Direction::Rotate { degrees } => {
            let (sin, cos) = sin_cos(degrees);
            (
                ship.position.x as int,
                ship.position.y as int,
                cos * ship.waypoint.x - sin * ship.waypoint.y,
                sin * ship.waypoint.x + cos * ship.waypoint.y,
            )
        },
        Direction::Forward { distance } => (
            ship.position.x + distance * ship.waypoint.x,
            ship.position.y + distance * ship.waypoint.y,
            ship.waypoint.x as int,
            ship.waypoint.y as int,
        ),
    }
}

/// The direction can be followed within the range of `i32`.
pub open spec fn ship2_can(ship: Ship2, dir: Direction) -> bool {
    match dir {
        Direction::Translate { dx, dy } => fits(ship.waypoint.x + dx) && fits(ship.waypoint.y + dy),
        Direction::Rotate { degrees } => ship.waypoint.x > i32::MIN && ship.waypoint.y > i32::MIN,
        Direction::Forward { distance } => {
            &&& fits(distance * ship.waypoint.x)
            &&& fits(distance * ship.waypoint.y)
            &&& fits(ship.position.x + distance * ship.waypoint.x)
            &&& fits(ship.position.y + distance * ship.waypoint.y)
        },
    }
}

impl Ship2 {
    /// A ship at the origin with its waypoint 10 east and 1 north of it.
    pub fn new() -> (s: Ship2)
        ensures
            s == (Ship2 { position: Point { x: 0, y: 0 }, waypoint: Point { x: 10, y: -1i32 } }),
    {
        Ship2 { position: Point { x: 0, y: 0 }, waypoint: Point { x: 10, y: -1 } }
    }

    /// Whether the direction can be followed within the range of `i32`.
    pub fn can_navigate(&self, dir: Direction) -> (b: bool)
        ensures
            b == ship2_can(*self, dir),
    {
        match dir {
            Direction::Translate { dx, dy } => {
                self.waypoint.x.checked_add(dx).is_some() && self.waypoint.y.checked_add(
                    dy,
                ).is_some()
            },
            Direction::Rotate { degrees } => self.waypoint.x > i32::MIN && self.waypoint.y
                > i32::MIN,
            Direction::Forward { distance } => {
                match (distance.checked_mul(self.waypoint.x), distance.checked_mul(self.waypoint.y)) {
                    (Some(mx), Some(my)) => self.position.x.checked_add(mx).is_some()
                        && self.position.y.checked_add(my).is_some(),
                    _ => false,
                }
            },
        }
    }

    /// Follows the direction.
    pub fn navigate(&mut self, dir: Direction)
        requires
            ship2_can(*old(self), dir),
        ensures
            final(self).position.x == ship2_after(*old(self), dir).0,
            final(self).position.y == ship2_after(*old(self), dir).1,
            final(self).waypoint.x == ship2_after(*old(self), dir).2,
            final(self).waypoint.y == ship2_after(*old(self), dir).3,
    {
        match dir {
            Direction::Translate { dx, dy } => {
                self.waypoint.x = self.waypoint.x + dx;
                self.waypoint.y = self.waypoint.y + dy;
            },
            Direction::Rotate { degrees } => {
                let x = self.waypoint.x;
                let y = self.waypoint.y;
                if degrees == 90 {
                    self.waypoint.x = -y;
                    self.waypoint.y = x;
                } else if degrees == 180 {
                    self.waypoint.x = -x;
                    self.waypoint.y = -y;
                } else if degrees == 270 {
                    self.waypoint.x = y;
                    self.waypoint.y = -x;
                }
            },
            Direction::Forward { distance } => {
                self.position.x = self.position.x + distance * self.waypoint.x;
                self.position.y = self.position.y + distance * self.waypoint.y;
            },
        };
    }
}

/// `n` as a cast to `i32` gives it: numbers from 2 to the power 31 on come
/// out negative.
pub open spec fn wrapped(n: nat) -> int {
    if n <= i32::MAX {
        n as int
    } else {
        n - 0x1_0000_0000
    }
}

/// Every beginning of `s` that is digits only denotes a number that fits
/// in a `u32`.
pub open spec fn digits_fit(s: Seq<char>) -> bool {
    forall|k: int|
        0 <= k <= s.len() && all_digits(#[trigger] s.take(k)) ==> digits_value(s.take(k))
            <= u32::MAX
}

/// Reads the digits from index `from` on as a number: at least one digit,
/// and digits only.
pub fn parse_int(chars: &Vec<char>, from: usize) -> (r: Option<i32>)
    requires
        from <= chars@.len(),
        digits_fit(chars@.skip(from as int)),
    ensures
        ({
            let s = chars@.skip(from as int);
            r == if s.len() > 0 && all_digits(s) {
                Some(wrapped(digits_value(s)) as i32)
            } else {
                None::<i32>
            }
        }),
{
    let ghost s = chars@.skip(from as int);
    if from >= chars.len() {
        return None;
    }
    let mut n: u32 = 0;
    let mut i: usize = from;
    proof {
        assert(s.take(0) =~= Seq::<char>::empty());
    }
    while i < chars.len()
        invariant
            from <= i <= chars@.len(),
            s == chars@.skip(from as int),
            digits_fit(s),
            all_digits(s.take(i - from)),
            n == digits_value(s.take(i - from)),
        decreases chars@.len() - i,
    {
        let ghost head = s.take(i - from);
        let ghost next = s.take(i - from + 1);
        proof {
            assert(next.drop_last() =~= head);
            assert(next.last() == chars@[i as int]);
        }
        match digit_of(chars[i]) {
            Some(d) => {
                proof {
                    assert forall|j: int| 0 <= j < next.len() implies is_digit(
                        #[trigger] next[j],
                    ) by {
                        if j < head.len() {
                            assert(next[j] == head[j]);
                        }
                    }
                    assert(digits_value(next) <= u32::MAX);
                }
                n = n * 10 + d as u32;
            },
            None => {
                proof {
                    assert(s[i - from] == chars@[i as int]);
                }
                return None;
            },
        }
        i += 1;
    }
    proof {
        assert(s.take(chars@.len() - from) =~= s);
    }
    if n <= 0x7fff_ffff {
        Some(n as i32)
    } else {
        Some((n as i64 - 0x1_0000_0000) as i32)
    }
}

/// The direction that a letter and a number denote: `N`, `S`, `E` and `W`
/// move, `L` and `R` turn, and `F` goes forward.
pub open spec fn direction_of(code: char, arg: int) -> Option<Direction> {
    if code == 'N' {
        Some(Direction::Translate { dx: 0, dy: (-arg) as i32 })
    } else if code == 'S' {
        Some(Direction::Translate { dx: 0, dy: arg as i32 })
    } else if code == 'E' {
        Some(Direction::Translate { dx: arg as i32, dy: 0 })
    } else if code == 'W' {
        Some(Direction::Translate { dx: (-arg) as i32, dy: 0 })
    } else if code == 'L' {
        Some(Direction::Rotate { degrees: normal_angle(-arg) as i32 })
    } else if code == 'R' {
        Some(Direction::Rotate { degrees: normal_angle(arg) as i32 })
    } else if code == 'F' {
        Some(Direction::Forward { distance: arg as i32 })
    } else {
        None
    }
}

/// The direction that the line denotes: a letter and, right after it, a
/// number of digits only.
pub open spec fn line_direction(line: Seq<char>) -> Option<Direction> {
    if line.len() >= 2 && all_digits(line.skip(1)) {
        direction_of(line[0], wrapped(digits_value(line.skip(1))))
    } else {
        None
    }
}

/// Reads one direction.
pub fn parse_direction(line: &str) -> (r: Option<Direction>)
    requires
        readable(line@),
    ensures
        r == line_direction(line@),
{
    let chars = chars_of(line);
    if chars.len() == 0 {
        return None;
    }
    let code = chars[0];
    let arg = match parse_int(&chars, 1) {
        Some(arg) => arg,
        None => {
            return None;
        },
    };
    proof {
        let rest = line@.skip(1);
        assert(rest.take(rest.len() as int) =~= rest);
        assert(digits_value(rest) <= u32::MAX);
        assert(arg == wrapped(digits_value(rest)));
    }
    if code == 'N' {
        Some(Direction::Translate { dx: 0, dy: -arg })
    } else if code == 'S' {
        Some(Direction::Translate { dx: 0, dy: arg })
    } else if code == 'E' {
        Some(Direction::Translate { dx: arg, dy: 0 })
    } else if code == 'W' {
        Some(Direction::Translate { dx: -arg, dy: 0 })
    } else if code == 'L' {
        Some(Direction::Rotate { degrees: normalize_angle(-arg) })
    } else if code == 'R' {
        Some(Direction::Rotate { degrees: normalize_angle(arg) })
    } else if code == 'F' {
        Some(Direction::Forward { distance: arg })
    } else {
        None
    }
}

/// The line can be read within the range of the numbers: the digits
/// after its first character, as far as they go, denote a number that fits
/// in a `u32`, and where the number is to be negated it is not 2 to the
/// power 31.
pub open spec fn readable(line: Seq<char>) -> bool {
    &&& line.len() > 0 ==> digits_fit(line.skip(1))
    &&& line.len() >= 2 && all_digits(line.skip(1)) && (line[0] == 'N' || line[0] == 'W'
        || line[0] == 'L') ==> digits_value(line.skip(1)) != 0x8000_0000
}

/// Whether the line can be read within the range of the numbers.
pub fn direction_fits(line: &str) -> (b: bool)
    ensures
        b == readable(line@),
{
    let chars = chars_of(line);
    if chars.len() == 0 {
        return true;
    }
    let ghost s = chars@.skip(1);
    let mut n: u64 = 0;
    let mut i: usize = 1;
    proof {
        assert(s.take(0) =~= Seq::<char>::empty());
    }
    while i < chars.len()
        invariant
            chars@ == line@,
            1 <= i <= chars@.len(),
            s == chars@.skip(1),
            all_digits(s.take(i - 1)),
            n == digits_value(s.take(i - 1)),
            n <= u32::MAX,
            forall|k: int|
                0 <= k <= i - 1 && all_digits(#[trigger] s.take(k)) ==> digits_value(s.take(k))
                    <= u32::MAX,
        decreases chars@.len() - i,
    {
        let ghost head = s.take(i - 1);
        let ghost next = s.take(i as int);
        proof {
            assert(next.drop_last() =~= head);
            assert(next.last() == chars@[i as int]);
        }
        match digit_of(chars[i]) {
            Some(d) => {
                proof {
                    assert forall|j: int| 0 <= j < next.len() implies is_digit(
                        #[trigger] next[j],
                    ) by {
                        if j < head.len() {
                            assert(next[j] == head[j]);
                        }
                    }
                }
                n = n * 10 + d as u64;
                if n > 0xffff_ffff {
                    proof {
                        assert(all_digits(s.take(i as int)));
                        assert(!digits_fit(s));
                    }
                    return false;
                }
            },
            None => {
                proof {
                    // No longer beginning of the digits is digits only.
                    assert forall|k: int| 0 <= k <= s.len() && all_digits(
                        #[trigger] s.take(k),
                    ) implies digits_value(s.take(k)) <= u32::MAX by {
                        if k >= i {
                            assert(s.take(k)[i - 1] == chars@[i as int]);
                        }
                    }
                    assert(s[i - 1] == chars@[i as int]);
                }
                return true;
            },
        }
        i += 1;
    }
    proof {
        assert(s.take(chars@.len() - 1) =~= s);
        assert(digits_fit(s));
    }
    let code = chars[0];
    !(chars.len() >= 2 && (code == 'N' || code == 'W' || code == 'L') && n == 0x8000_0000)
}

} // verus!
