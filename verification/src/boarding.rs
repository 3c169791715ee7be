//! Seats of a plane, found by halving the rows and the columns.

use vstd::prelude::*;
use crate::text::chars_of;

verus! {

/// A seat.
#[derive(Clone, Copy, Debug, PartialEq, Eq, Structural)]
pub struct BoardingPass {
    pub id: u32,
}

impl BoardingPass {
    /// The number of the seat.
    pub fn get_id(&self) -> (id: u32)
        ensures
            id == self.id,
    {
        self.id
    }
}

/// The rows `row_min..row_lim` and the columns `col_min..col_lim` in which
/// the seat still may be.
pub struct Span {
    pub row_min: int,
    pub row_lim: int,
    pub col_min: int,
    pub col_lim: int,
}

/// The span after the letter `c`: `F` keeps the front half of the rows and
/// `B` the back half, `L` the left half of the columns and `R` the right half.
pub open spec fn halved(s: Span, c: char) -> Span {
    if c == 'F' {
        Span { row_lim: (s.row_min + s.row_lim) / 2, ..s }
    } else if c == 'B' {
        Span { row_min: (s.row_min + s.row_lim) / 2, ..s }
    } else if c == 'L' {
        Span { col_lim: (s.col_min + s.col_lim) / 2, ..s }
    } else {
        Span { col_min: (s.col_min + s.col_lim) / 2, ..s }
    }
}

/// `c` is one of the four letters.
pub open spec fn is_letter(c: char) -> bool {
    c == 'F' || c == 'B' || c == 'L' || c == 'R'
}

/// The span after the letters `s`, from all 128 rows and all 8 columns.
pub open spec fn span_after(s: Seq<char>) -> Span
    decreases s.len(),
{
    if s.len() == 0 {
        Span { row_min: 0, row_lim: 128, col_min: 0, col_lim: 8 }
    } else {
        halved(span_after(s.drop_last()), s.last())
    }
}

/// The seat that the letters `s` lead to: they are letters only, and leave
/// one row and one column. The seat's number is 8 times the row and the column.
pub open spec fn seat_of(s: Seq<char>) -> Option<BoardingPass> {
    let span = span_after(s);
    if (forall|i: int| 0 <= i < s.len() ==> is_letter(#[trigger] s[i])) && span.row_min + 1
        == span.row_lim && span.col_min + 1 == span.col_lim {
        Some(BoardingPass { id: (span.row_min * 8 + span.col_min) as u32 })
    } else {
        None
    }
}

/// Reads the letters of a boarding pass.
pub fn parse_boarding_pass(s: &str) -> (r: Option<BoardingPass>)
    ensures
        r == seat_of(s@),
{
    let chars = chars_of(s);
    let mut row_min: u32 = 0;
    let mut row_lim: u32 = 128;
    let mut col_min: u32 = 0;
    let mut col_lim: u32 = 8;
    let mut i: usize = 0;
    proof {
        assert(chars@.take(0) =~= Seq::<char>::empty());
    }
    while i < chars.len()
        invariant
            chars@ == s@,
            i <= chars@.len(),
            forall|k: int| 0 <= k < i ==> is_letter(#[trigger] chars@[k]),
            span_after(chars@.take(i as int)) == (Span {
                row_min: row_min as int,
                row_lim: row_lim as int,
                col_min: col_min as int,
                col_lim: col_lim as int,
            }),
            row_min <= row_lim <= 128,
            col_min <= col_lim <= 8,
        decreases chars@.len() - i,
    {
        proof {
            assert(chars@.take(i + 1).drop_last() =~= chars@.take(i as int));
            assert(chars@.take(i + 1).last() == chars@[i as int]);
        }
        let ch = chars[i];
        let row_sum: u32 = row_min + row_lim;
        let col_sum: u32 = col_min + col_lim;
        let row_mid: u32 = row_sum >> 1;
        let col_mid: u32 = col_sum >> 1;
        assert(row_mid == row_sum / 2) by (bit_vector)
            requires
                row_mid == row_sum >> 1,
        ;
        assert(col_mid == col_sum / 2) by (bit_vector)
            requires
                col_mid == col_sum >> 1,
        ;
        if ch == 'F' {
            row_lim = row_mid;
        } else if ch == 'B' {
            row_min = row_mid;
        } else if ch == 'L' {
            col_lim = col_mid;
        } else if ch == 'R' {
            col_min = col_mid;
        } else {
            return None;
        }
        i += 1;
    }
    proof {
        assert(chars@.take(chars@.len() as int) =~= chars@);
    }
    if row_min + 1 != row_lim || col_min + 1 != col_lim {
        return None;
    }
    let id = (row_min << 3) | col_min;
    assert(id == row_min * 8 + col_min) by (bit_vector)
        requires
            id == (row_min << 3) | col_min,
            row_min < 128,
            col_min < 8,
    ;
    Some(BoardingPass { id })
}

/// The greatest seat number of the passes, or 0 if there is none.
pub fn max_id(passes: &Vec<BoardingPass>) -> (best: u32)
    ensures
        forall|i: int| 0 <= i < passes@.len() ==> passes@[i].id <= best,
        passes@.len() == 0 ==> best == 0,
        best == 0 || exists|i: int| 0 <= i < passes@.len() && passes@[i].id == best,
{
    let mut best: u32 = 0;
    let mut k: usize = 0;
    while k < passes.len()
        invariant
            k <= passes@.len(),
            forall|i: int| 0 <= i < k ==> passes@[i].id <= best,
            best == 0 || exists|i: int| 0 <= i < k && passes@[i].id == best,
        decreases passes@.len() - k,
    {
        let id = passes[k].get_id();
        if id > best {
            best = id;
        }
        k += 1;
    }
    best
}

/// Some pass is for the seat `id`.
pub open spec fn taken(passes: Seq<BoardingPass>, id: int) -> bool {
    exists|i: int| 0 <= i < passes.len() && (#[trigger] passes[i]).id == id
}

/// The seat `id` is free, and the seats before and behind it are taken.
pub open spec fn is_gap(passes: Seq<BoardingPass>, id: int) -> bool {
    !taken(passes, id) && taken(passes, id - 1) && taken(passes, id + 1)
}

/// The first free seat between two taken seats.
pub fn find_seat(passes: &Vec<BoardingPass>) -> (r: Option<usize>)
    requires
        forall|i: int| 0 <= i < passes@.len() ==> (#[trigger] passes@[i]).id < usize::MAX,
    ensures
        match r {
            Some(id) => is_gap(passes@, id as int) && forall|k: int|
                1 <= k < id ==> !is_gap(passes@, k),
            None => forall|k: int| 1 <= k ==> !is_gap(passes@, k),
        },
{
    let top = max_id(passes);
    let mut used_seats: Vec<bool> = Vec::new();
    while used_seats.len() < top as usize + 1
        invariant
            top < usize::MAX,
            used_seats@.len() <= top + 1,
            forall|i: int| 0 <= i < used_seats@.len() ==> !(#[trigger] used_seats@[i]),
        decreases top + 1 - used_seats@.len(),
    {
        used_seats.push(false);
    }
    let mut k: usize = 0;
    while k < passes.len()
        invariant
            k <= passes@.len(),
            used_seats@.len() == top + 1,
            forall|i: int| 0 <= i < passes@.len() ==> passes@[i].id <= top,
            forall|id: int|
                0 <= id <= top ==> (#[trigger] used_seats@[id] <==> taken(passes@.take(k as int), id)),
        decreases passes@.len() - k,
    {
        let id = passes[k].get_id() as usize;
        let ghost before = passes@.take(k as int);
        let ghost more = passes@.take(k + 1);
        used_seats.set(id, true);
        proof {
            assert forall|s: int| 0 <= s <= top implies (#[trigger] used_seats@[s] <==> taken(
                more,
                s,
            )) by {
                if taken(before, s) {
                    let i = choose|i: int| 0 <= i < before.len() && (#[trigger] before[i]).id == s;
                    assert(more[i].id == s);
                }
                if s == id {
                    assert(more[k as int].id == s);
                }
                if taken(more, s) {
                    let i = choose|i: int| 0 <= i < more.len() && (#[trigger] more[i]).id == s;
                    if i < k {
                        assert(before[i].id == s);
                    }
                }
            }
        }
        k += 1;
    }
    proof {
        assert(passes@.take(passes@.len() as int) =~= passes@);
    }
    let mut id: usize = 1;
    while id < top as usize
        invariant
            1 <= id,
            used_seats@.len() == top + 1,
            forall|s: int| 0 <= s <= top ==> (#[trigger] used_seats@[s] <==> taken(passes@, s)),
            forall|i: int| 0 <= i < passes@.len() ==> (#[trigger] passes@[i]).id <= top,
            forall|s: int| 1 <= s < id ==> !is_gap(passes@, s),
        decreases top - id,
    {
        if !used_seats[id] && used_seats[id - 1] && used_seats[id + 1] {
            return Some(id);
        }
        id += 1;
    }
    proof {
        assert forall|s: int| 1 <= s implies !is_gap(passes@, s) by {
            if s >= top && taken(passes@, s + 1) {
                let i = choose|i: int| 0 <= i < passes@.len() && (#[trigger] passes@[i]).id == s + 1;
                assert(passes@[i].id <= top);
            }
        }
    }
    None
}

/// The seats that the lines lead to, in order; lines that lead to no seat
/// are passed over.
pub open spec fn seats_in(lines: Seq<Seq<char>>) -> Seq<BoardingPass>
    decreases lines.len(),
{
    if lines.len() == 0 {
        Seq::empty()
    } else {
        match seat_of(lines.last()) {
            Some(pass) => seats_in(lines.drop_last()).push(pass),
            None => seats_in(lines.drop_last()),
        }
    }
}

/// Reads the boarding passes.
pub fn passes_of(lines: &Vec<String>) -> (v: Vec<BoardingPass>)
    ensures
        v@ == seats_in(crate::text::line_texts(lines@)),
{
    let ghost all = crate::text::line_texts(lines@);
    let mut v: Vec<BoardingPass> = Vec::new();
    let mut i: usize = 0;
    proof {
        assert(all.take(0) =~= Seq::<Seq<char>>::empty());
    }
    while i < lines.len()
        invariant
            all == crate::text::line_texts(lines@),
            i <= lines@.len(),
            v@ == seats_in(all.take(i as int)),
        decreases lines@.len() - i,
    {
        proof {
            assert(all.take(i + 1).drop_last() =~= all.take(i as int));
            assert(all.take(i + 1).last() == lines@[i as int]@);
        }
        if let Some(pass) = parse_boarding_pass(lines[i].as_str()) {
            v.push(pass);
        }
        i += 1;
    }
    proof {
        assert(all.take(lines@.len() as int) =~= all);
    }
    v
}

} // verus!
